//! The code interpreter: runs code blocks after all pairs, writing to a
//! table of its own that shadows the parsed variables.
use vstd::prelude::*;
use crate::packet_parser::{CodeBlock, CodeCommand, Condition, Expression};
use crate::text::{chars_eq, chars_of, replace_all, replace_chars, slice_range, string_of};
use crate::value::{Json, Value};
use crate::vars::{insert_entry, keys_unique, lookup, VarTable};

verus! {

broadcast use vstd::std_specs::vec::axiom_vec_index_decreases;

/// Why a code block stopped.
#[derive(Debug, Clone, Copy, PartialEq, Eq, Structural)]
pub enum CodeError {
    UnknownVariable,
    NotAnArray,
    BadIndex,
    IndexOutOfBounds,
    NotAString,
    NotANumber,
    UnknownFunction,
    /// `BREAK` outside a loop.
    BreakOutsideLoop,
}

/// Whether a command ended normally or by `BREAK`.
#[derive(Debug, Clone, Copy, PartialEq, Eq, Structural)]
pub enum Flow {
    Next,
    Break,
}

/// Variable lookup: the code table first, then the parsed table.
pub open spec fn get_spec(name: Seq<char>, p: Seq<(Seq<char>, Json)>, c: Seq<(Seq<char>, Json)>) -> Option<Json> {
    match lookup(c, name) {
        Some(v) => Some(v),
        None => lookup(p, name),
    }
}

/// Looks a variable up: a code variable shadows a parsed one.
pub fn get_variable_value(name: &String, parsed: &VarTable, code: &VarTable) -> (r: Result<Value, CodeError>)
    ensures
        match get_spec(name@, parsed.entries(), code.entries()) {
            Some(j) => r matches Ok(v) && v.model() == j,
            None => r == Err::<Value, CodeError>(CodeError::UnknownVariable),
        },
{
    match code.get(name.as_str()) {
        Some(v) => Ok(v.deep_clone()),
        None => match parsed.get(name.as_str()) {
            Some(v) => Ok(v.deep_clone()),
            None => Err(CodeError::UnknownVariable),
        },
    }
}

/// The element an index value selects, if it is an integer within bounds.
pub open spec fn index_spec(items: Seq<Json>, i: Json) -> Option<Json> {
    match i {
        Json::UInt(n) => if n < items.len() { Some(items[n as int]) } else { None },
        _ => None,
    }
}

/// The value of an expression, or `None` when evaluating it fails.
pub open spec fn eval_spec(e: Expression, p: Seq<(Seq<char>, Json)>, c: Seq<(Seq<char>, Json)>) -> Option<Json>
    decreases e,
{
    match e {
        Expression::Literal(v) => Some(v.model()),
        Expression::Variable(n) => get_spec(n@, p, c),
        Expression::ArrayIndex { array_name, index } => match get_spec(array_name@, p, c) {
            Some(Json::Array(items)) => match eval_spec(*index, p, c) {
                Some(i) => index_spec(items, i),
                None => None,
            },
            _ => None,
        },
        Expression::ArrayLiteral(es) => match eval_list(es@, p, c) {
            Some(items) => Some(Json::Array(items)),
            None => None,
        },
        Expression::FunctionCall { .. } => None,
    }
}

/// The values of a list of expressions, or `None` when one fails.
pub open spec fn eval_list(es: Seq<Expression>, p: Seq<(Seq<char>, Json)>, c: Seq<(Seq<char>, Json)>) -> Option<Seq<Json>>
    decreases es,
{
    if es.len() == 0 {
        Some(Seq::empty())
    } else {
        match eval_list(es.drop_last(), p, c) {
            Some(vs) => match eval_spec(es.last(), p, c) {
                Some(v) => Some(vs.push(v)),
                None => None,
            },
            None => None,
        }
    }
}

proof fn lemma_eval_list_none(es: Seq<Expression>, p: Seq<(Seq<char>, Json)>, c: Seq<(Seq<char>, Json)>, i: int)
    requires
        0 <= i <= es.len(),
        eval_list(es.subrange(0, i), p, c) is None,
    ensures
        eval_list(es, p, c) is None,
    decreases es.len() - i,
{
    if i < es.len() {
        assert(es.subrange(0, i + 1).drop_last() =~= es.subrange(0, i));
        lemma_eval_list_none(es, p, c, i + 1);
    } else {
        assert(es.subrange(0, i) =~= es);
    }
}

/// Evaluates an expression.
pub fn evaluate_expression(expr: &Expression, parsed: &VarTable, code: &VarTable) -> (r: Result<Value, CodeError>)
    ensures
        match eval_spec(*expr, parsed.entries(), code.entries()) {
            Some(j) => r matches Ok(v) && v.model() == j,
            None => r is Err,
        },
    decreases expr,
{
    match expr {
        Expression::Literal(v) => Ok(v.deep_clone()),
        Expression::Variable(n) => get_variable_value(n, parsed, code),
        Expression::ArrayIndex { array_name, index } => {
            let arr = get_variable_value(array_name, parsed, code)?;
            match arr {
                Value::Array(items) => {
                    let iv = evaluate_expression(index, parsed, code)?;
                    match iv {
                        Value::UInt(n) => {
                            if n < items.len() as u64 {
                                let k = n as usize;
                                let r = items[k].deep_clone();
                                proof {
                                    let m = Value::Array(items).model()->Array_0;
                                    assert(m[k as int] == items@[k as int].model());
                                }
                                Ok(r)
                            } else {
                                Err(CodeError::IndexOutOfBounds)
                            }
                        },
                        Value::Int(_) => Err(CodeError::IndexOutOfBounds),
                        _ => Err(CodeError::BadIndex),
                    }
                },
                _ => Err(CodeError::NotAnArray),
            }
        },
        Expression::ArrayLiteral(es) => {
            let mut out: Vec<Value> = Vec::new();
            let mut k: usize = 0;
            proof {
                assert(es@.subrange(0, 0) =~= Seq::<Expression>::empty());
                assert(out@.map_values(|v: Value| v.model()) =~= Seq::<Json>::empty());
            }
            while k < es.len()
                invariant
                    *expr == Expression::ArrayLiteral(*es),
                    k <= es@.len(),
                    eval_list(es@.subrange(0, k as int), parsed.entries(), code.entries())
                        == Some(out@.map_values(|v: Value| v.model())),
                decreases es.len() - k,
            {
                proof {
                    let ev = *es;
                    assert(decreases_to!(*expr => (*expr)->ArrayLiteral_0));
                    assert(decreases_to!(ev => ev[k as int]));
                    assert(es@.subrange(0, k + 1).drop_last() =~= es@.subrange(0, k as int));
                    assert(es@.subrange(0, k + 1).last() == es@[k as int]);
                }
                let v = match evaluate_expression(&es[k], parsed, code) {
                    Ok(v) => v,
                    Err(e) => {
                        proof {
                            lemma_eval_list_none(es@, parsed.entries(), code.entries(), k + 1);
                        }
                        return Err(e);
                    },
                };
                let ghost before = out@;
                out.push(v);
                proof {
                    assert(out@.map_values(|v: Value| v.model()) =~= before.map_values(|v: Value| v.model()).push(v.model()));
                }
                k = k + 1;
            }
            proof {
                assert(es@.subrange(0, es@.len() as int) =~= es@);
            }
            let r = Value::Array(out);
            proof {
                assert(r.model()->Array_0 =~= out@.map_values(|v: Value| v.model()));
            }
            Ok(r)
        },
        Expression::FunctionCall { args, .. } => {
            let mut k: usize = 0;
            while k < args.len()
                invariant
                    *expr matches Expression::FunctionCall { args: a, .. } && a == *args,
                    k <= args@.len(),
                decreases args.len() - k,
            {
                proof {
                    let av = *args;
                    assert(decreases_to!(*expr => (*expr)->args));
                    assert(decreases_to!(av => av[k as int]));
                }
                let _ = evaluate_expression(&args[k], parsed, code)?;
                k = k + 1;
            }
            Err(CodeError::UnknownFunction)
        },
    }
}

/// `s` split at each occurrence of `d`, as `str::split` does; an empty `d`
/// yields an empty piece, each character, and an empty piece.
pub open spec fn split_spec(s: Seq<char>, d: Seq<char>) -> Seq<Seq<char>>
    decreases s.len(),
{
    if d.len() == 0 {
        seq![Seq::<char>::empty()] + Seq::new(s.len(), |i: int| seq![s[i]]) + seq![Seq::<char>::empty()]
    } else {
        let i = first_match(s, d, 0);
        if 0 <= i && i + d.len() <= s.len() {
            seq![s.subrange(0, i)] + split_spec(s.subrange(i + d.len(), s.len() as int), d)
        } else {
            seq![s]
        }
    }
}

/// The first position at or after `from` where `d` occurs in `s`, or -1.
pub open spec fn first_match(s: Seq<char>, d: Seq<char>, from: int) -> int
    decreases s.len() + 1 - from,
{
    if from < 0 || from + d.len() > s.len() {
        -1
    } else if s.subrange(from, from + d.len()) == d {
        from
    } else {
        first_match(s, d, from + 1)
    }
}

proof fn lemma_first_match(s: Seq<char>, d: Seq<char>, from: int)
    requires
        0 <= from,
    ensures
        first_match(s, d, from) == -1 || (from <= first_match(s, d, from) && first_match(s, d, from) + d.len() <= s.len()),
    decreases s.len() + 1 - from,
{
    if !(from + d.len() > s.len()) && s.subrange(from, from + d.len()) != d {
        lemma_first_match(s, d, from + 1);
    }
}

fn find_match(s: &[char], d: &[char], from: usize) -> (r: Option<usize>)
    ensures
        match r {
            Some(i) => first_match(s@, d@, from as int) == i,
            None => first_match(s@, d@, from as int) == -1,
        },
{
    let mut i: usize = from;
    let sl = s.len();
    while i <= s.len() && s.len() - i >= d.len()
        invariant
            sl == s@.len(),
            from <= i,
            first_match(s@, d@, i as int) == first_match(s@, d@, from as int),
        decreases s.len() + 1 - i,
    {
        let w = slice_range(s, i, i + d.len());
        if chars_eq(w.as_slice(), d) {
            return Some(i);
        }
        if i == usize::MAX {
            proof {
                assert(first_match(s@, d@, i + 1) == -1);
            }
            return None;
        }
        i = i + 1;
    }
    None
}

} // verus!

verus! {

/// Compares two values structurally.
pub fn values_equal(a: &Value, b: &Value) -> (r: bool)
    ensures
        r == (a.model() == b.model()),
    decreases a,
{
    match (a, b) {
        (Value::Null, Value::Null) => true,
        (Value::Bool(x), Value::Bool(y)) => *x == *y,
        (Value::UInt(x), Value::UInt(y)) => *x == *y,
        (Value::Int(x), Value::Int(y)) => *x == *y,
        (Value::Float(x), Value::Float(y)) => chars_eq(chars_of(x.as_str()).as_slice(), chars_of(y.as_str()).as_slice()),
        (Value::Str(x), Value::Str(y)) => chars_eq(chars_of(x.as_str()).as_slice(), chars_of(y.as_str()).as_slice()),
        (Value::Array(x), Value::Array(y)) => {
            if x.len() != y.len() {
                proof {
                    assert(a.model()->Array_0.len() != b.model()->Array_0.len());
                }
                return false;
            }
            let mut i: usize = 0;
            while i < x.len()
                invariant
                    *a == Value::Array(*x),
                    *b == Value::Array(*y),
                    x@.len() == y@.len(),
                    i <= x@.len(),
                    forall|k: int| 0 <= k < i ==> (#[trigger] x@[k]).model() == y@[k].model(),
                decreases x.len() - i,
            {
                proof {
                    let xv = *x;
                    assert(decreases_to!(*a => (*a)->Array_0));
                    assert(decreases_to!(xv => xv[i as int]));
                }
                if !values_equal(&x[i], &y[i]) {
                    proof {
                        assert(a.model()->Array_0[i as int] != b.model()->Array_0[i as int]);
                    }
                    return false;
                }
                i = i + 1;
            }
            proof {
                assert(a.model()->Array_0 =~= b.model()->Array_0);
            }
            true
        },
        (Value::Object(x), Value::Object(y)) => {
            if x.len() != y.len() {
                proof {
                    assert(a.model()->Object_0.len() != b.model()->Object_0.len());
                }
                return false;
            }
            let mut i: usize = 0;
            while i < x.len()
                invariant
                    *a == Value::Object(*x),
                    *b == Value::Object(*y),
                    x@.len() == y@.len(),
                    i <= x@.len(),
                    forall|k: int| 0 <= k < i ==> (#[trigger] x@[k]).1.model() == y@[k].1.model() && x@[k].0@ == y@[k].0@,
                decreases x.len() - i,
            {
                proof {
                    let xv = *x;
                    assert(decreases_to!(*a => (*a)->Object_0));
                    assert(decreases_to!(xv => xv[i as int]));
                }
                let ke = chars_eq(chars_of(x[i].0.as_str()).as_slice(), chars_of(y[i].0.as_str()).as_slice());
                if !ke || !values_equal(&x[i].1, &y[i].1) {
                    proof {
                        assert(a.model()->Object_0[i as int] != b.model()->Object_0[i as int]);
                    }
                    return false;
                }
                i = i + 1;
            }
            proof {
                assert(a.model()->Object_0 =~= b.model()->Object_0);
            }
            true
        },
        _ => false,
    }
}

/// The integer a number value holds.
pub open spec fn int_of(j: Json) -> Option<int> {
    match j {
        Json::UInt(n) => Some(n as int),
        Json::Int(n) => Some(n),
        _ => None,
    }
}

/// Whether `t` occurs in `s`.
pub open spec fn contains_spec(s: Seq<char>, t: Seq<char>) -> bool {
    exists|i: int| 0 <= i && i + t.len() <= s.len() && #[trigger] s.subrange(i, i + t.len()) == t
}

/// The truth of a condition, or `None` when evaluating it fails.
pub open spec fn cond_spec(cond: Condition, p: Seq<(Seq<char>, Json)>, c: Seq<(Seq<char>, Json)>) -> Option<bool> {
    let (l, r) = match cond {
        Condition::Equals(l, r) => (l, r),
        Condition::NotEquals(l, r) => (l, r),
        Condition::GreaterThan(l, r) => (l, r),
        Condition::LessThan(l, r) => (l, r),
        Condition::GreaterOrEqual(l, r) => (l, r),
        Condition::LessOrEqual(l, r) => (l, r),
        Condition::Contains(l, r) => (l, r),
    };
    match (eval_spec(l, p, c), eval_spec(r, p, c)) {
        (Some(a), Some(b)) => match cond {
            Condition::Equals(..) => Some(a == b),
            Condition::NotEquals(..) => Some(a != b),
            Condition::Contains(..) => match (a, b) {
                (Json::Str(x), Json::Str(y)) => Some(contains_spec(x, y)),
                _ => None,
            },
            _ => match (int_of(a), int_of(b)) {
                (Some(x), Some(y)) => Some(
                    match cond {
                        Condition::GreaterThan(..) => x > y,
                        Condition::LessThan(..) => x < y,
                        Condition::GreaterOrEqual(..) => x >= y,
                        _ => x <= y,
                    },
                ),
                _ => None,
            },
        },
        _ => None,
    }
}

fn contains_chars(s: &[char], t: &[char]) -> (r: bool)
    ensures
        r == contains_spec(s@, t@),
{
    match find_match(s, t, 0) {
        Some(i) => {
            proof {
                lemma_first_match(s@, t@, 0);
                assert(s@.subrange(i as int, i + t@.len()) == t@) by {
                    lemma_first_match_hit(s@, t@, 0);
                }
            }
            true
        },
        None => {
            proof {
                lemma_first_match_none(s@, t@, 0);
            }
            false
        },
    }
}

proof fn lemma_first_match_hit(s: Seq<char>, d: Seq<char>, from: int)
    requires
        0 <= from,
        first_match(s, d, from) >= 0,
    ensures
        s.subrange(first_match(s, d, from), first_match(s, d, from) + d.len()) == d,
    decreases s.len() + 1 - from,
{
    if !(from + d.len() > s.len()) && s.subrange(from, from + d.len()) != d {
        lemma_first_match_hit(s, d, from + 1);
    }
}

proof fn lemma_first_match_none(s: Seq<char>, d: Seq<char>, from: int)
    requires
        0 <= from,
        first_match(s, d, from) == -1,
    ensures
        forall|i: int| from <= i && i + d.len() <= s.len() ==> #[trigger] s.subrange(i, i + d.len()) != d,
    decreases s.len() + 1 - from,
{
    if !(from + d.len() > s.len()) {
        lemma_first_match_none(s, d, from + 1);
    }
}

fn int_value(v: &Value) -> (r: Option<i128>)
    ensures
        match int_of(v.model()) {
            Some(n) => r == Some(n as i128),
            None => r.is_none(),
        },
{
    match v {
        Value::UInt(n) => Some(*n as i128),
        Value::Int(n) => Some(*n as i128),
        _ => None,
    }
}

/// Evaluates a condition.
pub fn evaluate_condition(cond: &Condition, parsed: &VarTable, code: &VarTable) -> (r: Result<bool, CodeError>)
    ensures
        match cond_spec(*cond, parsed.entries(), code.entries()) {
            Some(b) => r == Ok::<bool, CodeError>(b),
            None => r is Err,
        },
{
    let (l, rr) = match cond {
        Condition::Equals(l, r) => (l, r),
        Condition::NotEquals(l, r) => (l, r),
        Condition::GreaterThan(l, r) => (l, r),
        Condition::LessThan(l, r) => (l, r),
        Condition::GreaterOrEqual(l, r) => (l, r),
        Condition::LessOrEqual(l, r) => (l, r),
        Condition::Contains(l, r) => (l, r),
    };
    let a = evaluate_expression(l, parsed, code)?;
    let b = evaluate_expression(rr, parsed, code)?;
    match cond {
        Condition::Equals(..) => Ok(values_equal(&a, &b)),
        Condition::NotEquals(..) => Ok(!values_equal(&a, &b)),
        Condition::Contains(..) => match (&a, &b) {
            (Value::Str(x), Value::Str(y)) => Ok(
                contains_chars(chars_of(x.as_str()).as_slice(), chars_of(y.as_str()).as_slice()),
            ),
            _ => Err(CodeError::NotAString),
        },
        _ => match (int_value(&a), int_value(&b)) {
            (Some(x), Some(y)) => Ok(
                match cond {
                    Condition::GreaterThan(..) => x > y,
                    Condition::LessThan(..) => x < y,
                    Condition::GreaterOrEqual(..) => x >= y,
                    _ => x <= y,
                },
            ),
            _ => Err(CodeError::NotANumber),
        },
    }
}

/// `s` split at each `d`, the pieces as string values.
pub open spec fn split_values(s: Seq<char>, d: Seq<char>) -> Seq<Json> {
    split_spec(s, d).map_values(|x: Seq<char>| Json::Str(x))
}

fn split_exec(s: &[char], d: &[char]) -> (r: Vec<Value>)
    ensures
        r@.map_values(|v: Value| v.model()) == split_values(s@, d@),
    decreases s@.len(),
{
    let mut out: Vec<Value> = Vec::new();
    let sl = s.len();
    if d.len() == 0 {
        proof {
            assert(""@ =~= Seq::<char>::empty()) by {
                reveal_strlit("");
            }
        }
        out.push(Value::Str(string_of(chars_of("").as_slice())));
        let mut i: usize = 0;
        while i < s.len()
            invariant
                i <= s@.len(),
                out@.len() == i + 1,
                out@[0].model() == Json::Str(Seq::<char>::empty()),
                forall|k: int| 0 <= k < i ==> (#[trigger] out@[k + 1]).model() == Json::Str(seq![s@[k]]),
            decreases s.len() - i,
        {
            let one = vec![s[i]];
            proof {
                assert(one@ =~= seq![s@[i as int]]);
            }
            out.push(Value::Str(string_of(one.as_slice())));
            i = i + 1;
        }
        out.push(Value::Str(string_of(chars_of("").as_slice())));
        proof {
            assert(""@ =~= Seq::<char>::empty()) by {
                reveal_strlit("");
            }
            let sp = split_spec(s@, d@);
            assert(out@.map_values(|v: Value| v.model()) =~= split_values(s@, d@)) by {
                assert(sp.len() == s@.len() + 2);
                assert forall|k: int| 0 <= k < out@.len() implies out@.map_values(|v: Value| v.model())[k]
                    == split_values(s@, d@)[k] by {
                    if k == 0 {
                    } else if k <= s@.len() {
                        assert(out@[(k - 1) + 1].model() == Json::Str(seq![s@[k - 1]]));
                    }
                }
            }
        }
        return out;
    }
    match find_match(s, d, 0) {
        Some(i) => {
            proof {
                lemma_first_match(s@, d@, 0);
            }
            let head = slice_range(s, 0, i);
            let tail = slice_range(s, i + d.len(), s.len());
            let rest = split_exec(tail.as_slice(), d);
            out.push(Value::Str(string_of(head.as_slice())));
            let mut k: usize = 0;
            while k < rest.len()
                invariant
                    k <= rest@.len(),
                    out@.len() == k + 1,
                    out@[0].model() == Json::Str(head@),
                    forall|j: int| 0 <= j < k ==> (#[trigger] out@[j + 1]).model() == rest@[j].model(),
                decreases rest.len() - k,
            {
                out.push(rest[k].deep_clone());
                k = k + 1;
            }
            proof {
                let rv = rest@.map_values(|v: Value| v.model());
                assert(out@.map_values(|v: Value| v.model()) =~= seq![Json::Str(head@)] + rv) by {
                    assert forall|j: int| 0 <= j < out@.len() implies out@.map_values(|v: Value| v.model())[j]
                        == (seq![Json::Str(head@)] + rv)[j] by {
                        if j > 0 {
                            assert(out@[(j - 1) + 1].model() == rest@[j - 1].model());
                        }
                    }
                }
                let sp = split_spec(s@, d@);
                assert(sp == seq![s@.subrange(0, i as int)] + split_spec(tail@, d@));
                assert(split_values(s@, d@) =~= seq![Json::Str(head@)] + split_values(tail@, d@));
            }
            out
        },
        None => {
            out.push(Value::Str(string_of(s)));
            proof {
                assert(out@.map_values(|v: Value| v.model()) =~= split_values(s@, d@));
            }
            out
        },
    }
}

/// What a command that is neither a loop nor a condition does to the code
/// table, and whether it breaks; `None` when it fails.
pub open spec fn step_spec(cmd: CodeCommand, p: Seq<(Seq<char>, Json)>, c: Seq<(Seq<char>, Json)>) -> Option<(Seq<(Seq<char>, Json)>, Flow)> {
    match cmd {
        CodeCommand::DeclareVar { name, value, .. } => match eval_spec(value, p, c) {
            Some(v) => Some((insert_entry(c, name@, v), Flow::Next)),
            None => None,
        },
        CodeCommand::AssignVar { name, value } => match eval_spec(value, p, c) {
            Some(v) => Some((insert_entry(c, name@, v), Flow::Next)),
            None => None,
        },
        CodeCommand::Split { var_name, source_expr, delimiter } => match eval_spec(source_expr, p, c) {
            Some(Json::Str(s)) => Some((insert_entry(c, var_name@, Json::Array(split_values(s, delimiter@))), Flow::Next)),
            _ => None,
        },
        CodeCommand::Replace { var_name, source_expr, search, replace } => match eval_spec(source_expr, p, c) {
            Some(Json::Str(s)) => Some((insert_entry(c, var_name@, Json::Str(replace_all(s, search@, replace@))), Flow::Next)),
            _ => None,
        },
        CodeCommand::Break => Some((c, Flow::Break)),
        _ => Some((c, Flow::Next)),
    }
}

pub type Env = Seq<(Seq<char>, Json)>;

/// What running a command does to the code table `c`, the parsed table
/// being `p`: the table after it and whether it broke out, or `None` when it
/// fails. `FOR x IN a:` needs `a` to be an array and runs the body once per
/// element with `x` set to it, stopping at a `BREAK`; `IF` runs the first
/// branch whose condition holds, else the `ELSE` body.
pub open spec fn run_cmd(cmd: CodeCommand, p: Env, c: Env) -> Option<(Env, Flow)>
    decreases cmd, 0int,
{
    match cmd {
        CodeCommand::ForInArray { var_name, array_name, body } => match get_spec(array_name@, p, c) {
            Some(Json::Array(items)) => run_for(body, var_name@, items, 0, p, c),
            _ => None,
        },
        CodeCommand::IfStatement { condition, body, else_if, else_body } => match cond_spec(condition, p, c) {
            None => None,
            Some(true) => run_seq(body, 0, p, c),
            Some(false) => match run_elifs(else_if, 0, p, c) {
                None => None,
                Some(Some(x)) => Some(x),
                Some(None) => match else_body {
                    Some(b) => run_seq(b, 0, p, c),
                    None => Some((c, Flow::Next)),
                },
            },
        },
        _ => step_spec(cmd, p, c),
    }
}

/// Running the commands from position `j` on, until one breaks or fails.
pub open spec fn run_seq(cmds: Vec<CodeCommand>, j: int, p: Env, c: Env) -> Option<(Env, Flow)>
    decreases cmds, cmds@.len() - j,
{
    if j < 0 || j >= cmds@.len() {
        Some((c, Flow::Next))
    } else {
        match run_cmd(cmds[j], p, c) {
            None => None,
            Some((c2, Flow::Break)) => Some((c2, Flow::Break)),
            Some((c2, Flow::Next)) => run_seq(cmds, j + 1, p, c2),
        }
    }
}

/// A `FOR` loop from element `k` on.
pub open spec fn run_for(body: Vec<CodeCommand>, var: Seq<char>, items: Seq<Json>, k: int, p: Env, c: Env) -> Option<(Env, Flow)>
    decreases body, body@.len() + 1 + items.len() - k,
{
    if k < 0 || k >= items.len() {
        Some((c, Flow::Next))
    } else {
        match run_seq(body, 0, p, insert_entry(c, var, items[k])) {
            None => None,
            Some((c2, Flow::Break)) => Some((c2, Flow::Next)),
            Some((c2, Flow::Next)) => run_for(body, var, items, k + 1, p, c2),
        }
    }
}

/// The `ELIF` branches from `k` on: `Some(None)` when none holds.
pub open spec fn run_elifs(list: Vec<(Condition, Vec<CodeCommand>)>, k: int, p: Env, c: Env) -> Option<Option<(Env, Flow)>>
    decreases list, list@.len() - k,
{
    if k < 0 || k >= list@.len() {
        Some(None)
    } else {
        match cond_spec(list[k].0, p, c) {
            None => None,
            Some(true) => match run_seq(list[k].1, 0, p, c) {
                None => None,
                Some(x) => Some(Some(x)),
            },
            Some(false) => run_elifs(list, k + 1, p, c),
        }
    }
}

/// Runs one command.
pub fn execute_code_command(cmd: &CodeCommand, parsed: &VarTable, code: &mut VarTable) -> (r: Result<Flow, CodeError>)
    requires
        keys_unique(old(code).entries()),
    ensures
        keys_unique(final(code).entries()),
        match run_cmd(*cmd, parsed.entries(), old(code).entries()) {
            Some((e, f)) => r == Ok::<Flow, CodeError>(f) && final(code).entries() == e,
            None => r is Err,
        },
    decreases cmd,
{
    match cmd {
        CodeCommand::DeclareVar { name, value, .. } => {
            let v = evaluate_expression(value, parsed, code)?;
            code.insert(name.clone(), v);
            Ok(Flow::Next)
        },
        CodeCommand::AssignVar { name, value } => {
            let v = evaluate_expression(value, parsed, code)?;
            code.insert(name.clone(), v);
            Ok(Flow::Next)
        },
        CodeCommand::Split { var_name, source_expr, delimiter } => {
            let v = evaluate_expression(source_expr, parsed, code)?;
            match v {
                Value::Str(s) => {
                    let parts = split_exec(chars_of(s.as_str()).as_slice(), chars_of(delimiter.as_str()).as_slice());
                    let arr = Value::Array(parts);
                    proof {
                        assert(arr.model()->Array_0 =~= parts@.map_values(|v: Value| v.model()));
                    }
                    code.insert(var_name.clone(), arr);
                    Ok(Flow::Next)
                },
                _ => Err(CodeError::NotAString),
            }
        },
        CodeCommand::Replace { var_name, source_expr, search, replace } => {
            let v = evaluate_expression(source_expr, parsed, code)?;
            match v {
                Value::Str(s) => {
                    let t = replace_chars(
                        chars_of(s.as_str()).as_slice(),
                        chars_of(search.as_str()).as_slice(),
                        chars_of(replace.as_str()).as_slice(),
                    );
                    code.insert(var_name.clone(), Value::Str(string_of(t.as_slice())));
                    Ok(Flow::Next)
                },
                _ => Err(CodeError::NotAString),
            }
        },
        CodeCommand::ForInArray { var_name, array_name, body } => {
            let arr = get_variable_value(array_name, parsed, code)?;
            match arr {
                Value::Array(items) => {
                    let ghost im = Value::Array(items).model()->Array_0;
                    let ghost p = parsed.entries();
                    let ghost c0 = code.entries();
                    proof {
                        assert(decreases_to!(*cmd => (*cmd)->ForInArray_body));
                        assert(run_cmd(*cmd, p, c0) == run_for(*body, var_name@, im, 0, p, c0));
                    }
                    let mut i: usize = 0;
                    while i < items.len()
                        invariant
                            *cmd == (CodeCommand::ForInArray { var_name: *var_name, array_name: *array_name, body: *body }),
                            p == parsed.entries(),
                            im.len() == items@.len(),
                            forall|m: int| 0 <= m < items@.len() ==> im[m] == (#[trigger] items@[m]).model(),
                            i <= items@.len(),
                            keys_unique(code.entries()),
                            c0 == old(code).entries(),
                            run_cmd(*cmd, p, c0) == run_for(*body, var_name@, im, 0, p, c0),
                            run_for(*body, var_name@, im, 0, p, c0) == run_for(*body, var_name@, im, i as int, p, code.entries()),
                        decreases items.len() - i,
                    {
                        let ghost ci = code.entries();
                        code.insert(var_name.clone(), items[i].deep_clone());
                        proof {
                            assert(code.entries() == insert_entry(ci, var_name@, im[i as int]));
                            assert(run_for(*body, var_name@, im, i as int, p, ci) == match run_seq(*body, 0, p, code.entries()) {
                                None => None,
                                Some((c2, Flow::Break)) => Some((c2, Flow::Next)),
                                Some((c2, Flow::Next)) => run_for(*body, var_name@, im, i + 1, p, c2),
                            });
                        }
                        match run_commands(body, parsed, code) {
                            Ok(Flow::Break) => {
                                return Ok(Flow::Next);
                            },
                            Ok(Flow::Next) => {},
                            Err(e) => {
                                return Err(e);
                            },
                        }
                        i = i + 1;
                    }
                    Ok(Flow::Next)
                },
                _ => Err(CodeError::NotAnArray),
            }
        },
        CodeCommand::IfStatement { condition, body, else_if, else_body } => {
            proof {
                assert(decreases_to!(*cmd => (*cmd)->IfStatement_body));
                assert(decreases_to!(*cmd => (*cmd)->else_if));
                assert(decreases_to!(*cmd => (*cmd)->else_body));
            }
            if evaluate_condition(condition, parsed, code)? {
                return run_commands(body, parsed, code);
            }
            let ghost p = parsed.entries();
            let ghost c0 = code.entries();
            let ghost rest = match run_elifs(*else_if, 0, p, c0) {
                None => None,
                Some(Some(x)) => Some(x),
                Some(None) => match else_body {
                    Some(b) => run_seq(*b, 0, p, c0),
                    None => Some((c0, Flow::Next)),
                },
            };
            proof {
                assert(run_cmd(*cmd, p, c0) == rest);
            }
            let mut k: usize = 0;
            while k < else_if.len()
                invariant
                    *cmd == (CodeCommand::IfStatement { condition: *condition, body: *body, else_if: *else_if, else_body: *else_body }),
                    p == parsed.entries(),
                    c0 == code.entries(),
                    c0 == old(code).entries(),
                    run_cmd(*cmd, p, c0) == rest,
                    rest == match run_elifs(*else_if, 0, p, c0) {
                        None => None,
                        Some(Some(x)) => Some(x),
                        Some(None) => match else_body {
                            Some(b) => run_seq(*b, 0, p, c0),
                            None => Some((c0, Flow::Next)),
                        },
                    },
                    k <= else_if@.len(),
                    run_elifs(*else_if, 0, p, c0) == run_elifs(*else_if, k as int, p, c0),
                    keys_unique(code.entries()),
                decreases else_if.len() - k,
            {
                proof {
                    let ev = *else_if;
                    assert(decreases_to!(ev => ev[k as int]));
                    assert(decreases_to!(ev[k as int] => ev[k as int].1));
                }
                let branch = &else_if[k];
                proof {
                    assert(*branch == else_if@[k as int]);
                    assert(run_elifs(*else_if, k as int, p, c0) == match cond_spec(branch.0, p, c0) {
                        None => None,
                        Some(true) => match run_seq(branch.1, 0, p, c0) {
                            None => None,
                            Some(x) => Some(Some(x)),
                        },
                        Some(false) => run_elifs(*else_if, k + 1, p, c0),
                    });
                }
                if evaluate_condition(&branch.0, parsed, code)? {
                    return run_commands(&branch.1, parsed, code);
                }
                k = k + 1;
            }
            match else_body {
                Some(b) => run_commands(b, parsed, code),
                None => Ok(Flow::Next),
            }
        },
        CodeCommand::Break => Ok(Flow::Break),
        CodeCommand::ExecutePacketCommand(_) => Ok(Flow::Next),
        CodeCommand::ExecuteResponseCommand(_) => Ok(Flow::Next),
    }
}

/// Runs commands in order until one breaks or fails.
pub fn run_commands(cmds: &Vec<CodeCommand>, parsed: &VarTable, code: &mut VarTable) -> (r: Result<Flow, CodeError>)
    requires
        keys_unique(old(code).entries()),
    ensures
        keys_unique(final(code).entries()),
        match run_seq(*cmds, 0, parsed.entries(), old(code).entries()) {
            Some((e, f)) => r == Ok::<Flow, CodeError>(f) && final(code).entries() == e,
            None => r is Err,
        },
    decreases cmds,
{
    let ghost p = parsed.entries();
    let ghost c0 = code.entries();
    let mut j: usize = 0;
    while j < cmds.len()
        invariant
            p == parsed.entries(),
            j <= cmds@.len(),
            keys_unique(code.entries()),
            c0 == old(code).entries(),
            run_seq(*cmds, 0, p, c0) == run_seq(*cmds, j as int, p, code.entries()),
        decreases cmds.len() - j,
    {
        proof {
            let cv = *cmds;
            assert(decreases_to!(cv => cv[j as int]));
        }
        let ghost cj = code.entries();
        let ghost step = run_cmd(cmds@[j as int], p, cj);
        proof {
            assert(run_seq(*cmds, j as int, p, cj) == match step {
                None => None,
                Some((c2, Flow::Break)) => Some((c2, Flow::Break)),
                Some((c2, Flow::Next)) => run_seq(*cmds, j + 1, p, c2),
            });
        }
        let cmd_j = &cmds[j];
        proof {
            assert(*cmd_j == cmds@[j as int]);
        }
        match execute_code_command(cmd_j, parsed, code) {
            Ok(Flow::Break) => {
                return Ok(Flow::Break);
            },
            Ok(Flow::Next) => {},
            Err(e) => {
                return Err(e);
            },
        }
        j = j + 1;
    }
    Ok(Flow::Next)
}

/// Running the code blocks from `i` on over the code table `c`: the final
/// table, or `Err(true)` for a `BREAK` outside a loop, `Err(false)` for a
/// failing command.
pub open spec fn blocks_run(bs: Seq<CodeBlock>, i: int, p: Env, c: Env) -> Result<Env, bool>
    decreases bs.len() - i,
{
    if i < 0 || i >= bs.len() {
        Ok(c)
    } else {
        match run_seq(bs[i].commands, 0, p, c) {
            None => Err(false),
            Some((_, Flow::Break)) => Err(true),
            Some((c2, Flow::Next)) => blocks_run(bs, i + 1, p, c2),
        }
    }
}

/// Runs the code blocks in order over a fresh code table; a `BREAK`
/// outside a loop is an error.
pub fn execute_code_blocks(blocks: &Vec<CodeBlock>, parsed: &VarTable) -> (r: Result<VarTable, CodeError>)
    ensures
        match blocks_run(blocks@, 0, parsed.entries(), Seq::empty()) {
            Ok(e) => r matches Ok(t) && t.entries() == e,
            Err(true) => r == Err::<VarTable, CodeError>(CodeError::BreakOutsideLoop),
            Err(false) => r is Err,
        },
{
    let ghost p = parsed.entries();
    let mut code = VarTable::new();
    let mut i: usize = 0;
    while i < blocks.len()
        invariant
            p == parsed.entries(),
            i <= blocks@.len(),
            keys_unique(code.entries()),
            blocks_run(blocks@, 0, p, Seq::empty()) == blocks_run(blocks@, i as int, p, code.entries()),
        decreases blocks.len() - i,
    {
        match run_commands(&blocks[i].commands, parsed, &mut code) {
            Ok(Flow::Break) => {
                return Err(CodeError::BreakOutsideLoop);
            },
            Ok(Flow::Next) => {},
            Err(e) => {
                return Err(e);
            },
        }
        i = i + 1;
    }
    Ok(code)
}

} // verus!

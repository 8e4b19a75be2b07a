//! The code sub-language: parsing indented blocks of commands, expressions
//! and conditions.
use vstd::prelude::*;
use crate::lexicon::{eq_ignore_ascii_case, is_alphanumeric, strip_quotes};
use crate::number::{parse_literal, parse_uint};
use crate::packet_parser::{at_line, parse_packet_command, parse_response_command, CodeCommand, Condition, Expression, SyntaxError, VariableType};
use crate::text::{chars_of, has_prefix, is_whitespace, is_word, join_words_from, slice_range, split_words, string_of, trim};
use crate::value::Value;

verus! {

/// The quote state after character `c`: a quote opens when none is open
/// and closes the one it matches.
pub open spec fn quote_after(c: char, in_q: bool, qc: char) -> (bool, char) {
    if c == '"' || c == '\'' {
        if !in_q { (true, c) } else if c == qc { (false, '\0') } else { (in_q, qc) }
    } else {
        (in_q, qc)
    }
}

/// The first `#` at or after `i` outside quotes, given the quote state.
pub open spec fn comment_from(t: Seq<char>, i: int, in_q: bool, qc: char) -> Option<int>
    decreases t.len() - i,
{
    if i < 0 || i >= t.len() {
        None
    } else if t[i] == '#' && !in_q {
        Some(i)
    } else {
        let (q2, c2) = quote_after(t[i], in_q, qc);
        comment_from(t, i + 1, q2, c2)
    }
}

/// Where a comment starts in `text`: the first `#` outside quotes.
pub fn find_comment_position(text: &[char]) -> (r: Option<usize>)
    ensures
        r matches Some(i) ==> i < text@.len(),
        match comment_from(text@, 0, false, '\0') {
            Some(i) => r == Some(i as usize),
            None => r.is_none(),
        },
{
    let mut in_quotes = false;
    let mut quote_char = '\0';
    let mut i: usize = 0;
    while i < text.len()
        invariant
            i <= text@.len(),
            comment_from(text@, 0, false, '\0') == comment_from(text@, i as int, in_quotes, quote_char),
        decreases text.len() - i,
    {
        let ch = text[i];
        if ch == '#' && !in_quotes {
            return Some(i);
        }
        if ch == '"' || ch == '\'' {
            if !in_quotes {
                in_quotes = true;
                quote_char = ch;
            } else if ch == quote_char {
                in_quotes = false;
                quote_char = '\0';
            }
        }
        i = i + 1;
    }
    None
}

/// Splitting function arguments from position `i` on, given the quote
/// state, the argument so far and those already split: a comma outside
/// quotes ends an argument, each argument is trimmed, and a last argument
/// counts when it has any character.
pub open spec fn args_from(t: Seq<char>, i: int, cur: Seq<char>, in_q: bool, qc: char, acc: Seq<Seq<char>>) -> Seq<Seq<char>>
    decreases t.len() - i,
{
    if i < 0 || i >= t.len() {
        if cur.len() > 0 { acc.push(crate::text::trim_spec(cur)) } else { acc }
    } else if t[i] == ',' && !in_q {
        args_from(t, i + 1, Seq::empty(), in_q, qc, acc.push(crate::text::trim_spec(cur)))
    } else {
        let (q2, c2) = quote_after(t[i], in_q, qc);
        args_from(t, i + 1, cur.push(t[i]), q2, c2, acc)
    }
}

/// Splits function arguments at commas outside quotes, each trimmed.
pub fn parse_function_args(args: &[char]) -> (r: Vec<Vec<char>>)
    ensures
        r@.map_values(|a: Vec<char>| a@) == args_from(args@, 0, Seq::empty(), false, '\0', Seq::empty()),
{
    let mut out: Vec<Vec<char>> = Vec::new();
    let mut current: Vec<char> = Vec::new();
    let mut in_quotes = false;
    let mut quote_char = '\0';
    let mut i: usize = 0;
    proof {
        assert(out@.map_values(|a: Vec<char>| a@) =~= Seq::<Seq<char>>::empty());
        assert(current@ =~= Seq::<char>::empty());
    }
    while i < args.len()
        invariant
            i <= args@.len(),
            args_from(args@, 0, Seq::empty(), false, '\0', Seq::empty()) == args_from(
                args@,
                i as int,
                current@,
                in_quotes,
                quote_char,
                out@.map_values(|a: Vec<char>| a@),
            ),
        decreases args.len() - i,
    {
        let ch = args[i];
        let ghost before = out@;
        if ch == ',' && !in_quotes {
            let t = trim(current.as_slice());
            out.push(t);
            current = Vec::new();
            proof {
                assert(out@.map_values(|a: Vec<char>| a@) =~= before.map_values(|a: Vec<char>| a@).push(t@));
                assert(current@ =~= Seq::<char>::empty());
            }
        } else {
            if ch == '"' || ch == '\'' {
                if !in_quotes {
                    in_quotes = true;
                    quote_char = ch;
                } else if ch == quote_char {
                    in_quotes = false;
                    quote_char = '\0';
                }
            }
            current.push(ch);
        }
        i = i + 1;
    }
    if current.len() > 0 {
        let ghost before = out@;
        let t = trim(current.as_slice());
        out.push(t);
        proof {
            assert(out@.map_values(|a: Vec<char>| a@) =~= before.map_values(|a: Vec<char>| a@).push(t@));
        }
    }
    out
}

fn all_ident_chars(s: &[char]) -> (r: bool) {
    let mut i: usize = 0;
    while i < s.len()
        invariant
            i <= s@.len(),
        decreases s.len() - i,
    {
        if !is_alphanumeric(s[i]) && s[i] != '_' {
            return false;
        }
        i = i + 1;
    }
    true
}

/// Whether `s` reads as a floating-point number: an optional sign, digits
/// with at most one `.`, at least one digit, and an optional exponent.
fn is_float_text(s: &[char]) -> (r: bool) {
    let n = s.len();
    let mut i: usize = 0;
    if i < n && (s[i] == '+' || s[i] == '-') {
        i = i + 1;
    }
    let mut digits: usize = 0;
    let mut dot = false;
    while i < n && (('0' <= s[i] && s[i] <= '9') || (s[i] == '.' && !dot))
        invariant
            i <= n == s@.len(),
            digits <= i,
        decreases n - i,
    {
        if s[i] == '.' {
            dot = true;
        } else {
            digits = digits + 1;
        }
        i = i + 1;
    }
    if digits == 0 {
        return false;
    }
    if i < n && (s[i] == 'e' || s[i] == 'E') {
        i = i + 1;
        if i < n && (s[i] == '+' || s[i] == '-') {
            i = i + 1;
        }
        let mut ed: usize = 0;
        while i < n && '0' <= s[i] && s[i] <= '9'
            invariant
                i <= n == s@.len(),
                ed <= i,
            decreases n - i,
        {
            ed = ed + 1;
            i = i + 1;
        }
        if ed == 0 {
            return false;
        }
    }
    i == n
}

/// A signed decimal integer, as `str::parse::<i64>`.
fn parse_i64(s: &[char]) -> (r: Option<i64>) {
    if s.len() > 0 && s[0] == '-' {
        let rest = slice_range(s, 1, s.len());
        match parse_uint(rest.as_slice(), 10, 9223372036854775808) {
            Some(v) => {
                if rest.len() > 0 && rest[0] == '+' {
                    None
                } else if v == 9223372036854775808 {
                    Some(-9223372036854775807i64 - 1)
                } else {
                    Some(-(v as i64))
                }
            },
            None => None,
        }
    } else {
        match parse_uint(s, 10, 9223372036854775807) {
            Some(v) => Some(v as i64),
            None => None,
        }
    }
}

/// Splits the inside of an array literal at commas outside quotes and
/// brackets; empty pieces are dropped.
fn split_elements(inner: &[char]) -> (r: Vec<Vec<char>>)
    ensures
        forall|k: int| 0 <= k < r@.len() ==> (#[trigger] r@[k])@.len() <= inner@.len(),
{
    let mut out: Vec<Vec<char>> = Vec::new();
    let mut current: Vec<char> = Vec::new();
    let mut depth: i64 = 0;
    let mut in_quotes = false;
    let mut quote_char = '\0';
    let mut i: usize = 0;
    while i < inner.len()
        invariant
            i <= inner@.len(),
            current@.len() <= i,
            -9223372036854775807 <= depth <= 9223372036854775807,
            forall|k: int| 0 <= k < out@.len() ==> (#[trigger] out@[k])@.len() <= inner@.len(),
        decreases inner.len() - i,
    {
        let ch = inner[i];
        if ch == '"' || ch == '\'' {
            if !in_quotes {
                in_quotes = true;
                quote_char = ch;
            } else if ch == quote_char {
                in_quotes = false;
                quote_char = '\0';
            }
            current.push(ch);
        } else if ch == '[' || ch == '(' {
            if !in_quotes && depth < 9223372036854775807 {
                depth = depth + 1;
            }
            current.push(ch);
        } else if ch == ']' || ch == ')' {
            if !in_quotes && depth > -9223372036854775807 {
                depth = depth - 1;
            }
            current.push(ch);
        } else if ch == ',' && !in_quotes && depth == 0 {
            let t = trim(current.as_slice());
            if t.len() > 0 {
                out.push(t);
            }
            current = Vec::new();
        } else {
            current.push(ch);
        }
        i = i + 1;
    }
    let t = trim(current.as_slice());
    if t.len() > 0 {
        out.push(t);
    }
    out
}

proof fn lemma_trim_idempotent(s: Seq<char>)
    ensures
        crate::text::trim_spec(crate::text::trim_spec(s)) == crate::text::trim_spec(s),
{
    crate::text::lemma_trim_shape(s);
    crate::text::lemma_trim_shape(crate::text::trim_spec(s));
}

/// Parses an expression: a quoted string, an array literal, a number, a
/// hex literal, `name[index]`, a variable or a function call.
pub fn parse_expression(expr: &[char], line_num: usize) -> (r: Result<Expression, SyntaxError>)
    ensures
        r matches Err(e) ==> e.line == line_num,
        ({
            let e = crate::text::trim_spec(expr@);
            e.len() >= 1 && e[0] == '"' && e.last() == '"' ==> (r matches Ok(Expression::Literal(Value::Str(s)))
                && s@ == crate::lexicon::strip_quotes_spec(e))
        }),
        ({
            let e = crate::text::trim_spec(expr@);
            e.len() >= 2 && e[0] == '[' && e.last() == ']' && !(e[0] == '"') ==> (r is Err || r matches Ok(
                Expression::ArrayLiteral(_),
            ))
        }),
    decreases expr@.len(),
{
    let el = expr.len();
    let e = trim(expr);
    let n = e.len();
    if n >= 1 && e[0] == '"' && e[n - 1] == '"' {
        let s = strip_quotes(e.as_slice());
        proof {
            assert(crate::text::trim_spec(e@) == e@) by {
                lemma_trim_idempotent(expr@);
            }
        }
        return Ok(Expression::Literal(Value::Str(string_of(s.as_slice()))));
    }
    if n >= 2 && e[0] == '[' && e[n - 1] == ']' {
        let inner = trim(slice_range(e.as_slice(), 1, n - 1).as_slice());
        let parts = split_elements(inner.as_slice());
        let mut items: Vec<Expression> = Vec::new();
        let mut k: usize = 0;
        while k < parts.len()
            invariant
                k <= parts@.len(),
                inner@.len() < expr@.len(),
                e@ == crate::text::trim_spec(expr@),
                !(e@.len() >= 1 && e@[0] == '"' && e@.last() == '"'),
                forall|j: int| 0 <= j < parts@.len() ==> (#[trigger] parts@[j])@.len() <= inner@.len(),
            decreases parts.len() - k,
        {
            proof {
                assert(parts@[k as int]@.len() <= inner@.len());
            }
            let item = match parse_expression(parts[k].as_slice(), line_num) {
                Ok(x) => x,
                Err(err) => {
                    return Err(err);
                },
            };
            items.push(item);
            k = k + 1;
        }
        return Ok(Expression::ArrayLiteral(items));
    }
    if let Some(v) = parse_i64(e.as_slice()) {
        return Ok(Expression::Literal(Value::from_i64(v)));
    }
    if is_float_text(e.as_slice()) {
        return Ok(Expression::Literal(Value::Float(string_of(e.as_slice()))));
    }
    if n >= 2 && e[0] == '0' && (e[1] == 'x' || e[1] == 'X') {
        if let Some(v) = parse_literal(e.as_slice(), 18446744073709551615) {
            return Ok(Expression::Literal(Value::UInt(v)));
        }
    }
    if let Some(b) = crate::lexicon::find_char(e.as_slice(), '[', 0) {
        proof {
            crate::lexicon::lemma_find_from(e@, '[', 0);
        }
        if n >= 1 && e[n - 1] == ']' && e[0] != '[' && b < n - 1 {
            let name = trim(slice_range(e.as_slice(), 0, b).as_slice());
            let index_str = trim(slice_range(e.as_slice(), b + 1, n - 1).as_slice());
            if name.len() > 0 && all_ident_chars(name.as_slice()) {
                let index = match parse_expression(index_str.as_slice(), line_num) {
                    Ok(x) => x,
                    Err(err) => {
                        return Err(err);
                    },
                };
                return Ok(Expression::ArrayIndex { array_name: string_of(name.as_slice()), index: Box::new(index) });
            }
        }
    }
    if all_ident_chars(e.as_slice()) {
        return Ok(Expression::Variable(string_of(e.as_slice())));
    }
    if let Some(p) = crate::lexicon::find_char(e.as_slice(), '(', 0) {
        proof {
            crate::lexicon::lemma_find_from(e@, '(', 0);
        }
        if n >= 1 && e[n - 1] == ')' && p < n - 1 {
            let name = trim(slice_range(e.as_slice(), 0, p).as_slice());
            let args_str = trim(slice_range(e.as_slice(), p + 1, n - 1).as_slice());
            let mut args: Vec<Expression> = Vec::new();
            if args_str.len() > 0 {
                let mut start: usize = 0;
                let mut k: usize = 0;
                let m = args_str.len();
                while k <= m
                    invariant
                        e@ == crate::text::trim_spec(expr@),
                        !(e@.len() >= 1 && e@[0] == '"' && e@.last() == '"'),
                        start <= k,
                        m == args_str@.len(),
                        m < el,
                        el == expr@.len(),
                    decreases m + 1 - k,
                {
                    if k == m || args_str[k] == ',' {
                        if start <= k {
                            let piece = slice_range(args_str.as_slice(), start, k);
                            let a = match parse_expression(piece.as_slice(), line_num) {
                                Ok(x) => x,
                                Err(err) => {
                                    return Err(err);
                                },
                            };
                            args.push(a);
                        }
                        start = k + 1;
                    }
                    k = k + 1;
                }
            }
            return Ok(Expression::FunctionCall { name: string_of(name.as_slice()), args });
        }
    }
    Err(at_line("Invalid expression", line_num))
}

/// Splits `s` at every occurrence of `sep` (non-empty), each piece trimmed.
fn split_on(s: &[char], sep: &str) -> (r: Vec<Vec<char>>)
    ensures
        forall|k: int| 0 <= k < r@.len() ==> (#[trigger] r@[k])@.len() <= s@.len(),
{
    let p = chars_of(sep);
    let mut out: Vec<Vec<char>> = Vec::new();
    let mut start: usize = 0;
    let mut i: usize = 0;
    let n = s.len();
    if p.len() == 0 {
        out.push(trim(s));
        return out;
    }
    while i < n
        invariant
            start <= n,
            i <= n == s@.len(),
            p@.len() > 0,
            forall|k: int| 0 <= k < out@.len() ==> (#[trigger] out@[k])@.len() <= s@.len(),
        decreases n - i,
    {
        if i >= start && n - i >= p.len() {
            let w = slice_range(s, i, i + p.len());
            if crate::text::chars_eq(w.as_slice(), p.as_slice()) {
                out.push(trim(slice_range(s, start, i).as_slice()));
                start = i + p.len();
                i = i + p.len();
                continue;
            }
        }
        i = i + 1;
    }
    out.push(trim(slice_range(s, start, n).as_slice()));
    out
}

fn contains_text(s: &[char], p: &str) -> (r: bool) {
    let parts = split_on(s, p);
    parts.len() > 1
}

/// Parses a condition: `a CONTAINS b`, or a comparison with `==`, `!=`,
/// `>=`, `<=`, `>` or `<`.
pub fn parse_condition(cond: &[char], line_num: usize) -> (r: Result<Condition, SyntaxError>)
    ensures
        r matches Err(e) ==> e.line == line_num,
{
    let c = trim(cond);
    let ops = [" CONTAINS ", "==", "!=", ">=", "<=", ">", "<"];
    let mut k: usize = 0;
    while k < 7
        invariant
            k <= 7,
        decreases 7 - k,
    {
        let op = ops[k];
        if contains_text(c.as_slice(), op) {
            let parts = split_on(c.as_slice(), op);
            if parts.len() == 2 {
                let l = match parse_expression(parts[0].as_slice(), line_num) {
                    Ok(x) => x,
                    Err(err) => {
                        return Err(err);
                    },
                };
                let r = match parse_expression(parts[1].as_slice(), line_num) {
                    Ok(x) => x,
                    Err(err) => {
                        return Err(err);
                    },
                };
                return Ok(
                    if k == 0 {
                        Condition::Contains(l, r)
                    } else if k == 1 {
                        Condition::Equals(l, r)
                    } else if k == 2 {
                        Condition::NotEquals(l, r)
                    } else if k == 3 {
                        Condition::GreaterOrEqual(l, r)
                    } else if k == 4 {
                        Condition::LessOrEqual(l, r)
                    } else if k == 5 {
                        Condition::GreaterThan(l, r)
                    } else {
                        Condition::LessThan(l, r)
                    },
                );
            }
        }
        k = k + 1;
    }
    Err(at_line("Invalid condition", line_num))
}

/// A `SPLIT(src, sep)` or `REPLACE(src, needle, replacement)` call: the
/// argument text between the parentheses, when `v` has that shape.
fn call_args(v: &[char], fname: &str) -> (r: Option<Vec<char>>) {
    let t = trim(v);
    let k = chars_of(fname).len();
    if has_prefix(t.as_slice(), fname) && t.len() > k && t[t.len() - 1] == ')' {
        let rest = trim(slice_range(t.as_slice(), k, t.len()).as_slice());
        if rest.len() >= 2 && rest[0] == '(' && rest[rest.len() - 1] == ')' {
            return Some(slice_range(rest.as_slice(), 1, rest.len() - 1));
        }
    }
    None
}

/// Parses a single-line code command.
pub fn parse_code_command(line: &[char], line_num: usize) -> (r: Result<CodeCommand, SyntaxError>)
    ensures
        r matches Err(e) ==> e.line == line_num,
        ({
            let t = crate::text::trim_spec(line@);
            t.len() > 0 && t.last() == ':' ==> r is Err
        }),
        crate::text::words(crate::text::trim_spec(line@)) == seq!["BREAK"@] && !(crate::text::trim_spec(line@).len() > 0
            && crate::text::trim_spec(line@).last() == ':') ==> r matches Ok(CodeCommand::Break),
        ({
            let p = crate::text::words(crate::text::trim_spec(line@));
            p.len() >= 4 && p[2] == "="@ && !crate::lexicon::eq_ignore_case(p[0], "STRING"@)
                && !crate::lexicon::eq_ignore_case(p[0], "INT"@) && !crate::lexicon::eq_ignore_case(p[0], "BYTE"@)
                && !crate::lexicon::eq_ignore_case(p[0], "FLOAT"@) && !crate::lexicon::eq_ignore_case(p[0], "ARRAY"@)
                && !(crate::text::trim_spec(line@).len() > 0 && crate::text::trim_spec(line@).last() == ':') ==> r is Err
        }),
{
    let t = trim(line);
    if t.len() > 0 && t[t.len() - 1] == ':' {
        return Err(at_line("Control flow statements must be handled with proper indentation", line_num));
    }
    let parts = split_words(t.as_slice());
    let ghost pv = parts@.map_values(|w: Vec<char>| w@);
    if parts.len() == 0 {
        proof {
            assert(pv.len() == 0);
        }
        return Err(at_line("Empty code command", line_num));
    }
    proof {
        assert(pv[0] == parts@[0]@);
        if pv.len() > 1 {
            assert(pv[1] == parts@[1]@);
        }
        if pv.len() > 2 {
            assert(pv[2] == parts@[2]@);
        }
        reveal_strlit("BREAK");
        reveal_strlit("SPLIT");
        reveal_strlit("REPLACE");
        reveal_strlit("=");
        assert("BREAK"@ != "SPLIT"@) by {
            assert("BREAK"@[0] != "SPLIT"@[0]);
        }
        assert("BREAK"@ != "REPLACE"@) by {
            assert("BREAK"@.len() != "REPLACE"@.len());
        }
    }
    if parts.len() >= 4 && is_word(parts[2].as_slice(), "=") {
        let var_name = string_of(parts[1].as_slice());
        let mut value = join_words_from(&parts, 3);
        if let Some(p) = find_comment_position(value.as_slice()) {
            value = trim(slice_range(value.as_slice(), 0, p).as_slice());
        }
        let ty = parts[0].as_slice();
        let var_type = if eq_ignore_ascii_case(ty, "STRING") {
            VariableType::String
        } else if eq_ignore_ascii_case(ty, "INT") {
            VariableType::Int
        } else if eq_ignore_ascii_case(ty, "BYTE") {
            VariableType::Byte
        } else if eq_ignore_ascii_case(ty, "FLOAT") {
            VariableType::Float
        } else if eq_ignore_ascii_case(ty, "ARRAY") {
            VariableType::Array
        } else {
            return Err(at_line("Unknown variable type", line_num));
        };
        if let Some(a) = call_args(value.as_slice(), "SPLIT") {
            let args = parse_function_args(a.as_slice());
            if args.len() != 2 {
                return Err(at_line("SPLIT requires 2 arguments", line_num));
            }
            let source_expr = parse_expression(args[0].as_slice(), line_num)?;
            let delimiter = string_of(strip_quotes(args[1].as_slice()).as_slice());
            return Ok(CodeCommand::Split { var_name, source_expr, delimiter });
        }
        if let Some(a) = call_args(value.as_slice(), "REPLACE") {
            let args = parse_function_args(a.as_slice());
            if args.len() != 3 {
                return Err(at_line("REPLACE requires 3 arguments", line_num));
            }
            let source_expr = parse_expression(args[0].as_slice(), line_num)?;
            let search = string_of(strip_quotes(args[1].as_slice()).as_slice());
            let replace = string_of(strip_quotes(args[2].as_slice()).as_slice());
            return Ok(CodeCommand::Replace { var_name, source_expr, search, replace });
        }
        let value = parse_expression(value.as_slice(), line_num)?;
        return Ok(CodeCommand::DeclareVar { var_type, name: var_name, value });
    }
    if parts.len() >= 3 && is_word(parts[1].as_slice(), "=") {
        let name = string_of(parts[0].as_slice());
        let mut value = join_words_from(&parts, 2);
        if let Some(p) = find_comment_position(value.as_slice()) {
            value = trim(slice_range(value.as_slice(), 0, p).as_slice());
        }
        let value = parse_expression(value.as_slice(), line_num)?;
        return Ok(CodeCommand::AssignVar { name, value });
    }
    if is_word(parts[0].as_slice(), "SPLIT") || is_word(parts[0].as_slice(), "REPLACE") {
        let split = is_word(parts[0].as_slice(), "SPLIT");
        let a = match call_args(t.as_slice(), if split { "SPLIT" } else { "REPLACE" }) {
            Some(a) => a,
            None => {
                return Err(at_line("Invalid SPLIT or REPLACE syntax", line_num));
            },
        };
        let args = parse_function_args(a.as_slice());
        if (split && args.len() != 2) || (!split && args.len() != 3) {
            return Err(at_line("Wrong number of arguments", line_num));
        }
        let source_expr = parse_expression(args[0].as_slice(), line_num)?;
        let var_name = match &source_expr {
            Expression::Variable(n) => n.clone(),
            _ => {
                return Err(at_line("A standalone SPLIT or REPLACE needs a variable name", line_num));
            },
        };
        if split {
            let delimiter = string_of(strip_quotes(args[1].as_slice()).as_slice());
            return Ok(CodeCommand::Split { var_name, source_expr, delimiter });
        } else {
            let search = string_of(strip_quotes(args[1].as_slice()).as_slice());
            let replace = string_of(strip_quotes(args[2].as_slice()).as_slice());
            return Ok(CodeCommand::Replace { var_name, source_expr, search, replace });
        }
    }
    if is_word(parts[0].as_slice(), "BREAK") {
        return Ok(CodeCommand::Break);
    }
    if let Ok(c) = parse_packet_command(line, line_num) {
        return Ok(CodeCommand::ExecutePacketCommand(c));
    }
    if let Ok(c) = parse_response_command(line, line_num) {
        return Ok(CodeCommand::ExecuteResponseCommand(c));
    }
    Err(at_line("Unknown code command", line_num))
}

/// Number of leading whitespace characters of a raw line.
fn indent_of(l: &[char]) -> (r: usize)
    ensures
        r <= l@.len(),
{
    let mut i: usize = 0;
    while i < l.len() && is_whitespace(l[i])
        invariant
            i <= l@.len(),
        decreases l.len() - i,
    {
        i = i + 1;
    }
    i
}

fn opens_block(t: &[char]) -> (r: bool) {
    t.len() > 0 && t[t.len() - 1] == ':' && (has_prefix(t, "FOR ") || has_prefix(t, "IF "))
}

/// Parses a `FOR name IN array:` or `IF cond:` header at `start` and its
/// indented body: the command and the number of lines it takes.
pub fn parse_control_flow(lines: &Vec<Vec<char>>, start: usize, end: usize, base_indent: usize) -> (r: Result<(CodeCommand, usize), SyntaxError>)
    requires
        start < end <= lines@.len(),
    ensures
        r matches Ok((_, n)) ==> 1 <= n <= end - start,
        r matches Err(e) ==> start < e.line <= end,
    decreases end - start, 1nat,
{
    let line_num = start + 1;
    let t = trim(lines[start].as_slice());
    let body_indent = if base_indent < usize::MAX - 2 { base_indent + 2 } else { base_indent };
    if has_prefix(t.as_slice(), "FOR ") {
        let fk = chars_of("FOR ").len();
        let rest = trim(slice_range(t.as_slice(), fk, t.len()).as_slice());
        let parts = split_on(rest.as_slice(), " IN ");
        if parts.len() >= 2 && rest.len() > 0 {
            let var_name = string_of(parts[0].as_slice());
            let tail = trim(slice_range(rest.as_slice(), parts[0].len(), rest.len()).as_slice());
            let k = chars_of("IN ").len();
            if has_prefix(tail.as_slice(), "IN ") {
                let array_part = trim(slice_range(tail.as_slice(), k, tail.len()).as_slice());
                if array_part.len() > 0 && array_part[array_part.len() - 1] == ':' {
                    let array_name = string_of(trim(slice_range(array_part.as_slice(), 0, array_part.len() - 1).as_slice()).as_slice());
                    let (body, used) = match parse_indented_body(lines, start + 1, end, body_indent) {
                        Ok(x) => x,
                        Err(e) => {
                            return Err(e);
                        },
                    };
                    return Ok((CodeCommand::ForInArray { var_name, array_name, body }, used + 1));
                }
            }
        }
        return Err(at_line("Invalid FOR syntax: FOR var_name IN array_name:", line_num));
    }
    if has_prefix(t.as_slice(), "IF ") {
        let ik = chars_of("IF ").len();
        let rest = trim(slice_range(t.as_slice(), ik, t.len()).as_slice());
        if rest.len() > 0 && rest[rest.len() - 1] == ':' {
            let cs = slice_range(rest.as_slice(), 0, rest.len() - 1);
            let condition = match parse_condition(cs.as_slice(), line_num) {
                Ok(c) => c,
                Err(e) => {
                    return Err(e);
                },
            };
            let (body, used) = match parse_indented_body(lines, start + 1, end, body_indent) {
                Ok(x) => x,
                Err(e) => {
                    return Err(e);
                },
            };
            let mut next = start + 1 + used;
            let mut else_if: Vec<(Condition, Vec<CodeCommand>)> = Vec::new();
            let mut else_body: Option<Vec<CodeCommand>> = None;
            while next < end && else_body.is_none()
                invariant
                    start + 1 <= next <= end <= lines@.len(),
                decreases end - next, 1nat,
            {
                let raw = lines[next].as_slice();
                let h = trim(raw);
                if indent_of(raw) != base_indent || h.len() == 0 || h[h.len() - 1] != ':' {
                    break;
                }
                let is_else = is_word(h.as_slice(), "ELSE:");
                let is_elif = has_prefix(h.as_slice(), "ELIF ");
                if !is_else && !is_elif {
                    break;
                }
                let cond = if is_elif {
                    let ek = chars_of("ELIF ").len();
                    let last = h.len() - 1;
                    let cs = if ek <= last { slice_range(h.as_slice(), ek, last) } else { Vec::new() };
                    match parse_condition(cs.as_slice(), next + 1) {
                        Ok(c) => Some(c),
                        Err(e) => {
                            return Err(e);
                        },
                    }
                } else {
                    None
                };
                let (b, u) = match parse_indented_body(lines, next + 1, end, body_indent) {
                    Ok(x) => x,
                    Err(e) => {
                        return Err(e);
                    },
                };
                match cond {
                    Some(c) => else_if.push((c, b)),
                    None => {
                        else_body = Some(b);
                    },
                }
                next = next + 1 + u;
            }
            return Ok((CodeCommand::IfStatement { condition, body, else_if, else_body }, next - start));
        }
        return Err(at_line("Invalid IF syntax: IF condition:", line_num));
    }
    Err(at_line("Not a control flow statement", line_num))
}

/// Parses the lines from `start` indented by at least `indent`: the
/// commands and the number of lines they take.
pub fn parse_indented_body(lines: &Vec<Vec<char>>, start: usize, end: usize, indent: usize) -> (r: Result<(Vec<CodeCommand>, usize), SyntaxError>)
    requires
        start <= end <= lines@.len(),
    ensures
        r matches Ok((_, n)) ==> n <= end - start,
        r matches Err(e) ==> start < e.line <= end,
    decreases end - start, 2nat,
{
    let mut body: Vec<CodeCommand> = Vec::new();
    let mut i: usize = start;
    while i < end
        invariant
            start <= i <= end <= lines@.len(),
        decreases end - i,
    {
        let raw = lines[i].as_slice();
        let t = trim(raw);
        if t.len() == 0 || t[0] == '#' {
            i = i + 1;
            continue;
        }
        let ind = indent_of(raw);
        if ind < indent {
            break;
        }
        let content = trim(slice_range(raw, indent, raw.len()).as_slice());
        if opens_block(content.as_slice()) {
            let (c, used) = match parse_control_flow(lines, i, end, indent) {
                Ok(x) => x,
                Err(e) => {
                    return Err(e);
                },
            };
            body.push(c);
            i = i + used;
        } else {
            let c = match parse_code_command(content.as_slice(), i + 1) {
                Ok(c) => c,
                Err(e) => {
                    return Err(e);
                },
            };
            body.push(c);
            i = i + 1;
        }
    }
    Ok((body, i - start))
}

/// Parses the code lines `lines[start..end]` of a code section.
pub fn parse_code_lines(lines: &Vec<Vec<char>>, start: usize, end: usize) -> (r: Result<Vec<CodeCommand>, SyntaxError>)
    requires
        start <= end <= lines@.len(),
    ensures
        r matches Err(e) ==> start < e.line <= end,
{
    let mut out: Vec<CodeCommand> = Vec::new();
    let mut i: usize = start;
    while i < end
        invariant
            start <= i <= end <= lines@.len(),
        decreases end - i,
    {
        let raw = lines[i].as_slice();
        let t = trim(raw);
        if t.len() == 0 || t[0] == '#' {
            i = i + 1;
            continue;
        }
        let ind = indent_of(raw);
        if opens_block(t.as_slice()) {
            let (c, used) = match parse_control_flow(lines, i, end, ind) {
                Ok(x) => x,
                Err(e) => {
                    return Err(e);
                },
            };
            out.push(c);
            i = i + used;
        } else if ind > 0 {
            i = i + 1;
        } else {
            let c = match parse_code_command(t.as_slice(), i + 1) {
                Ok(c) => c,
                Err(e) => {
                    return Err(e);
                },
            };
            out.push(c);
            i = i + 1;
        }
    }
    Ok(out)
}

} // verus!

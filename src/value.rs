//! The dynamic values that script variables hold: a JSON-like tagged sum.
use vstd::prelude::*;

verus! {

broadcast use vstd::std_specs::vec::axiom_vec_index_decreases;

/// A variable's value. Numbers keep the shape JSON gives them: a
/// non-negative integer, a negative integer, or a fractional number kept as
/// its decimal text.
#[derive(Debug)]
pub enum Value {
    Null,
    Bool(bool),
    UInt(u64),
    Int(i64),
    Float(String),
    Str(String),
    Array(Vec<Value>),
    Object(Vec<(String, Value)>),
}

/// The mathematical model of a [`Value`].
pub enum Json {
    Null,
    Bool(bool),
    UInt(nat),
    Int(int),
    Float(Seq<char>),
    Str(Seq<char>),
    Array(Seq<Json>),
    Object(Seq<(Seq<char>, Json)>),
}

impl Value {
    pub open spec fn model(&self) -> Json
        decreases self,
    {
        match self {
            Value::Null => Json::Null,
            Value::Bool(b) => Json::Bool(*b),
            Value::UInt(n) => Json::UInt(*n as nat),
            Value::Int(n) => Json::Int(*n as int),
            Value::Float(t) => Json::Float(t@),
            Value::Str(s) => Json::Str(s@),
            Value::Array(a) => Json::Array(
                Seq::new(a@.len(), |i: int| if 0 <= i < a@.len() { a@[i].model() } else { Json::Null }),
            ),
            Value::Object(o) => Json::Object(
                Seq::new(
                    o@.len(),
                    |i: int|
                        if 0 <= i < o@.len() {
                            (o@[i].0@, o@[i].1.model())
                        } else {
                            (Seq::empty(), Json::Null)
                        },
                ),
            ),
        }
    }

    /// A copy of the value.
    pub fn deep_clone(&self) -> (r: Value)
        ensures
            r.model() == self.model(),
        decreases self,
    {
        match self {
            Value::Null => Value::Null,
            Value::Bool(b) => Value::Bool(*b),
            Value::UInt(n) => Value::UInt(*n),
            Value::Int(n) => Value::Int(*n),
            Value::Float(t) => Value::Float(t.clone()),
            Value::Str(s) => Value::Str(s.clone()),
            Value::Array(a) => {
                let mut out: Vec<Value> = Vec::new();
                let mut i: usize = 0;
                while i < a.len()
                    invariant
                        *self == Value::Array(*a),
                        i <= a@.len(),
                        out@.len() == i,
                        forall|j: int| 0 <= j < i ==> #[trigger] out@[j].model() == a@[j].model(),
                    decreases a.len() - i,
                {
                    proof {
                        let av = *a;
                        assert(decreases_to!(av => av[i as int]));
                        assert(decreases_to!(*self => (*self)->Array_0));
                        assert(decreases_to!(*self => av[i as int]));
                    }
                    out.push(a[i].deep_clone());
                    i = i + 1;
                }
                let r = Value::Array(out);
                proof {
                    let rm = r.model()->Array_0;
                    let sm = self.model()->Array_0;
                    assert(rm.len() == sm.len());
                    assert forall|k: int| 0 <= k < rm.len() implies rm[k] == sm[k] by {
                        assert(out@[k].model() == a@[k].model());
                    }
                    assert(rm =~= sm);
                }
                r
            },
            Value::Object(o) => {
                let mut out: Vec<(String, Value)> = Vec::new();
                let mut i: usize = 0;
                while i < o.len()
                    invariant
                        *self == Value::Object(*o),
                        i <= o@.len(),
                        out@.len() == i,
                        forall|j: int|
                            0 <= j < i ==> #[trigger] out@[j].1.model() == o@[j].1.model()
                                && out@[j].0@ == o@[j].0@,
                    decreases o.len() - i,
                {
                    proof {
                        let ov = *o;
                        assert(decreases_to!(ov => ov[i as int]));
                        assert(decreases_to!(*self => (*self)->Object_0));
                        assert(decreases_to!(*self => ov[i as int].1));
                    }
                    let k = o[i].0.clone();
                    let v = o[i].1.deep_clone();
                    out.push((k, v));
                    i = i + 1;
                }
                let r = Value::Object(out);
                proof {
                    assert(r.model()->Object_0 =~= self.model()->Object_0);
                }
                r
            },
        }
    }

    /// The value for a non-negative integer.
    pub fn from_u64(n: u64) -> (r: Value)
        ensures
            r.model() == Json::UInt(n as nat),
    {
        Value::UInt(n)
    }

    /// The value for a signed integer: non-negative ones take the unsigned
    /// shape, as JSON numbers do.
    pub fn from_i64(n: i64) -> (r: Value)
        ensures
            r.model() == (if n >= 0 { Json::UInt(n as nat) } else { Json::Int(n as int) }),
    {
        if n >= 0 {
            Value::UInt(n as u64)
        } else {
            Value::Int(n)
        }
    }

    /// The string that the value holds, if it is a string.
    pub fn as_str(&self) -> (r: Option<&String>)
        ensures
            match self.model() {
                Json::Str(s) => r.is_some() && r.unwrap()@ == s,
                _ => r.is_none(),
            },
    {
        match self {
            Value::Str(s) => Some(s),
            _ => None,
        }
    }
}

} // verus!

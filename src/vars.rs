//! The variable table: an insertion-ordered map from names to values, kept
//! in an `indexmap::IndexMap`.
use vstd::prelude::*;
use crate::value::{Json, Value};
use indexmap::IndexMap;

verus! {

/// `indexmap::IndexMap`, declared so that a table can hold one; its
/// contents are seen only through `table_entries`.
#[verifier::external_type_specification]
#[verifier::external_body]
#[verifier::reject_recursive_types(K)]
#[verifier::reject_recursive_types(V)]
#[verifier::reject_recursive_types(S)]
pub struct ExIndexMap<K, V, S>(IndexMap<K, V, S>);

/// The entries of a map, in their order, each as its key's characters and
/// its value's model.
pub uninterp spec fn table_entries(m: IndexMap<String, Value>) -> Seq<(Seq<char>, Json)>;

/// The position of the entry with key `k`, or -1 when there is none.
pub open spec fn key_pos(e: Seq<(Seq<char>, Json)>, k: Seq<char>) -> int
    decreases e.len(),
{
    if e.len() == 0 {
        -1
    } else if e.last().0 == k {
        e.len() - 1
    } else {
        key_pos(e.drop_last(), k)
    }
}

/// Whether no two entries share a key.
pub open spec fn keys_unique(e: Seq<(Seq<char>, Json)>) -> bool {
    forall|i: int, j: int| 0 <= i < j < e.len() ==> e[i].0 != e[j].0
}

/// The entries after `k` is set to `v`: in place when `k` is present, else
/// appended at the end.
pub open spec fn insert_entry(e: Seq<(Seq<char>, Json)>, k: Seq<char>, v: Json) -> Seq<(Seq<char>, Json)> {
    let p = key_pos(e, k);
    if p >= 0 {
        e.update(p, (k, v))
    } else {
        e.push((k, v))
    }
}

/// The entries once the one with key `k`, if any, is taken out; the others
/// keep their order.
pub open spec fn remove_entry(e: Seq<(Seq<char>, Json)>, k: Seq<char>) -> Seq<(Seq<char>, Json)> {
    let p = key_pos(e, k);
    if p >= 0 {
        e.remove(p)
    } else {
        e
    }
}

/// The value stored under `k`.
pub open spec fn lookup(e: Seq<(Seq<char>, Json)>, k: Seq<char>) -> Option<Json> {
    let p = key_pos(e, k);
    if p >= 0 {
        Some(e[p].1)
    } else {
        None
    }
}

pub proof fn lemma_key_pos(e: Seq<(Seq<char>, Json)>, k: Seq<char>)
    ensures
        -1 <= key_pos(e, k) < e.len(),
        key_pos(e, k) >= 0 ==> e[key_pos(e, k)].0 == k,
        key_pos(e, k) < 0 ==> forall|i: int| 0 <= i < e.len() ==> e[i].0 != k,
    decreases e.len(),
{
    if e.len() > 0 && e.last().0 != k {
        lemma_key_pos(e.drop_last(), k);
        assert forall|i: int| 0 <= i < e.len() - 1 implies e[i] == #[trigger] e.drop_last()[i] by {}
        if key_pos(e, k) < 0 {
            assert forall|i: int| 0 <= i < e.len() implies e[i].0 != k by {
                if i < e.len() - 1 {
                    assert(e[i] == e.drop_last()[i]);
                }
            }
        }
    }
}

/// A table of script variables, in the order their names were first set.
#[derive(Debug)]
pub struct VarTable {
    pub map: IndexMap<String, Value>,
}

impl VarTable {
    pub open spec fn entries(&self) -> Seq<(Seq<char>, Json)> {
        table_entries(self.map)
    }

    /// Relies on `IndexMap::new`: a new map is empty.
    #[verifier::external_body]
    pub fn new() -> (r: VarTable)
        ensures
            table_entries(r.map) == Seq::<(Seq<char>, Json)>::empty(),
            keys_unique(table_entries(r.map)),
    {
        VarTable { map: IndexMap::new() }
    }

    /// Relies on `IndexMap::len`: the number of entries.
    #[verifier::external_body]
    pub fn len(&self) -> (r: usize)
        ensures
            r == table_entries(self.map).len(),
    {
        self.map.len()
    }

    /// Relies on `IndexMap::get`: the value stored under an equal key.
    #[verifier::external_body]
    pub fn get(&self, k: &str) -> (r: Option<&Value>)
        ensures
            match lookup(table_entries(self.map), k@) {
                Some(v) => r.is_some() && r.unwrap().model() == v,
                None => r.is_none(),
            },
    {
        self.map.get(k)
    }

    /// Relies on `IndexMap::get_index`: the entry at a position.
    #[verifier::external_body]
    pub fn get_index(&self, i: usize) -> (r: (&String, &Value))
        requires
            i < table_entries(self.map).len(),
        ensures
            r.0@ == table_entries(self.map)[i as int].0,
            r.1.model() == table_entries(self.map)[i as int].1,
    {
        self.map.get_index(i).unwrap()
    }

    /// Relies on `IndexMap::insert`: an existing key keeps its place and
    /// takes the new value; a new key goes last.
    #[verifier::external_body]
    pub fn insert(&mut self, k: String, v: Value)
        ensures
            table_entries(final(self).map) == insert_entry(table_entries(old(self).map), k@, v.model()),
            keys_unique(table_entries(final(self).map)),
    {
        self.map.insert(k, v);
    }

    /// Relies on `IndexMap::shift_remove`: the entry goes, the others keep
    /// their order.
    #[verifier::external_body]
    pub fn shift_remove(&mut self, k: &str)
        ensures
            table_entries(final(self).map) == remove_entry(table_entries(old(self).map), k@),
            keys_unique(table_entries(final(self).map)),
    {
        self.map.shift_remove(k);
    }

    /// Sets every entry of `other` in this table, in `other`'s order.
    pub fn extend_from(&mut self, other: &VarTable)
        requires
            keys_unique(old(self).entries()),
        ensures
            final(self).entries() == extend_entries(old(self).entries(), other.entries()),
            keys_unique(final(self).entries()),
    {
        let n = other.len();
        let mut i: usize = 0;
        while i < n
            invariant
                n == other.entries().len(),
                i <= n,
                keys_unique(self.entries()),
                self.entries() == extend_entries(old(self).entries(), other.entries().subrange(0, i as int)),
            decreases n - i,
        {
            let (k, v) = other.get_index(i);
            let kc = k.clone();
            let vc = v.deep_clone();
            self.insert(kc, vc);
            proof {
                let s = other.entries().subrange(0, i as int + 1);
                assert(s.drop_last() =~= other.entries().subrange(0, i as int));
            }
            i = i + 1;
        }
        proof {
            assert(other.entries().subrange(0, n as int) =~= other.entries());
        }
    }
}

proof fn lemma_key_pos_update(e: Seq<(Seq<char>, Json)>, p: int, kp: Seq<char>, v: Json, k: Seq<char>)
    requires
        0 <= p < e.len(),
        e[p].0 == kp,
    ensures
        key_pos(e.update(p, (kp, v)), k) == key_pos(e, k),
    decreases e.len(),
{
    let u = e.update(p, (kp, v));
    if p < e.len() - 1 {
        assert(u.drop_last() =~= e.drop_last().update(p, (kp, v)));
        assert(u.last() == e.last());
        lemma_key_pos_update(e.drop_last(), p, kp, v, k);
    } else {
        assert(u.drop_last() =~= e.drop_last());
    }
}

/// Setting `kp` changes the lookup of `kp` alone.
pub proof fn lemma_lookup_insert(e: Seq<(Seq<char>, Json)>, kp: Seq<char>, v: Json, k: Seq<char>)
    ensures
        lookup(insert_entry(e, kp, v), k) == (if k == kp { Some(v) } else { lookup(e, k) }),
{
    lemma_key_pos(e, kp);
    lemma_key_pos(e, k);
    let p = key_pos(e, kp);
    if p >= 0 {
        lemma_key_pos_update(e, p, kp, v, k);
        let u = e.update(p, (kp, v));
        if k == kp {
            assert(key_pos(u, k) == p);
        } else {
            if key_pos(e, k) >= 0 {
                assert(key_pos(e, k) != p);
            }
        }
    } else {
        let u = e.push((kp, v));
        assert(u.drop_last() =~= e);
    }
}

/// Setting every entry of `f` in order: a key of `f` takes its value from
/// `f`, any other keeps its value in `e`.
pub proof fn lemma_lookup_extend(e: Seq<(Seq<char>, Json)>, f: Seq<(Seq<char>, Json)>, k: Seq<char>)
    ensures
        lookup(extend_entries(e, f), k) == (match lookup(f, k) {
            Some(v) => Some(v),
            None => lookup(e, k),
        }),
    decreases f.len(),
{
    if f.len() > 0 {
        lemma_lookup_extend(e, f.drop_last(), k);
        lemma_lookup_insert(extend_entries(e, f.drop_last()), f.last().0, f.last().1, k);
        lemma_key_pos(f.drop_last(), k);
        if f.last().0 != k && key_pos(f.drop_last(), k) >= 0 {
            assert(f[key_pos(f.drop_last(), k)] == f.drop_last()[key_pos(f.drop_last(), k)]);
        }
    }
}

/// Removing a key from a table with distinct keys leaves no entry with it.
pub proof fn lemma_remove_absent(e: Seq<(Seq<char>, Json)>, k: Seq<char>)
    requires
        keys_unique(e),
    ensures
        lookup(remove_entry(e, k), k) is None,
        forall|j: Seq<char>| j != k ==> lookup(remove_entry(e, k), j) == lookup(e, j),
{
    lemma_key_pos(e, k);
    let p = key_pos(e, k);
    if p >= 0 {
        let r = e.remove(p);
        lemma_key_pos(r, k);
        if key_pos(r, k) >= 0 {
            let q = key_pos(r, k);
            if q < p {
                assert(r[q] == e[q]);
            } else {
                assert(r[q] == e[q + 1]);
            }
        }
        assert forall|j: Seq<char>| j != k implies lookup(r, j) == lookup(e, j) by {
            lemma_key_pos(e, j);
            lemma_key_pos(r, j);
            let a = key_pos(e, j);
            let b = key_pos(r, j);
            if a >= 0 {
                assert(a != p);
                let a2 = if a < p { a } else { a - 1 };
                assert(r[a2] == e[a]);
                if b >= 0 {
                    let b2 = if b < p { b } else { b + 1 };
                    assert(e[b2] == r[b]);
                    assert(b2 == a);
                } else {
                    assert(r[a2].0 == j);
                }
            } else if b >= 0 {
                let b2 = if b < p { b } else { b + 1 };
                assert(e[b2] == r[b]);
            }
        }
    }
}

/// The entries of `e` once each entry of `f` is set, in order.
pub open spec fn extend_entries(e: Seq<(Seq<char>, Json)>, f: Seq<(Seq<char>, Json)>) -> Seq<(Seq<char>, Json)>
    decreases f.len(),
{
    if f.len() == 0 {
        e
    } else {
        insert_entry(extend_entries(e, f.drop_last()), f.last().0, f.last().1)
    }
}

} // verus!

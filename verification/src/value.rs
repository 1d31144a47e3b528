//! Runtime values produced by the value parser, and the dictionaries and
//! key tables the document is built from.
//!
//! A float is carried as the bit pattern of its IEEE-754 double; the
//! arithmetic on it is done by the host (see [`crate::host`]).

use vstd::prelude::*;
use crate::text::{chars_of, seq_eq, string_from, to_chars};

verus! {

#[derive(Debug, PartialEq)]
pub enum Value {
    Null,
    Bool(bool),
    Integer(i64),
    /// Bits of an IEEE-754 double.
    Float(u64),
    String(String),
    Array(Vec<Value>),
    Dict(Dict),
}

/// A string-keyed dictionary kept in ascending key order (the iteration
/// order of a `BTreeMap<String, Value>`).
#[derive(Debug, PartialEq)]
pub struct Dict {
    pub entries: Vec<(String, Value)>,
}

/// Plain-value picture of a [`Value`].
pub enum ValueModel {
    Null,
    Bool(bool),
    Integer(i64),
    Float(u64),
    Str(Seq<char>),
    Array(Seq<ValueModel>),
    Dict(Seq<(Seq<char>, ValueModel)>),
}

impl Value {
    pub open spec fn model(self) -> ValueModel
        decreases self,
    {
        match self {
            Value::Null => ValueModel::Null,
            Value::Bool(b) => ValueModel::Bool(b),
            Value::Integer(n) => ValueModel::Integer(n),
            Value::Float(f) => ValueModel::Float(f),
            Value::String(s) => ValueModel::Str(s@),
            Value::Array(v) => ValueModel::Array(
                Seq::new(
                    v.len() as nat,
                    |i: int|
                        if 0 <= i < v.len() {
                            v[i].model()
                        } else {
                            ValueModel::Null
                        },
                ),
            ),
            Value::Dict(d) => ValueModel::Dict(d.model()),
        }
    }
}

impl Dict {
    /// Entries in ascending key order.
    pub open spec fn model(self) -> Seq<(Seq<char>, ValueModel)>
        decreases self,
    {
        Seq::new(
            self.entries.len() as nat,
            |i: int|
                if 0 <= i < self.entries.len() {
                    (self.entries[i].0@, self.entries[i].1.model())
                } else {
                    (Seq::empty(), ValueModel::Null)
                },
        )
    }

    pub open spec fn spec_len(self) -> nat {
        self.entries@.len()
    }

    pub closed spec fn raw(self) -> Seq<(String, Value)> {
        self.entries@
    }

    pub proof fn lemma_model(self)
        ensures
            self.model().len() == self.raw().len(),
            forall|i: int|
                0 <= i < self.raw().len() ==> #[trigger] self.model()[i] == (
                self.raw()[i].0@,
                self.raw()[i].1.model(),
            ),
    {
    }

    /// Well-formed: keys strictly ascending, so each occurs once, as in the
    /// sorted map this stands for.
    pub open spec fn wf(self) -> bool {
        sorted_keys(self.model())
    }

    pub fn new() -> (d: Dict)
        ensures
            d.model() == Seq::<(Seq<char>, ValueModel)>::empty(),
            d.wf(),
    {
        let d = Dict { entries: Vec::new() };
        assert(d.model() =~= Seq::<(Seq<char>, ValueModel)>::empty());
        d
    }

    pub fn len(&self) -> (n: usize)
        ensures
            n == self.model().len(),
    {
        self.entries.len()
    }

    pub fn is_empty(&self) -> (r: bool)
        ensures
            r == (self.model().len() == 0),
    {
        self.entries.len() == 0
    }

    /// Key of the `i`-th entry (ascending order).
    pub fn key_at(&self, i: usize) -> (k: &String)
        requires
            i < self.model().len(),
        ensures
            k@ == self.model()[i as int].0,
    {
        &self.entries[i].0
    }

    /// Value of the `i`-th entry (ascending order).
    pub fn value_at(&self, i: usize) -> (v: &Value)
        requires
            i < self.model().len(),
        ensures
            v.model() == self.model()[i as int].1,
    {
        &self.entries[i].1
    }

    /// Position of `key`, if present.
    pub fn find(&self, key: &[char]) -> (r: Option<usize>)
        ensures
            (r is Some) == (dict_find(self.model(), key@) is Some),
            r matches Some(i) ==> dict_find(self.model(), key@) == Some(i as int) && i < self.model().len(),
    {
        proof {
            lemma_dict_find_from_bound(self.model(), key@, 0);
        }
        let mut i: usize = 0;
        while i < self.entries.len()
            invariant
                i <= self.entries@.len(),
                dict_find(self.model(), key@) == dict_find_from(self.model(), key@, i as int),
            decreases self.entries@.len() - i,
        {
            let k = chars_of(&self.entries[i].0);
            if seq_eq(k.as_slice(), key) {
                return Some(i);
            }
            i = i + 1;
        }
        None
    }

    /// `BTreeMap::get`.
    pub fn get(&self, key: &str) -> (r: Option<&Value>)
        ensures
            match dict_get(self.model(), key@) {
                Some(m) => r is Some && r->0.model() == m,
                None => r is None,
            },
    {
        let k = to_chars(key);
        proof {
            lemma_dict_find_from_bound(self.model(), k@, 0);
        }
        match self.find(k.as_slice()) {
            Some(i) => Some(&self.entries[i].1),
            None => None,
        }
    }

    /// `BTreeMap::contains_key`.
    pub fn contains_key(&self, key: &str) -> (r: bool)
        ensures
            r == (dict_get(self.model(), key@) is Some),
    {
        let k = to_chars(key);
        self.find(k.as_slice()).is_some()
    }

    /// Keys in ascending order.
    pub fn keys(&self) -> (ks: Vec<String>)
        ensures
            ks@.len() == self.model().len(),
            forall|i: int| 0 <= i < ks@.len() ==> #[trigger] ks@[i]@ == self.model()[i].0,
    {
        let mut ks: Vec<String> = Vec::new();
        let mut i: usize = 0;
        while i < self.entries.len()
            invariant
                i <= self.entries@.len(),
                ks@.len() == i,
                forall|j: int| 0 <= j < i ==> #[trigger] ks@[j]@ == self.model()[j].0,
            decreases self.entries@.len() - i,
        {
            ks.push(self.entries[i].0.clone());
            i = i + 1;
        }
        ks
    }

    /// `BTreeMap::insert`: replaces the value of an existing key in place,
    /// otherwise inserts the entry before the first larger key.
    pub fn insert(&mut self, key: String, value: Value)
        ensures
            final(self).model() == dict_put(old(self).model(), key@, value.model()),
            old(self).wf() ==> final(self).wf(),
    {
        proof {
            if old(self).wf() {
                law_dict_put_keeps_order(old(self).model(), key@, value.model());
            }
        }
        let k = chars_of(&key);
        let ghost m = self.model();
        let ghost vm = value.model();
        match self.find(k.as_slice()) {
            Some(i) => {
                proof {
                    lemma_dict_find_from_bound(m, k@, 0);
                }
                let ghost before = self.entries@;
                self.entries.set(i, (key, value));
                assert forall|j: int| 0 <= j < self.model().len() implies #[trigger] self.model()[j]
                    == m.update(i as int, (k@, vm))[j] by {
                    if j != i {
                        assert(self.entries@[j] == before[j]);
                    }
                }
                assert(self.model() =~= m.update(i as int, (k@, vm)));
            },
            None => {
                self.insert_sorted(key, value);
            },
        }
    }

    /// Inserts the entry before the first key larger than `key`, or in place
    /// of an equal key met on the way.
    fn insert_sorted(&mut self, key: String, value: Value)
        ensures
            final(self).model() == dict_insert(old(self).model(), key@, value.model()),
    {
        let k = chars_of(&key);
        let ghost m = self.model();
        let ghost vm = value.model();
        let mut i: usize = 0;
        let mut found = false;
        let mut stop_less = false;
        while i < self.entries.len()
            invariant_except_break
                i <= self.entries@.len(),
                m == self.model(),
                m.len() == self.entries@.len(),
                forall|j: int| 0 <= j < i ==> m[j].0 != k@ && !key_lt(k@, #[trigger] m[j].0),
                !found && !stop_less,
            ensures
                i <= self.entries@.len(),
                m == self.model(),
                m.len() == self.entries@.len(),
                forall|j: int| 0 <= j < i ==> m[j].0 != k@ && !key_lt(k@, #[trigger] m[j].0),
                found ==> i < m.len() && m[i as int].0 == k@,
                stop_less ==> !found && i < m.len() && m[i as int].0 != k@ && key_lt(k@, m[i as int].0),
                !found && !stop_less ==> i == m.len(),
            decreases self.entries@.len() - i,
        {
            let ek = chars_of(&self.entries[i].0);
            if seq_eq(ek.as_slice(), k.as_slice()) {
                found = true;
                break;
            }
            if key_less(k.as_slice(), ek.as_slice()) {
                stop_less = true;
                break;
            }
            i = i + 1;
        }
        proof {
            lemma_dict_insert_split(m, k@, vm, i as int);
        }
        let ghost before = self.entries@;
        if found {
            self.entries.set(i, (key, value));
            proof {
                assert(dict_insert(m.skip(i as int), k@, vm) =~= seq![(k@, vm)] + m.skip(i + 1));
                assert forall|j: int| 0 <= j < self.model().len() implies #[trigger] self.model()[j]
                    == dict_insert(m, k@, vm)[j] by {
                    if j != i {
                        assert(self.entries@[j] == before[j]);
                    }
                }
                assert(self.model() =~= dict_insert(m, k@, vm));
            }
        } else if stop_less {
            self.entries.insert(i, (key, value));
            proof {
                assert(dict_insert(m.skip(i as int), k@, vm) =~= seq![(k@, vm)] + m.skip(i as int));
                assert forall|j: int| 0 <= j < self.model().len() implies #[trigger] self.model()[j]
                    == dict_insert(m, k@, vm)[j] by {
                    if j < i {
                        assert(self.entries@[j] == before[j]);
                    } else if j > i {
                        assert(self.entries@[j] == before[j - 1]);
                    }
                }
                assert(self.model() =~= dict_insert(m, k@, vm));
            }
        } else {
            self.entries.push((key, value));
            proof {
                assert(m.skip(i as int) =~= Seq::<(Seq<char>, ValueModel)>::empty());
                assert forall|j: int| 0 <= j < self.model().len() implies #[trigger] self.model()[j]
                    == dict_insert(m, k@, vm)[j] by {
                    if j < i {
                        assert(self.entries@[j] == before[j]);
                    }
                }
                assert(self.model() =~= dict_insert(m, k@, vm));
            }
        }
    }

    /// Removes and returns the value of `key`.
    pub fn take(&mut self, key: &[char]) -> (r: Option<Value>)
        ensures
            match dict_find(old(self).model(), key@) {
                Some(i) => r is Some && r->0.model() == old(self).model()[i].1
                    && final(self).model() == old(self).model().remove(i),
                None => r is None && final(self).model() == old(self).model(),
            },
            old(self).wf() ==> final(self).wf(),
    {
        proof {
            lemma_remove_sorted(old(self).model());
        }
        match self.find(key) {
            Some(i) => {
                let ghost before = self.entries@;
                let ghost m = self.model();
                let (_, v) = self.entries.remove(i);
                proof {
                    assert(self.model() =~= m.remove(i as int)) by {
                        assert forall|j: int| 0 <= j < self.model().len() implies #[trigger] self.model()[j]
                            == m.remove(i as int)[j] by {
                            if j < i {
                                assert(self.entries@[j] == before[j]);
                            } else {
                                assert(self.entries@[j] == before[j + 1]);
                            }
                        }
                    }
                }
                Some(v)
            },
            None => None,
        }
    }
}

/// Strict lexicographic order on character sequences (the order of `str`'s
/// `Ord`, code point by code point).
pub open spec fn key_lt(a: Seq<char>, b: Seq<char>) -> bool
    decreases a.len(),
{
    if a.len() == 0 {
        b.len() > 0
    } else if b.len() == 0 {
        false
    } else if a[0] != b[0] {
        (a[0] as u32) < (b[0] as u32)
    } else {
        key_lt(a.drop_first(), b.drop_first())
    }
}

/// `a < b` in code-point lexicographic order.
pub fn key_less(a: &[char], b: &[char]) -> (r: bool)
    ensures
        r == key_lt(a@, b@),
{
    let mut i: usize = 0;
    assert(a@.skip(0) =~= a@);
    assert(b@.skip(0) =~= b@);
    while i < a.len() && i < b.len() && a[i] == b[i]
        invariant
            i <= a@.len(),
            i <= b@.len(),
            key_lt(a@, b@) == key_lt(a@.skip(i as int), b@.skip(i as int)),
        decreases a@.len() - i,
    {
        assert(a@.skip(i as int).drop_first() =~= a@.skip(i + 1));
        assert(b@.skip(i as int).drop_first() =~= b@.skip(i + 1));
        i = i + 1;
    }
    if i == a.len() {
        i < b.len()
    } else if i == b.len() {
        false
    } else {
        (a[i] as u32) < (b[i] as u32)
    }
}

/// Position of the first entry with key `k` at or after `i`.
pub open spec fn dict_find_from<V>(m: Seq<(Seq<char>, V)>, k: Seq<char>, i: int) -> Option<int>
    decreases m.len() - i,
{
    if i < 0 || i >= m.len() {
        None
    } else if m[i].0 == k {
        Some(i)
    } else {
        dict_find_from(m, k, i + 1)
    }
}

pub open spec fn dict_find<V>(m: Seq<(Seq<char>, V)>, k: Seq<char>) -> Option<int> {
    dict_find_from(m, k, 0)
}

/// Value stored under `k`.
pub open spec fn dict_get<V>(m: Seq<(Seq<char>, V)>, k: Seq<char>) -> Option<V> {
    match dict_find(m, k) {
        Some(i) => Some(m[i as int].1),
        None => None,
    }
}

/// Sorted insertion: replace the entry of `k`, or insert before the first
/// larger key.
pub open spec fn dict_insert<V>(m: Seq<(Seq<char>, V)>, k: Seq<char>, v: V) -> Seq<(Seq<char>, V)>
    decreases m.len(),
{
    if m.len() == 0 {
        seq![(k, v)]
    } else if m[0].0 == k {
        seq![(k, v)] + m.drop_first()
    } else if key_lt(k, m[0].0) {
        seq![(k, v)] + m
    } else {
        seq![m[0]] + dict_insert(m.drop_first(), k, v)
    }
}

/// `insert` on a dictionary: an existing key gets the new value in place;
/// a new key goes before the first larger key.
pub open spec fn dict_put<V>(m: Seq<(Seq<char>, V)>, k: Seq<char>, v: V) -> Seq<(Seq<char>, V)> {
    match dict_find(m, k) {
        Some(i) => m.update(i, (k, v)),
        None => dict_insert(m, k, v),
    }
}

/// Keys in strictly ascending order, so each occurs once.
pub open spec fn sorted_keys<V>(m: Seq<(Seq<char>, V)>) -> bool {
    forall|i: int, j: int| 0 <= i < j < m.len() ==> key_lt(#[trigger] m[i].0, #[trigger] m[j].0)
}

proof fn lemma_key_lt_trans(a: Seq<char>, b: Seq<char>, c: Seq<char>)
    requires
        key_lt(a, b),
        key_lt(b, c),
    ensures
        key_lt(a, c),
    decreases a.len(),
{
    if a.len() > 0 && b.len() > 0 && c.len() > 0 && a[0] == b[0] && b[0] == c[0] {
        lemma_key_lt_trans(a.drop_first(), b.drop_first(), c.drop_first());
    }
}

proof fn lemma_key_lt_total(a: Seq<char>, b: Seq<char>)
    requires
        a != b,
    ensures
        key_lt(a, b) || key_lt(b, a),
    decreases a.len(),
{
    if a.len() > 0 && b.len() > 0 && a[0] == b[0] {
        if a.drop_first() =~= b.drop_first() {
            assert(a =~= seq![a[0]] + a.drop_first());
            assert(b =~= seq![b[0]] + b.drop_first());
            assert(a =~= b);
        } else {
            lemma_key_lt_total(a.drop_first(), b.drop_first());
        }
    } else if a.len() == 0 && b.len() == 0 {
        assert(a =~= b);
    } else if a.len() > 0 && b.len() > 0 {
        let x = a[0];
        let y = b[0];
        assert(x != y);
        vstd::utf8::char_u32_cast(x, x as u32);
        vstd::utf8::char_u32_cast(y, y as u32);
    }
}

proof fn lemma_dict_insert_sorted<V>(m: Seq<(Seq<char>, V)>, k: Seq<char>, v: V)
    requires
        sorted_keys(m),
    ensures
        sorted_keys(dict_insert(m, k, v)),
        forall|j: int|
            0 <= j < dict_insert(m, k, v).len() ==> #[trigger] dict_insert(m, k, v)[j].0 == k || exists|q: int|
                0 <= q < m.len() && m[q].0 == dict_insert(m, k, v)[j].0,
    decreases m.len(),
{
    let r = dict_insert(m, k, v);
    if m.len() == 0 {
    } else if m[0].0 == k {
        assert forall|i: int, j: int| 0 <= i < j < r.len() implies key_lt(#[trigger] r[i].0, #[trigger] r[j].0) by {
            assert(r[j] == m[j]);
            if i > 0 {
                assert(r[i] == m[i]);
            }
        }
        assert forall|j: int| 0 <= j < r.len() implies #[trigger] r[j].0 == k || exists|q: int|
            0 <= q < m.len() && m[q].0 == r[j].0 by {
            if j > 0 {
                assert(r[j] == m[j]);
            }
        }
    } else if key_lt(k, m[0].0) {
        assert forall|i: int, j: int| 0 <= i < j < r.len() implies key_lt(#[trigger] r[i].0, #[trigger] r[j].0) by {
            assert(r[j] == m[j - 1]);
            if i > 0 {
                assert(r[i] == m[i - 1]);
            } else if j > 1 {
                lemma_key_lt_trans(k, m[0].0, m[j - 1].0);
            }
        }
        assert forall|j: int| 0 <= j < r.len() implies #[trigger] r[j].0 == k || exists|q: int|
            0 <= q < m.len() && m[q].0 == r[j].0 by {
            if j > 0 {
                assert(r[j] == m[j - 1]);
            }
        }
    } else {
        let rest = m.drop_first();
        assert(sorted_keys(rest)) by {
            assert forall|i: int, j: int| 0 <= i < j < rest.len() implies key_lt(#[trigger] rest[i].0, #[trigger] rest[j].0) by {
                assert(rest[i] == m[i + 1]);
                assert(rest[j] == m[j + 1]);
            }
        }
        lemma_dict_insert_sorted(rest, k, v);
        let t = dict_insert(rest, k, v);
        assert(r == seq![m[0]] + t);
        lemma_key_lt_total(m[0].0, k);
        assert forall|j: int| 0 <= j < t.len() implies key_lt(m[0].0, #[trigger] t[j].0) by {
            if t[j].0 != k {
                let q = choose|q: int| 0 <= q < rest.len() && rest[q].0 == t[j].0;
                assert(rest[q] == m[q + 1]);
            }
        }
        assert forall|i: int, j: int| 0 <= i < j < r.len() implies key_lt(#[trigger] r[i].0, #[trigger] r[j].0) by {
            assert(r[j] == t[j - 1]);
            if i > 0 {
                assert(r[i] == t[i - 1]);
            }
        }
        assert forall|j: int| 0 <= j < r.len() implies #[trigger] r[j].0 == k || exists|q: int|
            0 <= q < m.len() && m[q].0 == r[j].0 by {
            if j > 0 {
                assert(r[j] == t[j - 1]);
                if t[j - 1].0 != k {
                    let q = choose|q: int| 0 <= q < rest.len() && rest[q].0 == t[j - 1].0;
                    assert(rest[q] == m[q + 1]);
                }
            } else {
                assert(m[0].0 == r[0].0);
            }
        }
    }
}

/// Removing an entry keeps keys sorted.
pub proof fn lemma_remove_sorted<V>(m: Seq<(Seq<char>, V)>)
    ensures
        forall|i: int| 0 <= i < m.len() && sorted_keys(m) ==> sorted_keys(#[trigger] m.remove(i)),
{
    assert forall|i: int| 0 <= i < m.len() && sorted_keys(m) implies sorted_keys(#[trigger] m.remove(i)) by {
        let r = m.remove(i);
        assert forall|a: int, b: int| 0 <= a < b < r.len() implies key_lt(#[trigger] r[a].0, #[trigger] r[b].0) by {
            let a2 = if a < i { a } else { a + 1 };
            let b2 = if b < i { b } else { b + 1 };
            assert(r[a] == m[a2]);
            assert(r[b] == m[b2]);
        }
    }
}

/// Storing under a key keeps a table's keys sorted and unique: what every
/// dictionary built by `insert` from an empty one has.
pub proof fn law_dict_put_keeps_order<V>(m: Seq<(Seq<char>, V)>, k: Seq<char>, v: V)
    requires
        sorted_keys(m),
    ensures
        sorted_keys(dict_put(m, k, v)),
{
    lemma_dict_find_from_bound(m, k, 0);
    match dict_find(m, k) {
        Some(i) => {
            let r = m.update(i, (k, v));
            assert forall|a: int, b: int| 0 <= a < b < r.len() implies key_lt(#[trigger] r[a].0, #[trigger] r[b].0) by {
                assert(r[a].0 == m[a].0);
                assert(r[b].0 == m[b].0);
            }
        },
        None => {
            lemma_dict_insert_sorted(m, k, v);
        },
    }
}

/// Two tables with the same keys in the same places find every key alike.
pub proof fn lemma_dict_find_same_keys<V>(m1: Seq<(Seq<char>, V)>, m2: Seq<(Seq<char>, V)>, k: Seq<char>, i: int)
    requires
        m1.len() == m2.len(),
        forall|j: int| 0 <= j < m1.len() ==> (#[trigger] m1[j]).0 == m2[j].0,
    ensures
        dict_find_from(m1, k, i) == dict_find_from(m2, k, i),
    decreases m1.len() - i,
{
    if !(i < 0 || i >= m1.len()) {
        assert(m1[i].0 == m2[i].0);
        lemma_dict_find_same_keys(m1, m2, k, i + 1);
    }
}

pub proof fn lemma_dict_find_from_bound<V>(m: Seq<(Seq<char>, V)>, k: Seq<char>, i: int)
    ensures
        dict_find_from(m, k, i) matches Some(j) ==> i <= j < m.len() && m[j].0 == k,
        dict_find_from(m, k, i) is None ==> forall|j: int| i <= j < m.len() && 0 <= i ==> m[j].0 != k,
    decreases m.len() - i,
{
    if !(i < 0 || i >= m.len()) && m[i].0 != k {
        lemma_dict_find_from_bound(m, k, i + 1);
    }
}

pub proof fn lemma_dict_find_shift<V>(m: Seq<(Seq<char>, V)>, k: Seq<char>, i: int)
    requires
        0 <= i < m.len(),
    ensures
        dict_find_from(m, k, i + 1) == match dict_find_from(m.drop_first(), k, i) {
            Some(j) => Some(j + 1),
            None => None,
        },
    decreases m.len() - i,
{
    if i + 1 < m.len() && m[i + 1].0 != k {
        lemma_dict_find_shift(m, k, i + 1);
    }
}

pub proof fn lemma_dict_insert_split<V>(m: Seq<(Seq<char>, V)>, k: Seq<char>, v: V, i: int)
    requires
        0 <= i <= m.len(),
        forall|j: int| 0 <= j < i ==> m[j].0 != k && !key_lt(k, #[trigger] m[j].0),
    ensures
        dict_insert(m, k, v) == m.take(i) + dict_insert(m.skip(i), k, v),
    decreases i,
{
    if i == 0 {
        assert(m.skip(0) =~= m);
        assert(m.take(0) + dict_insert(m, k, v) =~= dict_insert(m, k, v));
    } else {
        let t = m.drop_first();
        assert forall|j: int| 0 <= j < i - 1 implies t[j].0 != k && !key_lt(k, #[trigger] t[j].0) by {
            assert(t[j] == m[j + 1]);
        }
        lemma_dict_insert_split(t, k, v, i - 1);
        assert(t.skip(i - 1) =~= m.skip(i));
        assert(m.take(i) =~= seq![m[0]] + t.take(i - 1));
        assert(m[0].0 != k && !key_lt(k, m[0].0));
        assert(dict_insert(m, k, v) == seq![m[0]] + dict_insert(t, k, v));
        assert(seq![m[0]] + (t.take(i - 1) + dict_insert(m.skip(i), k, v)) =~= m.take(i) + dict_insert(m.skip(i), k, v));
    }
}

/// What was written under a key reads back, and no other key changes:
/// `get(insert(m, k, v), k) == Some(v)` and `get(insert(m, k, v), k2) ==
/// get(m, k2)` for `k2 != k`.
pub proof fn law_dict_insert_get<V>(m: Seq<(Seq<char>, V)>, k: Seq<char>, v: V, k2: Seq<char>)
    ensures
        dict_get(dict_insert(m, k, v), k) == Some(v),
        k2 != k ==> dict_get(dict_insert(m, k, v), k2) == dict_get(m, k2),
    decreases m.len(),
{
    let r = dict_insert(m, k, v);
    if m.len() == 0 {
        assert(r[0] == (k, v));
        assert(dict_find_from(r, k, 0) == Some(0int));
        if k2 != k {
            assert(dict_find_from(r, k2, 1) is None);
            assert(dict_find_from(m, k2, 0) is None);
        }
    } else if m[0].0 == k {
        assert(r[0] == (k, v));
        assert(dict_find_from(r, k, 0) == Some(0int));
        if k2 != k {
            lemma_dict_find_shift(r, k2, 0);
            lemma_dict_find_shift(m, k2, 0);
            assert(r.drop_first() =~= m.drop_first());
            lemma_dict_find_from_bound(m.drop_first(), k2, 0);
            if let Some(j) = dict_find_from(m.drop_first(), k2, 0) {
                assert(r[j + 1] == m[j + 1]);
            }
        }
    } else if key_lt(k, m[0].0) {
        assert(r[0] == (k, v));
        assert(dict_find_from(r, k, 0) == Some(0int));
        if k2 != k {
            lemma_dict_find_shift(r, k2, 0);
            assert(r.drop_first() =~= m);
            lemma_dict_find_from_bound(m, k2, 0);
            if let Some(j) = dict_find_from(m, k2, 0) {
                assert(r[j + 1] == m[j]);
            }
        }
    } else {
        let t = m.drop_first();
        law_dict_insert_get(t, k, v, k2);
        let r2 = dict_insert(t, k, v);
        assert(r =~= seq![m[0]] + r2);
        assert(r.drop_first() =~= r2);
        assert(r[0] == m[0]);
        lemma_dict_find_shift(r, k, 0);
        lemma_dict_find_from_bound(r2, k, 0);
        if k2 != k {
            lemma_dict_find_shift(r, k2, 0);
            lemma_dict_find_shift(m, k2, 0);
            lemma_dict_find_from_bound(r2, k2, 0);
            lemma_dict_find_from_bound(t, k2, 0);
            if m[0].0 != k2 {
                if let Some(j) = dict_find_from(r2, k2, 0) {
                    assert(r[j + 1] == r2[j]);
                }
                if let Some(j) = dict_find_from(t, k2, 0) {
                    assert(m[j + 1] == t[j]);
                }
            }
        }
    }
}

proof fn lemma_insert_put<V>(m: Seq<(Seq<char>, V)>, k: Seq<char>, a: V, b: V)
    ensures
        dict_put(dict_insert(m, k, a), k, b) == dict_insert(m, k, b),
    decreases m.len(),
{
    let r = dict_insert(m, k, a);
    if m.len() == 0 || m[0].0 == k || key_lt(k, m[0].0) {
        assert(r[0] == (k, a));
        assert(dict_find_from(r, k, 0) == Some(0int));
        assert(r.update(0, (k, b)) =~= dict_insert(m, k, b));
    } else {
        let t = m.drop_first();
        lemma_insert_put(t, k, a, b);
        let r2 = dict_insert(t, k, a);
        assert(r =~= seq![m[0]] + r2);
        assert(r.drop_first() =~= r2);
        law_dict_insert_get(t, k, a, k);
        lemma_dict_find_shift(r, k, 0);
        lemma_dict_find_from_bound(r2, k, 0);
        let j = dict_find_from(r2, k, 0)->Some_0;
        assert(dict_find(r, k) == Some(j + 1));
        assert(r.update(j + 1, (k, b)) =~= seq![m[0]] + r2.update(j, (k, b)));
    }
}

/// Putting twice under one key keeps the second value only.
pub proof fn lemma_put_put<V>(m: Seq<(Seq<char>, V)>, k: Seq<char>, a: V, b: V)
    ensures
        dict_put(dict_put(m, k, a), k, b) == dict_put(m, k, b),
{
    lemma_dict_find_from_bound(m, k, 0);
    match dict_find(m, k) {
        Some(i) => {
            let r = m.update(i, (k, a));
            assert forall|j: int| 0 <= j < r.len() implies (#[trigger] r[j]).0 == m[j].0 by {}
            lemma_dict_find_same_keys(r, m, k, 0);
            assert(r.update(i, (k, b)) =~= m.update(i, (k, b)));
        },
        None => {
            lemma_insert_put(m, k, a, b);
        },
    }
}

/// What was put under a key reads back, and no other key changes:
/// `get(put(m, k, v), k) == Some(v)` and `get(put(m, k, v), k2) ==
/// get(m, k2)` for `k2 != k`.
pub proof fn law_dict_put_get<V>(m: Seq<(Seq<char>, V)>, k: Seq<char>, v: V, k2: Seq<char>)
    ensures
        dict_get(dict_put(m, k, v), k) == Some(v),
        k2 != k ==> dict_get(dict_put(m, k, v), k2) == dict_get(m, k2),
{
    lemma_dict_find_from_bound(m, k, 0);
    match dict_find(m, k) {
        Some(i) => {
            let r = m.update(i, (k, v));
            assert forall|j: int| 0 <= j < r.len() implies (#[trigger] r[j]).0 == m[j].0 by {}
            lemma_dict_find_same_keys(r, m, k, 0);
            lemma_dict_find_same_keys(r, m, k2, 0);
            lemma_dict_find_from_bound(m, k2, 0);
        },
        None => {
            law_dict_insert_get(m, k, v, k2);
        },
    }
}


// ── Key tables ──────────────────────────────────────────────────────────────

/// `insert` on a key table: an existing key gets the new value in place; a
/// new key goes at the end.
pub open spec fn table_put<V>(m: Seq<(Seq<char>, V)>, k: Seq<char>, v: V) -> Seq<(Seq<char>, V)> {
    match dict_find(m, k) {
        Some(i) => m.update(i, (k, v)),
        None => m.push((k, v)),
    }
}

/// No key occurs twice.
pub open spec fn unique_keys<V>(m: Seq<(Seq<char>, V)>) -> bool {
    forall|i: int, j: int| 0 <= i < j < m.len() ==> (#[trigger] m[i]).0 != (#[trigger] m[j]).0
}

/// Storing under a key keeps a table's keys unique.
pub proof fn lemma_table_put_unique<V>(m: Seq<(Seq<char>, V)>, k: Seq<char>, v: V)
    ensures
        unique_keys(m) ==> unique_keys(table_put(m, k, v)),
{
    lemma_dict_find_from_bound(m, k, 0);
    let r = table_put(m, k, v);
    if unique_keys(m) {
        match dict_find(m, k) {
            Some(i) => {
                assert forall|a: int, b: int| 0 <= a < b < r.len() implies (#[trigger] r[a]).0 != (#[trigger] r[b]).0 by {
                    assert(r[a].0 == m[a].0);
                    assert(r[b].0 == m[b].0);
                }
            },
            None => {
                assert forall|a: int, b: int| 0 <= a < b < r.len() implies (#[trigger] r[a]).0 != (#[trigger] r[b]).0 by {
                    assert(r[a] == m[a]);
                    if b < m.len() {
                        assert(r[b] == m[b]);
                    }
                }
            },
        }
    }
}

/// A string-keyed table kept in insertion order.
#[derive(Debug)]
pub struct KeyMap<V> {
    pub entries: Vec<(String, V)>,
}

impl<V> KeyMap<V> {
    pub open spec fn model(self) -> Seq<(Seq<char>, V)> {
        Seq::new(self.entries@.len(), |i: int| (self.entries@[i].0@, self.entries@[i].1))
    }

    /// Well-formed: no key occurs twice.
    pub open spec fn wf(self) -> bool {
        unique_keys(self.model())
    }

    pub fn new() -> (m: KeyMap<V>)
        ensures
            m.model() == Seq::<(Seq<char>, V)>::empty(),
            m.wf(),
    {
        let m = KeyMap { entries: Vec::new() };
        assert(m.model() =~= Seq::<(Seq<char>, V)>::empty());
        m
    }

    pub fn len(&self) -> (n: usize)
        ensures
            n == self.model().len(),
    {
        self.entries.len()
    }

    pub fn is_empty(&self) -> (r: bool)
        ensures
            r == (self.model().len() == 0),
    {
        self.entries.len() == 0
    }

    pub fn key_at(&self, i: usize) -> (k: &String)
        requires
            i < self.model().len(),
        ensures
            k@ == self.model()[i as int].0,
    {
        &self.entries[i].0
    }

    pub fn value_at(&self, i: usize) -> (v: &V)
        requires
            i < self.model().len(),
        ensures
            *v == self.model()[i as int].1,
    {
        &self.entries[i].1
    }

    /// Position of `key`, if present.
    pub fn find(&self, key: &[char]) -> (r: Option<usize>)
        ensures
            (r is Some) == (dict_find(self.model(), key@) is Some),
            r matches Some(i) ==> dict_find(self.model(), key@) == Some(i as int) && i < self.model().len(),
    {
        proof {
            lemma_dict_find_from_bound(self.model(), key@, 0);
        }
        let mut i: usize = 0;
        while i < self.entries.len()
            invariant
                i <= self.entries@.len(),
                dict_find(self.model(), key@) == dict_find_from(self.model(), key@, i as int),
            decreases self.entries@.len() - i,
        {
            let k = chars_of(&self.entries[i].0);
            if seq_eq(k.as_slice(), key) {
                return Some(i);
            }
            i = i + 1;
        }
        None
    }

    /// `HashMap::get`.
    pub fn get(&self, key: &str) -> (r: Option<&V>)
        ensures
            match dict_get(self.model(), key@) {
                Some(v) => r is Some && *r->0 == v,
                None => r is None,
            },
    {
        let k = to_chars(key);
        proof {
            lemma_dict_find_from_bound(self.model(), k@, 0);
        }
        match self.find(k.as_slice()) {
            Some(i) => Some(&self.entries[i].1),
            None => None,
        }
    }

    /// `HashMap::contains_key`.
    pub fn contains_key(&self, key: &str) -> (r: bool)
        ensures
            r == (dict_get(self.model(), key@) is Some),
    {
        let k = to_chars(key);
        self.find(k.as_slice()).is_some()
    }

    /// `HashMap::insert`.
    pub fn insert(&mut self, key: String, value: V)
        ensures
            final(self).model() == table_put(old(self).model(), key@, value),
            old(self).wf() ==> final(self).wf(),
    {
        proof {
            lemma_table_put_unique(old(self).model(), key@, value);
        }
        let k = chars_of(&key);
        let ghost m = self.model();
        let ghost before = self.entries@;
        match self.find(k.as_slice()) {
            Some(i) => {
                proof {
                    lemma_dict_find_from_bound(m, k@, 0);
                }
                self.entries.set(i, (key, value));
                assert forall|j: int| 0 <= j < self.model().len() implies #[trigger] self.model()[j]
                    == m.update(i as int, (k@, value))[j] by {
                    if j != i {
                        assert(self.entries@[j] == before[j]);
                    }
                }
                assert(self.model() =~= m.update(i as int, (k@, value)));
            },
            None => {
                self.entries.push((key, value));
                assert forall|j: int| 0 <= j < self.model().len() implies #[trigger] self.model()[j]
                    == m.push((k@, value))[j] by {
                    if j < m.len() {
                        assert(self.entries@[j] == before[j]);
                    }
                }
                assert(self.model() =~= m.push((k@, value)));
            },
        }
    }
}

/// What was put under a key reads back, and no other key changes.
pub proof fn law_table_put_get<V>(m: Seq<(Seq<char>, V)>, k: Seq<char>, v: V, k2: Seq<char>)
    ensures
        dict_get(table_put(m, k, v), k) == Some(v),
        k2 != k ==> dict_get(table_put(m, k, v), k2) == dict_get(m, k2),
{
    lemma_dict_find_from_bound(m, k, 0);
    lemma_dict_find_from_bound(m, k2, 0);
    match dict_find(m, k) {
        Some(i) => {
            let r = m.update(i, (k, v));
            assert forall|j: int| 0 <= j < r.len() implies (#[trigger] r[j]).0 == m[j].0 by {}
            lemma_dict_find_same_keys(r, m, k, 0);
            lemma_dict_find_same_keys(r, m, k2, 0);
        },
        None => {
            let r = m.push((k, v));
            let p = r.take(m.len() as int);
            assert(p =~= m);
            lemma_dict_find_prefix(r, m.len() as int, k, 0);
            lemma_dict_find_prefix(r, m.len() as int, k2, 0);
            lemma_dict_find_from_bound(r, k, m.len() as int);
            lemma_dict_find_from_bound(r, k2, m.len() as int);
            assert(dict_find_from(r, k, m.len() as int) == Some(m.len() as int));
            if k2 != k {
                assert(dict_find_from(r, k2, m.len() + 1int) is None);
            }
        },
    }
}

/// Finding in a table whose first `n` entries are those of another: a key
/// found among them is found at the same place.
pub proof fn lemma_dict_find_prefix<V>(r: Seq<(Seq<char>, V)>, n: int, k: Seq<char>, i: int)
    requires
        0 <= i <= n <= r.len(),
    ensures
        dict_find_from(r, k, i) == match dict_find_from(r.take(n), k, i) {
            Some(j) => Some(j),
            None => dict_find_from(r, k, n),
        },
    decreases n - i,
{
    if i < n {
        assert(r.take(n)[i] == r[i]);
        if r[i].0 != k {
            lemma_dict_find_prefix(r, n, k, i + 1);
        }
    }
}

// ── Deep copy ────────────────────────────────────────────────────────────────

pub fn clone_value(v: &Value) -> (r: Value)
    ensures
        r.model() == v.model(),
    decreases v,
{
    broadcast use vstd::std_specs::vec::group_vec_axioms;

    match v {
        Value::Null => Value::Null,
        Value::Bool(b) => Value::Bool(*b),
        Value::Integer(n) => Value::Integer(*n),
        Value::Float(f) => Value::Float(*f),
        Value::String(s) => Value::String(s.clone()),
        Value::Array(xs) => {
            let mut out: Vec<Value> = Vec::new();
            let mut i: usize = 0;
            while i < xs.len()
                invariant
                    *v == Value::Array(*xs),
                    i <= xs@.len(),
                    out@.len() == i,
                    forall|j: int| 0 <= j < i ==> #[trigger] out@[j].model() == xs@[j].model(),
                decreases xs@.len() - i,
            {
                proof {
                    assert(decreases_to!(v => v->Array_0));
                    assert(decreases_to!(v->Array_0 => v->Array_0[i as int]));
                }
                out.push(clone_value(&xs[i]));
                i = i + 1;
            }
            let ghost outv = out@;
            let r = Value::Array(out);
            proof {
                let a = r.model()->Array_0;
                let b = v.model()->Array_0;
                assert(a.len() == b.len());
                assert forall|j: int| 0 <= j < a.len() implies a[j] == b[j] by {
                    assert(a[j] == outv[j].model());
                    assert(b[j] == xs@[j].model());
                }
                assert(a =~= b);
            }
            r
        },
        Value::Dict(d) => {
            let mut out: Vec<(String, Value)> = Vec::new();
            let mut i: usize = 0;
            while i < d.entries.len()
                invariant
                    *v == Value::Dict(*d),
                    i <= d.entries@.len(),
                    out@.len() == i,
                    forall|j: int|
                        0 <= j < i ==> #[trigger] out@[j].0@ == d.entries@[j].0@ && out@[j].1.model()
                            == d.entries@[j].1.model(),
                decreases d.entries@.len() - i,
            {
                proof {
                    assert(decreases_to!(v => v->Dict_0));
                    assert(decreases_to!(v->Dict_0 => v->Dict_0.entries));
                    assert(decreases_to!(v->Dict_0.entries => v->Dict_0.entries[i as int]));
                    assert(decreases_to!(v->Dict_0.entries[i as int] => v->Dict_0.entries[i as int].1));
                }
                let k = d.entries[i].0.clone();
                let x = clone_value(&d.entries[i].1);
                out.push((k, x));
                i = i + 1;
            }
            let nd = Dict { entries: out };
            assert(nd.model() =~= d.model());
            let r = Value::Dict(nd);
            assert(r.model() == v.model());
            r
        },
    }
}

impl Clone for Value {
    fn clone(&self) -> (r: Self)
        ensures
            r.model() == self.model(),
    {
        clone_value(self)
    }
}

impl Clone for Dict {
    fn clone(&self) -> (r: Self)
        ensures
            r.model() == self.model(),
    {
        self.clone_entries()
    }
}

impl Dict {
    fn clone_entries(&self) -> (r: Dict)
        ensures
            r.model() == self.model(),
    {
        let mut out: Vec<(String, Value)> = Vec::new();
        let mut i: usize = 0;
        while i < self.entries.len()
            invariant
                i <= self.entries@.len(),
                out@.len() == i,
                forall|j: int|
                    0 <= j < i ==> #[trigger] out@[j].0@ == self.entries@[j].0@ && out@[j].1.model()
                        == self.entries@[j].1.model(),
            decreases self.entries@.len() - i,
        {
            let k = self.entries[i].0.clone();
            let x = clone_value(&self.entries[i].1);
            out.push((k, x));
            i = i + 1;
        }
        let r = Dict { entries: out };
        assert(r.model() =~= self.model());
        r
    }
}

// ── Helpers used by the validator, dumper and editor features ───────────────

/// The type names reported in diagnostics and hovers.
pub open spec fn type_name_of(v: ValueModel) -> Seq<char> {
    match v {
        ValueModel::Null => "null"@,
        ValueModel::Bool(_) => "bool"@,
        ValueModel::Integer(_) => "int"@,
        ValueModel::Float(_) => "float"@,
        ValueModel::Str(_) => "string"@,
        ValueModel::Array(_) => "list"@,
        ValueModel::Dict(_) => "dict"@,
    }
}

/// `null`, the empty string, the empty list and the empty dict.
pub open spec fn empty_like(v: ValueModel) -> bool {
    match v {
        ValueModel::Null => true,
        ValueModel::Str(s) => s.len() == 0,
        ValueModel::Array(a) => a.len() == 0,
        ValueModel::Dict(d) => d.len() == 0,
        _ => false,
    }
}

impl Value {
    pub fn type_label(&self) -> (s: String)
        ensures
            s@ == type_name_of(self.model()),
    {
        let t = match self {
            Value::Null => "null",
            Value::Bool(_) => "bool",
            Value::Integer(_) => "int",
            Value::Float(_) => "float",
            Value::String(_) => "string",
            Value::Array(_) => "list",
            Value::Dict(_) => "dict",
        };
        let c = to_chars(t);
        string_from(c.as_slice())
    }

    pub fn is_empty_like(&self) -> (r: bool)
        ensures
            r == empty_like(self.model()),
    {
        match self {
            Value::Null => true,
            Value::String(s) => chars_of(s).len() == 0,
            Value::Array(a) => a.len() == 0,
            Value::Dict(d) => {
                proof {
                    d.lemma_model();
                }
                d.len() == 0
            },
            _ => false,
        }
    }
}

} // verus!

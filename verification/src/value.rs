//! Structured values: what variables, outputs and defaults are made of.

use vstd::prelude::*;

verus! {

/// A number as the document held it. `Float` carries the IEEE 754 bits of
/// a double, so that a value passes through unchanged.
#[derive(Clone, Copy, Debug, PartialEq, Eq, Structural)]
pub enum Number {
    PosInt(u64),
    NegInt(i64),
    Float(u64),
}

/// A structured value. A mapping is an association list: the first entry
/// with a key is the one that counts.
#[derive(Debug, PartialEq)]
pub enum Value {
    Null,
    Bool(bool),
    Number(Number),
    String(String),
    Sequence(Vec<Value>),
    Mapping(Vec<(String, Value)>),
}

/// The mathematical content of a `Value`.
pub enum ValueModel {
    Null,
    Bool(bool),
    Number(Number),
    String(Seq<char>),
    Sequence(Seq<ValueModel>),
    Mapping(Seq<(Seq<char>, ValueModel)>),
}

/// An association list from names to `M`.
pub type Dict<M> = Seq<(Seq<char>, M)>;

impl DeepView for Number {
    type V = Number;

    open spec fn deep_view(&self) -> Number {
        *self
    }
}

/// The mathematical content of `v`.
pub open spec fn value_model(v: Value) -> ValueModel
    decreases v,
{
    match v {
        Value::Null => ValueModel::Null,
        Value::Bool(b) => ValueModel::Bool(b),
        Value::Number(x) => ValueModel::Number(x),
        Value::String(s) => ValueModel::String(s@),
        Value::Sequence(items) => ValueModel::Sequence(
            Seq::new(
                items@.len(),
                |i: int|
                    {
                        if 0 <= i < items@.len() {
                            proof {
                                vstd::std_specs::vec::axiom_vec_index_decreases(items, i);
                            }
                            value_model(items[i])
                        } else {
                            ValueModel::Null
                        }
                    },
            ),
        ),
        Value::Mapping(entries) => ValueModel::Mapping(
            Seq::new(
                entries@.len(),
                |i: int|
                    {
                        if 0 <= i < entries@.len() {
                            proof {
                                vstd::std_specs::vec::axiom_vec_index_decreases(entries, i);
                            }
                            (entries[i].0@, value_model(entries[i].1))
                        } else {
                            (Seq::empty(), ValueModel::Null)
                        }
                    },
            ),
        ),
    }
}

impl DeepView for Value {
    type V = ValueModel;

    open spec fn deep_view(&self) -> ValueModel {
        value_model(*self)
    }
}

/// The model of a sequence value is the model of its items, and the model
/// of a mapping value that of its entries.
pub proof fn lemma_value_parts(v: Value)
    ensures
        v matches Value::Sequence(items) ==> v.deep_view() == ValueModel::Sequence(
            items.deep_view(),
        ),
        v matches Value::Mapping(entries) ==> v.deep_view() == ValueModel::Mapping(
            entries.deep_view(),
        ),
{
    match v {
        Value::Sequence(items) => {
            let a = v.deep_view()->Sequence_0;
            let b = items.deep_view();
            assert(a.len() == b.len());
            assert forall|i: int| 0 <= i < a.len() implies a[i] == b[i] by {
                assert(b[i] == items@[i].deep_view());
            }
            assert(a =~= b);
        },
        Value::Mapping(entries) => {
            let a = v.deep_view()->Mapping_0;
            let b = entries.deep_view();
            assert(a.len() == b.len());
            assert forall|i: int| 0 <= i < a.len() implies a[i] == b[i] by {
                assert(b[i] == entries@[i].deep_view());
            }
            assert(a =~= b);
        },
        _ => {},
    }
}

/// Types that can be copied so that the copy has the same mathematical
/// content.
pub trait Duplicate: DeepView + Sized {
    fn duplicate(&self) -> (res: Self)
        ensures
            res.deep_view() == self.deep_view(),
    ;
}

impl Duplicate for String {
    fn duplicate(&self) -> (res: String) {
        self.clone()
    }
}

impl Duplicate for bool {
    fn duplicate(&self) -> (res: bool) {
        *self
    }
}

impl Duplicate for Number {
    fn duplicate(&self) -> (res: Number) {
        *self
    }
}

impl<A: Duplicate, B: Duplicate> Duplicate for (A, B) {
    fn duplicate(&self) -> (res: (A, B)) {
        (self.0.duplicate(), self.1.duplicate())
    }
}

impl<T: Duplicate> Duplicate for Option<T> {
    fn duplicate(&self) -> (res: Option<T>) {
        match self {
            Some(x) => Some(x.duplicate()),
            None => None,
        }
    }
}

impl<T: Duplicate> Duplicate for Vec<T> {
    fn duplicate(&self) -> (res: Vec<T>) {
        let mut out: Vec<T> = Vec::new();
        let mut i: usize = 0;
        while i < self.len()
            invariant
                i <= self@.len(),
                out@.len() == i,
                forall|j: int| 0 <= j < i ==> out@[j].deep_view() == self@[j].deep_view(),
            decreases self@.len() - i,
        {
            out.push(self[i].duplicate());
            i += 1;
        }
        assert(out.deep_view() =~= self.deep_view());
        out
    }
}

impl Value {
    /// A copy of this value.
    #[verifier::loop_isolation(false)]
    pub fn duplicate_value(&self) -> (res: Value)
        ensures
            res.deep_view() == self.deep_view(),
        decreases self,
    {
        match self {
            Value::Null => Value::Null,
            Value::Bool(b) => Value::Bool(*b),
            Value::Number(x) => Value::Number(*x),
            Value::String(s) => Value::String(s.clone()),
            Value::Sequence(v) => {
                let mut out: Vec<Value> = Vec::new();
                let mut i: usize = 0;
                while i < v.len()
                    invariant
                        i <= v@.len(),
                        out@.len() == i,
                        forall|j: int| 0 <= j < i ==> out@[j].deep_view() == v@[j].deep_view(),
                    decreases v@.len() - i,
                {
                    proof {
                        vstd::std_specs::vec::axiom_vec_index_decreases(*v, i as int);
                    }
                    out.push(v[i].duplicate_value());
                    i += 1;
                }
                let res = Value::Sequence(out);
                assert(res.deep_view()->Sequence_0 =~= self.deep_view()->Sequence_0);
                res
            },
            Value::Mapping(m) => {
                let mut out: Vec<(String, Value)> = Vec::new();
                let mut i: usize = 0;
                while i < m.len()
                    invariant
                        i <= m@.len(),
                        out@.len() == i,
                        forall|j: int|
                            0 <= j < i ==> out@[j].0@ == m@[j].0@ && out@[j].1.deep_view()
                                == m@[j].1.deep_view(),
                    decreases m@.len() - i,
                {
                    proof {
                        vstd::std_specs::vec::axiom_vec_index_decreases(*m, i as int);
                    }
                    out.push((m[i].0.clone(), m[i].1.duplicate_value()));
                    i += 1;
                }
                let res = Value::Mapping(out);
                assert(res.deep_view()->Mapping_0 =~= self.deep_view()->Mapping_0);
                res
            },
        }
    }
}

impl Duplicate for Value {
    fn duplicate(&self) -> (res: Value) {
        self.duplicate_value()
    }
}

impl Clone for Value {
    fn clone(&self) -> (res: Value)
        ensures
            res.deep_view() == self.deep_view(),
    {
        self.duplicate_value()
    }
}

/// The position of the first entry of `entries` whose key is `key`.
pub open spec fn key_index<M>(entries: Dict<M>, key: Seq<char>) -> Option<int>
    decreases entries.len(),
{
    if entries.len() == 0 {
        None
    } else {
        match key_index(entries.drop_last(), key) {
            Some(i) => Some(i),
            None => if entries.last().0 == key {
                Some(entries.len() - 1)
            } else {
                None
            },
        }
    }
}

/// What `entries` holds under `key`.
pub open spec fn lookup<M>(entries: Dict<M>, key: Seq<char>) -> Option<M> {
    match key_index(entries, key) {
        Some(i) => Some(entries[i].1),
        None => None,
    }
}

/// `entries` with `key` bound to `value`: in place where the key is
/// present, at the end where it is not.
pub open spec fn upsert<M>(entries: Dict<M>, key: Seq<char>, value: M) -> Dict<M> {
    match key_index(entries, key) {
        Some(i) => entries.update(i, (key, value)),
        None => entries.push((key, value)),
    }
}

/// No key occurs twice.
pub open spec fn distinct_keys<M>(entries: Dict<M>) -> bool {
    forall|i: int, j: int|
        0 <= i < j < entries.len() ==> (#[trigger] entries[i]).0 != (#[trigger] entries[j]).0
}

/// `key_index` finds the first entry with the key, and nothing where there
/// is none.
pub proof fn lemma_key_index<M>(entries: Dict<M>, key: Seq<char>)
    ensures
        match key_index(entries, key) {
            Some(i) => {
                &&& 0 <= i < entries.len()
                &&& entries[i].0 == key
                &&& forall|j: int| 0 <= j < i ==> (#[trigger] entries[j]).0 != key
            },
            None => forall|j: int| 0 <= j < entries.len() ==> (#[trigger] entries[j]).0 != key,
        },
    decreases entries.len(),
{
    if entries.len() > 0 {
        lemma_key_index(entries.drop_last(), key);
        let front = entries.drop_last();
        match key_index(front, key) {
            Some(i) => {
                assert(front[i] == entries[i]);
                assert forall|j: int| 0 <= j < i implies (#[trigger] entries[j]).0 != key by {
                    assert(front[j] == entries[j]);
                }
            },
            None => {
                assert forall|j: int| 0 <= j < entries.len() - 1 implies (#[trigger] entries[j]).0
                    != key by {
                    assert(front[j] == entries[j]);
                }
            },
        }
    }
}

/// The position of the first entry with the given key.
pub fn find_key<V: DeepView>(entries: &Vec<(String, V)>, key: &String) -> (res: Option<usize>)
    ensures
        match res {
            Some(i) => key_index(entries.deep_view(), key@) == Some(i as int) && i < entries@.len(),
            None => key_index(entries.deep_view(), key@) is None,
        },
{
    let ghost model = entries.deep_view();
    let mut i: usize = 0;
    while i < entries.len()
        invariant
            i <= entries@.len(),
            model == entries.deep_view(),
            forall|j: int| 0 <= j < i ==> (#[trigger] model[j]).0 != key@,
        decreases entries@.len() - i,
    {
        if entries[i].0 == *key {
            proof {
                lemma_key_index(model, key@);
                assert(model[i as int].0 == key@);
            }
            return Some(i);
        }
        i += 1;
    }
    proof {
        lemma_key_index(model, key@);
    }
    None
}

/// Binds `key` to `value`: in place where the key is present, at the end
/// where it is not.
pub fn upsert_entry<V: DeepView>(entries: &mut Vec<(String, V)>, key: String, value: V)
    ensures
        final(entries).deep_view() == upsert(old(entries).deep_view(), key@, value.deep_view()),
{
    let ghost before = entries.deep_view();
    let ghost k = key@;
    let ghost v = value.deep_view();
    match find_key(entries, &key) {
        Some(i) => {
            entries.set(i, (key, value));
            assert(entries.deep_view() =~= before.update(i as int, (k, v)));
        },
        None => {
            entries.push((key, value));
            assert(entries.deep_view() =~= before.push((k, v)));
        },
    }
}

/// The keys of an association list.
pub open spec fn keys<M>(entries: Dict<M>) -> Seq<Seq<char>> {
    entries.map_values(|e: (Seq<char>, M)| e.0)
}

/// In an association list without repeated keys, each entry is the first
/// with its key.
pub proof fn lemma_distinct_key_index<M>(entries: Dict<M>, i: int)
    requires
        distinct_keys(entries),
        0 <= i < entries.len(),
    ensures
        key_index(entries, entries[i].0) == Some(i),
{
    lemma_key_index(entries, entries[i].0);
}

/// What a list holds under a key after a binding.
pub proof fn lemma_upsert_lookup<M>(entries: Dict<M>, key: Seq<char>, value: M, other: Seq<char>)
    ensures
        lookup(upsert(entries, key, value), other) == if other == key {
            Some(value)
        } else {
            lookup(entries, other)
        },
{
    let after = upsert(entries, key, value);
    lemma_key_index(entries, key);
    lemma_key_index(entries, other);
    lemma_key_index(after, other);
    match key_index(entries, key) {
        Some(i) => {
            assert forall|j: int| 0 <= j < after.len() implies (#[trigger] after[j]).0
                == entries[j].0 by {}
            if other == key {
                assert(after[i].0 == key);
                assert(entries[key_index(after, other)->0].0 == key);
            } else {
                match key_index(entries, other) {
                    Some(a) => {
                        assert(after[a].0 == other);
                        assert(entries[key_index(after, other)->0].0 == other);
                    },
                    None => {
                        if key_index(after, other) is Some {
                            assert(entries[key_index(after, other)->0].0 == other);
                        }
                    },
                }
            }
        },
        None => {
            let last = entries.len() as int;
            assert(after[last] == (key, value));
            if other == key {
                if key_index(after, other)->0 < last {
                    assert(entries[key_index(after, other)->0].0 == key);
                }
            } else {
                match key_index(entries, other) {
                    Some(a) => {
                        assert(after[a] == entries[a]);
                        if key_index(after, other)->0 < last {
                            assert(entries[key_index(after, other)->0].0 == other);
                        }
                    },
                    None => {
                        if key_index(after, other) is Some {
                            assert(key_index(after, other)->0 < last);
                            assert(entries[key_index(after, other)->0].0 == other);
                        }
                    },
                }
            }
        },
    }
}

/// Whether `items` holds `x`.
pub fn contains_string(items: &Vec<String>, x: &String) -> (res: bool)
    ensures
        res == items.deep_view().contains(x@),
{
    let ghost model = items.deep_view();
    let mut i: usize = 0;
    while i < items.len()
        invariant
            i <= items@.len(),
            model == items.deep_view(),
            forall|j: int| 0 <= j < i ==> model[j] != x@,
        decreases items@.len() - i,
    {
        if items[i] == *x {
            assert(model[i as int] == x@);
            return true;
        }
        i += 1;
    }
    false
}

} // verus!

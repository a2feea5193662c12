//! The value tree: tagged values, their mathematical model, and the
//! operations that build and read objects.

use crate::number::is_float_literal;
use vstd::prelude::*;
use vstd::std_specs::cmp::PartialEqSpecImpl;

verus! {

/// The mathematical model of a value: what a [`PklValue`] stands for in
/// contracts. Text is a sequence of characters, and an object is the
/// sequence of its entries, each a key with its value, in the order in
/// which the keys were first inserted.
pub enum ValueModel {
    String(Seq<char>),
    Integer(int),
    Float(Seq<char>),
    Boolean(bool),
    Object(Seq<(Seq<char>, ValueModel)>),
    Array(Seq<ValueModel>),
}

/// A configuration value.
///
/// `Float` keeps the floating-point literal as it was written, so that no
/// digit is lost; two floats are equal when their literals are the same
/// text. `Object` keeps its entries in the order in which their keys were
/// first inserted, and a key is looked up by going through them. No syntax
/// produces an `Array`.
#[derive(Debug)]
pub enum PklValue {
    String(String),
    Integer(i64),
    Float(String),
    Boolean(bool),
    Object(Vec<(String, PklValue)>),
    Array(Vec<PklValue>),
}

/// What a value stands for.
pub open spec fn model_of(v: PklValue) -> ValueModel
    decreases v,
{
    match v {
        PklValue::String(s) => ValueModel::String(s@),
        PklValue::Integer(n) => ValueModel::Integer(n as int),
        PklValue::Float(s) => ValueModel::Float(s@),
        PklValue::Boolean(b) => ValueModel::Boolean(b),
        PklValue::Object(entries) => ValueModel::Object(
            Seq::new(
                entries@.len(),
                |i: int|
                    if 0 <= i < entries@.len() {
                        (entries@[i].0@, model_of(entries@[i].1))
                    } else {
                        (Seq::empty(), ValueModel::Boolean(false))
                    },
            ),
        ),
        PklValue::Array(items) => ValueModel::Array(
            Seq::new(
                items@.len(),
                |i: int|
                    if 0 <= i < items@.len() {
                        model_of(items@[i])
                    } else {
                        ValueModel::Boolean(false)
                    },
            ),
        ),
    }
}

impl View for PklValue {
    type V = ValueModel;

    open spec fn view(&self) -> ValueModel {
        model_of(*self)
    }
}

/// What a list of entries stands for: each key's text with the model of
/// its value.
pub open spec fn entries_model(entries: Seq<(String, PklValue)>) -> Seq<(Seq<char>, ValueModel)> {
    Seq::new(entries.len(), |i: int| (entries[i].0@, entries[i].1@))
}

/// What a list of values stands for: the model of each.
pub open spec fn items_model(items: Seq<PklValue>) -> Seq<ValueModel> {
    Seq::new(items.len(), |i: int| items[i]@)
}

/// The index of the first entry whose key is `key`, or the number of
/// entries where no entry has that key.
pub open spec fn key_index(entries: Seq<(Seq<char>, ValueModel)>, key: Seq<char>) -> int
    decreases entries.len(),
{
    if entries.len() == 0 || entries[0].0 == key {
        0
    } else {
        1 + key_index(entries.drop_first(), key)
    }
}

/// Whether some entry has the key `key`.
pub open spec fn has_key(entries: Seq<(Seq<char>, ValueModel)>, key: Seq<char>) -> bool {
    key_index(entries, key) < entries.len()
}

/// The value under `key`, if an entry has that key.
pub open spec fn lookup(entries: Seq<(Seq<char>, ValueModel)>, key: Seq<char>) -> Option<
    ValueModel,
> {
    if has_key(entries, key) {
        Some(entries[key_index(entries, key)].1)
    } else {
        None
    }
}

/// The entries after `key` is set to `value`: the entry with that key gets
/// the new value and keeps its place; where there is none, a new entry
/// goes to the end.
pub open spec fn insert(
    entries: Seq<(Seq<char>, ValueModel)>,
    key: Seq<char>,
    value: ValueModel,
) -> Seq<(Seq<char>, ValueModel)> {
    if has_key(entries, key) {
        entries.update(key_index(entries, key), (key, value))
    } else {
        entries.push((key, value))
    }
}

/// Whether no two entries share a key.
pub open spec fn distinct_keys(entries: Seq<(Seq<char>, ValueModel)>) -> bool {
    forall|i: int, j: int| 0 <= i < j < entries.len() ==> entries[i].0 != entries[j].0
}

/// Whether a value is well formed: within every object no key occurs
/// twice, and every float holds a floating-point literal.
pub open spec fn well_formed(v: ValueModel) -> bool
    decreases v,
{
    match v {
        ValueModel::Float(text) => is_float_literal(text),
        ValueModel::Object(entries) => {
            &&& distinct_keys(entries)
            &&& forall|i: int| 0 <= i < entries.len() ==> well_formed(#[trigger] entries[i].1)
        },
        ValueModel::Array(items) => forall|i: int|
            0 <= i < items.len() ==> well_formed(#[trigger] items[i]),
        _ => true,
    }
}

/// Whether every value among the entries is well formed and no two entries
/// share a key.
pub open spec fn well_formed_entries(entries: Seq<(Seq<char>, ValueModel)>) -> bool {
    well_formed(ValueModel::Object(entries))
}

/// An object stands for the object of what its entries stand for.
pub proof fn lemma_object_view(entries: Vec<(String, PklValue)>)
    ensures
        PklValue::Object(entries)@ == ValueModel::Object(entries_model(entries@)),
{
    let v = PklValue::Object(entries);
    assert(v@->Object_0 =~= entries_model(entries@));
}

/// An array stands for the array of what its items stand for.
pub proof fn lemma_array_view(items: Vec<PklValue>)
    ensures
        PklValue::Array(items)@ == ValueModel::Array(items_model(items@)),
{
    let v = PklValue::Array(items);
    assert(v@->Array_0 =~= items_model(items@));
}

/// `key_index` stays within the entries, no entry before its result has the
/// key, and the entry at its result, if there is one, has it.
pub proof fn lemma_key_index(entries: Seq<(Seq<char>, ValueModel)>, key: Seq<char>)
    ensures
        0 <= key_index(entries, key) <= entries.len(),
        forall|i: int| 0 <= i < key_index(entries, key) ==> entries[i].0 != key,
        has_key(entries, key) ==> entries[key_index(entries, key)].0 == key,
    decreases entries.len(),
{
    if entries.len() == 0 || entries[0].0 == key {
    } else {
        let rest = entries.drop_first();
        lemma_key_index(rest, key);
        assert forall|i: int| 0 <= i < key_index(entries, key) implies entries[i].0 != key by {
            if i > 0 {
                assert(entries[i] == rest[i - 1]);
            }
        }
        if has_key(entries, key) {
            assert(entries[key_index(entries, key)] == rest[key_index(rest, key)]);
        }
    }
}

/// The first index at which an entry has the key is the result of
/// `key_index`.
pub proof fn lemma_key_index_is(entries: Seq<(Seq<char>, ValueModel)>, key: Seq<char>, k: int)
    requires
        0 <= k <= entries.len(),
        forall|i: int| 0 <= i < k ==> entries[i].0 != key,
        k < entries.len() ==> entries[k].0 == key,
    ensures
        key_index(entries, key) == k,
    decreases entries.len(),
{
    if entries.len() == 0 || entries[0].0 == key {
    } else {
        let rest = entries.drop_first();
        assert forall|i: int| 0 <= i < k - 1 implies rest[i].0 != key by {
            assert(rest[i] == entries[i + 1]);
        }
        if k < entries.len() {
            assert(rest[k - 1] == entries[k]);
        }
        lemma_key_index_is(rest, key, k - 1);
    }
}

/// Setting a key keeps the keys distinct and the values well formed, and
/// the key then holds the new value.
pub proof fn lemma_insert_well_formed(
    entries: Seq<(Seq<char>, ValueModel)>,
    key: Seq<char>,
    value: ValueModel,
)
    requires
        well_formed_entries(entries),
        well_formed(value),
    ensures
        well_formed_entries(insert(entries, key, value)),
        lookup(insert(entries, key, value), key) == Some(value),
{
    lemma_key_index(entries, key);
    let after = insert(entries, key, value);
    let k = key_index(entries, key);
    assert forall|i: int, j: int| 0 <= i < j < after.len() implies after[i].0 != after[j].0 by {
        if has_key(entries, key) {
            assert(after[i].0 == entries[i].0);
            assert(after[j].0 == entries[j].0);
        }
    }
    assert forall|i: int| 0 <= i < after.len() implies well_formed(#[trigger] after[i].1) by {
        if i != k {
            assert(after[i] == entries[i]);
            assert(well_formed(entries[i].1));
        }
    }
    lemma_key_index_is(after, key, k);
}

impl PklValue {
    /// Whether this value is well formed: in every object under it the
    /// keys are distinct, and every float holds a floating-point literal.
    pub open spec fn wf(&self) -> bool {
        well_formed(self@)
    }
}

impl Clone for PklValue {
    /// A deep copy: the copy stands for the same value as the value that it
    /// was made from.
    fn clone(&self) -> (res: Self)
        ensures
            res@ == self@,
        decreases self,
    {
        match self {
            PklValue::String(s) => PklValue::String(s.clone()),
            PklValue::Integer(n) => PklValue::Integer(*n),
            PklValue::Float(s) => PklValue::Float(s.clone()),
            PklValue::Boolean(b) => PklValue::Boolean(*b),
            PklValue::Object(entries) => {
                let mut copy: Vec<(String, PklValue)> = Vec::new();
                let mut i: usize = 0;
                while i < entries.len()
                    invariant
                        i <= entries.len(),
                        copy.len() == i,
                        self->Object_0 == *entries,
                        self is Object,
                        forall|j: int|
                            0 <= j < i ==> copy[j].0@ == entries[j].0@ && copy[j].1@
                                == entries[j].1@,
                    decreases entries.len() - i,
                {
                    proof {
                        vstd::std_specs::vec::axiom_vec_index_decreases(*entries, i as int);
                        assert(decreases_to!(*self => self->Object_0));
                    }
                    let key = entries[i].0.clone();
                    let value = entries[i].1.clone();
                    copy.push((key, value));
                    i += 1;
                }
                proof {
                    lemma_object_view(copy);
                    lemma_object_view(*entries);
                    assert(entries_model(copy@) =~= entries_model(entries@));
                }
                PklValue::Object(copy)
            },
            PklValue::Array(items) => {
                let mut copy: Vec<PklValue> = Vec::new();
                let mut i: usize = 0;
                while i < items.len()
                    invariant
                        i <= items.len(),
                        copy.len() == i,
                        self->Array_0 == *items,
                        self is Array,
                        forall|j: int| 0 <= j < i ==> copy[j]@ == items[j]@,
                    decreases items.len() - i,
                {
                    proof {
                        vstd::std_specs::vec::axiom_vec_index_decreases(*items, i as int);
                        assert(decreases_to!(*self => self->Array_0));
                    }
                    let item = items[i].clone();
                    copy.push(item);
                    i += 1;
                }
                proof {
                    lemma_array_view(copy);
                    lemma_array_view(*items);
                    assert(items_model(copy@) =~= items_model(items@));
                }
                PklValue::Array(copy)
            },
        }
    }
}

/// Whether two values stand for the same value.
fn same_value(a: &PklValue, b: &PklValue) -> (r: bool)
    ensures
        r == (a@ == b@),
    decreases a,
{
    match (a, b) {
        (PklValue::String(x), PklValue::String(y)) => *x == *y,
        (PklValue::Integer(x), PklValue::Integer(y)) => *x == *y,
        (PklValue::Float(x), PklValue::Float(y)) => *x == *y,
        (PklValue::Boolean(x), PklValue::Boolean(y)) => *x == *y,
        (PklValue::Object(xs), PklValue::Object(ys)) => {
            proof {
                lemma_object_view(*xs);
                lemma_object_view(*ys);
            }
            let n: usize = xs.len();
            if n != ys.len() {
                assert(entries_model(xs@).len() != entries_model(ys@).len());
                return false;
            }
            let mut i: usize = 0;
            while i < n
                invariant
                    i <= n,
                    n == xs.len(),
                    n == ys.len(),
                    a is Object,
                    a->Object_0 == *xs,
                    a@ == ValueModel::Object(entries_model(xs@)),
                    b@ == ValueModel::Object(entries_model(ys@)),
                    forall|j: int|
                        0 <= j < i ==> entries_model(xs@)[j] == entries_model(ys@)[j],
                decreases n - i,
            {
                proof {
                    vstd::std_specs::vec::axiom_vec_index_decreases(*xs, i as int);
                    assert(decreases_to!(*a => a->Object_0));
                }
                if xs[i].0 != ys[i].0 || !same_value(&xs[i].1, &ys[i].1) {
                    assert(entries_model(xs@)[i as int] != entries_model(ys@)[i as int]);
                    return false;
                }
                i += 1;
            }
            assert(entries_model(xs@) =~= entries_model(ys@));
            true
        },
        (PklValue::Array(xs), PklValue::Array(ys)) => {
            proof {
                lemma_array_view(*xs);
                lemma_array_view(*ys);
            }
            let n: usize = xs.len();
            if n != ys.len() {
                assert(items_model(xs@).len() != items_model(ys@).len());
                return false;
            }
            let mut i: usize = 0;
            while i < n
                invariant
                    i <= n,
                    n == xs.len(),
                    n == ys.len(),
                    a is Array,
                    a->Array_0 == *xs,
                    a@ == ValueModel::Array(items_model(xs@)),
                    b@ == ValueModel::Array(items_model(ys@)),
                    forall|j: int| 0 <= j < i ==> items_model(xs@)[j] == items_model(ys@)[j],
                decreases n - i,
            {
                proof {
                    vstd::std_specs::vec::axiom_vec_index_decreases(*xs, i as int);
                    assert(decreases_to!(*a => a->Array_0));
                }
                if !same_value(&xs[i], &ys[i]) {
                    assert(items_model(xs@)[i as int] != items_model(ys@)[i as int]);
                    return false;
                }
                i += 1;
            }
            assert(items_model(xs@) =~= items_model(ys@));
            true
        },
        _ => false,
    }
}

impl PartialEq for PklValue {
    /// Two values are equal when they stand for the same value: the same
    /// variant with equal contents, entries and items in the same order.
    fn eq(&self, other: &PklValue) -> (r: bool) {
        same_value(self, other)
    }
}

impl PartialEqSpecImpl for PklValue {
    open spec fn obeys_eq_spec() -> bool {
        true
    }

    open spec fn eq_spec(&self, other: &PklValue) -> bool {
        self@ == other@
    }
}

impl Eq for PklValue {

}

/// The index of the first entry whose key is `key`, or the number of
/// entries where no entry has that key.
pub fn find_key(entries: &Vec<(String, PklValue)>, key: &String) -> (k: usize)
    ensures
        k == key_index(entries_model(entries@), key@),
        k <= entries.len(),
{
    let n: usize = entries.len();
    let mut k: usize = 0;
    while k < n && entries[k].0 != *key
        invariant
            k <= n,
            n == entries.len(),
            forall|i: int| 0 <= i < k ==> entries[i].0@ != key@,
        decreases n - k,
    {
        k += 1;
    }
    proof {
        lemma_key_index_is(entries_model(entries@), key@, k as int);
    }
    k
}

/// Sets `key` to `value`: an entry with that key gets the new value and
/// keeps its place; where there is none, a new entry goes to the end.
pub fn insert_entry(entries: &mut Vec<(String, PklValue)>, key: String, value: PklValue)
    ensures
        entries_model(final(entries)@) == insert(entries_model(old(entries)@), key@, value@),
{
    let k = find_key(entries, &key);
    if k < entries.len() {
        entries.set(k, (key, value));
    } else {
        entries.push((key, value));
    }
    assert(entries_model(entries@) =~= insert(entries_model(old(entries)@), key@, value@));
}

} // verus!

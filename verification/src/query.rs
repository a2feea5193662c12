//! Looking a key up in a value tree, depth first.

use crate::value::entries_model;
use crate::value::find_key;
use crate::value::has_key;
use crate::value::lemma_object_view;
use crate::value::lookup;
use crate::value::PklValue;
use crate::value::ValueModel;
use vstd::prelude::*;

verus! {

/// The first value under `key` that a depth-first walk of `v` meets. An
/// object that has the key gives its value for it. One that has not is
/// searched entry by entry, in order, each entry's value to its full
/// depth before the next. Anything but an object holds no key.
pub open spec fn find_in(v: ValueModel, key: Seq<char>) -> Option<ValueModel>
    decreases v, 0nat,
{
    match v {
        ValueModel::Object(entries) => {
            if has_key(entries, key) {
                lookup(entries, key)
            } else {
                find_from(entries, key, 0)
            }
        },
        _ => None,
    }
}

/// The first value under `key` that a depth-first walk meets in the values
/// of the entries from index `from` on.
pub open spec fn find_from(
    entries: Seq<(Seq<char>, ValueModel)>,
    key: Seq<char>,
    from: int,
) -> Option<ValueModel>
    decreases entries, entries.len() - from,
{
    if from < 0 || from >= entries.len() {
        None
    } else {
        match find_in(entries[from].1, key) {
            Some(found) => Some(found),
            None => find_from(entries, key, from + 1),
        }
    }
}

/// What a walk in search of `key` reports, in order. An object that has
/// the key reports its value, as `Some`. One that has not reports what its
/// entries' values report, one after the other. Anything but an object
/// reports that it has no such key, as `None`.
pub open spec fn report_of(v: ValueModel, key: Seq<char>) -> Seq<Option<ValueModel>>
    decreases v, 0nat,
{
    match v {
        ValueModel::Object(entries) => {
            if has_key(entries, key) {
                seq![lookup(entries, key)]
            } else {
                report_from(entries, key, 0)
            }
        },
        _ => seq![None],
    }
}

/// What the values of the entries from index `from` on report, one after
/// the other.
pub open spec fn report_from(
    entries: Seq<(Seq<char>, ValueModel)>,
    key: Seq<char>,
    from: int,
) -> Seq<Option<ValueModel>>
    decreases entries, entries.len() - from,
{
    if from < 0 || from >= entries.len() {
        Seq::empty()
    } else {
        report_of(entries[from].1, key) + report_from(entries, key, from + 1)
    }
}

/// What an optional value stands for.
pub open spec fn option_model(o: Option<PklValue>) -> Option<ValueModel> {
    match o {
        Some(v) => Some(v@),
        None => None,
    }
}

/// What a list of optional values stands for.
pub open spec fn options_model(items: Seq<Option<PklValue>>) -> Seq<Option<ValueModel>> {
    Seq::new(items.len(), |i: int| option_model(items[i]))
}

/// The first value under `key` in a depth-first walk of `value`, by
/// reference.
fn find_ref<'a>(value: &'a PklValue, key: &String) -> (out: Option<&'a PklValue>)
    ensures
        match out {
            Some(found) => find_in(value@, key@) == Some(found@),
            None => find_in(value@, key@) is None,
        },
    decreases value,
{
    match value {
        PklValue::Object(entries) => {
            proof {
                lemma_object_view(*entries);
            }
            let k = find_key(entries, key);
            if k < entries.len() {
                return Some(&entries[k].1);
            }
            let n: usize = entries.len();
            let ghost model = entries_model(entries@);
            let mut i: usize = 0;
            while i < n
                invariant
                    i <= n,
                    n == entries.len(),
                    model == entries_model(entries@),
                    value is Object,
                    value->Object_0 == *entries,
                    value@ == ValueModel::Object(model),
                    !has_key(model, key@),
                    find_from(model, key@, 0) == find_from(model, key@, i as int),
                decreases n - i,
            {
                proof {
                    vstd::std_specs::vec::axiom_vec_index_decreases(*entries, i as int);
                    assert(decreases_to!(*value => value->Object_0));
                }
                let found = find_ref(&entries[i].1, key);
                if found.is_some() {
                    return found;
                }
                i += 1;
            }
            None
        },
        _ => None,
    }
}

/// Finds the first value under the key `parameter` in a depth-first walk
/// of `pkl_value` and gives a copy of it, or `None` where no object in the
/// tree has that key.
///
/// An object that has the key gives its own value for it; otherwise its
/// entries are searched in order, each to its full depth.
pub fn find_parameter(pkl_value: &PklValue, parameter: &str) -> (out: Option<PklValue>)
    ensures
        option_model(out) == find_in(pkl_value@, parameter@),
{
    let key = String::from_str(parameter);
    match find_ref(pkl_value, &key) {
        Some(found) => Some(found.clone()),
        None => None,
    }
}

/// Adds to `out` what a walk of `value` in search of `key` reports.
fn report_into(value: &PklValue, key: &String, out: &mut Vec<Option<PklValue>>)
    ensures
        options_model(final(out)@) == options_model(old(out)@) + report_of(value@, key@),
    decreases value,
{
    let ghost before = options_model(out@);
    match value {
        PklValue::Object(entries) => {
            proof {
                lemma_object_view(*entries);
            }
            let k = find_key(entries, key);
            if k < entries.len() {
                out.push(Some(entries[k].1.clone()));
                assert(options_model(out@) =~= before + report_of(value@, key@));
                return ;
            }
            let n: usize = entries.len();
            let ghost model = entries_model(entries@);
            let mut i: usize = 0;
            assert(options_model(out@) + report_from(model, key@, 0) =~= before + report_from(
                model,
                key@,
                0,
            ));
            while i < n
                invariant
                    i <= n,
                    n == entries.len(),
                    model == entries_model(entries@),
                    value is Object,
                    value->Object_0 == *entries,
                    options_model(out@) + report_from(model, key@, i as int) == before
                        + report_from(model, key@, 0),
                decreases n - i,
            {
                proof {
                    vstd::std_specs::vec::axiom_vec_index_decreases(*entries, i as int);
                    assert(decreases_to!(*value => value->Object_0));
                }
                let ghost so_far = options_model(out@);
                report_into(&entries[i].1, key, out);
                assert((so_far + report_of(model[i as int].1, key@)) + report_from(
                    model,
                    key@,
                    i + 1,
                ) =~= so_far + report_from(model, key@, i as int));
                i += 1;
            }
            assert(report_from(model, key@, n as int) =~= Seq::empty());
            assert(options_model(out@) + Seq::<Option<ValueModel>>::empty() =~= options_model(
                out@,
            ));
        },
        _ => {
            out.push(None);
            assert(options_model(out@) =~= before + report_of(value@, key@));
        },
    }
}

/// Walks `pkl_value` in search of the key `parameter` and reports what it
/// meets, in order: `Some` with a copy of the value for each object that
/// has the key, `None` for each value on the way that is no object.
///
/// An object that has the key is not searched further; one that has not
/// passes the search on to the values of its entries, in order. So a tree
/// without the key reports one `None` for each of its leaves, and an empty
/// object reports nothing.
pub fn report_parameter(pkl_value: &PklValue, parameter: &str) -> (out: Vec<Option<PklValue>>)
    ensures
        options_model(out@) == report_of(pkl_value@, parameter@),
{
    let key = String::from_str(parameter);
    let mut out: Vec<Option<PklValue>> = Vec::new();
    assert(options_model(out@) =~= Seq::empty());
    report_into(pkl_value, &key, &mut out);
    assert(Seq::<Option<ValueModel>>::empty() + report_of(pkl_value@, parameter@) =~= report_of(
        pkl_value@,
        parameter@,
    ));
    out
}

} // verus!

use vstd::prelude::*;
use crate::text::str_eq;

verus! {

/// A JSON-like tree, as the report inputs arrive once the caller has parsed
/// raw text: strings, booleans, integers, ordered arrays and string-keyed
/// ordered objects. Anything else the engine never reads maps to `Null`.
pub enum Json {
    Null,
    Bool(bool),
    Int(i64),
    Text(String),
    Arr(Vec<Json>),
    Obj(Vec<(String, Json)>),
}

/// The first value an object holds under `key`, scanning from entry `i`.
pub open spec fn spec_obj_get_from(entries: Seq<(String, Json)>, key: Seq<char>, i: int) -> Option<
    Json,
>
    decreases entries.len() - i,
    when 0 <= i <= entries.len()
{
    if i >= entries.len() {
        None
    } else if entries[i].0@ == key {
        Some(entries[i].1)
    } else {
        spec_obj_get_from(entries, key, i + 1)
    }
}

/// The value under `key`, if the tree is an object holding one.
pub open spec fn spec_get(j: Json, key: Seq<char>) -> Option<Json> {
    match j {
        Json::Obj(es) => spec_obj_get_from(es@, key, 0),
        _ => None,
    }
}

/// Looks a key up in a JSON object.
pub fn json_get<'a>(j: &'a Json, key: &str) -> (r: Option<&'a Json>)
    ensures
        match r {
            Some(v) => spec_get(*j, key@) == Some(*v),
            None => spec_get(*j, key@) is None,
        },
{
    match j {
        Json::Obj(es) => {
            let mut i: usize = 0;
            while i < es.len()
                invariant
                    i <= es@.len(),
                    spec_get(*j, key@) == spec_obj_get_from(es@, key@, 0),
                    spec_obj_get_from(es@, key@, 0) == spec_obj_get_from(es@, key@, i as int),
                decreases es@.len() - i,
            {
                if str_eq(es[i].0.as_str(), key) {
                    return Some(&es[i].1);
                }
                i = i + 1;
            }
            None
        },
        _ => None,
    }
}

} // verus!

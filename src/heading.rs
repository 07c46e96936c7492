use vstd::prelude::*;
use crate::node::{JsonValue, AttrsView, attrs_view, entries_view};

verus! {

/// The key that holds a heading's level.
pub open spec fn level_key() -> Seq<char> {
    seq!['l', 'e', 'v', 'e', 'l']
}

/// Clamps a heading level into the inclusive range one to six.
pub open spec fn clamp_level(l: int) -> int {
    if l < 1 {
        1
    } else if l > 6 {
        6
    } else {
        l
    }
}

/// The level that a stored value stands for: the value itself when it is an
/// integer that fits in an `i64`, the default two otherwise.
pub open spec fn level_of(v: JsonValue) -> int {
    match v {
        JsonValue::Int(i) => i as int,
        JsonValue::UInt(u) => if u <= i64::MAX {
            u as int
        } else {
            2
        },
        _ => 2,
    }
}

/// `i` is the first position of key `k` among the entries `e`.
pub open spec fn first_key(e: Seq<(Seq<char>, JsonValue)>, k: Seq<char>, i: int) -> bool {
    &&& 0 <= i < e.len()
    &&& e[i].0 == k
    &&& forall|j: int| 0 <= j < i ==> e[j].0 != k
}

/// No key occurs twice among the entries of a mapping.
pub open spec fn keys_distinct(e: Seq<(Seq<char>, JsonValue)>) -> bool {
    forall|i: int, j: int| 0 <= i < j < e.len() ==> #[trigger] e[i].0 != #[trigger] e[j].0
}

pub open spec fn opt_attrs_view(a: Option<JsonValue>) -> Option<AttrsView> {
    match a {
        Some(v) => Some(attrs_view(v)),
        None => None,
    }
}

/// The attributes of a heading after normalization: absent attributes become
/// `{level: 2}`; in a mapping the first `level` is clamped (a value that is not
/// integer-like counts as two), or `level: 2` is added when there is none; any
/// other value is left alone.
pub open spec fn normalized_heading_attrs(a: Option<AttrsView>) -> AttrsView {
    match a {
        None => AttrsView::Object(seq![(level_key(), JsonValue::Int(2))]),
        Some(AttrsView::Object(e)) => if exists|i: int| first_key(e, level_key(), i) {
            let i = choose|i: int| first_key(e, level_key(), i);
            AttrsView::Object(
                e.update(i, (level_key(), JsonValue::Int(clamp_level(level_of(e[i].1)) as i64))),
            )
        } else {
            AttrsView::Object(e.push((level_key(), JsonValue::Int(2))))
        },
        Some(AttrsView::Other(v)) => AttrsView::Other(v),
    }
}

pub fn clamp_heading_level(l: i64) -> (r: i64)
    ensures
        r == clamp_level(l as int),
{
    if l < 1 {
        1
    } else if l > 6 {
        6
    } else {
        l
    }
}

fn level_value(v: &JsonValue) -> (r: i64)
    ensures
        r == level_of(*v),
{
    match v {
        JsonValue::Int(i) => *i,
        JsonValue::UInt(u) => if *u <= i64::MAX as u64 {
            *u as i64
        } else {
            2
        },
        _ => 2,
    }
}

fn level_string() -> (r: String)
    ensures
        r@ == level_key(),
{
    let r = String::from_str("level");
    proof {
        reveal_strlit("level");
    }
    r
}

/// Normalizes the attributes of a heading; the result is always present.
pub fn normalize_heading_attrs(attrs: Option<JsonValue>) -> (r: Option<JsonValue>)
    ensures
        r is Some,
        attrs_view(r->Some_0) == normalized_heading_attrs(opt_attrs_view(attrs)),
{
    match attrs {
        None => {
            let mut e: Vec<(String, JsonValue)> = Vec::new();
            e.push((level_string(), JsonValue::Int(2)));
            proof {
                assert(entries_view(e@) =~= seq![(level_key(), JsonValue::Int(2))]);
            }
            Some(JsonValue::Object(e))
        },
        Some(JsonValue::Object(mut e)) => {
            let ghost ev = entries_view(e@);
            let key = level_string();
            let mut idx: usize = 0;
            let mut found = false;
            while idx < e.len() && !found
                invariant
                    idx <= e.len(),
                    key@ == level_key(),
                    ev == entries_view(e@),
                    forall|j: int| 0 <= j < idx ==> ev[j].0 != level_key(),
                    found ==> idx < e.len() && ev[idx as int].0 == level_key(),
                decreases e.len() - idx + (if found { 0int } else { 1int }),
            {
                if e[idx].0 == key {
                    found = true;
                } else {
                    idx = idx + 1;
                }
            }
            if found {
                let l = clamp_heading_level(level_value(&e[idx].1));
                e.set(idx, (key, JsonValue::Int(l)));
                proof {
                    assert(first_key(ev, level_key(), idx as int));
                    let i = choose|i: int| first_key(ev, level_key(), i);
                    assert(i == idx as int) by {
                        if i < idx {
                        } else if i > idx {
                        }
                    }
                    assert(entries_view(e@) =~= ev.update(
                        idx as int,
                        (level_key(), JsonValue::Int(clamp_level(level_of(ev[idx as int].1)) as i64)),
                    ));
                }
            } else {
                e.push((key, JsonValue::Int(2)));
                proof {
                    assert(!exists|i: int| first_key(ev, level_key(), i));
                    assert(entries_view(e@) =~= ev.push((level_key(), JsonValue::Int(2))));
                }
            }
            Some(JsonValue::Object(e))
        },
        Some(v) => Some(v),
    }
}

} // verus!

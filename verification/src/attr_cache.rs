//! Attribute name to model id, for the names that are free text.

use vstd::prelude::*;

use crate::crf::{attr_id, crf_lookup_attr, storable, CrfModel};
use crate::features::{prefix_of, str_attr, Viewpoint};

verus! {

/// One attribute's model id from each viewpoint, indexed own, `previous:`,
/// `next:`.
pub type ViewIds = [Option<u32>; 3];

/// The viewpoint at index `p` of a [`ViewIds`].
pub open spec fn viewpoint_at(p: int) -> Viewpoint {
    if p == 0 {
        Viewpoint::Own
    } else if p == 1 {
        Viewpoint::Previous
    } else {
        Viewpoint::Next
    }
}

pub fn viewpoint_of(p: usize) -> (v: Viewpoint)
    requires
        p < 3,
    ensures
        v == viewpoint_at(p as int),
{
    if p == 0 {
        Viewpoint::Own
    } else if p == 1 {
        Viewpoint::Previous
    } else {
        Viewpoint::Next
    }
}

/// Resolve one attribute name to its model id, or `None` if the model never
/// saw it.
pub fn resolve_one(model: &CrfModel, name: &str) -> (r: Option<u32>)
    ensures
        r == attr_id(model@, name@),
{
    proof {
        reveal(storable);
    }
    if name.as_bytes().len() >= 0xffff_ffff {
        return None;
    }
    crf_lookup_attr(model.bytes(), name)
}

/// The id of `prefix key:value`.
pub fn resolve_str(model: &CrfModel, prefix: &str, key: &str, value: &str) -> (r: Option<u32>)
    ensures
        r == attr_id(model@, str_attr(prefix@, key@, value@).0),
{
    let mut name = String::from_str(prefix);
    name.append(key);
    name.append(":");
    name.append(value);
    resolve_one(model, name.as_str())
}

/// The ids of `key:value` from all three viewpoints.
fn value_ids(model: &CrfModel, key: &str, value: &str) -> (r: ViewIds)
    ensures
        forall|p: int| 0 <= p < 3 ==> #[trigger] r@[p] == attr_id(
            model@,
            str_attr(prefix_of(viewpoint_at(p)), key@, value@).0,
        ),
{
    let own = resolve_str(model, Viewpoint::Own.prefix(), key, value);
    let previous = resolve_str(model, Viewpoint::Previous.prefix(), key, value);
    let next = resolve_str(model, Viewpoint::Next.prefix(), key, value);
    let r = [own, previous, next];
    proof {
        assert forall|p: int| 0 <= p < 3 implies #[trigger] r@[p] == attr_id(
            model@,
            str_attr(prefix_of(viewpoint_at(p)), key@, value@).0,
        ) by {
            if p == 0 {
            } else if p == 1 {
            } else {
            }
        }
    }
    r
}

/// Ids of `word:{word}` from all three viewpoints.
pub fn word_ids(model: &CrfModel, word: &str) -> (r: ViewIds)
    ensures
        forall|p: int| 0 <= p < 3 ==> #[trigger] r@[p] == attr_id(
            model@,
            str_attr(prefix_of(viewpoint_at(p)), "word"@, word@).0,
        ),
{
    value_ids(model, "word", word)
}

/// Ids of `endsinpunc:{c}` from all three viewpoints.
pub fn endsinpunc_ids(model: &CrfModel, c: &str) -> (r: ViewIds)
    ensures
        forall|p: int| 0 <= p < 3 ==> #[trigger] r@[p] == attr_id(
            model@,
            str_attr(prefix_of(viewpoint_at(p)), "endsinpunc"@, c@).0,
        ),
{
    value_ids(model, "endsinpunc", c)
}

} // verus!

//! The CRF tagger, reached through the `crfs` crate.
//!
//! The model is a CRFsuite file held as bytes. Everything the tagger does is a
//! function of those bytes and of the attribute names handed to it; both are
//! named below, not restated.

use vstd::prelude::*;
use vstd::utf8::encode_utf8;

use crate::model_format::{model_ok, model_ok_exec, num_labels};

verus! {

/// `std::io::Error`, the error `crfs` reports a malformed model or a failed
/// tagging with. Carried through, never inspected.
#[verifier::external_type_specification]
#[verifier::external_body]
pub struct ExIoError(std::io::Error);

/// The label sequence `crfs` Viterbi-decodes for the item sequence `xseq`
/// (each item the names of its weight-one attributes) under `model`.
pub uninterp spec fn crf_labels(model: Seq<u8>, xseq: Seq<Seq<Seq<char>>>) -> Seq<Seq<char>>;

/// The model id `crfs::Model::to_attr_id` gives the attribute `name` under
/// the model read from `model`: `None` when the model does not know the
/// name.
pub uninterp spec fn crf_attr_id(model: Seq<u8>, name: Seq<char>) -> Option<u32>;

/// A name short enough to be looked up: its UTF-8 form is shorter than
/// `u32::MAX` bytes. The dictionary hashes a key's length plus one as a
/// `u32`, and no model holds a longer key.
#[verifier::opaque]
pub open spec fn storable(name: Seq<char>) -> bool {
    encode_utf8(name).len() < 0xffff_ffff
}

/// The model id of attribute `name`: none for a name no model can hold.
pub open spec fn attr_id(model: Seq<u8>, name: Seq<char>) -> Option<u32> {
    if storable(name) {
        crf_attr_id(model, name)
    } else {
        None
    }
}

/// The bytes of a CRFsuite model that [`model_ok`] accepts.
pub struct CrfModel<'a> {
    bytes: &'a [u8],
}

impl<'a> View for CrfModel<'a> {
    type V = Seq<u8>;

    closed spec fn view(&self) -> Seq<u8> {
        self.bytes@
    }
}

impl<'a> CrfModel<'a> {
    #[verifier::type_invariant]
    spec fn well_formed(&self) -> bool {
        model_ok(self.bytes@)
    }

    /// The model held in `bytes`, when every part that tagging reads is in
    /// place.
    pub fn new(bytes: &'a [u8]) -> (r: Option<CrfModel<'a>>)
        ensures
            r is Some <==> model_ok(bytes@),
            r matches Some(m) ==> m@ == bytes@,
    {
        if model_ok_exec(bytes) {
            Some(CrfModel { bytes })
        } else {
            None
        }
    }

    /// The model's bytes.
    pub fn bytes(&self) -> (b: &'a [u8])
        ensures
            b@ == self@,
            model_ok(b@),
    {
        proof {
            use_type_invariant(self);
        }
        self.bytes
    }
}

pub open spec fn texts(v: Seq<String>) -> Seq<Seq<char>> {
    v.map_values(|t: String| t@)
}

pub open spec fn items_view(v: Seq<Vec<String>>) -> Seq<Seq<Seq<char>>> {
    v.map_values(|item: Vec<String>| texts(item@))
}

/// Reads `model` (`crfs::Model::new`), builds a tagger (`Model::tagger`) and
/// tags `xseq` with it (`Tagger::tag`), each item made of weight-one
/// attributes (`crfs::Attribute::from` a name).
///
/// Claimed: on a model that [`model_ok`] accepts, with no more items than a
/// `u32` counts, items-by-labels score tables of 8-byte floats whose size in
/// bytes fits an `isize`,
/// and every name one that can be looked up, none of the three calls fails or
/// panics, and the result holds one label per item: the named
/// decoding of `xseq` under `model`. (`model_ok` is what keeps every offset
/// `crfs` reads inside the buffer, every feature target below the label
/// count, every label id named, every hash probe finite, and each
/// dictionary's record count within the `u32` it is summed in.)
///
/// Attributes of weight zero are not handed over: `crfs` adds
/// `weight * value` to a label's state score, which is zero for the finite
/// weights `model_ok` admits, so leaving them out changes no score.
#[verifier::external_body]
pub(crate) fn crf_tag(model: &[u8], xseq: &Vec<Vec<String>>) -> (r: Result<Vec<String>, std::io::Error>)
    requires
        model_ok(model@),
        xseq@.len() <= 0xffff_ffff,
        xseq@.len() * num_labels(model@) <= isize::MAX / 8,
        forall|i: int, j: int|
            0 <= i < xseq@.len() && 0 <= j < xseq@[i]@.len() ==> storable(#[trigger] xseq@[i]@[j]@),
    ensures
        r is Ok,
        r matches Ok(labels) ==> labels@.len() == xseq@.len() && texts(labels@) == crf_labels(
            model@,
            items_view(xseq@),
        ),
{
    let m = crfs::Model::new(model)?;
    let tagger = m.tagger()?;
    let mut items: Vec<Vec<crfs::Attribute>> = Vec::with_capacity(xseq.len());
    for item in xseq.iter() {
        items.push(item.iter().map(|name| crfs::Attribute::from(name.as_str())).collect());
    }
    let labels = tagger.tag(&items)?;
    Ok(labels.into_iter().map(|l| l.to_string()).collect())
}

/// `crfs::Model::to_attr_id` on the model `crfs::Model::new` reads from
/// `model`. Claimed: on a model that [`model_ok`] accepts and a name that can
/// be a dictionary key, neither call fails, panics or loops, and the result is
/// the named lookup of `name` under those bytes.
#[verifier::external_body]
pub(crate) fn crf_lookup_attr(model: &[u8], name: &str) -> (r: Option<u32>)
    requires
        model_ok(model@),
        storable(name@),
    ensures
        r == crf_attr_id(model@, name@),
{
    match crfs::Model::new(model) {
        Ok(m) => m.to_attr_id(name),
        Err(_) => None,
    }
}

/// `std::io::Error::other`, the error a model refused by [`model_ok`] is
/// reported with.
#[verifier::external_body]
pub(crate) fn malformed_model() -> (e: std::io::Error) {
    std::io::Error::other("malformed CRFsuite model")
}

} // verus!

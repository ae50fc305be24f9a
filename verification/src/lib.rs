//! US address parsing: a tokenizer, per-token feature extraction and the
//! component collapsing around a linear-chain CRF tagger (a CRFsuite model,
//! read with the `crfs` crate).

pub mod attr_cache;
pub mod bounded_ids;
pub mod components;
pub mod crf;
pub mod features;
pub mod laws;
pub mod model_format;
pub mod text;
pub mod tokenize;

use std::borrow::Cow;

use vstd::prelude::*;

use crate::components::{collapse, pairs_view, spec_collapse};
use crate::crf::{crf_labels, crf_tag, items_view, malformed_model, storable, texts, CrfModel};
use crate::features::{
    active_attribute_names, lemma_active_names_storable, spec_xseq, strings_view,
    tokens_to_features, Lexicon,
};
use crate::model_format::{model_ok, num_labels, read_u32};
use vstd::string::StrSliceExecFns;
use crate::tokenize::{
    lemma_normalize_len, lemma_tokens_from_len, normalize, spec_normalize, spec_tokenize, tokenize,
};

verus! {

/// Release of the `usaddress` model and word lists that the features are
/// built to match.
pub const UPSTREAM_VERSION: &'static str = "0.5.16";

/// The 26 base labels, plus the 6 `Second*` variants collapsing synthesises
/// for the far side of an intersection: every component label `tag` can
/// produce.
pub const LABELS: [&'static str; 32] = [
    "AddressNumberPrefix",
    "AddressNumber",
    "AddressNumberSuffix",
    "StreetNamePreModifier",
    "StreetNamePreDirectional",
    "StreetNamePreType",
    "StreetName",
    "StreetNamePostType",
    "StreetNamePostDirectional",
    "SubaddressType",
    "SubaddressIdentifier",
    "BuildingName",
    "OccupancyType",
    "OccupancyIdentifier",
    "CornerOf",
    "LandmarkName",
    "PlaceName",
    "StateName",
    "ZipCode",
    "USPSBoxType",
    "USPSBoxID",
    "USPSBoxGroupType",
    "USPSBoxGroupID",
    "IntersectionSeparator",
    "Recipient",
    "NotAddress",
    "SecondStreetNamePreModifier",
    "SecondStreetNamePreDirectional",
    "SecondStreetNamePreType",
    "SecondStreetName",
    "SecondStreetNamePostType",
    "SecondStreetNamePostDirectional",
];

/// What kind of address [`components::collapse`] decided it was looking at.
#[derive(Debug, Clone, Copy, PartialEq, Eq, Structural)]
pub enum AddressType {
    StreetAddress,
    Intersection,
    PoBox,
    Ambiguous,
}

/// The display name of each address type.
pub open spec fn address_type_name(t: AddressType) -> Seq<char> {
    match t {
        AddressType::StreetAddress => "Street Address"@,
        AddressType::Intersection => "Intersection"@,
        AddressType::PoBox => "PO Box"@,
        AddressType::Ambiguous => "Ambiguous"@,
    }
}

impl AddressType {
    /// The display name of this address type.
    pub fn as_str(self) -> (s: &'static str)
        ensures
            s@ == address_type_name(self),
    {
        match self {
            Self::StreetAddress => "Street Address",
            Self::Intersection => "Intersection",
            Self::PoBox => "PO Box",
            Self::Ambiguous => "Ambiguous",
        }
    }
}

/// Why parsing or tagging failed.
#[derive(Debug)]
pub enum Error {
    /// The CRF model is malformed, or reading or tagging with it failed.
    Crf(std::io::Error),
    /// A label reappeared after a different label intervened, so the
    /// components cannot be collapsed into a flat mapping without losing
    /// information. Carries the offending label and the whole token/label
    /// sequence.
    RepeatedLabel { label: String, parsed: Vec<(String, String)> },
}

/// The tokens of `address`: normalised, then tokenised.
pub open spec fn spec_tokens(address: Seq<char>) -> Seq<Seq<char>> {
    spec_tokenize(spec_normalize(address))
}

/// The token/label pairs `address` is parsed into under `model` and the word
/// lists: each token with the label the tagger decodes for it.
pub open spec fn spec_parse(
    model: Seq<u8>,
    directions: Seq<String>,
    street_names: Seq<String>,
    address: Seq<char>,
) -> Seq<(Seq<char>, Seq<char>)> {
    let toks = spec_tokens(address);
    let labels = crf_labels(model, spec_xseq(directions, street_names, toks));
    Seq::new(toks.len(), |i: int| (toks[i], labels[i]))
}

/// Pair each token with its label.
pub fn label_tokens(tokens: Vec<String>, labels: Vec<String>) -> (r: Vec<(String, String)>)
    requires
        tokens@.len() == labels@.len(),
    ensures
        pairs_view(r@) == Seq::new(
            tokens@.len(),
            |i: int| (tokens@[i]@, labels@[i]@),
        ),
{
    let mut out: Vec<(String, String)> = Vec::new();
    let mut i: usize = 0;
    while i < tokens.len()
        invariant
            tokens@.len() == labels@.len(),
            i <= tokens@.len(),
            out@.len() == i,
            pairs_view(out@) == Seq::new(i as nat, |k: int| (tokens@[k]@, labels@[k]@)),
        decreases tokens@.len() - i,
    {
        let ghost before = out@;
        out.push((tokens[i].clone(), labels[i].clone()));
        proof {
            assert forall|k: int| 0 <= k < i + 1 implies #[trigger] pairs_view(out@)[k] == (
                tokens@[k]@,
                labels@[k]@,
            ) by {
                if k < i {
                    assert(out@[k] == before[k]);
                    assert(pairs_view(before)[k] == (tokens@[k]@, labels@[k]@));
                }
            }
            assert(pairs_view(out@) =~= Seq::new((i + 1) as nat, |k: int| (tokens@[k]@, labels@[k]@)));
        }
        i = i + 1;
    }
    out
}

/// Tokens of `address`, normalised then tokenised.
fn address_tokens(address: &str) -> (tokens: Vec<String>)
    ensures
        strings_view(tokens@) == spec_tokens(address@),
{
    let normalised = normalize(address);
    let tokens = match &normalised {
        Cow::Borrowed(b) => tokenize(b),
        Cow::Owned(o) => tokenize(o.as_str()),
    };
    proof {
        assert(strings_view(tokens@) =~= spec_tokens(address@));
    }
    tokens
}

/// An address short enough for the tagger's counters under `model`: its
/// tokens (no more than its characters) are counted in a `u32`, and tables of
/// one 8-byte score per token and label of the model have a size in bytes
/// that fits an `isize`.
pub open spec fn taggable(model: Seq<u8>, address: Seq<char>) -> bool {
    &&& address.len() <= 0xffff_ffff
    &&& model.len() >= 24 ==> address.len() * num_labels(model) <= isize::MAX / 8
}

/// Whether [`taggable`] holds: the test a caller makes before
/// [`Parser::parse`], [`Parser::tag`], [`parse`] or [`tag`].
pub fn is_taggable(model: &[u8], address: &str) -> (r: bool)
    ensures
        r == taggable(model@, address@),
{
    let chars = address.unicode_len() as u128;
    if chars > 0xffff_ffff {
        return false;
    }
    if model.len() < 24 {
        return true;
    }
    let labels = read_u32(model, 20) as u128;
    assert(chars * labels <= 0xffff_ffff * 0xffff_ffff) by (nonlinear_arith)
        requires
            chars <= 0xffff_ffff,
            labels <= 0xffff_ffff,
    ;
    chars * labels <= (isize::MAX as u128) / 8
}

/// An address has no more tokens than characters.
pub proof fn lemma_token_count(address: Seq<char>)
    ensures
        spec_tokens(address).len() <= address.len(),
{
    lemma_normalize_len(address);
    lemma_tokens_from_len(spec_normalize(address), 0);
}

/// What tagging `address` under `model` gives: each label collapsed as
/// [`components::collapse`] does, or the label that repeats.
pub open spec fn spec_tag(
    model: Seq<u8>,
    directions: Seq<String>,
    street_names: Seq<String>,
    address: Seq<char>,
) -> Result<(Seq<(Seq<char>, Seq<char>)>, AddressType), Seq<char>> {
    spec_collapse(spec_parse(model, directions, street_names, address))
}

/// Does `r` report what [`spec_tag`] gives, `parsed` being the parse it was
/// collapsed from?
pub open spec fn tag_result_is(
    r: Result<(Vec<(String, String)>, AddressType), Error>,
    expected: Result<(Seq<(Seq<char>, Seq<char>)>, AddressType), Seq<char>>,
    parsed: Seq<(Seq<char>, Seq<char>)>,
) -> bool {
    match expected {
        Ok((comps, t)) => r matches Ok((c, t2)) && pairs_view(c@) == comps && t2 == t,
        Err(label) => r matches Err(Error::RepeatedLabel { label: l, parsed: p }) && l@ == label
            && pairs_view(p@) == parsed,
    }
}

/// A tagger: a CRF model and the word lists the features are computed with.
pub struct Parser<'a> {
    pub model: CrfModel<'a>,
    pub lexicon: &'a Lexicon,
}

impl<'a> Parser<'a> {
    /// A parser over the CRFsuite model in `model` and `lexicon`; an error
    /// when some part of the model that tagging reads is missing or out of
    /// place.
    pub fn new(model: &'a [u8], lexicon: &'a Lexicon) -> (r: Result<Parser<'a>, Error>)
        ensures
            r is Ok <==> model_ok(model@),
            r matches Ok(p) ==> p.model@ == model@ && p.lexicon == lexicon,
            r matches Err(e) ==> e is Crf,
    {
        match CrfModel::new(model) {
            Some(m) => Ok(Parser { model: m, lexicon }),
            None => Err(Error::Crf(malformed_model())),
        }
    }

    /// One label per token, in order.
    ///
    /// An address without tokens gives no pairs and needs no tagging.
    pub fn parse(&self, address: &str) -> (r: Result<Vec<(String, String)>, Error>)
        requires
            taggable(self.model@, address@),
        ensures
            r matches Ok(v) && pairs_view(v@) == spec_parse(
                self.model@,
                self.lexicon.directions@,
                self.lexicon.street_names@,
                address@,
            ),
    {
        let tokens = address_tokens(address);
        let ghost toks = spec_tokens(address@);
        if tokens.len() == 0 {
            return Ok(Vec::new());
        }
        proof {
            lemma_token_count(address@);
        }
        let attrs = tokens_to_features(self.lexicon, tokens.as_slice());
        let mut xseq: Vec<Vec<String>> = Vec::new();
        let mut i: usize = 0;
        while i < attrs.len()
            invariant
                i <= attrs@.len(),
                attrs@.len() == tokens@.len(),
                strings_view(tokens@) == toks,
                forall|k: int| 0 <= k < attrs@.len() ==> crate::features::attrs_view((#[trigger] attrs@[k])@)
                    == crate::features::item_attrs(
                    crate::features::features_of(
                        self.lexicon.directions@,
                        self.lexicon.street_names@,
                        strings_view(tokens@),
                    ),
                    k,
                ),
                xseq@.len() == i,
                forall|k: int| 0 <= k < i ==> texts((#[trigger] xseq@[k])@) == spec_xseq(
                    self.lexicon.directions@,
                    self.lexicon.street_names@,
                    toks,
                )[k],
            decreases attrs@.len() - i,
        {
            let names = active_attribute_names(&attrs[i]);
            xseq.push(names);
            i = i + 1;
        }
        proof {
            assert(items_view(xseq@) =~= spec_xseq(
                self.lexicon.directions@,
                self.lexicon.street_names@,
                toks,
            ));
            assert forall|a: int, b: int|
                0 <= a < xseq@.len() && 0 <= b < xseq@[a]@.len() implies storable(
                #[trigger] xseq@[a]@[b]@,
            ) by {
                let item = crate::features::item_attrs(
                    crate::features::features_of(
                        self.lexicon.directions@,
                        self.lexicon.street_names@,
                        toks,
                    ),
                    a,
                );
                lemma_active_names_storable(item);
                assert(texts(xseq@[a]@)[b] == xseq@[a]@[b]@);
            }
        }
        let model = self.model.bytes();
        proof {
            let n = xseq@.len() as int;
            let l = num_labels(model@);
            assert(n * l <= address@.len() * l) by (nonlinear_arith)
                requires
                    0 <= n <= address@.len(),
                    0 <= l,
            ;
        }
        let labels = match crf_tag(model, &xseq) {
            Ok(l) => l,
            Err(e) => return Err(Error::Crf(e)),
        };
        let r = label_tokens(tokens, labels);
        proof {
            assert(pairs_view(r@) =~= spec_parse(
                self.model@,
                self.lexicon.directions@,
                self.lexicon.street_names@,
                address@,
            ));
        }
        Ok(r)
    }

    /// Collapse consecutive same-labelled tokens into one component per
    /// label, and classify the address.
    pub fn tag(&self, address: &str) -> (r: Result<(Vec<(String, String)>, AddressType), Error>)
        requires
            taggable(self.model@, address@),
        ensures
            tag_result_is(
                r,
                spec_tag(self.model@, self.lexicon.directions@, self.lexicon.street_names@, address@),
                spec_parse(self.model@, self.lexicon.directions@, self.lexicon.street_names@, address@),
            ),
    {
        let parsed = match self.parse(address) {
            Ok(p) => p,
            Err(e) => return Err(e),
        };
        let r = collapse(parsed);
        proof {
            match &r {
                Ok((c, _)) => {
                    assert(pairs_view(c@).len() == c@.len());
                },
                _ => {},
            }
        }
        r
    }
}

/// Parse `address` with a throwaway [`Parser`] over `model` and `lexicon`.
pub fn parse(model: &[u8], lexicon: &Lexicon, address: &str) -> (r: Result<Vec<(String, String)>, Error>)
    requires
        taggable(model@, address@),
    ensures
        r is Ok <==> model_ok(model@),
        r matches Ok(v) ==> pairs_view(v@) == spec_parse(
            model@,
            lexicon.directions@,
            lexicon.street_names@,
            address@,
        ),
        r matches Err(e) ==> e is Crf,
{
    match Parser::new(model, lexicon) {
        Ok(p) => p.parse(address),
        Err(e) => Err(e),
    }
}

/// Tag `address` with a throwaway [`Parser`] over `model` and `lexicon`.
pub fn tag(model: &[u8], lexicon: &Lexicon, address: &str) -> (r: Result<(Vec<(String, String)>, AddressType), Error>)
    requires
        taggable(model@, address@),
    ensures
        model_ok(model@) ==> tag_result_is(
            r,
            spec_tag(model@, lexicon.directions@, lexicon.street_names@, address@),
            spec_parse(model@, lexicon.directions@, lexicon.street_names@, address@),
        ),
        !model_ok(model@) ==> r matches Err(Error::Crf(_)),
{
    match Parser::new(model, lexicon) {
        Ok(p) => p.tag(address),
        Err(e) => Err(e),
    }
}

} // verus!

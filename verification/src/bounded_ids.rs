//! Model ids, precomputed once, of every attribute whose name comes from a
//! small enumerable set (a viewpoint prefix times a handful of values), so the
//! id-based encoding indexes a table instead of building and looking up a
//! name. Free-text values, and counts beyond the tables, are looked up by name
//! instead (see `attr_cache`).

use vstd::prelude::*;

use crate::attr_cache::{resolve_one, resolve_str, viewpoint_at, viewpoint_of, ViewIds};
use crate::crf::{attr_id, CrfModel};
use crate::features::{
    bool_attr, digits_name, length_string, length_value, prefix_of, str_attr, DigitsClass,
};
use crate::text::chars_to_string;

verus! {

/// Longest token length the `length` tables cover.
pub const MAX_LENGTH: usize = 48;

/// Longest run of trailing zeros the `trailing.zeros` tables cover.
pub const MAX_TRAILING_ZEROS: usize = 24;

/// The prefix of viewpoint index `p`.
pub open spec fn prefix_at(p: int) -> Seq<char> {
    prefix_of(viewpoint_at(p))
}

/// The digit class at index `c` (0 all, 1 some, 2 no digits).
pub open spec fn class_at(c: int) -> DigitsClass {
    if c == 0 {
        DigitsClass::AllDigits
    } else if c == 1 {
        DigitsClass::SomeDigits
    } else {
        DigitsClass::NoDigits
    }
}

/// The index of digit class `d`.
pub open spec fn class_index(d: DigitsClass) -> int {
    match d {
        DigitsClass::AllDigits => 0,
        DigitsClass::SomeDigits => 1,
        DigitsClass::NoDigits => 2,
    }
}

/// `n` zeros.
pub open spec fn zeros(n: nat) -> Seq<char> {
    Seq::new(n, |i: int| '0')
}

/// Name of the boolean attribute `key` from viewpoint `p`.
pub open spec fn fixed_name(p: int, key: Seq<char>) -> Seq<char> {
    bool_attr(prefix_at(p), key, true).0
}

pub open spec fn digits_attr_name(p: int, c: int) -> Seq<char> {
    str_attr(prefix_at(p), "digits"@, digits_name(class_at(c))).0
}

pub open spec fn length_attr_name(p: int, is_word: bool, n: nat) -> Seq<char> {
    str_attr(prefix_at(p), "length"@, length_value(is_word, n)).0
}

pub open spec fn zeros_attr_name(p: int, n: nat) -> Seq<char> {
    str_attr(prefix_at(p), "trailing.zeros"@, zeros(n)).0
}

/// The three viewpoint ids of the boolean attribute `key`.
pub open spec fn fixed_ids_ok(model: Seq<u8>, ids: ViewIds, key: Seq<char>) -> bool {
    forall|p: int| 0 <= p < 3 ==> #[trigger] ids@[p] == attr_id(model, fixed_name(p, key))
}

/// The tables.
pub struct BoundedIds<'a> {
    model: &'a CrfModel<'a>,
    abbrev: ViewIds,
    directional: ViewIds,
    street_name: ViewIds,
    has_vowels: ViewIds,
    /// `word`'s false branch (an all-digits token).
    word_false: ViewIds,
    /// `trailing.zeros`'s false branch.
    trailing_zeros_false: ViewIds,
    /// `endsinpunc`'s false branch.
    endsinpunc_false: ViewIds,
    /// `[prefix][digits class]`.
    digits: Vec<ViewIds>,
    /// `[prefix][is_word][count]` for counts up to [`MAX_LENGTH`].
    length: Vec<Vec<Vec<Option<u32>>>>,
    /// `[prefix][zero count]` for counts up to [`MAX_TRAILING_ZEROS`].
    trailing_zeros_some: Vec<Vec<Option<u32>>>,
    address_start: Option<u32>,
    previous_address_start: Option<u32>,
    address_end: Option<u32>,
    next_address_end: Option<u32>,
}

impl<'a> BoundedIds<'a> {
    /// The model the tables were computed from.
    pub closed spec fn model(&self) -> Seq<u8> {
        self.model@
    }

    /// Every entry is the model's id of the name it stands for.
    #[verifier::type_invariant]
    spec fn wf(&self) -> bool {
        let m = self.model@;
        &&& fixed_ids_ok(m, self.abbrev, "abbrev"@)
        &&& fixed_ids_ok(m, self.directional, "directional"@)
        &&& fixed_ids_ok(m, self.street_name, "street_name"@)
        &&& fixed_ids_ok(m, self.has_vowels, "has.vowels"@)
        &&& fixed_ids_ok(m, self.word_false, "word"@)
        &&& fixed_ids_ok(m, self.trailing_zeros_false, "trailing.zeros"@)
        &&& fixed_ids_ok(m, self.endsinpunc_false, "endsinpunc"@)
        &&& self.digits@.len() == 3
        &&& forall|p: int, c: int|
            0 <= p < 3 && 0 <= c < 3 ==> #[trigger] self.digits@[p]@[c] == attr_id(
                m,
                digits_attr_name(p, c),
            )
        &&& self.length@.len() == 3
        &&& forall|p: int| 0 <= p < 3 ==> (#[trigger] self.length@[p])@.len() == 2
        &&& forall|p: int, w: int|
            0 <= p < 3 && 0 <= w < 2 ==> (#[trigger] self.length@[p]@[w])@.len() == MAX_LENGTH + 1
        &&& forall|p: int, w: int, n: int|
            0 <= p < 3 && 0 <= w < 2 && 0 <= n <= MAX_LENGTH ==> #[trigger] self.length@[p]@[w]@[n]
                == attr_id(m, length_attr_name(p, w == 1, n as nat))
        &&& self.trailing_zeros_some@.len() == 3
        &&& forall|p: int|
            0 <= p < 3 ==> (#[trigger] self.trailing_zeros_some@[p])@.len() == MAX_TRAILING_ZEROS + 1
        &&& forall|p: int, n: int|
            0 <= p < 3 && 0 <= n <= MAX_TRAILING_ZEROS ==> #[trigger] self.trailing_zeros_some@[p]@[n]
                == attr_id(m, zeros_attr_name(p, n as nat))
        &&& self.address_start == attr_id(m, "address.start"@)
        &&& self.previous_address_start == attr_id(m, "previous:address.start"@)
        &&& self.address_end == attr_id(m, "address.end"@)
        &&& self.next_address_end == attr_id(m, "next:address.end"@)
    }
}

/// The three viewpoint ids of the boolean attribute `key`.
fn fixed(model: &CrfModel, key: &str) -> (r: ViewIds)
    ensures
        fixed_ids_ok(model@, r, key@),
{
    let mut ids: Vec<Option<u32>> = Vec::new();
    let mut p: usize = 0;
    while p < 3
        invariant
            p <= 3,
            ids@.len() == p,
            forall|q: int| 0 <= q < p ==> #[trigger] ids@[q] == attr_id(model@, fixed_name(q, key@)),
        decreases 3 - p,
    {
        let mut name = String::from_str(viewpoint_of(p).prefix());
        name.append(key);
        ids.push(resolve_one(model, name.as_str()));
        p = p + 1;
    }
    let r = [ids[0], ids[1], ids[2]];
    proof {
        assert forall|q: int| 0 <= q < 3 implies #[trigger] r@[q] == attr_id(
            model@,
            fixed_name(q, key@),
        ) by {
            if q == 0 {
            } else if q == 1 {
            } else {
            }
        }
    }
    r
}

/// The digit class at index `c`.
fn class_of(c: usize) -> (d: DigitsClass)
    requires
        c < 3,
    ensures
        d == class_at(c as int),
{
    if c == 0 {
        DigitsClass::AllDigits
    } else if c == 1 {
        DigitsClass::SomeDigits
    } else {
        DigitsClass::NoDigits
    }
}

/// `n` zeros, as a string.
fn zeros_string(n: usize) -> (s: String)
    ensures
        s@ == zeros(n as nat),
{
    let mut v: Vec<char> = Vec::new();
    let mut i: usize = 0;
    while i < n
        invariant
            i <= n,
            v@ == zeros(i as nat),
        decreases n - i,
    {
        v.push('0');
        i = i + 1;
        proof {
            assert(v@ =~= zeros(i as nat));
        }
    }
    chars_to_string(v.as_slice())
}

/// `[prefix][digits class]` ids.
fn digits_table(model: &CrfModel) -> (t: Vec<ViewIds>)
    ensures
        t@.len() == 3,
        forall|p: int, c: int|
            0 <= p < 3 && 0 <= c < 3 ==> #[trigger] t@[p]@[c] == attr_id(model@, digits_attr_name(p, c)),
{
    let mut t: Vec<ViewIds> = Vec::new();
    let mut p: usize = 0;
    while p < 3
        invariant
            p <= 3,
            t@.len() == p,
            forall|q: int, c: int|
                0 <= q < p && 0 <= c < 3 ==> #[trigger] t@[q]@[c] == attr_id(model@, digits_attr_name(q, c)),
        decreases 3 - p,
    {
        let prefix = viewpoint_of(p).prefix();
        let a = resolve_str(model, prefix, "digits", class_of(0).as_str());
        let b = resolve_str(model, prefix, "digits", class_of(1).as_str());
        let c = resolve_str(model, prefix, "digits", class_of(2).as_str());
        let row = [a, b, c];
        proof {
            assert forall|k: int| 0 <= k < 3 implies #[trigger] row@[k] == attr_id(
                model@,
                digits_attr_name(p as int, k),
            ) by {
                if k == 0 {
                } else if k == 1 {
                } else {
                }
            }
        }
        t.push(row);
        p = p + 1;
    }
    t
}

/// The `length` ids of counts `0..=MAX_LENGTH` from viewpoint `p`.
fn length_row(model: &CrfModel, p: usize, is_word: bool) -> (r: Vec<Option<u32>>)
    requires
        p < 3,
    ensures
        r@.len() == MAX_LENGTH + 1,
        forall|n: int| 0 <= n <= MAX_LENGTH ==> #[trigger] r@[n] == attr_id(
            model@,
            length_attr_name(p as int, is_word, n as nat),
        ),
{
    let prefix = viewpoint_of(p).prefix();
    let mut r: Vec<Option<u32>> = Vec::new();
    let mut n: usize = 0;
    while n <= MAX_LENGTH
        invariant
            p < 3,
            prefix@ == prefix_at(p as int),
            n <= MAX_LENGTH + 1,
            r@.len() == n,
            forall|k: int| 0 <= k < n ==> #[trigger] r@[k] == attr_id(
                model@,
                length_attr_name(p as int, is_word, k as nat),
            ),
        decreases MAX_LENGTH + 1 - n,
    {
        let value = length_string(is_word, n);
        r.push(resolve_str(model, prefix, "length", value.as_str()));
        n = n + 1;
    }
    r
}

/// `[prefix][is_word][count]` ids.
fn length_table(model: &CrfModel) -> (t: Vec<Vec<Vec<Option<u32>>>>)
    ensures
        t@.len() == 3,
        forall|p: int| 0 <= p < 3 ==> (#[trigger] t@[p])@.len() == 2,
        forall|p: int, w: int| 0 <= p < 3 && 0 <= w < 2 ==> (#[trigger] t@[p]@[w])@.len() == MAX_LENGTH + 1,
        forall|p: int, w: int, n: int|
            0 <= p < 3 && 0 <= w < 2 && 0 <= n <= MAX_LENGTH ==> #[trigger] t@[p]@[w]@[n] == attr_id(
                model@,
                length_attr_name(p, w == 1, n as nat),
            ),
{
    let mut t: Vec<Vec<Vec<Option<u32>>>> = Vec::new();
    let mut p: usize = 0;
    while p < 3
        invariant
            p <= 3,
            t@.len() == p,
            forall|q: int| 0 <= q < p ==> (#[trigger] t@[q])@.len() == 2,
            forall|q: int, w: int| 0 <= q < p && 0 <= w < 2 ==> (#[trigger] t@[q]@[w])@.len() == MAX_LENGTH + 1,
            forall|q: int, w: int, n: int|
                0 <= q < p && 0 <= w < 2 && 0 <= n <= MAX_LENGTH ==> #[trigger] t@[q]@[w]@[n]
                    == attr_id(model@, length_attr_name(q, w == 1, n as nat)),
        decreases 3 - p,
    {
        let mut pair: Vec<Vec<Option<u32>>> = Vec::new();
        pair.push(length_row(model, p, false));
        pair.push(length_row(model, p, true));
        t.push(pair);
        p = p + 1;
    }
    t
}

/// `[prefix][zero count]` ids.
fn zeros_table(model: &CrfModel) -> (t: Vec<Vec<Option<u32>>>)
    ensures
        t@.len() == 3,
        forall|p: int| 0 <= p < 3 ==> (#[trigger] t@[p])@.len() == MAX_TRAILING_ZEROS + 1,
        forall|p: int, n: int|
            0 <= p < 3 && 0 <= n <= MAX_TRAILING_ZEROS ==> #[trigger] t@[p]@[n] == attr_id(
                model@,
                zeros_attr_name(p, n as nat),
            ),
{
    let mut t: Vec<Vec<Option<u32>>> = Vec::new();
    let mut p: usize = 0;
    while p < 3
        invariant
            p <= 3,
            t@.len() == p,
            forall|q: int| 0 <= q < p ==> (#[trigger] t@[q])@.len() == MAX_TRAILING_ZEROS + 1,
            forall|q: int, n: int|
                0 <= q < p && 0 <= n <= MAX_TRAILING_ZEROS ==> #[trigger] t@[q]@[n] == attr_id(
                    model@,
                    zeros_attr_name(q, n as nat),
                ),
        decreases 3 - p,
    {
        let prefix = viewpoint_of(p).prefix();
        let mut row: Vec<Option<u32>> = Vec::new();
        let mut n: usize = 0;
        while n <= MAX_TRAILING_ZEROS
            invariant
                p < 3,
                prefix@ == prefix_at(p as int),
                n <= MAX_TRAILING_ZEROS + 1,
                row@.len() == n,
                forall|k: int| 0 <= k < n ==> #[trigger] row@[k] == attr_id(
                    model@,
                    zeros_attr_name(p as int, k as nat),
                ),
            decreases MAX_TRAILING_ZEROS + 1 - n,
        {
            let z = zeros_string(n);
            row.push(resolve_str(model, prefix, "trailing.zeros", z.as_str()));
            n = n + 1;
        }
        t.push(row);
        p = p + 1;
    }
    t
}

impl<'a> BoundedIds<'a> {
    /// The tables of `model`.
    pub fn new(model: &'a CrfModel<'a>) -> (t: Self)
        ensures
            t.model() == model@,
    {
        BoundedIds {
            model,
            abbrev: fixed(model, "abbrev"),
            directional: fixed(model, "directional"),
            street_name: fixed(model, "street_name"),
            has_vowels: fixed(model, "has.vowels"),
            word_false: fixed(model, "word"),
            trailing_zeros_false: fixed(model, "trailing.zeros"),
            endsinpunc_false: fixed(model, "endsinpunc"),
            digits: digits_table(model),
            length: length_table(model),
            trailing_zeros_some: zeros_table(model),
            address_start: resolve_one(model, "address.start"),
            previous_address_start: resolve_one(model, "previous:address.start"),
            address_end: resolve_one(model, "address.end"),
            next_address_end: resolve_one(model, "next:address.end"),
        }
    }

    /// The model the tables were computed from.
    pub fn crf_model(&self) -> (m: &'a CrfModel<'a>)
        ensures
            m@ == self.model(),
    {
        self.model
    }

    pub fn abbrev(&self, prefix: usize) -> (r: Option<u32>)
        requires
            prefix < 3,
        ensures
            r == attr_id(self.model(), fixed_name(prefix as int, "abbrev"@)),
    {
        proof {
            use_type_invariant(self);
        }
        self.abbrev[prefix]
    }

    pub fn directional(&self, prefix: usize) -> (r: Option<u32>)
        requires
            prefix < 3,
        ensures
            r == attr_id(self.model(), fixed_name(prefix as int, "directional"@)),
    {
        proof {
            use_type_invariant(self);
        }
        self.directional[prefix]
    }

    pub fn street_name(&self, prefix: usize) -> (r: Option<u32>)
        requires
            prefix < 3,
        ensures
            r == attr_id(self.model(), fixed_name(prefix as int, "street_name"@)),
    {
        proof {
            use_type_invariant(self);
        }
        self.street_name[prefix]
    }

    pub fn has_vowels(&self, prefix: usize) -> (r: Option<u32>)
        requires
            prefix < 3,
        ensures
            r == attr_id(self.model(), fixed_name(prefix as int, "has.vowels"@)),
    {
        proof {
            use_type_invariant(self);
        }
        self.has_vowels[prefix]
    }

    pub fn word_false(&self, prefix: usize) -> (r: Option<u32>)
        requires
            prefix < 3,
        ensures
            r == attr_id(self.model(), fixed_name(prefix as int, "word"@)),
    {
        proof {
            use_type_invariant(self);
        }
        self.word_false[prefix]
    }

    pub fn trailing_zeros_false(&self, prefix: usize) -> (r: Option<u32>)
        requires
            prefix < 3,
        ensures
            r == attr_id(self.model(), fixed_name(prefix as int, "trailing.zeros"@)),
    {
        proof {
            use_type_invariant(self);
        }
        self.trailing_zeros_false[prefix]
    }

    pub fn endsinpunc_false(&self, prefix: usize) -> (r: Option<u32>)
        requires
            prefix < 3,
        ensures
            r == attr_id(self.model(), fixed_name(prefix as int, "endsinpunc"@)),
    {
        proof {
            use_type_invariant(self);
        }
        self.endsinpunc_false[prefix]
    }

    /// Digit classes are always one of three, so there is no out-of-range
    /// case here.
    pub fn digits_id(&self, prefix: usize, class_idx: usize) -> (r: Option<u32>)
        requires
            prefix < 3,
            class_idx < 3,
        ensures
            r == attr_id(self.model(), digits_attr_name(prefix as int, class_idx as int)),
    {
        proof {
            use_type_invariant(self);
        }
        self.digits[prefix][class_idx]
    }

    /// `None`: the count is beyond the table, look the name up instead.
    /// `Some(inner)`: in range; `inner` is the (possibly absent) id.
    pub fn length_id(&self, prefix: usize, is_word: bool, count: usize) -> (r: Option<Option<u32>>)
        requires
            prefix < 3,
        ensures
            count <= MAX_LENGTH ==> r == Some(
                attr_id(self.model(), length_attr_name(prefix as int, is_word, count as nat)),
            ),
            count > MAX_LENGTH ==> r is None,
    {
        proof {
            use_type_invariant(self);
        }
        if count > MAX_LENGTH {
            return None;
        }
        let w: usize = if is_word { 1 } else { 0 };
        Some(self.length[prefix][w][count])
    }

    /// Same in-range/out-of-range shape as [`BoundedIds::length_id`].
    pub fn trailing_zeros_some_id(&self, prefix: usize, zero_count: usize) -> (r: Option<Option<u32>>)
        requires
            prefix < 3,
        ensures
            zero_count <= MAX_TRAILING_ZEROS ==> r == Some(
                attr_id(self.model(), zeros_attr_name(prefix as int, zero_count as nat)),
            ),
            zero_count > MAX_TRAILING_ZEROS ==> r is None,
    {
        proof {
            use_type_invariant(self);
        }
        if zero_count > MAX_TRAILING_ZEROS {
            return None;
        }
        Some(self.trailing_zeros_some[prefix][zero_count])
    }

    pub fn address_start(&self) -> (r: Option<u32>)
        ensures
            r == attr_id(self.model(), "address.start"@),
    {
        proof {
            use_type_invariant(self);
        }
        self.address_start
    }

    pub fn previous_address_start(&self) -> (r: Option<u32>)
        ensures
            r == attr_id(self.model(), "previous:address.start"@),
    {
        proof {
            use_type_invariant(self);
        }
        self.previous_address_start
    }

    pub fn address_end(&self) -> (r: Option<u32>)
        ensures
            r == attr_id(self.model(), "address.end"@),
    {
        proof {
            use_type_invariant(self);
        }
        self.address_end
    }

    pub fn next_address_end(&self) -> (r: Option<u32>)
        ensures
            r == attr_id(self.model(), "next:address.end"@),
    {
        proof {
            use_type_invariant(self);
        }
        self.next_address_end
    }
}

} // verus!

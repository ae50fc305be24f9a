//! Collapsing a token/label sequence into address components.

use vstd::prelude::*;

use crate::text::{chars_eq, chars_to_string, str_to_chars};
use crate::{AddressType, Error, LABELS};

verus! {

/// A token/label pair, viewed as characters.
pub open spec fn pairs_view(v: Seq<(String, String)>) -> Seq<(Seq<char>, Seq<char>)> {
    v.map_values(|p: (String, String)| (p.0@, p.1@))
}

/// Does `pat` occur in `s`?
pub open spec fn contains_sub(s: Seq<char>, pat: Seq<char>) -> bool {
    exists|i: int| 0 <= i && i + pat.len() <= s.len() && #[trigger] s.subrange(i, i + pat.len()) == pat
}

/// Is some label among the first `n` (`n` included when `inclusive`) the
/// intersection separator?
pub open spec fn separator_within(parsed: Seq<(Seq<char>, Seq<char>)>, n: int) -> bool {
    exists|k: int| 0 <= k < n && (#[trigger] parsed[k]).1 == "IntersectionSeparator"@
}

/// The label item `i` is filed under: once an intersection separator has been
/// seen (at `i` or before), every label containing `StreetName` belongs to the
/// second street and gets the prefix `Second`.
#[verifier::opaque]
pub open spec fn effective_label(parsed: Seq<(Seq<char>, Seq<char>)>, i: int) -> Seq<char> {
    let raw = parsed[i].1;
    if contains_sub(raw, "StreetName"@) && separator_within(parsed, i + 1) {
        "Second"@ + raw
    } else {
        raw
    }
}

/// Does any label of `parsed` equal `label`?
pub open spec fn has_label(parsed: Seq<(Seq<char>, Seq<char>)>, label: Seq<char>) -> bool {
    exists|k: int| 0 <= k < parsed.len() && (#[trigger] parsed[k]).1 == label
}

/// The address type, decided from the raw labels: an address number
/// without an intersection is a street address, an intersection without an
/// address number is an intersection, otherwise a USPS box id makes a PO box.
pub open spec fn spec_address_type(parsed: Seq<(Seq<char>, Seq<char>)>) -> AddressType {
    let number = has_label(parsed, "AddressNumber"@);
    let intersection = has_label(parsed, "IntersectionSeparator"@);
    if number && !intersection {
        AddressType::StreetAddress
    } else if intersection && !number {
        AddressType::Intersection
    } else if has_label(parsed, "USPSBoxID"@) {
        AddressType::PoBox
    } else {
        AddressType::Ambiguous
    }
}

/// Group the first `n` items into components: consecutive items with the
/// same effective label form one component; a label that comes back after a
/// different one is an error carrying that label.
pub open spec fn group(parsed: Seq<(Seq<char>, Seq<char>)>, n: int) -> Result<
    Seq<(Seq<char>, Seq<Seq<char>>)>,
    Seq<char>,
>
    decreases n,
{
    if n <= 0 {
        Ok(seq![])
    } else {
        match group(parsed, n - 1) {
            Err(l) => Err(l),
            Ok(cs) => {
                let label = effective_label(parsed, n - 1);
                let token = parsed[n - 1].0;
                if n >= 2 && effective_label(parsed, n - 2) == label {
                    Ok(cs.update(cs.len() - 1, (label, cs.last().1.push(token))))
                } else if exists|j: int| 0 <= j < cs.len() && (#[trigger] cs[j]).0 == label {
                    Err(label)
                } else {
                    Ok(cs.push((label, seq![token])))
                }
            },
        }
    }
}

/// The tokens joined with single spaces.
pub open spec fn join(toks: Seq<Seq<char>>) -> Seq<char>
    decreases toks.len(),
{
    if toks.len() == 0 {
        seq![]
    } else if toks.len() == 1 {
        toks[0]
    } else {
        join(toks.drop_last()) + seq![' '] + toks.last()
    }
}

/// Characters trimmed from both ends of a component: space, comma, semicolon.
pub open spec fn is_trim_char(c: char) -> bool {
    c == ' ' || c == ',' || c == ';'
}

pub open spec fn trim_start(s: Seq<char>, i: int) -> int
    decreases s.len() - i,
{
    if 0 <= i < s.len() && is_trim_char(s[i]) {
        trim_start(s, i + 1)
    } else {
        i
    }
}

pub open spec fn trim_stop(s: Seq<char>, e: int) -> int
    decreases e,
{
    if 0 < e <= s.len() && is_trim_char(s[e - 1]) {
        trim_stop(s, e - 1)
    } else {
        e
    }
}

/// `s` without leading and trailing spaces, commas and semicolons.
pub open spec fn trim(s: Seq<char>) -> Seq<char> {
    let rest = s.skip(trim_start(s, 0));
    rest.take(trim_stop(rest, rest.len() as int))
}

/// A component's text: its tokens joined by spaces, then trimmed.
pub open spec fn component_text(c: (Seq<char>, Seq<Seq<char>>)) -> (Seq<char>, Seq<char>) {
    (c.0, trim(join(c.1)))
}

/// What collapsing `parsed` gives: the components (label, text) in order of
/// first appearance and the address type, or the first repeated label.
pub open spec fn spec_collapse(parsed: Seq<(Seq<char>, Seq<char>)>) -> Result<
    (Seq<(Seq<char>, Seq<char>)>, AddressType),
    Seq<char>,
> {
    match group(parsed, parsed.len() as int) {
        Ok(cs) => Ok((cs.map_values(|c: (Seq<char>, Seq<Seq<char>>)| component_text(c)), spec_address_type(parsed))),
        Err(l) => Err(l),
    }
}

pub open spec fn texts_view(v: Seq<String>) -> Seq<Seq<char>> {
    v.map_values(|t: String| t@)
}

pub open spec fn groups_view(v: Seq<(String, Vec<String>)>) -> Seq<(Seq<char>, Seq<Seq<char>>)> {
    v.map_values(|c: (String, Vec<String>)| (c.0@, texts_view(c.1@)))
}

/// Exec [`contains_sub`].
fn contains_exec(s: &[char], pat: &[char]) -> (b: bool)
    ensures
        b == contains_sub(s@, pat@),
{
    if pat.len() == 0 {
        assert(s@.subrange(0, 0int + pat@.len()) =~= pat@);
        return true;
    }
    let mut i: usize = 0;
    while i < s.len() && pat.len() <= s.len() - i
        invariant
            pat@.len() > 0,
            i <= s@.len(),
            forall|k: int| 0 <= k < i ==> #[trigger] s@.subrange(k, k + pat@.len()) != pat@,
        decreases s@.len() - i,
    {
        if chars_eq(&s[i..i + pat.len()], pat) {
            assert(s@.subrange(i as int, i + pat@.len()) == pat@);
            return true;
        }
        i = i + 1;
    }
    proof {
        assert forall|k: int| 0 <= k && k + pat@.len() <= s@.len() implies #[trigger] s@.subrange(
            k,
            k + pat@.len(),
        ) != pat@ by {
            assert(k < i);
        }
    }
    false
}

/// The tokens joined with single spaces, as characters.
fn join_exec(toks: &Vec<String>) -> (r: Vec<char>)
    ensures
        r@ == join(texts_view(toks@)),
{
    let ghost tv = texts_view(toks@);
    let mut out: Vec<char> = Vec::new();
    let mut k: usize = 0;
    while k < toks.len()
        invariant
            tv == texts_view(toks@),
            k <= toks@.len(),
            out@ == join(tv.take(k as int)),
        decreases toks@.len() - k,
    {
        let mut t = str_to_chars(toks[k].as_str());
        let ghost before = out@;
        if k > 0 {
            out.push(' ');
        }
        let ghost mid = out@;
        out.append(&mut t);
        proof {
            assert(tv[k as int] == toks@[k as int]@);
            assert(tv.take(k + 1).drop_last() =~= tv.take(k as int));
            assert(tv.take(k + 1).last() == tv[k as int]);
            if k == 0 {
                assert(tv.take(0) =~= Seq::<Seq<char>>::empty());
                assert(before =~= Seq::<char>::empty());
                assert(tv.take(1).len() == 1);
                assert(out@ =~= tv.take(1)[0]);
            } else {
                assert(mid =~= before + seq![' ']);
            }
        }
        k = k + 1;
    }
    proof {
        assert(tv.take(toks@.len() as int) =~= tv);
    }
    out
}

/// Exec [`trim`], as a string.
fn trim_exec(s: &[char]) -> (r: String)
    ensures
        r@ == trim(s@),
{
    let mut a: usize = 0;
    while a < s.len() && (s[a] == ' ' || s[a] == ',' || s[a] == ';')
        invariant
            a <= s@.len(),
            trim_start(s@, 0) == trim_start(s@, a as int),
        decreases s@.len() - a,
    {
        a = a + 1;
    }
    let rest = &s[a..s.len()];
    proof {
        assert(rest@ =~= s@.skip(a as int));
    }
    let mut e: usize = rest.len();
    while e > 0 && (rest[e - 1] == ' ' || rest[e - 1] == ',' || rest[e - 1] == ';')
        invariant
            e <= rest@.len(),
            trim_stop(rest@, rest@.len() as int) == trim_stop(rest@, e as int),
        decreases e,
    {
        e = e - 1;
    }
    proof {
        assert(rest@.subrange(0, e as int) =~= rest@.take(e as int));
    }
    chars_to_string(&rest[0..e])
}

/// Is some component already filed under `label`?
fn has_component(comps: &Vec<(String, Vec<String>)>, label: &String) -> (b: bool)
    ensures
        b == exists|j: int| 0 <= j < comps@.len() && (#[trigger] groups_view(comps@)[j]).0 == label@,
{
    let mut j: usize = 0;
    while j < comps.len()
        invariant
            j <= comps@.len(),
            forall|k: int| 0 <= k < j ==> (#[trigger] groups_view(comps@)[k]).0 != label@,
        decreases comps@.len() - j,
    {
        if comps[j].0 == *label {
            assert(groups_view(comps@)[j as int].0 == label@);
            return true;
        }
        j = j + 1;
    }
    false
}

/// Collapse consecutive same-labelled tokens into one component per label,
/// and classify the address.
///
/// Components come in order of first appearance, each label once.
pub fn collapse(parsed: Vec<(String, String)>) -> (r: Result<(Vec<(String, String)>, AddressType), Error>)
    ensures
        spec_collapse(pairs_view(parsed@)) is Ok <==> r is Ok,
        r matches Ok((comps, t)) ==> spec_collapse(pairs_view(parsed@)) == Ok::<
            (Seq<(Seq<char>, Seq<char>)>, AddressType),
            Seq<char>,
        >((pairs_view(comps@), t)),
        r matches Err(e) ==> e matches Error::RepeatedLabel { label, parsed: p } && p@ == parsed@
            && spec_collapse(pairs_view(parsed@)) == Err::<
            (Seq<(Seq<char>, Seq<char>)>, AddressType),
            Seq<char>,
        >(label@),
{
    reveal(effective_label);
    let ghost pv = pairs_view(parsed@);
    let sep = String::from_str("IntersectionSeparator");
    let number = String::from_str("AddressNumber");
    let box_id = String::from_str("USPSBoxID");
    let street = str_to_chars("StreetName");
    let mut comps: Vec<(String, Vec<String>)> = Vec::new();
    let mut intersection = false;
    let mut saw_number = false;
    let mut saw_box_id = false;
    let n = parsed.len();
    let mut i: usize = 0;
    proof {
        assert(groups_view(comps@) =~= Seq::<(Seq<char>, Seq<Seq<char>>)>::empty());
    }
    while i < n
        invariant
            n == parsed@.len(),
            pv == pairs_view(parsed@),
            street@ == "StreetName"@,
            sep@ == "IntersectionSeparator"@,
            number@ == "AddressNumber"@,
            box_id@ == "USPSBoxID"@,
            i <= n,
            group(pv, i as int) == Ok::<Seq<(Seq<char>, Seq<Seq<char>>)>, Seq<char>>(groups_view(comps@)),
            i > 0 ==> comps@.len() > 0 && groups_view(comps@).last().0 == effective_label(pv, i - 1),
            intersection == separator_within(pv, i as int),
            saw_number == exists|k: int| 0 <= k < i && (#[trigger] pv[k]).1 == "AddressNumber"@,
            saw_box_id == exists|k: int| 0 <= k < i && (#[trigger] pv[k]).1 == "USPSBoxID"@,
        decreases n - i,
    {
        let ghost old_groups = groups_view(comps@);
        let token = &parsed[i].0;
        let raw = &parsed[i].1;
        if *raw == sep {
            intersection = true;
        }
        if *raw == number {
            saw_number = true;
        }
        if *raw == box_id {
            saw_box_id = true;
        }
        proof {
            assert(pv[i as int] == (token@, raw@));
            assert(intersection == separator_within(pv, i + 1)) by {
                if raw@ == "IntersectionSeparator"@ {
                    assert(pv[i as int].1 == "IntersectionSeparator"@);
                }
            }
            assert(saw_number == exists|k: int| 0 <= k < i + 1 && (#[trigger] pv[k]).1 == "AddressNumber"@) by {
                if raw@ == "AddressNumber"@ {
                    assert(pv[i as int].1 == "AddressNumber"@);
                }
            }
            assert(saw_box_id == exists|k: int| 0 <= k < i + 1 && (#[trigger] pv[k]).1 == "USPSBoxID"@) by {
                if raw@ == "USPSBoxID"@ {
                    assert(pv[i as int].1 == "USPSBoxID"@);
                }
            }
        }
        let raw_chars = str_to_chars(raw.as_str());
        let label = if contains_exec(raw_chars.as_slice(), street.as_slice()) && intersection {
            String::from_str("Second").concat(raw.as_str())
        } else {
            raw.clone()
        };
        proof {
            reveal(effective_label);
        }
        assert(label@ == effective_label(pv, i as int));
        let continues = i > 0 && comps[comps.len() - 1].0 == label;
        if continues {
            let ghost old_comps = comps@;
            let mut last = comps.pop().unwrap();
            let ghost old_last_toks = last.1@;
            last.1.push(token.clone());
            proof {
                assert(texts_view(last.1@) =~= texts_view(old_last_toks).push(token@));
            }
            comps.push(last);
            proof {
                assert(comps@ =~= old_comps.update(old_comps.len() - 1, last));
                assert(groups_view(comps@) =~= old_groups.update(
                    old_groups.len() - 1,
                    (label@, old_groups.last().1.push(token@)),
                ));
            }
        } else if has_component(&comps, &label) {
            proof {
                assert(group(pv, i + 1) == Err::<Seq<(Seq<char>, Seq<Seq<char>>)>, Seq<char>>(label@));
                lemma_group_error_sticks(pv, i + 1, n as int);
            }
            return Err(Error::RepeatedLabel { label, parsed });
        } else {
            let ghost old_comps = comps@;
            let mut toks: Vec<String> = Vec::new();
            toks.push(token.clone());
            proof {
                assert(texts_view(toks@) =~= seq![token@]);
            }
            comps.push((label, toks));
            proof {
                assert(comps@ =~= old_comps.push((label, toks)));
                assert(groups_view(comps@) =~= old_groups.push((label@, seq![token@])));
            }
        }
        i = i + 1;
    }
    proof {
        assert(separator_within(pv, n as int) == has_label(pv, "IntersectionSeparator"@));
    }
    let mut out: Vec<(String, String)> = Vec::new();
    let mut j: usize = 0;
    while j < comps.len()
        invariant
            j <= comps@.len(),
            out@.len() == j,
            forall|k: int| 0 <= k < j ==> (#[trigger] pairs_view(out@)[k]) == component_text(
                groups_view(comps@)[k],
            ),
        decreases comps@.len() - j,
    {
        let joined = join_exec(&comps[j].1);
        let text = trim_exec(joined.as_slice());
        let ghost old_out = out@;
        out.push((comps[j].0.clone(), text));
        proof {
            assert(pairs_view(out@)[j as int] == component_text(groups_view(comps@)[j as int]));
            assert forall|k: int| 0 <= k < j + 1 implies (#[trigger] pairs_view(out@)[k])
                == component_text(groups_view(comps@)[k]) by {
                if k < j {
                    assert(out@[k] == old_out[k]);
                    assert(pairs_view(old_out)[k] == component_text(groups_view(comps@)[k]));
                }
            }
        }
        j = j + 1;
    }
    let address_type = if saw_number && !intersection {
        AddressType::StreetAddress
    } else if intersection && !saw_number {
        AddressType::Intersection
    } else if saw_box_id {
        AddressType::PoBox
    } else {
        AddressType::Ambiguous
    };
    proof {
        assert(pairs_view(out@) =~= groups_view(comps@).map_values(
            |c: (Seq<char>, Seq<Seq<char>>)| component_text(c),
        ));
    }
    Ok((out, address_type))
}

/// The text of the first component labelled `label`, if any.
pub open spec fn text_of(comps: Seq<(Seq<char>, Seq<char>)>, label: Seq<char>) -> Option<Seq<char>>
    decreases comps.len(),
{
    if comps.len() == 0 {
        None
    } else if comps[0].0 == label {
        Some(comps[0].1)
    } else {
        text_of(comps.drop_first(), label)
    }
}

pub open spec fn opt_text(o: Option<String>) -> Option<Seq<char>> {
    match o {
        Some(s) => Some(s@),
        None => None,
    }
}

/// The text of the first component labelled `label`.
fn find_text(comps: &Vec<(String, String)>, label: &String) -> (r: Option<String>)
    ensures
        opt_text(r) == text_of(pairs_view(comps@), label@),
{
    let ghost pv = pairs_view(comps@);
    let mut k: usize = 0;
    assert(pv.skip(0) =~= pv);
    while k < comps.len()
        invariant
            pv == pairs_view(comps@),
            k <= comps@.len(),
            text_of(pv, label@) == text_of(pv.skip(k as int), label@),
        decreases comps@.len() - k,
    {
        proof {
            assert(pv.skip(k as int).drop_first() =~= pv.skip(k + 1));
            assert(pv.skip(k as int)[0] == pv[k as int]);
        }
        if comps[k].0 == *label {
            return Some(comps[k].1.clone());
        }
        k = k + 1;
    }
    proof {
        assert(pv.skip(k as int).len() == 0);
    }
    None
}

/// The components laid out one per entry of [`LABELS`]: entry `i` is the
/// text of the component labelled `LABELS[i]`, or nothing. A component whose
/// label is not in `LABELS` has no place.
pub fn components_by_label(comps: &Vec<(String, String)>) -> (r: Vec<Option<String>>)
    ensures
        r@.len() == LABELS@.len(),
        forall|i: int| 0 <= i < LABELS@.len() ==> opt_text(#[trigger] r@[i]) == text_of(
            pairs_view(comps@),
            LABELS@[i]@,
        ),
{
    let mut out: Vec<Option<String>> = Vec::new();
    let mut i: usize = 0;
    while i < LABELS.len()
        invariant
            i <= LABELS@.len(),
            out@.len() == i,
            forall|q: int| 0 <= q < i ==> opt_text(#[trigger] out@[q]) == text_of(
                pairs_view(comps@),
                LABELS@[q]@,
            ),
        decreases LABELS@.len() - i,
    {
        let name = String::from_str(LABELS[i]);
        out.push(find_text(comps, &name));
        i = i + 1;
    }
    out
}

/// Once grouping has failed, it stays failed with the same label.
pub proof fn lemma_group_error_sticks(parsed: Seq<(Seq<char>, Seq<char>)>, m: int, n: int)
    requires
        0 <= m <= n,
        group(parsed, m) is Err,
    ensures
        group(parsed, n) == group(parsed, m),
    decreases n - m,
{
    if m < n {
        lemma_group_error_sticks(parsed, m, n - 1);
    }
}

} // verus!

//! Properties of the library as a whole, each proved from the specifications
//! the functions are verified against.

use vstd::prelude::*;

use crate::components::{contains_sub, effective_label, group, spec_collapse, trim, trim_start, trim_stop};
use crate::crf::storable;
use crate::text::{char_whitespace, word_class};
use crate::tokenize::{
    entity_at, spec_normalize, in_run, lemma_run_end_bounds, lemma_token_end, run_end, spec_tokenize, token_end, tokens_from,
    word_token_at, RunKind,
};
use crate::{spec_parse, spec_tokens, AddressType, LABELS};
use crate::features::{
    bool_attr, digits_name, flag_attr, item_attrs, length_value, opt_attr, spec_encode, str_attr,
    only_if, TokenFeaturesModel, abbrev_key, active_names, clean_token, decimal, spec_token_features,
    zeros_start, DigitsClass,
};

verus! {

/// Parsing labels every token of the address, in order, exactly once: the
/// parse holds as many pairs as the address has tokens, and pair `i` carries
/// token `i`.
pub proof fn law_parse_labels_every_token(
    model: Seq<u8>,
    directions: Seq<String>,
    street_names: Seq<String>,
    address: Seq<char>,
)
    ensures
        spec_parse(model, directions, street_names, address).len() == spec_tokens(address).len(),
        forall|i: int|
            0 <= i < spec_tokens(address).len() ==> (#[trigger] spec_parse(
                model,
                directions,
                street_names,
                address,
            )[i]).0 == spec_tokens(address)[i],
{
}

/// An address without tokens is no error: it parses to nothing and tags as
/// an ambiguous address without components.
pub proof fn law_empty_input_is_ambiguous(
    model: Seq<u8>,
    directions: Seq<String>,
    street_names: Seq<String>,
    address: Seq<char>,
)
    requires
        spec_tokens(address).len() == 0,
    ensures
        spec_parse(model, directions, street_names, address).len() == 0,
        spec_collapse(spec_parse(model, directions, street_names, address)) == Ok::<
            (Seq<(Seq<char>, Seq<char>)>, AddressType),
            Seq<char>,
        >((seq![], AddressType::Ambiguous)),
{
    let parsed = spec_parse(model, directions, street_names, address);
    assert(group(parsed, 0) == Ok::<Seq<(Seq<char>, Seq<Seq<char>>)>, Seq<char>>(seq![]));
    assert(spec_collapse(parsed)->Ok_0.0 =~= seq![]);
}

/// A label comes back at `k` after a different one intervened.
pub open spec fn repeat_at(parsed: Seq<(Seq<char>, Seq<char>)>, k: int) -> bool {
    1 <= k < parsed.len() && effective_label(parsed, k - 1) != effective_label(parsed, k) && exists|i: int|
        0 <= i < k - 1 && #[trigger] effective_label(parsed, i) == effective_label(parsed, k)
}

/// Grouping keeps the last item's label as the label of its last component.
proof fn lemma_group_last(parsed: Seq<(Seq<char>, Seq<char>)>, n: int)
    requires
        0 <= n <= parsed.len(),
        group(parsed, n) is Ok,
    ensures
        n > 0 ==> group(parsed, n)->Ok_0.len() > 0 && group(parsed, n)->Ok_0.last().0 == effective_label(
            parsed,
            n - 1,
        ),
        n == 0 ==> group(parsed, n)->Ok_0.len() == 0,
        n > 0 ==> group(parsed, n - 1) is Ok,
    decreases n,
{
    if n > 0 {
        lemma_group_last(parsed, n - 1);
    }
}

/// One grouping step: either the last component grows, or a new component
/// is pushed.
proof fn lemma_group_step(parsed: Seq<(Seq<char>, Seq<char>)>, n: int)
    requires
        0 < n <= parsed.len(),
        group(parsed, n) is Ok,
    ensures
        group(parsed, n - 1) is Ok,
        ({
            let prev = group(parsed, n - 1)->Ok_0;
            let cs = group(parsed, n)->Ok_0;
            let label = effective_label(parsed, n - 1);
            ||| (n >= 2 && prev.len() > 0 && prev.last().0 == label && cs.len() == prev.len() && forall|j: int|
                0 <= j < cs.len() ==> (#[trigger] cs[j]).0 == prev[j].0)
            ||| (cs.len() == prev.len() + 1 && cs.last().0 == label && (forall|j: int|
                0 <= j < prev.len() ==> (#[trigger] cs[j]).0 == prev[j].0) && !exists|j: int|
                0 <= j < prev.len() && (#[trigger] prev[j]).0 == label)
        }),
{
    lemma_group_last(parsed, n - 1);
    let prev = group(parsed, n - 1)->Ok_0;
    let cs = group(parsed, n)->Ok_0;
    let label = effective_label(parsed, n - 1);
    if n >= 2 && effective_label(parsed, n - 2) == label {
        assert forall|j: int| 0 <= j < cs.len() implies (#[trigger] cs[j]).0 == prev[j].0 by {
            if j == prev.len() - 1 {
            }
        }
    } else {
        assert(cs == prev.push((label, seq![parsed[n - 1].0])));
        assert forall|j: int| 0 <= j < prev.len() implies (#[trigger] cs[j]).0 == prev[j].0 by {
        }
    }
}

/// Every component's label is the label of some item.
proof fn lemma_group_sound(parsed: Seq<(Seq<char>, Seq<char>)>, n: int)
    requires
        0 <= n <= parsed.len(),
        group(parsed, n) is Ok,
    ensures
        forall|j: int|
            0 <= j < group(parsed, n)->Ok_0.len() ==> exists|i: int|
                0 <= i < n && effective_label(parsed, i) == (#[trigger] group(parsed, n)->Ok_0[j]).0,
    decreases n,
{
    if n > 0 {
        lemma_group_step(parsed, n);
        lemma_group_sound(parsed, n - 1);
        let prev = group(parsed, n - 1)->Ok_0;
        let cs = group(parsed, n)->Ok_0;
        assert forall|j: int| 0 <= j < cs.len() implies exists|i: int|
            0 <= i < n && effective_label(parsed, i) == (#[trigger] cs[j]).0 by {
            if j < prev.len() {
                assert(cs[j].0 == prev[j].0);
                assert(exists|i: int| 0 <= i < n - 1 && effective_label(parsed, i) == prev[j].0);
            } else {
                assert(cs.last().0 == cs[j].0);
                assert(effective_label(parsed, n - 1) == cs[j].0);
            }
        }
    }
}

/// Every item's label is the label of some component.
proof fn lemma_group_complete(parsed: Seq<(Seq<char>, Seq<char>)>, n: int)
    requires
        0 <= n <= parsed.len(),
        group(parsed, n) is Ok,
    ensures
        forall|i: int|
            0 <= i < n ==> exists|j: int|
                0 <= j < group(parsed, n)->Ok_0.len() && group(parsed, n)->Ok_0[j].0
                    == #[trigger] effective_label(parsed, i),
    decreases n,
{
    if n > 0 {
        lemma_group_step(parsed, n);
        lemma_group_last(parsed, n);
        lemma_group_complete(parsed, n - 1);
        let prev = group(parsed, n - 1)->Ok_0;
        let cs = group(parsed, n)->Ok_0;
        assert forall|i: int| 0 <= i < n implies exists|j: int|
            0 <= j < cs.len() && cs[j].0 == #[trigger] effective_label(parsed, i) by {
            if i == n - 1 {
                assert(cs[cs.len() - 1].0 == effective_label(parsed, i));
            } else {
                let j = choose|j: int| 0 <= j < prev.len() && prev[j].0 == effective_label(parsed, i);
                assert(cs[j].0 == prev[j].0);
                assert(0 <= j < cs.len() && cs[j].0 == effective_label(parsed, i));
            }
        }
    }
}

/// No two components share a label.
proof fn lemma_group_distinct(parsed: Seq<(Seq<char>, Seq<char>)>, n: int)
    requires
        0 <= n <= parsed.len(),
        group(parsed, n) is Ok,
    ensures
        forall|a: int, b: int|
            0 <= a < b < group(parsed, n)->Ok_0.len() ==> (#[trigger] group(parsed, n)->Ok_0[a]).0 != (
            #[trigger] group(parsed, n)->Ok_0[b]).0,
    decreases n,
{
    if n > 0 {
        lemma_group_step(parsed, n);
        lemma_group_distinct(parsed, n - 1);
        let prev = group(parsed, n - 1)->Ok_0;
        let cs = group(parsed, n)->Ok_0;
        assert forall|a: int, b: int| 0 <= a < b < cs.len() implies (#[trigger] cs[a]).0 != (
        #[trigger] cs[b]).0 by {
            assert(cs[a].0 == prev[a].0);
            if b < prev.len() {
                assert(cs[b].0 == prev[b].0);
            } else {
                assert(cs[b].0 == cs.last().0);
            }
        }
    }
}

/// Collapsing keeps one component per label: no two components share a
/// label.
pub proof fn law_component_labels_distinct(parsed: Seq<(Seq<char>, Seq<char>)>)
    requires
        group(parsed, parsed.len() as int) is Ok,
    ensures
        forall|a: int, b: int|
            0 <= a < b < group(parsed, parsed.len() as int)->Ok_0.len() ==> (#[trigger] group(
                parsed,
                parsed.len() as int,
            )->Ok_0[a]).0 != (#[trigger] group(parsed, parsed.len() as int)->Ok_0[b]).0,
{
    lemma_group_distinct(parsed, parsed.len() as int);
}

/// Collapsing fails exactly when a label comes back after a different label
/// intervened, and the error names the first such label.
pub proof fn law_repeated_label(parsed: Seq<(Seq<char>, Seq<char>)>, n: int)
    requires
        0 <= n <= parsed.len(),
    ensures
        group(parsed, n) is Err <==> exists|k: int| 1 <= k < n && #[trigger] repeat_at(parsed, k),
        group(parsed, n) is Err ==> exists|k: int|
            1 <= k < n && #[trigger] repeat_at(parsed, k) && group(parsed, n)->Err_0 == effective_label(
                parsed,
                k,
            ) && forall|k2: int| 1 <= k2 < k ==> !repeat_at(parsed, k2),
    decreases n,
{
    if n > 0 {
        law_repeated_label(parsed, n - 1);
        if group(parsed, n - 1) is Err {
            assert(group(parsed, n) == group(parsed, n - 1));
        } else {
            let prev = group(parsed, n - 1)->Ok_0;
            lemma_group_last(parsed, n - 1);
            let label = effective_label(parsed, n - 1);
            assert(forall|k: int| 1 <= k < n - 1 ==> !#[trigger] repeat_at(parsed, k));
            if n >= 2 && effective_label(parsed, n - 2) == label {
                assert(!repeat_at(parsed, n - 1));
                assert(group(parsed, n) is Ok);
                assert forall|k: int| 1 <= k < n implies !#[trigger] repeat_at(parsed, k) by {
                }
            } else if exists|j: int| 0 <= j < prev.len() && (#[trigger] prev[j]).0 == label {
                lemma_group_sound(parsed, n - 1);
                let j = choose|j: int| 0 <= j < prev.len() && (#[trigger] prev[j]).0 == label;
                let i = choose|i: int| 0 <= i < n - 1 && effective_label(parsed, i) == prev[j].0;
                assert(n >= 2);
                assert(i < n - 2) by {
                    if i == n - 2 {
                        assert(effective_label(parsed, n - 2) == label);
                    }
                }
                assert(effective_label(parsed, i) == effective_label(parsed, n - 1));
                assert(repeat_at(parsed, n - 1));
                assert(group(parsed, n) == Err::<Seq<(Seq<char>, Seq<Seq<char>>)>, Seq<char>>(label));
            } else {
                assert(group(parsed, n) is Ok);
                if n >= 2 {
                    assert(!repeat_at(parsed, n - 1)) by {
                        if repeat_at(parsed, n - 1) {
                            lemma_group_complete(parsed, n - 1);
                            let i = choose|i: int|
                                0 <= i < n - 2 && #[trigger] effective_label(parsed, i) == label;
                            let j = choose|j: int|
                                0 <= j < prev.len() && prev[j].0 == #[trigger] effective_label(parsed, i);
                            assert(prev[j].0 == label);
                        }
                    }
                }
                assert forall|k: int| 1 <= k < n implies !#[trigger] repeat_at(parsed, k) by {
                }
            }
        }
    }
}

/// Collapsing keeps one component per label: the components `collapse`
/// returns never share a label.
pub proof fn law_collapse_labels_distinct(parsed: Seq<(Seq<char>, Seq<char>)>)
    requires
        spec_collapse(parsed) is Ok,
    ensures
        ({
            let comps = spec_collapse(parsed)->Ok_0.0;
            forall|a: int, b: int| 0 <= a < b < comps.len() ==> (#[trigger] comps[a]).0 != (#[trigger] comps[b]).0
        }),
{
    let n = parsed.len() as int;
    lemma_group_distinct(parsed, n);
    let cs = group(parsed, n)->Ok_0;
    let comps = spec_collapse(parsed)->Ok_0.0;
    assert forall|a: int, b: int| 0 <= a < b < comps.len() implies (#[trigger] comps[a]).0 != (
    #[trigger] comps[b]).0 by {
        assert(comps[a].0 == cs[a].0);
        assert(comps[b].0 == cs[b].0);
    }
}

/// Collapsing is refused exactly when a label comes back after a different
/// label intervened, and the refusal names the first label that did.
pub proof fn law_collapse_refuses_repeats(parsed: Seq<(Seq<char>, Seq<char>)>)
    ensures
        spec_collapse(parsed) is Err <==> exists|k: int| 1 <= k < parsed.len() && #[trigger] repeat_at(parsed, k),
        spec_collapse(parsed) is Err ==> exists|k: int|
            1 <= k < parsed.len() && #[trigger] repeat_at(parsed, k) && spec_collapse(parsed)->Err_0
                == effective_label(parsed, k) && forall|k2: int| 1 <= k2 < k ==> !repeat_at(parsed, k2),
{
    law_repeated_label(parsed, parsed.len() as int);
}

// ------------------------------------------------------- attribute names

/// The first two characters of one of the nine feature keys.
pub open spec fn key_head(c0: char, c1: char) -> bool {
    ||| (c0 == 'a' && c1 == 'b')
    ||| (c0 == 'd' && c1 == 'i')
    ||| (c0 == 'w' && c1 == 'o')
    ||| (c0 == 't' && c1 == 'r')
    ||| (c0 == 'l' && c1 == 'e')
    ||| (c0 == 'e' && c1 == 'n')
    ||| (c0 == 's' && c1 == 't')
    ||| (c0 == 'h' && c1 == 'a')
}

/// A name made of `p`, then a key starting with `c0 c1`, then anything.
proof fn lemma_name_head(p: Seq<char>, key: Seq<char>, rest: Seq<char>)
    requires
        key.len() >= 2,
    ensures
        (p + key + rest).len() >= p.len() + 2,
        (p + key + rest).take(p.len() as int) == p,
        (p + key + rest)[p.len() as int] == key[0],
        (p + key + rest)[p.len() + 1int] == key[1],
{
    assert((p + key + rest).take(p.len() as int) =~= p);
}

/// Every encoded name is the viewpoint prefix followed by a feature key.
pub proof fn lemma_encode_shape(f: TokenFeaturesModel, p: Seq<char>)
    ensures
        spec_encode(f, p).len() == 9,
        forall|j: int|
            0 <= j < 9 ==> {
                let nm = (#[trigger] spec_encode(f, p)[j]).0;
                &&& nm.len() >= p.len() + 2
                &&& nm.take(p.len() as int) == p
                &&& key_head(nm[p.len() as int], nm[p.len() + 1int])
            },
{
    reveal_strlit("abbrev");
    reveal_strlit("digits");
    reveal_strlit("word");
    reveal_strlit("trailing.zeros");
    reveal_strlit("length");
    reveal_strlit("endsinpunc");
    reveal_strlit("directional");
    reveal_strlit("street_name");
    reveal_strlit("has.vowels");
    reveal_strlit(":");
    let e = spec_encode(f, p);
    let empty = Seq::<char>::empty();
    assert(p + "abbrev"@ == p + "abbrev"@ + empty);
    lemma_name_head(p, "abbrev"@, empty);
    lemma_name_head(p, "digits"@, ":"@ + digits_name(f.digits));
    assert(e[1].0 == p + "digits"@ + (":"@ + digits_name(f.digits)));
    lemma_name_head(p, "word"@, empty);
    lemma_name_head(p, "word"@, ":"@ + f.word->0);
    assert(f.word is Some ==> e[2].0 == p + "word"@ + (":"@ + f.word->0));
    assert(f.word is None ==> e[2].0 == p + "word"@ + empty);
    lemma_name_head(p, "trailing.zeros"@, empty);
    lemma_name_head(p, "trailing.zeros"@, ":"@ + f.trailing_zeros->0);
    assert(f.trailing_zeros is Some ==> e[3].0 == p + "trailing.zeros"@ + (":"@ + f.trailing_zeros->0));
    assert(f.trailing_zeros is None ==> e[3].0 == p + "trailing.zeros"@ + empty);
    lemma_name_head(p, "length"@, ":"@ + length_value(f.length_is_word, f.length));
    assert(e[4].0 == p + "length"@ + (":"@ + length_value(f.length_is_word, f.length)));
    lemma_name_head(p, "endsinpunc"@, empty);
    lemma_name_head(p, "endsinpunc"@, ":"@ + f.endsinpunc->0);
    assert(f.endsinpunc is Some ==> e[5].0 == p + "endsinpunc"@ + (":"@ + f.endsinpunc->0));
    assert(f.endsinpunc is None ==> e[5].0 == p + "endsinpunc"@ + empty);
    lemma_name_head(p, "directional"@, empty);
    assert(e[6].0 == p + "directional"@ + empty);
    lemma_name_head(p, "street_name"@, empty);
    assert(e[7].0 == p + "street_name"@ + empty);
    lemma_name_head(p, "has.vowels"@, empty);
    assert(e[8].0 == p + "has.vowels"@ + empty);
    assert(e[0].0 == p + "abbrev"@ + empty);
}

/// Does some attribute of `attrs` carry the name `name`?
pub open spec fn has_name(attrs: Seq<(Seq<char>, bool)>, name: Seq<char>) -> bool {
    exists|k: int| 0 <= k < attrs.len() && (#[trigger] attrs[k]).0 == name
}

proof fn lemma_has_name_append(a: Seq<(Seq<char>, bool)>, b: Seq<(Seq<char>, bool)>, name: Seq<char>)
    ensures
        has_name(a + b, name) <==> has_name(a, name) || has_name(b, name),
{
    if has_name(a + b, name) {
        let k = choose|k: int| 0 <= k < (a + b).len() && (#[trigger] (a + b)[k]).0 == name;
        if k >= a.len() {
            assert(b[k - a.len()] == (a + b)[k]);
        }
    }
    if has_name(b, name) {
        let k = choose|k: int| 0 <= k < b.len() && (#[trigger] b[k]).0 == name;
        assert((a + b)[k + a.len()] == b[k]);
    }
    if has_name(a, name) {
        let k = choose|k: int| 0 <= k < a.len() && (#[trigger] a[k]).0 == name;
        assert((a + b)[k] == a[k]);
    }
}

proof fn lemma_has_name_single(a: (Seq<char>, bool), name: Seq<char>)
    ensures
        has_name(seq![a], name) <==> a.0 == name,
{
    if a.0 == name {
        assert(seq![a][0].0 == name);
    }
}

/// A name that has not the shape of an encoded feature name under `p`.
proof fn lemma_not_encoded(f: TokenFeaturesModel, p: Seq<char>, name: Seq<char>)
    requires
        !(name.len() >= p.len() + 2 && name.take(p.len() as int) == p && key_head(
            name[p.len() as int],
            name[p.len() + 1int],
        )),
    ensures
        !has_name(spec_encode(f, p), name),
{
    lemma_encode_shape(f, p);
    if has_name(spec_encode(f, p), name) {
        let k = choose|k: int| 0 <= k < spec_encode(f, p).len() && (#[trigger] spec_encode(f, p)[k]).0 == name;
        assert(k < 9);
    }
}

/// No feature name, from any viewpoint, is one of the four positional
/// flags.
proof fn lemma_encode_lacks_flags(f: TokenFeaturesModel)
    ensures
        forall|p: Seq<char>, name: Seq<char>|
            (p == ""@ || p == "previous:"@ || p == "next:"@) && (name == "address.start"@ || name
                == "address.end"@ || name == "previous:address.start"@ || name == "next:address.end"@)
                ==> !#[trigger] has_name(spec_encode(f, p), name),
{
    reveal_strlit("");
    reveal_strlit("previous:");
    reveal_strlit("next:");
    reveal_strlit("address.start");
    reveal_strlit("address.end");
    reveal_strlit("previous:address.start");
    reveal_strlit("next:address.end");
    assert forall|p: Seq<char>, name: Seq<char>|
        (p == ""@ || p == "previous:"@ || p == "next:"@) && (name == "address.start"@ || name
            == "address.end"@ || name == "previous:address.start"@ || name == "next:address.end"@)
            implies !#[trigger] has_name(spec_encode(f, p), name) by {
        if name.len() >= p.len() + 2 && name.take(p.len() as int) == p {
            if p.len() > 0 {
                assert(name[0] == name.take(p.len() as int)[0]);
            }
            if p == "previous:"@ {
                assert(name[5] == name.take(p.len() as int)[5]);
            }
        }
        lemma_not_encoded(f, p, name);
    }
}

/// The positional flags land in exactly one place each: `address.start` on
/// the first item, `address.end` on the last, `previous:address.start` only
/// on the item at index 1, `next:address.end` only on the item at index
/// `n - 2`.
pub proof fn law_positional_flags(fs: Seq<TokenFeaturesModel>, i: int)
    requires
        0 <= i < fs.len(),
    ensures
        has_name(item_attrs(fs, i), "address.start"@) <==> i == 0,
        has_name(item_attrs(fs, i), "address.end"@) <==> i == fs.len() - 1,
        has_name(item_attrs(fs, i), "previous:address.start"@) <==> i == 1,
        has_name(item_attrs(fs, i), "next:address.end"@) <==> i == fs.len() - 2,
{
    reveal_strlit("");
    reveal_strlit("previous:");
    reveal_strlit("next:");
    reveal_strlit("address.start");
    reveal_strlit("address.end");
    reveal_strlit("previous:address.start");
    reveal_strlit("next:address.end");
    let n = fs.len() as int;
    let own = spec_encode(fs[i], ""@);
    let f_start = only_if(i == 0, seq![flag_attr("address.start"@)]);
    let f_end = only_if(i + 1 == n, seq![flag_attr("address.end"@)]);
    let prev = only_if(i > 0, spec_encode(fs[i - 1], "previous:"@) + only_if(
        i == 1,
        seq![flag_attr("previous:address.start"@)],
    ));
    let next = only_if(i + 1 < n, spec_encode(fs[i + 1], "next:"@) + only_if(
        i + 2 == n,
        seq![flag_attr("next:address.end"@)],
    ));
    assert(item_attrs(fs, i) == own + f_start + f_end + prev + next);
    let flags = seq!["address.start"@, "address.end"@, "previous:address.start"@, "next:address.end"@];
    assert forall|t: int| 0 <= t < 4 implies {
        let name = #[trigger] flags[t];
        has_name(item_attrs(fs, i), name) <==> (
            (i == 0 && name == "address.start"@)
            || (i + 1 == n && name == "address.end"@)
            || (i == 1 && name == "previous:address.start"@)
            || (i + 2 == n && i + 1 < n && name == "next:address.end"@))
    } by {
        let name = flags[t];
        lemma_encode_lacks_flags(fs[i]);
        if i > 0 {
            lemma_encode_lacks_flags(fs[i - 1]);
        }
        if i + 1 < n {
            lemma_encode_lacks_flags(fs[i + 1]);
        }
        assert(!has_name(own, name));
        lemma_has_name_append(own + f_start + f_end + prev, next, name);
        lemma_has_name_append(own + f_start + f_end, prev, name);
        lemma_has_name_append(own + f_start, f_end, name);
        lemma_has_name_append(own, f_start, name);
        lemma_has_name_single(flag_attr("address.start"@), name);
        lemma_has_name_single(flag_attr("address.end"@), name);
        lemma_has_name_single(flag_attr("previous:address.start"@), name);
        lemma_has_name_single(flag_attr("next:address.end"@), name);
        if i > 0 {
            lemma_has_name_append(
                spec_encode(fs[i - 1], "previous:"@),
                only_if(i == 1, seq![flag_attr("previous:address.start"@)]),
                name,
            );
        }
        if i + 1 < n {
            lemma_has_name_append(
                spec_encode(fs[i + 1], "next:"@),
                only_if(i + 2 == n, seq![flag_attr("next:address.end"@)]),
                name,
            );
        }
        assert(!has_name(Seq::<(Seq<char>, bool)>::empty(), name));
    }
    assert("address.start"@.len() == 13);
    assert("address.end"@.len() == 11);
    assert("previous:address.start"@.len() == 22);
    assert("next:address.end"@.len() == 16);
    assert(flags[0] == "address.start"@);
    assert(flags[1] == "address.end"@);
    assert(flags[2] == "previous:address.start"@);
    assert(flags[3] == "next:address.end"@);
}

/// `s` begins with `pre`.
pub open spec fn starts_with(s: Seq<char>, pre: Seq<char>) -> bool {
    pre.len() <= s.len() && s.take(pre.len() as int) == pre
}

/// A name nested two viewpoints deep, such as `next:next:...`.
pub open spec fn nested_viewpoint(name: Seq<char>) -> bool {
    ||| starts_with(name, "next:next:"@)
    ||| starts_with(name, "next:previous:"@)
    ||| starts_with(name, "previous:next:"@)
    ||| starts_with(name, "previous:previous:"@)
}

/// Every name of `attrs` is at most one viewpoint deep.
pub open spec fn all_flat(attrs: Seq<(Seq<char>, bool)>) -> bool {
    forall|k: int| 0 <= k < attrs.len() ==> !nested_viewpoint((#[trigger] attrs[k]).0)
}

proof fn lemma_all_flat_append(a: Seq<(Seq<char>, bool)>, b: Seq<(Seq<char>, bool)>)
    requires
        all_flat(a),
        all_flat(b),
    ensures
        all_flat(a + b),
{
    assert forall|k: int| 0 <= k < (a + b).len() implies !nested_viewpoint((#[trigger] (a + b)[k]).0) by {
        if k < a.len() {
            assert((a + b)[k] == a[k]);
        } else {
            assert((a + b)[k] == b[k - a.len()]);
        }
    }
}

/// A name is flat when the character after its (at most one) viewpoint
/// prefix does not start another viewpoint.
proof fn lemma_flat_by_char(name: Seq<char>)
    requires
        ({
            ||| (name.len() >= 1 && name[0] != 'n' && name[0] != 'p')
            ||| (name.len() >= 6 && name.take(5) == "next:"@ && name[5] != 'n' && name[5] != 'p')
            ||| (name.len() >= 10 && name.take(9) == "previous:"@ && name[9] != 'n' && name[9] != 'p')
        }),
    ensures
        !nested_viewpoint(name),
{
    reveal_strlit("next:");
    reveal_strlit("previous:");
    reveal_strlit("next:next:");
    reveal_strlit("next:previous:");
    reveal_strlit("previous:next:");
    reveal_strlit("previous:previous:");
    let pres = seq!["next:next:"@, "next:previous:"@, "previous:next:"@, "previous:previous:"@];
    assert forall|t: int| 0 <= t < 4 implies !starts_with(name, #[trigger] pres[t]) by {
        let pre = pres[t];
        if starts_with(name, pre) {
            assert(name[0] == name.take(pre.len() as int)[0]);
            assert(name[5] == name.take(pre.len() as int)[5]);
            assert(name[9] == name.take(pre.len() as int)[9]);
            if name.len() >= 6 && name.take(5) == "next:"@ {
                assert(name[0] == name.take(5)[0]);
            }
            if name.len() >= 10 && name.take(9) == "previous:"@ {
                assert(name[0] == name.take(9)[0]);
            }
        }
    }
    assert(pres[0] == "next:next:"@);
    assert(pres[1] == "next:previous:"@);
    assert(pres[2] == "previous:next:"@);
    assert(pres[3] == "previous:previous:"@);
}

proof fn lemma_encode_flat(f: TokenFeaturesModel, p: Seq<char>)
    requires
        p == ""@ || p == "next:"@ || p == "previous:"@,
    ensures
        all_flat(spec_encode(f, p)),
{
    reveal_strlit("");
    reveal_strlit("next:");
    reveal_strlit("previous:");
    lemma_encode_shape(f, p);
    let e = spec_encode(f, p);
    assert forall|k: int| 0 <= k < e.len() implies !nested_viewpoint((#[trigger] e[k]).0) by {
        let nm = e[k].0;
        assert(key_head(nm[p.len() as int], nm[p.len() + 1int]));
        lemma_flat_by_char(nm);
    }
}

proof fn lemma_flag_flat(name: Seq<char>)
    requires
        name == "address.start"@ || name == "address.end"@ || name == "previous:address.start"@
            || name == "next:address.end"@,
    ensures
        all_flat(seq![flag_attr(name)]),
{
    reveal_strlit("address.start");
    reveal_strlit("address.end");
    reveal_strlit("previous:address.start");
    reveal_strlit("next:address.end");
    reveal_strlit("next:");
    reveal_strlit("previous:");
    if name == "previous:address.start"@ {
        assert(name.take(9) =~= "previous:"@);
    }
    if name == "next:address.end"@ {
        assert(name.take(5) =~= "next:"@);
    }
    lemma_flat_by_char(name);
    assert(seq![flag_attr(name)][0].0 == name);
}

/// Neighbours' features are nested one level only: no attribute name starts
/// with two viewpoint prefixes (`next:next:`, `previous:next:`, ...).
pub proof fn law_no_nested_viewpoints(fs: Seq<TokenFeaturesModel>, i: int)
    requires
        0 <= i < fs.len(),
    ensures
        all_flat(item_attrs(fs, i)),
{
    let n = fs.len() as int;
    let own = spec_encode(fs[i], ""@);
    let f_start = only_if(i == 0, seq![flag_attr("address.start"@)]);
    let f_end = only_if(i + 1 == n, seq![flag_attr("address.end"@)]);
    let prev = only_if(i > 0, spec_encode(fs[i - 1], "previous:"@) + only_if(
        i == 1,
        seq![flag_attr("previous:address.start"@)],
    ));
    let next = only_if(i + 1 < n, spec_encode(fs[i + 1], "next:"@) + only_if(
        i + 2 == n,
        seq![flag_attr("next:address.end"@)],
    ));
    let empty = Seq::<(Seq<char>, bool)>::empty();
    assert(all_flat(empty));
    lemma_encode_flat(fs[i], ""@);
    lemma_flag_flat("address.start"@);
    lemma_flag_flat("address.end"@);
    lemma_flag_flat("previous:address.start"@);
    lemma_flag_flat("next:address.end"@);
    if i > 0 {
        lemma_encode_flat(fs[i - 1], "previous:"@);
        lemma_all_flat_append(
            spec_encode(fs[i - 1], "previous:"@),
            only_if(i == 1, seq![flag_attr("previous:address.start"@)]),
        );
    }
    if i + 1 < n {
        lemma_encode_flat(fs[i + 1], "next:"@);
        lemma_all_flat_append(
            spec_encode(fs[i + 1], "next:"@),
            only_if(i + 2 == n, seq![flag_attr("next:address.end"@)]),
        );
    }
    lemma_all_flat_append(own, f_start);
    lemma_all_flat_append(own + f_start, f_end);
    lemma_all_flat_append(own + f_start + f_end, prev);
    lemma_all_flat_append(own + f_start + f_end + prev, next);
    assert(item_attrs(fs, i) == own + f_start + f_end + prev + next);
}

/// Every token is encoded into exactly nine attributes from each viewpoint,
/// a boolean feature that is false among them with weight zero rather than
/// left out.
pub proof fn law_nine_attributes(f: TokenFeaturesModel, p: Seq<char>)
    ensures
        spec_encode(f, p).len() == 9,
        spec_encode(f, p)[0] == bool_attr(p, "abbrev"@, f.abbrev),
        f.word is None ==> spec_encode(f, p)[2] == (p + "word"@, false),
        f.trailing_zeros is None ==> spec_encode(f, p)[3] == (p + "trailing.zeros"@, false),
        f.endsinpunc is None ==> spec_encode(f, p)[5] == (p + "endsinpunc"@, false),
        spec_encode(f, p)[6] == (p + "directional"@, f.directional),
        spec_encode(f, p)[7] == (p + "street_name"@, f.street_name),
        spec_encode(f, p)[8] == (p + "has.vowels"@, f.has_vowels),
{
}


/// `label` is one of `LABELS[lo..hi]`.
pub open spec fn listed(label: Seq<char>, lo: int, hi: int) -> bool {
    exists|i: int| lo <= i < hi && #[trigger] LABELS@[i]@ == label
}

/// No `St` anywhere in `s`.
spec fn no_st(s: Seq<char>) -> bool {
    forall|i: int| 0 <= i && i + 1 < s.len() ==> !(#[trigger] s[i] == 'S' && s[i + 1] == 't')
}

proof fn lemma_no_street(s: Seq<char>)
    requires
        no_st(s) || s.len() < 10,
    ensures
        !contains_sub(s, "StreetName"@),
{
    reveal_strlit("StreetName");
    assert forall|i: int| 0 <= i && i + 10 <= s.len() implies #[trigger] s.subrange(i, i + 10)
        != "StreetName"@ by {
        assert(s.subrange(i, i + 10)[0] == s[i]);
        assert(s.subrange(i, i + 10)[1] == s[i + 1]);
        assert(s[i] != 'S' || s[i + 1] != 't');
    }
}

/// The base labels that are not street-name labels hold no `StreetName`.
proof fn lemma_base_labels_without_street(i: int)
    requires
        0 <= i < 26,
        !(3 <= i <= 8),
    ensures
        !contains_sub(LABELS@[i]@, "StreetName"@),
{
    if i == 0 {
        reveal_strlit("AddressNumberPrefix");
        assert(no_st("AddressNumberPrefix"@));
    } else if i == 1 {
        reveal_strlit("AddressNumber");
        assert(no_st("AddressNumber"@));
    } else if i == 2 {
        reveal_strlit("AddressNumberSuffix");
        assert(no_st("AddressNumberSuffix"@));
    } else if i == 9 {
        reveal_strlit("SubaddressType");
        assert(no_st("SubaddressType"@));
    } else if i == 10 {
        reveal_strlit("SubaddressIdentifier");
        assert(no_st("SubaddressIdentifier"@));
    } else if i == 11 {
        reveal_strlit("BuildingName");
        assert(no_st("BuildingName"@));
    } else if i == 12 {
        reveal_strlit("OccupancyType");
        assert(no_st("OccupancyType"@));
    } else if i == 13 {
        reveal_strlit("OccupancyIdentifier");
        assert(no_st("OccupancyIdentifier"@));
    } else if i == 14 {
        reveal_strlit("CornerOf");
        assert(no_st("CornerOf"@));
    } else if i == 15 {
        reveal_strlit("LandmarkName");
        assert(no_st("LandmarkName"@));
    } else if i == 16 {
        reveal_strlit("PlaceName");
        assert(no_st("PlaceName"@));
    } else if i == 17 {
        reveal_strlit("StateName");
        assert("StateName"@.len() < 10);
    } else if i == 18 {
        reveal_strlit("ZipCode");
        assert(no_st("ZipCode"@));
    } else if i == 19 {
        reveal_strlit("USPSBoxType");
        assert(no_st("USPSBoxType"@));
    } else if i == 20 {
        reveal_strlit("USPSBoxID");
        assert(no_st("USPSBoxID"@));
    } else if i == 21 {
        reveal_strlit("USPSBoxGroupType");
        assert(no_st("USPSBoxGroupType"@));
    } else if i == 22 {
        reveal_strlit("USPSBoxGroupID");
        assert(no_st("USPSBoxGroupID"@));
    } else if i == 23 {
        reveal_strlit("IntersectionSeparator");
        assert(no_st("IntersectionSeparator"@));
    } else if i == 24 {
        reveal_strlit("Recipient");
        assert(no_st("Recipient"@));
    } else if i == 25 {
        reveal_strlit("NotAddress");
        assert(no_st("NotAddress"@));
    }
    lemma_no_street(LABELS@[i]@);
}


/// A street-name label with `Second` in front is its second-street label.
proof fn lemma_second_street(i: int)
    requires
        3 <= i <= 8,
    ensures
        "Second"@ + LABELS@[i]@ == LABELS@[i + 23]@,
{
    reveal_strlit("Second");
    if i == 3 {
        reveal_strlit("StreetNamePreModifier");
        reveal_strlit("SecondStreetNamePreModifier");
        assert("Second"@ + "StreetNamePreModifier"@ =~= "SecondStreetNamePreModifier"@);
    } else if i == 4 {
        reveal_strlit("StreetNamePreDirectional");
        reveal_strlit("SecondStreetNamePreDirectional");
        assert("Second"@ + "StreetNamePreDirectional"@ =~= "SecondStreetNamePreDirectional"@);
    } else if i == 5 {
        reveal_strlit("StreetNamePreType");
        reveal_strlit("SecondStreetNamePreType");
        assert("Second"@ + "StreetNamePreType"@ =~= "SecondStreetNamePreType"@);
    } else if i == 6 {
        reveal_strlit("StreetName");
        reveal_strlit("SecondStreetName");
        assert("Second"@ + "StreetName"@ =~= "SecondStreetName"@);
    } else if i == 7 {
        reveal_strlit("StreetNamePostType");
        reveal_strlit("SecondStreetNamePostType");
        assert("Second"@ + "StreetNamePostType"@ =~= "SecondStreetNamePostType"@);
    } else if i == 8 {
        reveal_strlit("StreetNamePostDirectional");
        reveal_strlit("SecondStreetNamePostDirectional");
        assert("Second"@ + "StreetNamePostDirectional"@ =~= "SecondStreetNamePostDirectional"@);
    }
}

/// The label a base label is filed under is listed.
proof fn lemma_effective_listed(parsed: Seq<(Seq<char>, Seq<char>)>, k: int)
    requires
        0 <= k < parsed.len(),
        listed(parsed[k].1, 0, 26),
    ensures
        listed(effective_label(parsed, k), 0, 32),
{
    reveal(effective_label);
    let i = choose|i: int| 0 <= i < 26 && #[trigger] LABELS@[i]@ == parsed[k].1;
    if 3 <= i <= 8 {
        lemma_second_street(i);
        assert(LABELS@[i + 23]@ == "Second"@ + parsed[k].1);
    } else {
        lemma_base_labels_without_street(i);
    }
}

/// [`LABELS`] holds every key tagging can produce: when the tagger labels
/// tokens with the 26 base labels only, every component of a collapse is
/// filed under one of the 32 listed labels (the six `Second*` ones for the
/// street of an intersection after the separator).
pub proof fn law_component_labels_listed(parsed: Seq<(Seq<char>, Seq<char>)>)
    requires
        forall|k: int| 0 <= k < parsed.len() ==> listed(#[trigger] parsed[k].1, 0, 26),
        spec_collapse(parsed) is Ok,
    ensures
        forall|j: int|
            0 <= j < spec_collapse(parsed)->Ok_0.0.len() ==> listed(
                (#[trigger] spec_collapse(parsed)->Ok_0.0[j]).0,
                0,
                32,
            ),
{
    let n = parsed.len() as int;
    lemma_group_sound(parsed, n);
    let cs = group(parsed, n)->Ok_0;
    let comps = spec_collapse(parsed)->Ok_0.0;
    assert forall|j: int| 0 <= j < comps.len() implies listed((#[trigger] comps[j]).0, 0, 32) by {
        assert(comps[j].0 == cs[j].0);
        let k = choose|k: int| 0 <= k < n && effective_label(parsed, k) == cs[j].0;
        lemma_effective_listed(parsed, k);
    }
}


// ----------------------------------------------------------- tokenizing

/// No run of any kind takes in a space.
proof fn lemma_space_ends_runs(k: RunKind)
    ensures
        !in_run(k, ' '),
{
}

/// A run that starts within `a` ends within `a` when `a` is followed by a
/// space.
proof fn lemma_run_before_space(a: Seq<char>, b: Seq<char>, i: int, k: RunKind)
    requires
        0 <= i <= a.len(),
    ensures
        run_end(a + seq![' '] + b, i, k) == run_end(a, i, k),
    decreases a.len() - i,
{
    let s = a + seq![' '] + b;
    lemma_space_ends_runs(k);
    if i < a.len() {
        assert(s[i] == a[i]);
        if in_run(k, a[i]) {
            lemma_run_before_space(a, b, i + 1, k);
        }
    } else {
        assert(s[i] == ' ');
    }
}

/// Runs in `b` are the same runs after any prefix, shifted.
proof fn lemma_run_shift(p: Seq<char>, b: Seq<char>, j: int, k: RunKind)
    requires
        0 <= j <= b.len(),
    ensures
        run_end(p + b, p.len() + j, k) == p.len() + run_end(b, j, k),
    decreases b.len() - j,
{
    let s = p + b;
    if j < b.len() {
        assert(s[p.len() + j] == b[j]);
        if in_run(k, b[j]) {
            lemma_run_shift(p, b, j + 1, k);
        }
    }
}

/// The tokens found from `i` in `a` are found the same way when `a` is
/// followed by a space and `b`, and the search then goes on at the space.
proof fn lemma_tokens_before_space(a: Seq<char>, b: Seq<char>, i: int)
    requires
        0 <= i <= a.len(),
    ensures
        tokens_from(a + seq![' '] + b, i) == tokens_from(a, i) + tokens_from(
            a + seq![' '] + b,
            a.len() as int,
        ),
    decreases a.len() - i,
{
    let s = a + seq![' '] + b;
    let rest = tokens_from(s, a.len() as int);
    if i == a.len() {
        assert(tokens_from(a, i) == Seq::<Seq<char>>::empty());
        assert(tokens_from(a, i) + rest =~= rest);
    } else {
        let j = run_end(a, i, RunKind::Junk);
        lemma_run_end_bounds(a, i, RunKind::Junk);
        lemma_run_before_space(a, b, i, RunKind::Junk);
        lemma_run_before_space(a, b, j, RunKind::OpenParen);
        let k = run_end(a, j, RunKind::OpenParen);
        lemma_run_end_bounds(a, j, RunKind::OpenParen);
        if k < a.len() {
            assert(s[k] == a[k]);
        } else {
            assert(s[k] == ' ');
        }
        assert(word_token_at(s, i) == word_token_at(a, i));
        assert(s[i] == a[i]);
        if word_token_at(a, i) {
            lemma_token_end(a, i);
            lemma_run_before_space(a, b, k + 1, RunKind::Body);
            let m = run_end(a, k + 1, RunKind::Body);
            lemma_run_end_bounds(a, k + 1, RunKind::Body);
            lemma_run_before_space(a, b, m, RunKind::Trailer);
            let e = token_end(a, i);
            assert(token_end(s, i) == e);
            assert(s.subrange(j, e) =~= a.subrange(j, e));
            lemma_tokens_before_space(a, b, e);
            assert(tokens_from(s, i) == seq![a.subrange(j, e)] + tokens_from(s, e));
            assert(tokens_from(a, i) == seq![a.subrange(j, e)] + tokens_from(a, e));
            assert(tokens_from(s, i) =~= tokens_from(a, i) + rest);
        } else if a[i] == '#' || a[i] == '&' {
            lemma_tokens_before_space(a, b, i + 1);
            assert(tokens_from(s, i) =~= tokens_from(a, i) + rest);
        } else {
            lemma_tokens_before_space(a, b, i + 1);
        }
    }
}

/// The tokens found from `p.len() + j` in `p + b` are those found from `j` in
/// `b`.
proof fn lemma_tokens_shift(p: Seq<char>, b: Seq<char>, j: int)
    requires
        0 <= j <= b.len(),
    ensures
        tokens_from(p + b, p.len() + j) == tokens_from(b, j),
    decreases b.len() - j,
{
    let s = p + b;
    let i = p.len() + j;
    if j < b.len() {
        let jj = run_end(b, j, RunKind::Junk);
        lemma_run_end_bounds(b, j, RunKind::Junk);
        lemma_run_shift(p, b, j, RunKind::Junk);
        lemma_run_shift(p, b, jj, RunKind::OpenParen);
        let k = run_end(b, jj, RunKind::OpenParen);
        lemma_run_end_bounds(b, jj, RunKind::OpenParen);
        if k < b.len() {
            assert(s[p.len() + k] == b[k]);
        }
        assert(word_token_at(s, i) == word_token_at(b, j));
        assert(s[i] == b[j]);
        if word_token_at(b, j) {
            lemma_token_end(b, j);
            lemma_run_shift(p, b, k + 1, RunKind::Body);
            let m = run_end(b, k + 1, RunKind::Body);
            lemma_run_end_bounds(b, k + 1, RunKind::Body);
            lemma_run_shift(p, b, m, RunKind::Trailer);
            let e = token_end(b, j);
            assert(token_end(s, i) == p.len() + e);
            assert(s.subrange(p.len() + jj, p.len() + e) =~= b.subrange(jj, e));
            lemma_tokens_shift(p, b, e);
            assert(tokens_from(s, i) == seq![b.subrange(jj, e)] + tokens_from(s, p.len() + e));
        } else {
            lemma_tokens_shift(p, b, j + 1);
            assert(tokens_from(s, i) =~= tokens_from(b, j));
        }
    }
}

/// No token spans a space: tokenizing two strings joined by one space gives
/// the tokens of the first followed by the tokens of the second.
pub proof fn law_tokens_split_at_space(a: Seq<char>, b: Seq<char>)
    ensures
        spec_tokenize(a + seq![' '] + b) == spec_tokenize(a) + spec_tokenize(b),
{
    let p = a + seq![' '];
    let s = a + seq![' '] + b;
    assert(p + b =~= s);
    lemma_tokens_before_space(a, b, 0);
    let n = a.len() as int;
    assert(s[n] == ' ');
    lemma_space_ends_runs(RunKind::Junk);
    lemma_space_ends_runs(RunKind::OpenParen);
    assert(run_end(s, n, RunKind::Junk) == n);
    assert(run_end(s, n, RunKind::OpenParen) == n);
    assert(!word_token_at(s, n));
    assert(tokens_from(s, n) == tokens_from(s, n + 1));
    lemma_tokens_shift(p, b, 0);
    assert(p.len() + 0 == n + 1);
}


// ------------------------------------------------- weights the tagger sees

/// The tagger is handed exactly the names of the weight-one attributes (the
/// ones a dictionary key can hold), in order: every name handed over is the
/// name of an attribute of weight one, and every weight-one attribute is
/// handed over. So a false boolean, of weight zero, is never among them
/// unless a weight-one attribute carries the same name.
pub proof fn law_tagger_sees_weight_one_attributes(a: Seq<(Seq<char>, bool)>)
    ensures
        forall|j: int|
            0 <= j < active_names(a).len() ==> exists|k: int|
                0 <= k < a.len() && a[k].1 == true && #[trigger] active_names(a)[j] == a[k].0,
        forall|k: int|
            0 <= k < a.len() && a[k].1 == true && storable(a[k].0) ==> exists|j: int|
                0 <= j < active_names(a).len() && #[trigger] active_names(a)[j] == (#[trigger] a[k]).0,
    decreases a.len(),
{
    if a.len() > 0 {
        let init = a.drop_last();
        law_tagger_sees_weight_one_attributes(init);
        let r = active_names(a);
        let ri = active_names(init);
        let last = a.last();
        assert forall|j: int| 0 <= j < r.len() implies exists|k: int|
            0 <= k < a.len() && a[k].1 == true && #[trigger] r[j] == a[k].0 by {
            if j < ri.len() {
                assert(r[j] == ri[j]);
                let k = choose|k: int| 0 <= k < init.len() && init[k].1 == true && ri[j] == init[k].0;
                assert(a[k] == init[k]);
            } else {
                assert(last.1 && storable(last.0));
                assert(r[j] == last.0);
                assert(a[a.len() - 1] == last);
            }
        }
        assert forall|k: int|
            0 <= k < a.len() && a[k].1 == true && storable(a[k].0) implies exists|j: int|
            0 <= j < r.len() && #[trigger] r[j] == (#[trigger] a[k]).0 by {
            if k < init.len() {
                assert(a[k] == init[k]);
                let j = choose|j: int| 0 <= j < ri.len() && ri[j] == init[k].0;
                assert(r[j] == ri[j]);
            } else {
                assert(r[ri.len() as int] == last.0);
            }
        }
    }
}

// ------------------------------------------------------- component text

/// A character trimmed from a component's ends: space, comma, semicolon.
spec fn trimmed_off(c: char) -> bool {
    c == ' ' || c == ',' || c == ';'
}

proof fn lemma_trim_start(s: Seq<char>, i: int)
    requires
        0 <= i <= s.len(),
    ensures
        i <= trim_start(s, i) <= s.len(),
        forall|k: int| i <= k < trim_start(s, i) ==> trimmed_off(#[trigger] s[k]),
        trim_start(s, i) < s.len() ==> !trimmed_off(s[trim_start(s, i)]),
    decreases s.len() - i,
{
    if i < s.len() && trimmed_off(s[i]) {
        lemma_trim_start(s, i + 1);
    }
}

proof fn lemma_trim_stop(s: Seq<char>, e: int)
    requires
        0 <= e <= s.len(),
    ensures
        0 <= trim_stop(s, e) <= e,
        forall|k: int| trim_stop(s, e) <= k < e ==> trimmed_off(#[trigger] s[k]),
        trim_stop(s, e) > 0 ==> !trimmed_off(s[trim_stop(s, e) - 1]),
    decreases e,
{
    if 0 < e && trimmed_off(s[e - 1]) {
        lemma_trim_stop(s, e - 1);
    }
}

/// Trimming a component's text removes spaces, commas and semicolons from
/// its two ends and nothing else: the result is a contiguous piece of the
/// text, everything cut away before and after it is one of those three
/// characters, and it neither starts nor ends with one. (So a component
/// ending in an abbreviation's dot keeps the dot.)
pub proof fn law_trim_cuts_only_spaces_commas_semicolons(s: Seq<char>)
    ensures
        exists|a: int, e: int|
            0 <= a <= e <= s.len() && trim(s) == s.subrange(a, e) && (forall|k: int|
                0 <= k < a ==> #[trigger] s[k] == ' ' || s[k] == ',' || s[k] == ';') && (forall|k: int|
                e <= k < s.len() ==> #[trigger] s[k] == ' ' || s[k] == ',' || s[k] == ';') && (a < e
                ==> !(s[a] == ' ' || s[a] == ',' || s[a] == ';') && !(s[e - 1] == ' ' || s[e - 1]
                == ',' || s[e - 1] == ';')),
{
    let a = trim_start(s, 0);
    lemma_trim_start(s, 0);
    let rest = s.skip(a);
    let r = trim_stop(rest, rest.len() as int);
    lemma_trim_stop(rest, rest.len() as int);
    let e = a + r;
    assert(trim(s) =~= s.subrange(a, e));
    assert forall|k: int| e <= k < s.len() implies #[trigger] s[k] == ' ' || s[k] == ',' || s[k]
        == ';' by {
        assert(s[k] == rest[k - a]);
        assert(trimmed_off(rest[k - a]));
    }
    assert forall|k: int| 0 <= k < a implies #[trigger] s[k] == ' ' || s[k] == ',' || s[k] == ';' by {
        assert(trimmed_off(s[k]));
    }
    if a < e {
        assert(s[e - 1] == rest[r - 1]);
    }
}

// --------------------------------------------------------------- features

/// `has.vowels` looks past the first character only: it holds exactly when
/// the lowered, dot-free key has one of `a e i o u` at some index from 1 on.
pub proof fn law_has_vowels_skips_first_character(
    directions: Seq<String>,
    street_names: Seq<String>,
    t: Seq<char>,
)
    ensures
        spec_token_features(directions, street_names, t).has_vowels <==> exists|k: int|
            1 <= k < abbrev_key(t).len() && (#[trigger] abbrev_key(t)[k] == 'a' || abbrev_key(t)[k]
                == 'e' || abbrev_key(t)[k] == 'i' || abbrev_key(t)[k] == 'o' || abbrev_key(t)[k]
                == 'u'),
{
}

/// The `length` feature tells numbers from words: a token whose key is all
/// ASCII digits has its length rendered `d:<n>`, any other `w:<n>`, `<n>`
/// being the key's length in decimal.
pub proof fn law_length_feature_kind(
    directions: Seq<String>,
    street_names: Seq<String>,
    t: Seq<char>,
)
    ensures
        ({
            let f = spec_token_features(directions, street_names, t);
            let key = abbrev_key(t);
            let v = length_value(f.length_is_word, f.length);
            &&& v.len() >= 2
            &&& v[1] == ':'
            &&& v.skip(2) == decimal(key.len())
            &&& (v[0] == 'd') <==> (key.len() > 0 && forall|i: int|
                0 <= i < key.len() ==> '0' <= #[trigger] key[i] && key[i] <= '9')
            &&& (v[0] == 'w') <==> !(key.len() > 0 && forall|i: int|
                0 <= i < key.len() ==> '0' <= #[trigger] key[i] && key[i] <= '9')
        }),
{
    let f = spec_token_features(directions, street_names, t);
    let v = length_value(f.length_is_word, f.length);
    assert(v.skip(2) =~= decimal(abbrev_key(t).len()));
}

// ------------------------------------------------------------- token body

/// A token's body runs over every character but whitespace and `,;#&()`:
/// a string that starts with a word character and holds none of those is a
/// single token (so `4-B` or `Winston-Salem,` stay whole).
pub proof fn law_token_body_spans_non_separators(s: Seq<char>)
    requires
        s.len() > 0,
        word_class(s[0]),
        forall|k: int|
            0 <= k < s.len() ==> !(char_whitespace(#[trigger] s[k]) || s[k] == ',' || s[k] == ';'
                || s[k] == '#' || s[k] == '&' || s[k] == '(' || s[k] == ')'),
    ensures
        spec_tokenize(s) == seq![s],
{
    assert(run_end(s, 0, RunKind::Junk) == 0);
    assert(s[0] != '(');
    assert(run_end(s, 0, RunKind::OpenParen) == 0);
    assert(word_token_at(s, 0));
    lemma_run_end_bounds(s, 1, RunKind::Body);
    let m = run_end(s, 1, RunKind::Body);
    if m < s.len() {
        assert(in_run(RunKind::Body, s[m]));
    }
    assert(m == s.len());
    assert(run_end(s, m, RunKind::Trailer) == s.len());
    assert(token_end(s, 0) == s.len());
    assert(tokens_from(s, s.len() as int) == Seq::<Seq<char>>::empty());
    assert(s.subrange(0, s.len() as int) =~= s);
    assert(spec_tokenize(s) =~= seq![s]);
}


// ------------------------------------------------------ more on features

/// The value of decimal digit `c`.
pub open spec fn digit_value(c: char) -> int {
    if c == '1' { 1 }
    else if c == '2' { 2 }
    else if c == '3' { 3 }
    else if c == '4' { 4 }
    else if c == '5' { 5 }
    else if c == '6' { 6 }
    else if c == '7' { 7 }
    else if c == '8' { 8 }
    else if c == '9' { 9 }
    else { 0 }
}

proof fn lemma_digit_value(d: nat)
    requires
        d < 10,
    ensures
        digit_value(crate::features::digit_char(d)) == d,
        '0' <= crate::features::digit_char(d) <= '9',
        crate::features::digit_char(d) == '0' ==> d == 0,
{
}

/// The number the decimal digits `s` spell.
pub open spec fn digits_value(s: Seq<char>) -> int
    decreases s.len(),
{
    if s.len() == 0 {
        0
    } else {
        10 * digits_value(s.drop_last()) + digit_value(s.last())
    }
}

/// Counts (token lengths, runs of zeros) are rendered in decimal: ASCII
/// digits that spell the number back, with no leading zero but for zero.
pub proof fn law_decimal_spells_the_number(n: nat)
    ensures
        decimal(n).len() > 0,
        forall|i: int| 0 <= i < decimal(n).len() ==> '0' <= #[trigger] decimal(n)[i] && decimal(n)[i] <= '9',
        digits_value(decimal(n)) == n,
        decimal(n)[0] == '0' ==> n == 0,
    decreases n,
{
    lemma_digit_value(n % 10);
    if n < 10 {
        assert(n % 10 == n);
        assert(decimal(n) == seq![crate::features::digit_char(n)]);
        assert(decimal(n).drop_last() =~= Seq::<char>::empty());
        assert(digits_value(Seq::<char>::empty()) == 0);
        assert(decimal(n).last() == crate::features::digit_char(n));
        assert(digits_value(decimal(n)) == 10 * digits_value(decimal(n).drop_last()) + digit_value(
            decimal(n).last(),
        ));
    } else {
        law_decimal_spells_the_number(n / 10);
        let d = decimal(n / 10);
        assert(decimal(n).drop_last() =~= d);
        assert(decimal(n)[0] == d[0]);
        assert forall|i: int| 0 <= i < decimal(n).len() implies '0' <= #[trigger] decimal(n)[i]
            && decimal(n)[i] <= '9' by {
            if i < d.len() {
                assert(decimal(n)[i] == d[i]);
            }
        }
        assert(n == 10 * (n / 10) + n % 10);
        assert(decimal(n).last() == crate::features::digit_char((n % 10) as nat));
        assert(digits_value(decimal(n)) == 10 * digits_value(d) + digit_value(decimal(n).last()));
    }
}

/// The trailing-zeros feature is present exactly for an all-digit key, and is
/// then the whole run of `0` that ends the key.
pub proof fn law_trailing_zeros_end_the_key(
    directions: Seq<String>,
    street_names: Seq<String>,
    t: Seq<char>,
)
    ensures
        spec_token_features(directions, street_names, t).trailing_zeros is Some <==> (abbrev_key(t).len()
            > 0 && forall|i: int|
            0 <= i < abbrev_key(t).len() ==> '0' <= #[trigger] abbrev_key(t)[i] && abbrev_key(t)[i]
                <= '9'),
        spec_token_features(directions, street_names, t).trailing_zeros matches Some(z) ==> {
            let key = abbrev_key(t);
            &&& z.len() <= key.len()
            &&& key.skip(key.len() - z.len()) == z
            &&& forall|i: int| 0 <= i < z.len() ==> #[trigger] z[i] == '0'
            &&& z.len() < key.len() ==> key[key.len() - z.len() - 1] != '0'
        },
{
    let f = spec_token_features(directions, street_names, t);
    let key = abbrev_key(t);
    assert(crate::text::all_ascii_digits(key) <==> (key.len() > 0 && forall|i: int|
        0 <= i < key.len() ==> '0' <= #[trigger] key[i] && key[i] <= '9'));
    if f.trailing_zeros is Some {
        let e = key.len() as int;
        lemma_zeros_start_stops(key, e);
        let a = zeros_start(key, e);
        let p = key.take(a);
        let z = key.skip(a);
        assert(key =~= p + z);
        assert forall|i: int| 0 <= i < z.len() implies #[trigger] z[i] == '0' by {
            assert(z[i] == key[a + i]);
        }
        assert(f.trailing_zeros == Some(z));
        if p.len() > 0 {
            assert(p.last() == key[a - 1]);
        }

    }
}

proof fn lemma_zeros_start_stops(s: Seq<char>, e: int)
    requires
        0 <= e <= s.len(),
    ensures
        0 <= zeros_start(s, e) <= e,
        forall|m: int| zeros_start(s, e) <= m < e ==> #[trigger] s[m] == '0',
        zeros_start(s, e) > 0 ==> s[zeros_start(s, e) - 1] != '0',
    decreases e,
{
    if 0 < e && s[e - 1] == '0' {
        lemma_zeros_start_stops(s, e - 1);
    }
}

/// The plain token features, in terms of the cleaned token and its key:
/// `abbrev` when the cleaned token ends with a dot; `word` is the key unless
/// the key is all digits; the digit class counts the ASCII digits of the
/// cleaned token.
pub proof fn law_plain_token_features(
    directions: Seq<String>,
    street_names: Seq<String>,
    t: Seq<char>,
)
    ensures
        ({
            let f = spec_token_features(directions, street_names, t);
            let clean = clean_token(t);
            let key = abbrev_key(t);
            let key_digits = key.len() > 0 && forall|i: int|
                0 <= i < key.len() ==> '0' <= #[trigger] key[i] && key[i] <= '9';
            &&& f.abbrev <==> (clean.len() > 0 && clean[clean.len() - 1] == '.')
            &&& f.word == (if key_digits { None } else { Some(key) })
            &&& f.length == key.len()
            &&& (f.digits == DigitsClass::AllDigits) <==> (clean.len() > 0 && forall|i: int|
                0 <= i < clean.len() ==> '0' <= #[trigger] clean[i] && clean[i] <= '9')
            &&& (f.digits == DigitsClass::NoDigits) <==> (forall|i: int|
                0 <= i < clean.len() ==> !('0' <= #[trigger] clean[i] && clean[i] <= '9'))
        }),
{
}


// --------------------------------------------------------- normalising

/// Normalising an ampersand-free prefix, then an entity, keeps the prefix.
proof fn lemma_normalize_entity(a: Seq<char>, e: Seq<char>, b: Seq<char>)
    requires
        e == seq!['&', 'a', 'm', 'p', ';'] || e == seq!['&', '#', '3', '8', ';'],
        forall|i: int| 0 <= i < a.len() ==> #[trigger] a[i] != '&',
    ensures
        spec_normalize(a + e + b) == a + seq!['&'] + spec_normalize(b),
    decreases a.len(),
{
    let s = a + e + b;
    if a.len() == 0 {
        assert(s =~= e + b);
        assert(s.subrange(0, 5) =~= e);
        assert(entity_at(s, 0));
        assert(s.skip(5) =~= b);
        assert(a + seq!['&'] + spec_normalize(b) =~= seq!['&'] + spec_normalize(b));
    } else {
        assert(s[0] == a[0]);
        assert(!entity_at(s, 0)) by {
            if entity_at(s, 0) {
                assert(s.subrange(0, 5)[0] == s[0]);
            }
        }
        let a1 = a.skip(1);
        assert(s.skip(1) =~= a1 + e + b);
        lemma_normalize_entity(a1, e, b);
        assert(seq![a[0]] + (a1 + seq!['&'] + spec_normalize(b)) =~= a + seq!['&'] + spec_normalize(b));
    }
}

/// Each ampersand entity, `&amp;` or `&#38;`, becomes a single `&`: after an
/// ampersand-free stretch, which normalising keeps as it is, an entity turns
/// into `&` and normalising goes on after it.
pub proof fn law_entities_become_ampersand(a: Seq<char>, b: Seq<char>)
    requires
        forall|i: int| 0 <= i < a.len() ==> #[trigger] a[i] != '&',
    ensures
        spec_normalize(a + seq!['&', 'a', 'm', 'p', ';'] + b) == a + seq!['&'] + spec_normalize(b),
        spec_normalize(a + seq!['&', '#', '3', '8', ';'] + b) == a + seq!['&'] + spec_normalize(b),
        spec_normalize(a) == a,
    decreases a.len(),
{
    lemma_normalize_entity(a, seq!['&', 'a', 'm', 'p', ';'], b);
    lemma_normalize_entity(a, seq!['&', '#', '3', '8', ';'], b);
    lemma_normalize_entity(a, seq!['&', 'a', 'm', 'p', ';'], seq![]);
    if a.len() > 0 {
        law_entities_become_ampersand(a.skip(1), b);
        assert(!entity_at(a, 0)) by {
            if entity_at(a, 0) {
                assert(a.subrange(0, 5)[0] == a[0]);
            }
        }
        assert(seq![a[0]] + a.skip(1) =~= a);
    }
}

// --------------------------------------------------------- address types

/// The address type is decided from the raw labels: an address number
/// without an intersection separator makes a street address, a separator
/// without an address number an intersection; otherwise a USPS box id makes a
/// PO box, and anything else is ambiguous.
pub proof fn law_address_type(parsed: Seq<(Seq<char>, Seq<char>)>)
    ensures
        spec_collapse(parsed) matches Ok((_, t)) ==> {
            let number = exists|k: int| 0 <= k < parsed.len() && (#[trigger] parsed[k]).1 == "AddressNumber"@;
            let sep = exists|k: int|
                0 <= k < parsed.len() && (#[trigger] parsed[k]).1 == "IntersectionSeparator"@;
            let po = exists|k: int| 0 <= k < parsed.len() && (#[trigger] parsed[k]).1 == "USPSBoxID"@;
            &&& (t == AddressType::StreetAddress) <==> (number && !sep)
            &&& (t == AddressType::Intersection) <==> (sep && !number)
            &&& (t == AddressType::PoBox) <==> (number == sep && po)
            &&& (t == AddressType::Ambiguous) <==> (number == sep && !po)
        },
{
}

} // verus!

//! The laws of the subsystem, stated and proved once over the
//! specification functions that the executable contracts use: what the
//! grammar rejects, that parsing is case-insensitive, and that the
//! pipeline's outcome is first-come-first-served and independent of how
//! the input batch was grouped.

use vstd::prelude::*;

use crate::btc_name::{
    grammar_split, is_json_text, localpart_clean, lower_of, spec_parse, spec_parse_text,
    ParseError,
};
use crate::collections::CollectionKind;
use crate::pipeline::{
    claimed_key, distinct_numbers, eligible, lemma_spec_sort_ensures, sorted_by_number,
    spec_filter, spec_pipeline, spec_run, spec_sort, spec_step, InscriptionEvent,
};
use crate::registry::InscriptionId;
use vstd::multiset::Multiset;

verus! {

/// A body whose lowercased text does not match "prefix, dot, configured
/// suffix" never parses, whatever else it holds.
pub proof fn law_no_grammar_match_fails(bytes: Seq<u8>, sufs: Seq<Seq<char>>, closed: bool)
    requires
        vstd::utf8::valid_utf8(bytes) ==> grammar_split(
            lower_of(vstd::utf8::decode_utf8(bytes)),
            sufs,
        ) is None,
    ensures
        spec_parse(bytes, sufs, closed) is Err,
{
}

/// A localpart holding a dot, a space or a newline is rejected even when
/// the content as a whole matches the grammar.
pub proof fn law_dirty_localpart_fails(t: Seq<char>, sufs: Seq<Seq<char>>, closed: bool, p: int)
    requires
        grammar_split(t, sufs) == Some(p),
        !localpart_clean(t.subrange(0, p)),
    ensures
        spec_parse_text(t, sufs, closed) == Err::<
            (Seq<char>, Seq<char>, CollectionKind),
            ParseError,
        >(ParseError::NoMatch),
{
}

/// A successful parse never yields a localpart holding a dot, a space or a
/// newline.
pub proof fn law_parsed_localpart_clean(bytes: Seq<u8>, sufs: Seq<Seq<char>>, closed: bool)
    ensures
        spec_parse(bytes, sufs, closed) matches Ok(t) ==> localpart_clean(t.0),
{
}

/// For a grammar match whose clean localpart holds `{`: it parses exactly
/// when the localpart is not a well-formed JSON document, and a
/// well-formed one is rejected as a structured payload.
pub proof fn law_structured_payload(t: Seq<char>, sufs: Seq<Seq<char>>, closed: bool, p: int)
    requires
        grammar_split(t, sufs) == Some(p),
        localpart_clean(t.subrange(0, p)),
        t.subrange(0, p).contains('{'),
    ensures
        is_json_text(t.subrange(0, p)) <==> spec_parse_text(t, sufs, closed) == Err::<
            (Seq<char>, Seq<char>, CollectionKind),
            ParseError,
        >(ParseError::StructuredPayload),
        !is_json_text(t.subrange(0, p)) ==> spec_parse_text(t, sufs, closed) is Ok,
{
}

/// Parsing is case-insensitive: two bodies whose decoded texts lowercase
/// to the same characters parse to the same result.
pub proof fn law_case_insensitive(b1: Seq<u8>, b2: Seq<u8>, sufs: Seq<Seq<char>>, closed: bool)
    requires
        vstd::utf8::valid_utf8(b1),
        vstd::utf8::valid_utf8(b2),
        lower_of(vstd::utf8::decode_utf8(b1)) == lower_of(vstd::utf8::decode_utf8(b2)),
    ensures
        spec_parse(b1, sufs, closed) == spec_parse(b2, sufs, closed),
{
}

/// Two sequences with the same contents transport distinctness of
/// inscription numbers from one to the other.
proof fn lemma_distinct_numbers_transfer(a: Seq<InscriptionEvent>, b: Seq<InscriptionEvent>)
    requires
        distinct_numbers(a),
        a.to_multiset() == b.to_multiset(),
    ensures
        distinct_numbers(b),
{
    broadcast use vstd::seq_lib::group_to_multiset_ensures;
    broadcast use vstd::multiset::group_multiset_axioms;

    assert forall|i: int, j: int|
        0 <= i < j < b.len() implies b[i].inscription_number != b[j].inscription_number by {
        if b[i].inscription_number == b[j].inscription_number {
            if b[i] != b[j] {
                assert(b.contains(b[i]));
                assert(b.contains(b[j]));
                assert(a.to_multiset().count(b[i]) > 0);
                assert(a.to_multiset().count(b[j]) > 0);
                assert(a.contains(b[i]));
                assert(a.contains(b[j]));
                let ia = choose|w: int| 0 <= w < a.len() && a[w] == b[i];
                let ja = choose|w: int| 0 <= w < a.len() && a[w] == b[j];
                assert(ia != ja);
                if ia < ja {
                    assert(a[ia].inscription_number != a[ja].inscription_number);
                } else {
                    assert(a[ja].inscription_number != a[ia].inscription_number);
                }
            } else {
                let x = b[i];
                assert(b.remove(i).to_multiset() =~= b.to_multiset().remove(x));
                assert(b.remove(i)[j - 1] == x);
                assert(b.remove(i).contains(x));
                assert(b.to_multiset().remove(x).count(x) > 0);
                assert(a.to_multiset().count(x) >= 2);
                assert(a.contains(x));
                let ia = choose|w: int| 0 <= w < a.len() && a[w] == x;
                assert(a.remove(ia).to_multiset() =~= a.to_multiset().remove(x));
                assert(a.remove(ia).to_multiset().count(x) > 0);
                assert(a.remove(ia).contains(x));
                let wa = choose|w: int| 0 <= w < a.remove(ia).len() && a.remove(ia)[w] == x;
                if wa < ia {
                    assert(a[wa] == x);
                    assert(a[wa].inscription_number != a[ia].inscription_number);
                } else {
                    assert(a[wa + 1] == x);
                    assert(a[ia].inscription_number != a[wa + 1].inscription_number);
                }
            }
        }
    }
}

/// Two ascending sequences with the same contents and pairwise distinct
/// inscription numbers are the same sequence: the arbitration order is
/// canonical.
pub proof fn lemma_sorted_unique(s1: Seq<InscriptionEvent>, s2: Seq<InscriptionEvent>)
    requires
        sorted_by_number(s1),
        sorted_by_number(s2),
        distinct_numbers(s1),
        s1.to_multiset() == s2.to_multiset(),
    ensures
        s1 == s2,
    decreases s1.len(),
{
    broadcast use vstd::seq_lib::group_to_multiset_ensures;

    if s1.len() == 0 {
        assert(s2.len() == s2.to_multiset().len());
        assert(s1 =~= s2);
    } else {
        assert(s1.len() == s1.to_multiset().len());
        assert(s2.len() == s2.to_multiset().len());
        assert(s1.contains(s1[0]));
        assert(s1.to_multiset().count(s1[0]) > 0);
        assert(s2.contains(s1[0]));
        assert(s2.contains(s2[0]));
        assert(s2.to_multiset().count(s2[0]) > 0);
        assert(s1.contains(s2[0]));
        let i2 = choose|w: int| 0 <= w < s2.len() && s2[w] == s1[0];
        let i1 = choose|w: int| 0 <= w < s1.len() && s1[w] == s2[0];
        assert(s2[0].inscription_number <= s2[i2].inscription_number);
        assert(s1[0].inscription_number <= s1[i1].inscription_number);
        assert(s1[0].inscription_number == s2[0].inscription_number);
        assert(s1[0] == s2[0]) by {
            if i1 != 0 {
                assert(s1[0].inscription_number != s1[i1].inscription_number);
            }
        }
        let d1 = s1.drop_first();
        let d2 = s2.drop_first();
        assert(d1 =~= s1.remove(0));
        assert(d2 =~= s2.remove(0));
        assert(s1.remove(0).to_multiset() =~= s1.to_multiset().remove(s1[0]));
        assert(s2.remove(0).to_multiset() =~= s2.to_multiset().remove(s2[0]));
        assert(d1.to_multiset() == d2.to_multiset());
        assert(sorted_by_number(d1));
        assert(sorted_by_number(d2));
        assert(distinct_numbers(d1));
        lemma_sorted_unique(d1, d2);
        assert forall|k: int| 0 <= k < s1.len() implies s1[k] == s2[k] by {
            if k > 0 {
                assert(d1[k - 1] == s1[k]);
                assert(d2[k - 1] == s2[k]);
            }
        }
        assert(s1 =~= s2);
    }
}

/// Permuting the grouping of a batch, or the order inside a group, never
/// changes the registry state or the count, provided the eligible events
/// carry pairwise distinct inscription numbers: every node arbitrates the
/// same way.
pub proof fn law_order_independent(
    names: Map<Seq<char>, InscriptionId>,
    kinds: Map<InscriptionId, Set<CollectionKind>>,
    g1: Seq<Seq<InscriptionEvent>>,
    g2: Seq<Seq<InscriptionEvent>>,
    sufs: Seq<Seq<char>>,
    closed: bool,
)
    requires
        spec_filter(g1.flatten()).to_multiset() == spec_filter(g2.flatten()).to_multiset(),
        distinct_numbers(spec_filter(g1.flatten())),
    ensures
        spec_pipeline(names, kinds, g1, sufs, closed) == spec_pipeline(
            names,
            kinds,
            g2,
            sufs,
            closed,
        ),
{
    let f1 = spec_filter(g1.flatten());
    let f2 = spec_filter(g2.flatten());
    lemma_spec_sort_ensures(f1);
    lemma_spec_sort_ensures(f2);
    lemma_distinct_numbers_transfer(f1, spec_sort(f1));
    lemma_sorted_unique(spec_sort(f1), spec_sort(f2));
}

/// First come, first served: when exactly two eligible creations claim the
/// same still-unbound key, the one with the lower inscription number wins
/// the single new binding, and only that registration is counted.
pub proof fn law_first_claim_wins(
    names: Map<Seq<char>, InscriptionId>,
    kinds: Map<InscriptionId, Set<CollectionKind>>,
    groups: Seq<Seq<InscriptionEvent>>,
    e1: InscriptionEvent,
    e2: InscriptionEvent,
    key: Seq<char>,
    sufs: Seq<Seq<char>>,
    closed: bool,
)
    requires
        spec_filter(groups.flatten()).to_multiset() == Multiset::empty().insert(e1).insert(e2),
        e1.inscription_number < e2.inscription_number,
        claimed_key(e1, sufs, closed) == Some(key),
        claimed_key(e2, sufs, closed) == Some(key),
        !names.contains_key(key),
    ensures
        spec_pipeline(names, kinds, groups, sufs, closed).0 == names.insert(
            key,
            e1.inscription_id,
        ),
        spec_pipeline(names, kinds, groups, sufs, closed).2 == 1,
{
    broadcast use vstd::seq_lib::group_to_multiset_ensures;
    broadcast use vstd::multiset::group_multiset_axioms;

    let f = spec_filter(groups.flatten());
    lemma_spec_sort_ensures(f);
    let s = spec_sort(f);
    let two = seq![e1, e2];
    assert(two =~= Seq::<InscriptionEvent>::empty().push(e1).push(e2));
    assert(two.to_multiset() =~= Multiset::empty().insert(e1).insert(e2));
    assert(sorted_by_number(two));
    assert(distinct_numbers(two));
    lemma_sorted_unique(two, s);
    assert(s == two);
    let st1 = spec_run(names, kinds, seq![e1], sufs, closed);
    assert(seq![e1].drop_last() =~= Seq::<InscriptionEvent>::empty());
    assert(seq![e1].last() == e1);
    let st0 = spec_run(names, kinds, seq![e1].drop_last(), sufs, closed);
    assert(st0 == (names, kinds, 0int));
    assert(st1 == spec_step(names, kinds, 0, e1, sufs, closed));
    assert(st1.0 == names.insert(key, e1.inscription_id));
    assert(st1.2 == 1);
    assert(two.drop_last() =~= seq![e1]);
    assert(two.last() == e2);
    assert(spec_run(names, kinds, two, sufs, closed)
        == spec_step(st1.0, st1.1, st1.2, e2, sufs, closed));
    assert(st1.0.contains_key(key));
    assert(spec_step(st1.0, st1.1, st1.2, e2, sufs, closed).0 == st1.0);
}

/// A transfer, or a creation with a negative inscription number, is
/// invisible to the filter wherever it stands in a batch.
proof fn lemma_filter_drops_excluded(
    pre: Seq<InscriptionEvent>,
    e: InscriptionEvent,
    post: Seq<InscriptionEvent>,
)
    requires
        !eligible(e),
    ensures
        spec_filter(pre + seq![e] + post) == spec_filter(pre + post),
    decreases post.len(),
{
    if post.len() == 0 {
        assert(pre + seq![e] + post =~= pre.push(e));
        assert((pre.push(e)).drop_last() =~= pre);
        assert(pre + post =~= pre);
        assert(spec_filter(pre.push(e)) == spec_filter(pre));
    } else {
        let p = post.drop_last();
        let x = post.last();
        lemma_filter_drops_excluded(pre, e, p);
        assert(pre + seq![e] + post =~= (pre + seq![e] + p).push(x));
        assert((pre + seq![e] + p).push(x).drop_last() =~= pre + seq![e] + p);
        assert(pre + post =~= (pre + p).push(x));
        assert((pre + p).push(x).drop_last() =~= pre + p);
    }
}

/// An event excluded from naming rights — a transfer, or a creation with a
/// negative inscription number — never produces a registration, nor does
/// it change what anyone else registers: the batch runs exactly as if the
/// event were absent.
pub proof fn law_excluded_event(
    names: Map<Seq<char>, InscriptionId>,
    kinds: Map<InscriptionId, Set<CollectionKind>>,
    pre: Seq<InscriptionEvent>,
    e: InscriptionEvent,
    post: Seq<InscriptionEvent>,
    sufs: Seq<Seq<char>>,
    closed: bool,
)
    requires
        !eligible(e),
    ensures
        spec_pipeline(names, kinds, seq![pre + seq![e] + post], sufs, closed) == spec_pipeline(
            names,
            kinds,
            seq![pre + post],
            sufs,
            closed,
        ),
{
    lemma_filter_drops_excluded(pre, e, post);
    assert(seq![pre + seq![e] + post].flatten() =~= pre + seq![e] + post) by {
        seq![pre + seq![e] + post].lemma_flatten_one_element();
    }
    assert(seq![pre + post].flatten() =~= pre + post) by {
        seq![pre + post].lemma_flatten_one_element();
    }
}

} // verus!

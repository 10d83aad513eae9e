//! The registration pipeline: flattens a batch of per-transaction
//! inscription events, filters out transfers and cursed creations, sorts
//! the rest into the canonical ascending order of inscription numbers, and
//! commits at most one winner per registry key, first claimant only.

use vstd::prelude::*;
use vstd::seq_lib::lemma_multiset_commutative;

use crate::btc_name::{
    default_suffix_chars, default_suffixes, parse_core, spec_closed_key, spec_configurable_key,
    spec_parse, BtcDomain, SuffixSet,
};
use crate::collections::CollectionKind;
use crate::registry::{kinds_at, InscriptionId, Registry, RegistryError};

verus! {

/// What an event did to its inscription: revealed it with a body, or moved
/// it.
#[derive(Debug, Clone)]
pub enum Action {
    New { body: Vec<u8> },
    Transfer,
}

/// One inscription event of a batch.
#[derive(Debug, Clone)]
pub struct InscriptionEvent {
    pub transaction_id: [u8; 32],
    pub inscription_id: InscriptionId,
    pub inscription_number: i64,
    pub action: Action,
}

/// Only creations with a non-negative inscription number may claim a name;
/// transfers and cursed inscriptions never do.
pub open spec fn eligible(e: InscriptionEvent) -> bool {
    &&& e.inscription_number >= 0
    &&& e.action is New
}

/// The eligible events of a batch, in the order given.
pub open spec fn spec_filter(s: Seq<InscriptionEvent>) -> Seq<InscriptionEvent>
    decreases s.len(),
{
    if s.len() == 0 {
        Seq::empty()
    } else {
        let pre = spec_filter(s.drop_last());
        if eligible(s.last()) {
            pre.push(s.last())
        } else {
            pre
        }
    }
}

/// Ascending by inscription number.
pub open spec fn sorted_by_number(s: Seq<InscriptionEvent>) -> bool {
    forall|i: int, j: int|
        0 <= i < j < s.len() ==> s[i].inscription_number <= s[j].inscription_number
}

/// Stable insertion into a sequence: the new event goes after every event
/// whose number is not greater.
pub open spec fn insert_sorted(e: InscriptionEvent, s: Seq<InscriptionEvent>) -> Seq<
    InscriptionEvent,
>
    decreases s.len(),
{
    if s.len() == 0 {
        seq![e]
    } else if e.inscription_number < s[0].inscription_number {
        seq![e] + s
    } else {
        seq![s[0]] + insert_sorted(e, s.drop_first())
    }
}

/// The canonical arbitration order of a batch: a stable sort ascending by
/// inscription number.
pub open spec fn spec_sort(s: Seq<InscriptionEvent>) -> Seq<InscriptionEvent>
    decreases s.len(),
{
    if s.len() == 0 {
        Seq::empty()
    } else {
        insert_sorted(s.last(), spec_sort(s.drop_last()))
    }
}

/// Stable insertion keeps the contents, grows the length by one, and
/// preserves ascending order.
proof fn lemma_insert_sorted_ensures(e: InscriptionEvent, s: Seq<InscriptionEvent>)
    ensures
        insert_sorted(e, s).to_multiset() == s.to_multiset().insert(e),
        insert_sorted(e, s).len() == s.len() + 1,
        sorted_by_number(s) ==> sorted_by_number(insert_sorted(e, s)),
    decreases s.len(),
{
    broadcast use vstd::seq_lib::group_to_multiset_ensures;
    broadcast use vstd::multiset::group_multiset_axioms;

    if s.len() == 0 {
        assert(insert_sorted(e, s) =~= Seq::<InscriptionEvent>::empty().push(e));
        assert(insert_sorted(e, s).to_multiset() =~= s.to_multiset().insert(e));
    } else if e.inscription_number < s[0].inscription_number {
        lemma_multiset_commutative(seq![e], s);
        assert(seq![e] =~= Seq::<InscriptionEvent>::empty().push(e));
        assert((seq![e] + s).to_multiset() =~= s.to_multiset().insert(e));
    } else {
        let d = s.drop_first();
        lemma_insert_sorted_ensures(e, d);
        let ins = insert_sorted(e, d);
        lemma_multiset_commutative(seq![s[0]], ins);
        lemma_multiset_commutative(seq![s[0]], d);
        assert(s =~= seq![s[0]] + d);
        assert(seq![s[0]] =~= Seq::<InscriptionEvent>::empty().push(s[0]));
        assert((seq![s[0]] + ins).to_multiset() =~= s.to_multiset().insert(e));
        if sorted_by_number(s) {
            assert(sorted_by_number(d));
            assert forall|j: int|
                0 <= j < ins.len() implies s[0].inscription_number
                <= ins[j].inscription_number by {
                assert(ins.contains(ins[j]));
                assert(ins.to_multiset().count(ins[j]) > 0);
                if ins[j] == e {
                } else {
                    assert(d.to_multiset().count(ins[j]) > 0);
                    assert(d.contains(ins[j]));
                    let w = choose|w: int| 0 <= w < d.len() && d[w] == ins[j];
                    assert(s[w + 1] == d[w]);
                }
            }
            assert(sorted_by_number(seq![s[0]] + ins));
        }
    }
}

/// The canonical sort keeps the contents and orders them ascending by
/// inscription number.
pub proof fn lemma_spec_sort_ensures(s: Seq<InscriptionEvent>)
    ensures
        spec_sort(s).to_multiset() == s.to_multiset(),
        spec_sort(s).len() == s.len(),
        sorted_by_number(spec_sort(s)),
    decreases s.len(),
{
    broadcast use vstd::seq_lib::group_to_multiset_ensures;

    if s.len() > 0 {
        lemma_spec_sort_ensures(s.drop_last());
        lemma_insert_sorted_ensures(s.last(), spec_sort(s.drop_last()));
        assert(s =~= s.drop_last().push(s.last()));
        assert(spec_sort(s).to_multiset() =~= s.to_multiset());
    }
}

/// Every event the filter keeps comes from the batch itself.
proof fn lemma_spec_filter_subset(s: Seq<InscriptionEvent>)
    ensures
        forall|i: int| 0 <= i < spec_filter(s).len() ==> s.contains(#[trigger] spec_filter(s)[i]),
    decreases s.len(),
{
    if s.len() > 0 {
        let d = s.drop_last();
        lemma_spec_filter_subset(d);
        assert forall|i: int| 0 <= i < spec_filter(s).len() implies s.contains(
            spec_filter(s)[i],
        ) by {
            let pre = spec_filter(d);
            if i < pre.len() {
                assert(d.contains(pre[i]));
                let w = choose|w: int| 0 <= w < d.len() && d[w] == pre[i];
                assert(s[w] == pre[i]);
                assert(spec_filter(s)[i] == pre[i]);
            } else {
                assert(spec_filter(s)[i] == s.last());
                assert(s[s.len() - 1] == s.last());
            }
        }
    }
}

/// The registry key a parsed name claims in each mode.
pub open spec fn spec_key_for(closed: bool, localpart: Seq<char>, suffix: Seq<char>) -> Seq<char> {
    if closed {
        spec_closed_key(localpart, suffix)
    } else {
        spec_configurable_key(localpart, suffix)
    }
}

/// The registry key an event would claim: for a creation whose body
/// parses, the key of its name; nothing otherwise.
pub open spec fn claimed_key(e: InscriptionEvent, sufs: Seq<Seq<char>>, closed: bool) -> Option<
    Seq<char>,
> {
    match e.action {
        Action::New { body } => match spec_parse(body@, sufs, closed) {
            Ok(t) => Some(spec_key_for(closed, t.0, t.1)),
            Err(_) => None,
        },
        Action::Transfer => None,
    }
}

/// No two events of the sequence carry the same inscription number.
pub open spec fn distinct_numbers(s: Seq<InscriptionEvent>) -> bool {
    forall|i: int, j: int|
        0 <= i < j < s.len() ==> s[i].inscription_number != s[j].inscription_number
}

/// How one event moves the registry state `(names, kinds, count)`: an
/// eligible creation whose body parses, and whose key is still unbound,
/// registers and tags; everything else changes nothing.
pub open spec fn spec_step(
    names: Map<Seq<char>, InscriptionId>,
    kinds: Map<InscriptionId, Set<CollectionKind>>,
    count: int,
    e: InscriptionEvent,
    sufs: Seq<Seq<char>>,
    closed: bool,
) -> (Map<Seq<char>, InscriptionId>, Map<InscriptionId, Set<CollectionKind>>, int) {
    match e.action {
        Action::New { body } => match spec_parse(body@, sufs, closed) {
            Ok(t) => {
                let key = spec_key_for(closed, t.0, t.1);
                if names.contains_key(key) {
                    (names, kinds, count)
                } else {
                    (
                        names.insert(key, e.inscription_id),
                        kinds.insert(
                            e.inscription_id,
                            kinds_at(kinds, e.inscription_id).insert(t.2),
                        ),
                        count + 1,
                    )
                }
            },
            Err(_) => (names, kinds, count),
        },
        Action::Transfer => (names, kinds, count),
    }
}

/// Runs the events of `s` in order over an initial registry state; the
/// count starts at zero.
pub open spec fn spec_run(
    names: Map<Seq<char>, InscriptionId>,
    kinds: Map<InscriptionId, Set<CollectionKind>>,
    s: Seq<InscriptionEvent>,
    sufs: Seq<Seq<char>>,
    closed: bool,
) -> (Map<Seq<char>, InscriptionId>, Map<InscriptionId, Set<CollectionKind>>, int)
    decreases s.len(),
{
    if s.len() == 0 {
        (names, kinds, 0)
    } else {
        let st = spec_run(names, kinds, s.drop_last(), sufs, closed);
        spec_step(st.0, st.1, st.2, s.last(), sufs, closed)
    }
}

/// The event sequences of a grouped batch.
pub open spec fn groups_view(g: Seq<Vec<InscriptionEvent>>) -> Seq<Seq<InscriptionEvent>> {
    g.map_values(|v: Vec<InscriptionEvent>| v@)
}

/// What a whole batch leaves behind: flatten the grouping, filter, sort
/// into the canonical order, then run.
pub open spec fn spec_pipeline(
    names: Map<Seq<char>, InscriptionId>,
    kinds: Map<InscriptionId, Set<CollectionKind>>,
    groups: Seq<Seq<InscriptionEvent>>,
    sufs: Seq<Seq<char>>,
    closed: bool,
) -> (Map<Seq<char>, InscriptionId>, Map<InscriptionId, Set<CollectionKind>>, int) {
    spec_run(names, kinds, spec_sort(spec_filter(groups.flatten())), sufs, closed)
}

/// Flattens a grouped batch and keeps only the eligible events, in the
/// order given.
#[verifier::loop_isolation(false)]
fn flatten_filter(groups: Vec<Vec<InscriptionEvent>>) -> (r: Vec<InscriptionEvent>)
    ensures
        r@ == spec_filter(groups_view(groups@).flatten()),
{
    let ghost gv = groups_view(groups@);
    let mut gs = groups;
    let mut out: Vec<InscriptionEvent> = Vec::new();
    let ghost mut done: Seq<Seq<InscriptionEvent>> = Seq::empty();
    while gs.len() > 0
        invariant
            out@ == spec_filter(done.flatten()),
            done + groups_view(gs@) == gv,
        decreases gs@.len(),
    {
        let ghost pre = gs@;
        let mut g = gs.remove(0);
        let ghost gseq = g@;
        proof {
            assert(done.push(gseq) + groups_view(gs@) =~= done + groups_view(pre));
        }
        let ghost base = done.flatten();
        let ghost mut k: int = 0;
        while g.len() > 0
            invariant
                0 <= k <= gseq.len(),
                g@ == gseq.subrange(k, gseq.len() as int),
                out@ == spec_filter(base + gseq.subrange(0, k)),
            decreases g@.len(),
        {
            let e = g.remove(0);
            proof {
                assert(e == gseq[k]);
                assert(g@ =~= gseq.subrange(k + 1, gseq.len() as int));
            }
            let is_new = match &e.action {
                Action::New { .. } => true,
                Action::Transfer => false,
            };
            let ghost cur = base + gseq.subrange(0, k);
            let ghost nxt = base + gseq.subrange(0, k + 1);
            proof {
                assert(nxt.drop_last() =~= cur);
                assert(nxt.last() == gseq[k]);
            }
            if e.inscription_number >= 0 && is_new {
                out.push(e);
            }
            proof {
                assert(out@ == spec_filter(nxt));
                k = k + 1;
            }
        }
        proof {
            assert(gseq.subrange(0, gseq.len() as int) =~= gseq);
            done.lemma_flatten_push(gseq);
            done = done.push(gseq);
        }
    }
    proof {
        assert(groups_view(gs@).len() == 0);
        assert(done =~= gv);
    }
    out
}

/// Stable insertion at position `idx`: every earlier event has a number
/// not above the new one, and the event at `idx`, if any, a greater one.
proof fn lemma_insert_sorted_at(e: InscriptionEvent, s: Seq<InscriptionEvent>, idx: int)
    requires
        0 <= idx <= s.len(),
        forall|j: int| 0 <= j < idx ==> s[j].inscription_number <= e.inscription_number,
        idx < s.len() ==> e.inscription_number < s[idx].inscription_number,
    ensures
        insert_sorted(e, s) == s.subrange(0, idx) + seq![e] + s.subrange(idx, s.len() as int),
    decreases s.len(),
{
    if s.len() == 0 {
        assert(s.subrange(0, 0) + seq![e] + s.subrange(0, 0) =~= seq![e]);
    } else if e.inscription_number < s[0].inscription_number {
        assert(idx == 0);
        assert(s.subrange(0, s.len() as int) =~= s);
        assert(s.subrange(0, 0) + seq![e] + s.subrange(0, s.len() as int) =~= seq![e] + s);
    } else {
        assert(idx >= 1);
        let d = s.drop_first();
        lemma_insert_sorted_at(e, d, idx - 1);
        assert(d.subrange(0, idx - 1) =~= s.subrange(1, idx));
        assert(d.subrange(idx - 1, d.len() as int) =~= s.subrange(idx, s.len() as int));
        assert(seq![s[0]] + (s.subrange(1, idx) + seq![e] + s.subrange(idx, s.len() as int)) =~= s
            .subrange(0, idx) + seq![e] + s.subrange(idx, s.len() as int));
    }
}

/// Sorts a batch into the canonical order, by stable insertion.
#[verifier::loop_isolation(false)]
fn sort_events(v: Vec<InscriptionEvent>) -> (r: Vec<InscriptionEvent>)
    ensures
        r@ == spec_sort(v@),
{
    let ghost vs = v@;
    let mut src = v;
    let mut r: Vec<InscriptionEvent> = Vec::new();
    let ghost mut k: int = 0;
    while src.len() > 0
        invariant
            0 <= k <= vs.len(),
            src@ == vs.subrange(k, vs.len() as int),
            r@ == spec_sort(vs.subrange(0, k)),
        decreases src@.len(),
    {
        let e = src.remove(0);
        proof {
            assert(e == vs[k]);
            assert(src@ =~= vs.subrange(k + 1, vs.len() as int));
        }
        let mut idx: usize = 0;
        while idx < r.len() && r[idx].inscription_number <= e.inscription_number
            invariant
                0 <= idx <= r@.len(),
                forall|j: int|
                    0 <= j < idx ==> r@[j].inscription_number <= e.inscription_number,
            decreases r@.len() - idx,
        {
            idx += 1;
        }
        let ghost old_r = r@;
        r.insert(idx, e);
        proof {
            lemma_insert_sorted_at(e, old_r, idx as int);
            assert(r@ =~= old_r.subrange(0, idx as int) + seq![e] + old_r.subrange(
                idx as int,
                old_r.len() as int,
            ));
            assert(vs.subrange(0, k + 1).drop_last() =~= vs.subrange(0, k));
            assert(vs.subrange(0, k + 1).last() == vs[k]);
            assert(r@ == spec_sort(vs.subrange(0, k + 1)));
            k = k + 1;
        }
    }
    proof {
        assert(vs.subrange(0, vs.len() as int) =~= vs);
    }
    r
}

/// Shared pipeline of both modes.
#[verifier::loop_isolation(false)]
fn index_core<R: Registry>(
    registry: &mut R,
    operations: Vec<Vec<InscriptionEvent>>,
    sufs: &Vec<Vec<char>>,
    closed: bool,
) -> (r: Result<u64, RegistryError>)
    ensures
        r is Ok ==> ({
            let st = spec_pipeline(
                old(registry).names(),
                old(registry).kinds(),
                groups_view(operations@),
                sufs.deep_view(),
                closed,
            );
            &&& final(registry).names() == st.0
            &&& final(registry).kinds() == st.1
            &&& r.unwrap() as int == st.2
        }),
        (forall|e: InscriptionEvent|
            groups_view(operations@).flatten().contains(e) ==> claimed_key(
                e,
                sufs.deep_view(),
                closed,
            ) is None) ==> r is Ok,
{
    let ghost names0 = registry.names();
    let ghost kinds0 = registry.kinds();
    let ghost sv = sufs.deep_view();
    let ghost gv = groups_view(operations@);
    let filtered = flatten_filter(operations);
    let sorted = sort_events(filtered);
    let ghost run_seq = sorted@;
    let total: usize = sorted.len();
    let mut src = sorted;
    let mut count: u64 = 0;
    let ghost mut k: int = 0;
    while src.len() > 0
        invariant
            0 <= k <= run_seq.len(),
            run_seq.len() == total,
            src@ == run_seq.subrange(k, run_seq.len() as int),
            count as int <= k,
            ({
                let st = spec_run(names0, kinds0, run_seq.subrange(0, k), sv, closed);
                &&& registry.names() == st.0
                &&& registry.kinds() == st.1
                &&& count as int == st.2
            }),
        decreases src@.len(),
    {
        let e = src.remove(0);
        proof {
            assert(e == run_seq[k]);
            assert(src@ =~= run_seq.subrange(k + 1, run_seq.len() as int));
            assert(run_seq.subrange(0, k + 1).drop_last() =~= run_seq.subrange(0, k));
            assert(run_seq.subrange(0, k + 1).last() == run_seq[k]);
        }
        let ghost st_pre = spec_run(names0, kinds0, run_seq.subrange(0, k), sv, closed);
        let id = e.inscription_id;
        match e.action {
            Action::New { body } => {
                match parse_core(body.as_slice(), sufs, closed) {
                    Ok(d) => {
                        proof {
                            broadcast use vstd::seq_lib::group_to_multiset_ensures;

                            let ff = spec_filter(gv.flatten());
                            lemma_spec_sort_ensures(ff);
                            assert(run_seq.contains(e)) by {
                                assert(run_seq[k] == e);
                            }
                            assert(run_seq.to_multiset().count(e) > 0);
                            assert(ff.contains(e));
                            lemma_spec_filter_subset(gv.flatten());
                            let w = choose|w: int| 0 <= w < ff.len() && ff[w] == e;
                            assert(gv.flatten().contains(ff[w]));
                            assert(claimed_key(e, sv, closed) is Some);
                        }
                        let key: String = if closed {
                            d.to_collection_key()
                        } else {
                            d.to_configurable_key()
                        };
                        match registry.lookup(key.as_str()) {
                            Ok(Some(_)) => {},
                            Ok(None) => {
                                match registry.register(key.as_str(), id) {
                                    Ok(_) => {},
                                    Err(err) => {
                                        return Err(err);
                                    },
                                }
                                match registry.tag(id, d.collection_kind) {
                                    Ok(_) => {},
                                    Err(err) => {
                                        return Err(err);
                                    },
                                }
                                count += 1;
                            },
                            Err(err) => {
                                return Err(err);
                            },
                        }
                    },
                    Err(_) => {},
                }
            },
            Action::Transfer => {},
        }
        proof {
            assert(spec_run(names0, kinds0, run_seq.subrange(0, k + 1), sv, closed) == spec_step(
                st_pre.0,
                st_pre.1,
                st_pre.2,
                e,
                sv,
                closed,
            ));
            k = k + 1;
        }
    }
    proof {
        assert(run_seq.subrange(0, run_seq.len() as int) =~= run_seq);
    }
    Ok(count)
}

/// Indexes a batch under the closed taxonomy: default suffixes, per-suffix
/// tags, suffix-first keys. Returns how many names were newly registered;
/// any backend failure aborts the batch at once.
pub fn index_btc_domain<R: Registry>(
    registry: &mut R,
    operations: Vec<Vec<InscriptionEvent>>,
) -> (r: Result<u64, RegistryError>)
    ensures
        r is Ok ==> ({
            let st = spec_pipeline(
                old(registry).names(),
                old(registry).kinds(),
                groups_view(operations@),
                default_suffixes(),
                true,
            );
            &&& final(registry).names() == st.0
            &&& final(registry).kinds() == st.1
            &&& r.unwrap() as int == st.2
        }),
        (forall|e: InscriptionEvent|
            groups_view(operations@).flatten().contains(e) ==> claimed_key(
                e,
                default_suffixes(),
                true,
            ) is None) ==> r is Ok,
{
    let sufs = default_suffix_chars();
    index_core(registry, operations, &sufs, true)
}

/// Indexes a batch under the configurable-suffix mode: caller-supplied
/// suffixes, one uniform tag, localpart-first keys.
pub fn index_with_suffixes<R: Registry>(
    registry: &mut R,
    operations: Vec<Vec<InscriptionEvent>>,
    suffixes: &SuffixSet,
) -> (r: Result<u64, RegistryError>)
    ensures
        r is Ok ==> ({
            let st = spec_pipeline(
                old(registry).names(),
                old(registry).kinds(),
                groups_view(operations@),
                suffixes.spec_effective(),
                false,
            );
            &&& final(registry).names() == st.0
            &&& final(registry).kinds() == st.1
            &&& r.unwrap() as int == st.2
        }),
        (forall|e: InscriptionEvent|
            groups_view(operations@).flatten().contains(e) ==> claimed_key(
                e,
                suffixes.spec_effective(),
                false,
            ) is None) ==> r is Ok,
{
    let sufs = suffixes.effective_chars();
    index_core(registry, operations, &sufs, false)
}

/// Parses one creation's body under the closed taxonomy and checks the
/// registry: the claim and its claimant if the name is valid and still
/// unbound, nothing otherwise.
pub fn do_index_btc_domain<R: Registry>(
    registry: &R,
    body: &[u8],
    inscription_id: InscriptionId,
) -> (r: Result<Option<(InscriptionId, BtcDomain)>, RegistryError>)
    ensures
        r is Ok ==> match spec_parse(body@, default_suffixes(), true) {
            Ok(t) => {
                let key = spec_closed_key(t.0, t.1);
                if registry.names().contains_key(key) {
                    r.unwrap() is None
                } else {
                    &&& r.unwrap() matches Some(p)
                    &&& p.0 == inscription_id
                    &&& p.1.name@ == t.0
                    &&& p.1.domain@ == t.1
                    &&& p.1.collection_kind == t.2
                }
            },
            Err(_) => r.unwrap() is None,
        },
        spec_parse(body@, default_suffixes(), true) is Err ==> r is Ok,
{
    match BtcDomain::parse(body) {
        Ok(d) => {
            let key = d.to_collection_key();
            match registry.lookup(key.as_str()) {
                Ok(Some(_)) => Ok(None),
                Ok(None) => Ok(Some((inscription_id, d))),
                Err(err) => Err(err),
            }
        },
        Err(_) => Ok(None),
    }
}

} // verus!

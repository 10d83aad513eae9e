//! The registry capability: first-come-first-served name bindings and
//! additive attribute tags, backed by external storage.
//!
//! The pipeline consumes this interface; the broader indexer implements it
//! over its key-value backend. `MemRegistry` is a verified in-memory
//! implementation, used by tests in place of a real backend.

use vstd::prelude::*;

use crate::collections::CollectionKind;
use vstd::string::StringExecFns;

verus! {

/// Identifies an inscription: the transaction that revealed it and the
/// index of its envelope within that transaction.
#[derive(Debug, Clone, Copy, PartialEq, Eq)]
pub struct InscriptionId {
    pub txid: [u8; 32],
    pub index: u32,
}

/// A backend failure while reading or writing the registry; fatal to the
/// whole batch.
#[derive(Debug, Clone, Copy, PartialEq, Eq, Structural)]
pub struct RegistryError;

/// The inscription a key is bound to, if any.
pub open spec fn spec_lookup(m: Map<Seq<char>, InscriptionId>, k: Seq<char>) -> Option<
    InscriptionId,
> {
    if m.contains_key(k) {
        Some(m[k])
    } else {
        None
    }
}

/// The tags already attached to an inscription, if any.
pub open spec fn kinds_at(m: Map<InscriptionId, Set<CollectionKind>>, id: InscriptionId) -> Set<
    CollectionKind,
> {
    if m.contains_key(id) {
        m[id]
    } else {
        Set::empty()
    }
}

/// The storage operations the registration pipeline requires. A backend may
/// fail any call with `RegistryError`; on success the abstract state moves
/// as the contract says.
pub trait Registry: Sized {
    /// The registered names: each key bound to its first claimant.
    spec fn names(&self) -> Map<Seq<char>, InscriptionId>;

    /// The attribute tags attached to each inscription.
    spec fn kinds(&self) -> Map<InscriptionId, Set<CollectionKind>>;

    /// Looks up the inscription a key is bound to.
    fn lookup(&self, key: &str) -> (r: Result<Option<InscriptionId>, RegistryError>)
        ensures
            r is Ok ==> r.unwrap() == spec_lookup(self.names(), key@),
    ;

    /// Binds a key to its first claimant. The caller guarantees the key is
    /// unbound, having looked it up in the same single-threaded pass;
    /// a binding is never overwritten.
    fn register(&mut self, key: &str, id: InscriptionId) -> (r: Result<(), RegistryError>)
        requires
            !old(self).names().contains_key(key@),
        ensures
            r is Ok ==> final(self).names() == old(self).names().insert(key@, id)
                && final(self).kinds() == old(self).kinds(),
    ;

    /// Attaches a tag to an inscription; additive, and idempotent from the
    /// caller's perspective.
    fn tag(&mut self, id: InscriptionId, kind: CollectionKind) -> (r: Result<(), RegistryError>)
        ensures
            r is Ok ==> final(self).kinds() == old(self).kinds().insert(
                id,
                kinds_at(old(self).kinds(), id).insert(kind),
            ) && final(self).names() == old(self).names(),
    ;
}

/// The name bindings an append-only list of entries denotes; a later entry
/// for a key would shadow an earlier one, but the `register` contract keeps
/// keys unique.
pub open spec fn names_of(s: Seq<(String, InscriptionId)>) -> Map<Seq<char>, InscriptionId>
    decreases s.len(),
{
    if s.len() == 0 {
        Map::empty()
    } else {
        names_of(s.drop_last()).insert(s.last().0@, s.last().1)
    }
}

/// The tag sets an append-only list of entries denotes.
pub open spec fn kinds_of(s: Seq<(InscriptionId, CollectionKind)>) -> Map<
    InscriptionId,
    Set<CollectionKind>,
>
    decreases s.len(),
{
    if s.len() == 0 {
        Map::empty()
    } else {
        let m = kinds_of(s.drop_last());
        m.insert(s.last().0, kinds_at(m, s.last().0).insert(s.last().1))
    }
}

/// Entries from `i` on never bind `k`, so the binding of `k` is decided by
/// the first `i` entries.
proof fn lemma_names_of_tail(s: Seq<(String, InscriptionId)>, i: int, k: Seq<char>)
    requires
        0 <= i <= s.len(),
        forall|j: int| i <= j < s.len() ==> s[j].0@ != k,
    ensures
        spec_lookup(names_of(s), k) == spec_lookup(names_of(s.subrange(0, i)), k),
    decreases s.len() - i,
{
    if i < s.len() {
        let d = s.drop_last();
        assert(forall|j: int| i <= j < d.len() ==> d[j].0@ != k);
        lemma_names_of_tail(d, i, k);
        assert(d.subrange(0, i) =~= s.subrange(0, i));
    } else {
        assert(s.subrange(0, i) =~= s);
    }
}

/// Compares two inscription identifiers by their fields.
fn ids_eq(a: &InscriptionId, b: &InscriptionId) -> (r: bool)
    ensures
        r == (*a == *b),
{
    broadcast use vstd::array::group_array_axioms;

    if a.index != b.index {
        return false;
    }
    let mut i: usize = 0;
    while i < 32
        invariant
            0 <= i <= 32,
            forall|j: int| 0 <= j < i ==> a.txid@[j] == b.txid@[j],
        decreases 32 - i,
    {
        if a.txid[i] != b.txid[i] {
            proof {
                assert(*a != *b) by {
                    if *a == *b {
                        assert(a.txid@[i as int] == b.txid@[i as int]);
                    }
                }
            }
            return false;
        }
        i += 1;
    }
    proof {
        assert(a.txid@ =~= b.txid@);
        assert(a.txid == b.txid);
    }
    true
}

/// A kind stands in the tag set of an inscription exactly when some entry
/// recorded that pair.
proof fn lemma_kinds_of_get(
    s: Seq<(InscriptionId, CollectionKind)>,
    id: InscriptionId,
    kind: CollectionKind,
)
    ensures
        kinds_at(kinds_of(s), id).contains(kind) <==> exists|j: int|
            0 <= j < s.len() && s[j] == (id, kind),
    decreases s.len(),
{
    if s.len() == 0 {
    } else {
        let d = s.drop_last();
        lemma_kinds_of_get(d, id, kind);
        if kinds_at(kinds_of(s), id).contains(kind) {
            if s.last() == (id, kind) {
                assert(s[s.len() - 1] == (id, kind));
            } else {
                let j = choose|j: int| 0 <= j < d.len() && d[j] == (id, kind);
                assert(s[j] == (id, kind));
            }
        }
        if exists|j: int| 0 <= j < s.len() && s[j] == (id, kind) {
            let j = choose|j: int| 0 <= j < s.len() && s[j] == (id, kind);
            if j < s.len() - 1 {
                assert(d[j] == (id, kind));
            }
        }
    }
}

/// An in-memory registry: append-only entry lists read through the same
/// capability interface. It never fails.
pub struct MemRegistry {
    entries: Vec<(String, InscriptionId)>,
    tag_entries: Vec<(InscriptionId, CollectionKind)>,
}

impl MemRegistry {
    /// An empty registry.
    pub fn new() -> (r: MemRegistry)
        ensures
            r.names() == Map::<Seq<char>, InscriptionId>::empty(),
            r.kinds() == Map::<InscriptionId, Set<CollectionKind>>::empty(),
    {
        MemRegistry { entries: Vec::new(), tag_entries: Vec::new() }
    }

    /// Whether an inscription carries a tag.
    #[verifier::loop_isolation(false)]
    pub fn has_tag(&self, id: InscriptionId, kind: CollectionKind) -> (r: bool)
        ensures
            r == kinds_at(self.kinds(), id).contains(kind),
    {
        let mut i: usize = 0;
        while i < self.tag_entries.len()
            invariant
                0 <= i <= self.tag_entries@.len(),
                forall|j: int| 0 <= j < i ==> self.tag_entries@[j] != (id, kind),
            decreases self.tag_entries@.len() - i,
        {
            let hit = ids_eq(&self.tag_entries[i].0, &id) && self.tag_entries[i].1 == kind;
            if hit {
                proof {
                    lemma_kinds_of_get(self.tag_entries@, id, kind);
                    assert(self.tag_entries@[i as int] == (id, kind));
                }
                return true;
            }
            i += 1;
        }
        proof {
            lemma_kinds_of_get(self.tag_entries@, id, kind);
            assert(!(exists|j: int|
                0 <= j < self.tag_entries@.len() && self.tag_entries@[j] == (id, kind))) by {
                if exists|j: int|
                    0 <= j < self.tag_entries@.len() && self.tag_entries@[j] == (id, kind) {
                    let j = choose|j: int|
                        0 <= j < self.tag_entries@.len() && self.tag_entries@[j] == (id, kind);
                    assert(self.tag_entries@[j] != (id, kind));
                }
            }
        }
        false
    }
}

impl Registry for MemRegistry {
    closed spec fn names(&self) -> Map<Seq<char>, InscriptionId> {
        names_of(self.entries@)
    }

    closed spec fn kinds(&self) -> Map<InscriptionId, Set<CollectionKind>> {
        kinds_of(self.tag_entries@)
    }

    #[verifier::loop_isolation(false)]
    fn lookup(&self, key: &str) -> (r: Result<Option<InscriptionId>, RegistryError>)
        ensures
            r is Ok,
    {
        let k = String::from_str(key);
        let mut i: usize = self.entries.len();
        while i > 0
            invariant
                i <= self.entries@.len(),
                forall|j: int| i <= j < self.entries@.len() ==> self.entries@[j].0@ != key@,
            decreases i,
        {
            i -= 1;
            if self.entries[i].0 == k {
                proof {
                    lemma_names_of_tail(self.entries@, i + 1, key@);
                    let pre = self.entries@.subrange(0, i + 1);
                    assert(pre.last() == self.entries@[i as int]);
                    assert(spec_lookup(names_of(pre), key@) == Some(self.entries@[i as int].1));
                }
                return Ok(Some(self.entries[i].1));
            }
        }
        proof {
            lemma_names_of_tail(self.entries@, 0, key@);
            assert(self.entries@.subrange(0, 0).len() == 0);
        }
        Ok(None)
    }

    fn register(&mut self, key: &str, id: InscriptionId) -> (r: Result<(), RegistryError>)
        ensures
            r is Ok,
    {
        let k = String::from_str(key);
        self.entries.push((k, id));
        proof {
            assert(self.entries@.drop_last() =~= old(self).entries@);
        }
        Ok(())
    }

    fn tag(&mut self, id: InscriptionId, kind: CollectionKind) -> (r: Result<(), RegistryError>)
        ensures
            r is Ok,
    {
        self.tag_entries.push((id, kind));
        proof {
            assert(self.tag_entries@.drop_last() =~= old(self).tag_entries@);
        }
        Ok(())
    }
}

} // verus!

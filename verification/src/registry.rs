//! The entity registry: the shared store of untagged and tagged octopi.
//!
//! Both mappings are held as vectors of `(identifier, record)` pairs with
//! pairwise-distinct identifiers, modelled in specifications as
//! `Map<u128, _>` values. The registry owns all mutation: a capture inserts
//! a fresh untagged record, and a tagging pass moves records — each exactly
//! once — from the untagged mapping into the tagged one. At every
//! externally observable instant an identifier is in at most one of the two
//! mappings, and no record is ever silently dropped.

use vstd::prelude::*;
use crate::entity::{TaggedOctopus, UntaggedOctopus};
use crate::feature::{sample_feature, IdentifyingFeature};
use crate::naming::{spec_name, NamingSequencer};

verus! {

/// Whether some pair in `s` carries the identifier `k`.
pub open spec fn has_key<V>(s: Seq<(u128, V)>, k: u128) -> bool {
    exists|i: int| 0 <= i < s.len() && (#[trigger] s[i]).0 == k
}

/// Whether the identifiers in `s` are pairwise distinct.
pub open spec fn uniq_keys<V>(s: Seq<(u128, V)>) -> bool {
    forall|i: int, j: int|
        0 <= i < j < s.len() ==> (#[trigger] s[i]).0 != (#[trigger] s[j]).0
}

/// The mapping that a sequence of `(identifier, record)` pairs stands for.
/// With pairwise-distinct identifiers the order of insertion is immaterial.
pub open spec fn as_map<V>(s: Seq<(u128, V)>) -> Map<u128, V>
    decreases s.len(),
{
    if s.len() == 0 {
        Map::empty()
    } else {
        as_map(s.drop_last()).insert(s.last().0, s.last().1)
    }
}

/// An identifier is in the mapping exactly when some pair carries it.
pub proof fn lemma_as_map_dom<V>(s: Seq<(u128, V)>)
    ensures
        forall|k: u128| #[trigger] as_map(s).dom().contains(k) <==> has_key(s, k),
    decreases s.len(),
{
    if s.len() > 0 {
        lemma_as_map_dom(s.drop_last());
        assert forall|k: u128| #[trigger] as_map(s).dom().contains(k) <==> has_key(s, k) by {
            if as_map(s).dom().contains(k) {
                if k == s.last().0 {
                    assert(s[s.len() - 1].0 == k);
                } else {
                    assert(as_map(s.drop_last()).dom().contains(k));
                    assert(has_key(s.drop_last(), k));
                    let i = choose|i: int|
                        0 <= i < s.drop_last().len() && (#[trigger] s.drop_last()[i]).0 == k;
                    assert(s.drop_last()[i] == s[i]);
                    assert(s[i].0 == k);
                }
            }
            if has_key(s, k) {
                let i = choose|i: int| 0 <= i < s.len() && (#[trigger] s[i]).0 == k;
                if i < s.len() - 1 {
                    assert(s.drop_last()[i].0 == k);
                    assert(has_key(s.drop_last(), k));
                    assert(as_map(s.drop_last()).dom().contains(k));
                } else {
                    assert(k == s.last().0);
                }
            }
        }
    }
}

/// With pairwise-distinct identifiers, each pair's identifier maps to that
/// pair's record.
pub proof fn lemma_as_map_index<V>(s: Seq<(u128, V)>, i: int)
    requires
        uniq_keys(s),
        0 <= i < s.len(),
    ensures
        as_map(s).dom().contains(s[i].0),
        as_map(s)[s[i].0] == s[i].1,
    decreases s.len(),
{
    if i < s.len() - 1 {
        assert(uniq_keys(s.drop_last())) by {
            assert(forall|x: int, y: int|
                0 <= x < y < s.drop_last().len() ==> s.drop_last()[x] == s[x] && s.drop_last()[y]
                    == s[y]);
        }
        lemma_as_map_index(s.drop_last(), i);
        assert(s.drop_last()[i] == s[i]);
        assert(s[i].0 != s.last().0);
    }
}

/// Appending a pair inserts its record into the mapping.
pub proof fn lemma_as_map_push<V>(s: Seq<(u128, V)>, p: (u128, V))
    ensures
        as_map(s.push(p)) == as_map(s).insert(p.0, p.1),
{
    assert(s.push(p).drop_last() =~= s);
    assert(s.push(p).last() == p);
}

/// Removing the pair at `i` removes its identifier from the mapping, and
/// keeps the remaining identifiers pairwise distinct.
pub proof fn lemma_as_map_remove_at<V>(s: Seq<(u128, V)>, i: int)
    requires
        uniq_keys(s),
        0 <= i < s.len(),
    ensures
        uniq_keys(s.remove(i)),
        as_map(s.remove(i)) == as_map(s).remove(s[i].0),
    decreases s.len(),
{
    lemma_as_map_dom(s.drop_last());
    assert(uniq_keys(s.remove(i))) by {
        assert(forall|x: int|
            0 <= x < s.remove(i).len() ==> (#[trigger] s.remove(i)[x]) == if x < i {
                s[x]
            } else {
                s[x + 1]
            });
    }
    assert(uniq_keys(s.drop_last())) by {
        assert(forall|x: int|
            0 <= x < s.drop_last().len() ==> (#[trigger] s.drop_last()[x]) == s[x]);
    }
    if i == s.len() - 1 {
        assert(s.remove(i) =~= s.drop_last());
        assert(!has_key(s.drop_last(), s[i].0)) by {
            if has_key(s.drop_last(), s[i].0) {
                let x = choose|x: int|
                    0 <= x < s.drop_last().len() && (#[trigger] s.drop_last()[x]).0 == s[i].0;
                assert(s[x].0 == s[i].0);
            }
        }
        assert(as_map(s.remove(i)) =~= as_map(s).remove(s[i].0));
    } else {
        lemma_as_map_remove_at(s.drop_last(), i);
        assert(s.remove(i).drop_last() =~= s.drop_last().remove(i));
        assert(s.remove(i).last() == s.last());
        assert(s.drop_last()[i] == s[i]);
        // as_map(s.remove(i)) == as_map(s.drop_last().remove(i)).insert(last)
        //                     == as_map(s.drop_last()).remove(s[i].0).insert(last)
        assert(s[i].0 != s.last().0);
        assert(as_map(s.remove(i)) =~= as_map(s).remove(s[i].0));
    }
}

/// The set of identifiers the pairs of `s` carry.
pub open spec fn key_set<V>(s: Seq<(u128, V)>) -> Set<u128> {
    Set::new(|k: u128| has_key(s, k))
}

/// The two mappings after committing `batch`, one entry at a time, against
/// the untagged mapping `u` and the tagged mapping `t`: an entry whose
/// identifier is still untagged moves it into the tagged mapping, with the
/// batch's tagged record; an entry whose identifier is not — already handled
/// by an earlier entry, or never captured — is skipped entirely.
pub open spec fn spec_commit(
    u: Map<u128, UntaggedOctopus>,
    t: Map<u128, TaggedOctopus>,
    batch: Seq<(u128, TaggedOctopus)>,
) -> (Map<u128, UntaggedOctopus>, Map<u128, TaggedOctopus>)
    decreases batch.len(),
{
    if batch.len() == 0 {
        (u, t)
    } else if u.dom().contains(batch[0].0) {
        spec_commit(
            u.remove(batch[0].0),
            t.insert(batch[0].0, batch[0].1),
            batch.subrange(1, batch.len() as int),
        )
    } else {
        spec_commit(u, t, batch.subrange(1, batch.len() as int))
    }
}

/// One more pair of `s` brings exactly one more identifier into the key set.
proof fn lemma_key_set_take_step<V>(s: Seq<(u128, V)>, i: int)
    requires
        0 <= i < s.len(),
    ensures
        key_set(s.take(i + 1)) =~= key_set(s.take(i)).insert(s[i].0),
{
    assert forall|k: u128|
        key_set(s.take(i + 1)).contains(k) <==> key_set(s.take(i)).insert(s[i].0).contains(k) by {
        if has_key(s.take(i + 1), k) {
            let x = choose|x: int| 0 <= x < s.take(i + 1).len() && (#[trigger] s.take(i + 1)[x]).0
                == k;
            if x < i {
                assert(s.take(i)[x].0 == k);
            } else {
                assert(k == s[i].0);
            }
        }
        if has_key(s.take(i), k) {
            let x = choose|x: int| 0 <= x < s.take(i).len() && (#[trigger] s.take(i)[x]).0 == k;
            assert(s.take(i + 1)[x].0 == k);
        }
        if k == s[i].0 {
            assert(s.take(i + 1)[i].0 == k);
        }
    }
}

/// Committing a batch that holds exactly the untagged identifiers — each
/// once — empties the untagged mapping and adds every batch entry to the
/// tagged mapping.
proof fn lemma_spec_commit_moves_all(
    u: Map<u128, UntaggedOctopus>,
    t: Map<u128, TaggedOctopus>,
    batch: Seq<(u128, TaggedOctopus)>,
)
    requires
        uniq_keys(batch),
        forall|k: u128| #[trigger] u.dom().contains(k) <==> has_key(batch, k),
    ensures
        spec_commit(u, t, batch).0 =~= Map::<u128, UntaggedOctopus>::empty(),
        spec_commit(u, t, batch).1 =~= t.union_prefer_right(as_map(batch)),
    decreases batch.len(),
{
    lemma_as_map_dom(batch);
    if batch.len() == 0 {
        assert(u.dom() =~= Set::<u128>::empty());
        assert(u =~= Map::<u128, UntaggedOctopus>::empty());
        assert(as_map(batch) =~= Map::<u128, TaggedOctopus>::empty());
        assert(t.union_prefer_right(as_map(batch)) =~= t);
    } else {
        let p = batch[0];
        assert(has_key(batch, p.0)) by {
            assert(batch[0].0 == p.0);
        }
        let rest = batch.subrange(1, batch.len() as int);
        assert(uniq_keys(rest)) by {
            assert(forall|x: int| 0 <= x < rest.len() ==> (#[trigger] rest[x]) == batch[x + 1]);
        }
        assert(!has_key(rest, p.0)) by {
            if has_key(rest, p.0) {
                let x = choose|x: int| 0 <= x < rest.len() && (#[trigger] rest[x]).0 == p.0;
                assert(batch[x + 1].0 == p.0);
            }
        }
        assert(forall|k: u128| #[trigger] u.remove(p.0).dom().contains(k) <==> has_key(
            rest,
            k,
        )) by {
            assert forall|k: u128| #[trigger] u.remove(p.0).dom().contains(k) <==> has_key(
                rest,
                k,
            ) by {
                if u.remove(p.0).dom().contains(k) {
                    assert(u.dom().contains(k) && k != p.0);
                    let x = choose|x: int| 0 <= x < batch.len() && (#[trigger] batch[x]).0 == k;
                    assert(x != 0);
                    assert(rest[x - 1].0 == k);
                }
                if has_key(rest, k) {
                    let x = choose|x: int| 0 <= x < rest.len() && (#[trigger] rest[x]).0 == k;
                    assert(batch[x + 1].0 == k);
                    assert(u.dom().contains(k));
                    assert(k != p.0);
                }
            }
        }
        lemma_spec_commit_moves_all(u.remove(p.0), t.insert(p.0, p.1), rest);
        lemma_as_map_dom(rest);
        let lhs = t.insert(p.0, p.1).union_prefer_right(as_map(rest));
        let rhs = t.union_prefer_right(as_map(batch));
        assert forall|k: u128|
            (#[trigger] lhs.dom().contains(k) <==> rhs.dom().contains(k)) && (lhs.dom().contains(k)
                ==> lhs[k] == rhs[k]) by {
            if k == p.0 {
                lemma_as_map_index(batch, 0);
                assert(rhs.dom().contains(k) && rhs[k] == p.1);
                assert(!as_map(rest).dom().contains(k));
                assert(lhs.dom().contains(k) && lhs[k] == p.1);
            } else if has_key(rest, k) {
                let x = choose|x: int| 0 <= x < rest.len() && (#[trigger] rest[x]).0 == k;
                lemma_as_map_index(rest, x);
                lemma_as_map_index(batch, x + 1);
                assert(rest[x] == batch[x + 1]);
                assert(lhs[k] == rest[x].1 && rhs[k] == batch[x + 1].1);
            } else {
                assert(!as_map(rest).dom().contains(k));
                assert(!has_key(batch, k)) by {
                    if has_key(batch, k) {
                        let x = choose|x: int| 0 <= x < batch.len() && (#[trigger] batch[x]).0
                            == k;
                        assert(x != 0);
                        assert(rest[x - 1].0 == k);
                    }
                }
                assert(!as_map(batch).dom().contains(k));
            }
        }
        assert(lhs =~= rhs);
    }
}

/// Every identifier in the tagged mapping after a commit was either tagged
/// already or was present in the untagged mapping; a commit never invents a
/// tagged identifier. Together with the registry invariant `wf` — an
/// identifier is never in both mappings at once — which every operation
/// preserves, and with `capture` never touching the tagged mapping, every
/// identifier ever found in the tagged mapping was previously untagged.
pub proof fn lemma_commit_tagged_from_untagged(
    u: Map<u128, UntaggedOctopus>,
    t: Map<u128, TaggedOctopus>,
    batch: Seq<(u128, TaggedOctopus)>,
    k: u128,
)
    requires
        spec_commit(u, t, batch).1.dom().contains(k),
    ensures
        t.dom().contains(k) || u.dom().contains(k),
    decreases batch.len(),
{
    if batch.len() > 0 {
        let p = batch[0];
        let rest = batch.subrange(1, batch.len() as int);
        if u.dom().contains(p.0) {
            lemma_commit_tagged_from_untagged(u.remove(p.0), t.insert(p.0, p.1), rest, k);
        } else {
            lemma_commit_tagged_from_untagged(u, t, rest, k);
        }
    }
}

/// A commit never loses an identifier: the identifiers present across the
/// two mappings after a commit are exactly those present before it.
pub proof fn lemma_commit_preserves_identifiers(
    u: Map<u128, UntaggedOctopus>,
    t: Map<u128, TaggedOctopus>,
    batch: Seq<(u128, TaggedOctopus)>,
)
    ensures
        spec_commit(u, t, batch).0.dom().union(spec_commit(u, t, batch).1.dom()) =~= u.dom().union(
            t.dom(),
        ),
    decreases batch.len(),
{
    if batch.len() > 0 {
        let p = batch[0];
        let rest = batch.subrange(1, batch.len() as int);
        if u.dom().contains(p.0) {
            lemma_commit_preserves_identifiers(u.remove(p.0), t.insert(p.0, p.1), rest);
            assert(u.remove(p.0).dom().union(t.insert(p.0, p.1).dom()) =~= u.dom().union(t.dom()));
        } else {
            lemma_commit_preserves_identifiers(u, t, rest);
        }
    }
}

/// Relies on uuid's `Uuid::new_v4` (a fresh version-4 UUID drawn from the
/// operating system's random source) and `Uuid::as_u128` (that UUID as a
/// single 128-bit integer). The result is random: nothing is promised of it,
/// and in particular not that it differs from earlier draws.
#[verifier::external_body]
fn fresh_id() -> (id: u128) {
    uuid::Uuid::new_v4().as_u128()
}

/// The position of the pair carrying `id`, if any pair does.
fn index_of_key<V>(v: &Vec<(u128, V)>, id: u128) -> (r: Option<usize>)
    ensures
        r matches Some(j) ==> j < v@.len() && v@[j as int].0 == id,
        r is None ==> !has_key(v@, id),
{
    let mut i: usize = 0;
    while i < v.len()
        invariant
            i <= v@.len(),
            forall|j: int| 0 <= j < i ==> (#[trigger] v@[j]).0 != id,
        decreases v@.len() - i,
    {
        if v[i].0 == id {
            return Some(i);
        }
        i = i + 1;
    }
    None
}

/// Whether the identifiers in `v` are pairwise distinct, decided by
/// executable code.
fn keys_unique<V>(v: &Vec<(u128, V)>) -> (b: bool)
    ensures
        b == uniq_keys(v@),
{
    let mut i: usize = 0;
    while i < v.len()
        invariant
            i <= v@.len(),
            forall|x: int, y: int|
                0 <= x < y < v@.len() && x < i ==> (#[trigger] v@[x]).0 != (#[trigger] v@[y]).0,
        decreases v@.len() - i,
    {
        let mut j: usize = i + 1;
        while j < v.len()
            invariant
                i < j <= v@.len(),
                i < v@.len(),
                forall|y: int| i < y < j ==> (#[trigger] v@[y]).0 != v@[i as int].0,
            decreases v@.len() - j,
        {
            if v[j].0 == v[i].0 {
                proof {
                    assert((i as int) < (j as int) && (j as int) < v@.len() && v@[i as int].0
                        == v@[j as int].0);
                }
                return false;
            }
            j = j + 1;
        }
        i = i + 1;
    }
    true
}

/// A consistent point-in-time copy of both mappings.
#[derive(Debug)]
pub struct OctopiSnapshot {
    pub untagged_octopi: Vec<(u128, UntaggedOctopus)>,
    pub tagged_octopi: Vec<(u128, TaggedOctopus)>,
}

impl OctopiSnapshot {
    /// Bundle copies of the two mappings into one snapshot.
    pub fn new(
        untagged_octopi: Vec<(u128, UntaggedOctopus)>,
        tagged_octopi: Vec<(u128, TaggedOctopus)>,
    ) -> (s: Self)
        ensures
            s.untagged_octopi@ == untagged_octopi@,
            s.tagged_octopi@ == tagged_octopi@,
    {
        OctopiSnapshot { untagged_octopi, tagged_octopi }
    }

    /// The untagged mapping the snapshot observed.
    pub open spec fn untagged_map(self) -> Map<u128, UntaggedOctopus> {
        as_map(self.untagged_octopi@)
    }

    /// The tagged mapping the snapshot observed.
    pub open spec fn tagged_map(self) -> Map<u128, TaggedOctopus> {
        as_map(self.tagged_octopi@)
    }
}

/// What a snapshot of the registry state `st` must hold: exactly the two
/// sequences of pairs of `st`, hence exactly its two mappings.
pub open spec fn snapshot_matches(s: OctopiSnapshot, st: AppState) -> bool {
    &&& s.untagged_octopi@ == st.untagged_seq()
    &&& s.tagged_octopi@ == st.tagged_seq()
}

/// The shared registry state: the untagged and the tagged mapping.
#[derive(Debug)]
pub struct AppState {
    untagged_octopi: Vec<(u128, UntaggedOctopus)>,
    tagged_octopi: Vec<(u128, TaggedOctopus)>,
}

impl AppState {
    /// The untagged mapping as a sequence of pairs, in insertion order.
    pub closed spec fn untagged_seq(self) -> Seq<(u128, UntaggedOctopus)> {
        self.untagged_octopi@
    }

    /// The tagged mapping as a sequence of pairs, in insertion order.
    pub closed spec fn tagged_seq(self) -> Seq<(u128, TaggedOctopus)> {
        self.tagged_octopi@
    }

    /// The untagged mapping.
    pub open spec fn untagged_map(self) -> Map<u128, UntaggedOctopus> {
        as_map(self.untagged_seq())
    }

    /// The tagged mapping.
    pub open spec fn tagged_map(self) -> Map<u128, TaggedOctopus> {
        as_map(self.tagged_seq())
    }

    /// The registry invariant: identifiers are pairwise distinct within each
    /// mapping, and no identifier is in both mappings at once.
    pub open spec fn wf(self) -> bool {
        &&& uniq_keys(self.untagged_seq())
        &&& uniq_keys(self.tagged_seq())
        &&& forall|k: u128| !(has_key(self.untagged_seq(), k) && #[trigger] has_key(
            self.tagged_seq(),
            k,
        ))
    }

    /// An empty registry.
    pub fn new() -> (st: Self)
        ensures
            st.wf(),
            st.untagged_seq() == Seq::<(u128, UntaggedOctopus)>::empty(),
            st.tagged_seq() == Seq::<(u128, TaggedOctopus)>::empty(),
            st.untagged_map() == Map::<u128, UntaggedOctopus>::empty(),
            st.tagged_map() == Map::<u128, TaggedOctopus>::empty(),
    {
        let st = AppState { untagged_octopi: Vec::new(), tagged_octopi: Vec::new() };
        proof {
            assert(st.untagged_seq() =~= Seq::<(u128, UntaggedOctopus)>::empty());
            assert(st.tagged_seq() =~= Seq::<(u128, TaggedOctopus)>::empty());
        }
        st
    }

    /// Decide the registry invariant by executable code, so that unverified
    /// callers can test it before calling the operations that assume it.
    pub fn check_invariant(&self) -> (b: bool)
        ensures
            b == self.wf(),
    {
        if !keys_unique(&self.untagged_octopi) {
            return false;
        }
        if !keys_unique(&self.tagged_octopi) {
            return false;
        }
        let mut i: usize = 0;
        while i < self.untagged_octopi.len()
            invariant
                i <= self.untagged_seq().len(),
                uniq_keys(self.untagged_seq()),
                uniq_keys(self.tagged_seq()),
                forall|x: int|
                    0 <= x < i ==> !has_key(self.tagged_seq(), (#[trigger] self.untagged_seq()[x]).0),
            decreases self.untagged_seq().len() - i,
        {
            match index_of_key(&self.tagged_octopi, self.untagged_octopi[i].0) {
                Some(j) => {
                    proof {
                        assert(has_key(self.untagged_seq(), self.untagged_seq()[i as int].0));
                        assert(has_key(self.tagged_seq(), self.tagged_seq()[j as int].0));
                    }
                    return false;
                },
                None => {},
            }
            i = i + 1;
        }
        proof {
            assert forall|k: u128|
                !(has_key(self.untagged_seq(), k) && #[trigger] has_key(
                    self.tagged_seq(),
                    k,
                )) by {
                if has_key(self.untagged_seq(), k) {
                    let x = choose|x: int|
                        0 <= x < self.untagged_seq().len() && (#[trigger] self.untagged_seq()[x]).0
                            == k;
                    assert(!has_key(self.tagged_seq(), self.untagged_seq()[x].0));
                }
            }
        }
        true
    }

    /// Whether `id` is present in either mapping.
    pub fn contains_id(&self, id: u128) -> (b: bool)
        ensures
            b == (self.untagged_map().dom().contains(id) || self.tagged_map().dom().contains(id)),
    {
        proof {
            lemma_as_map_dom(self.untagged_seq());
            lemma_as_map_dom(self.tagged_seq());
        }
        let in_untagged = index_of_key(&self.untagged_octopi, id).is_some();
        let in_tagged = index_of_key(&self.tagged_octopi, id).is_some();
        in_untagged || in_tagged
    }

    /// A consistent read-only copy of both mappings, observed at a single
    /// instant. The copy holds exactly the pairs the registry holds, so two
    /// snapshots with no mutation in between are identical.
    pub fn snapshot(&self) -> (s: OctopiSnapshot)
        ensures
            snapshot_matches(s, *self),
    {
        let mut untagged: Vec<(u128, UntaggedOctopus)> = Vec::new();
        let mut i: usize = 0;
        while i < self.untagged_octopi.len()
            invariant
                i <= self.untagged_octopi@.len(),
                untagged@ == self.untagged_octopi@.subrange(0, i as int),
            decreases self.untagged_octopi@.len() - i,
        {
            let p = self.untagged_octopi[i];
            untagged.push(p);
            proof {
                assert(untagged@ =~= self.untagged_octopi@.subrange(0, i + 1));
            }
            i = i + 1;
        }
        let mut tagged: Vec<(u128, TaggedOctopus)> = Vec::new();
        let mut j: usize = 0;
        while j < self.tagged_octopi.len()
            invariant
                j <= self.tagged_octopi@.len(),
                tagged@ == self.tagged_octopi@.subrange(0, j as int),
            decreases self.tagged_octopi@.len() - j,
        {
            let p = &self.tagged_octopi[j];
            let copy = (p.0, p.1.duplicate());
            tagged.push(copy);
            proof {
                assert(tagged@ =~= self.tagged_octopi@.subrange(0, j + 1));
            }
            j = j + 1;
        }
        proof {
            assert(untagged@ =~= self.untagged_seq());
            assert(tagged@ =~= self.tagged_seq());
        }
        OctopiSnapshot::new(untagged, tagged)
    }

    /// The deterministic heart of a capture: decide from the supplied roll,
    /// identifier and feature alone. An octopus is found exactly when the
    /// roll is at most 50 and the identifier is genuinely fresh; it is then
    /// inserted into the untagged mapping and returned. Otherwise nothing
    /// changes.
    pub fn capture_with(&mut self, roll: u64, id: u128, feature: IdentifyingFeature) -> (r: Option<
        (u128, UntaggedOctopus),
    >)
        requires
            old(self).wf(),
            1 <= roll < 100,
        ensures
            final(self).wf(),
            final(self).tagged_seq() == old(self).tagged_seq(),
            r is Some <==> (roll <= 50 && !old(self).untagged_map().dom().contains(id) && !old(
                self,
            ).tagged_map().dom().contains(id)),
            r is Some ==> r == Some((id, (UntaggedOctopus { identifying_feature: feature })))
                && final(self).untagged_seq() == old(self).untagged_seq().push(
                (id, (UntaggedOctopus { identifying_feature: feature })),
            ) && final(self).untagged_map() == old(self).untagged_map().insert(
                id,
                (UntaggedOctopus { identifying_feature: feature }),
            ),
            r is None ==> *final(self) == *old(self),
    {
        proof {
            lemma_as_map_dom(self.untagged_seq());
            lemma_as_map_dom(self.tagged_seq());
        }
        if roll > 50 {
            return None;
        }
        if self.contains_id(id) {
            return None;
        }
        let octopus = UntaggedOctopus { identifying_feature: feature };
        self.untagged_octopi.push((id, octopus));
        proof {
            lemma_as_map_push(old(self).untagged_seq(), (id, octopus));
            assert(uniq_keys(self.untagged_seq())) by {
                assert(forall|x: int|
                    0 <= x < old(self).untagged_seq().len() ==> (#[trigger] self.untagged_seq()[x])
                        == old(self).untagged_seq()[x]);
            }
            assert(forall|k: u128|
                has_key(self.untagged_seq(), k) ==> has_key(old(self).untagged_seq(), k) || k
                    == id);
        }
        Some((id, octopus))
    }

    /// Search for an octopus: with the supplied uniform roll from `[1, 100)`
    /// an octopus is found exactly when the roll is at most 50. A found
    /// octopus gets a freshly drawn random identifier and feature and is
    /// inserted into the untagged mapping. The tagged mapping never changes.
    /// Should the random identifier collide with one already present —
    /// never observed in practice — nothing is inserted and nothing is
    /// returned, so the registry is never corrupted; on an empty registry no
    /// collision is possible, so there a low roll is owed its octopus.
    pub fn capture(&mut self, roll: u64) -> (r: Option<(u128, UntaggedOctopus)>)
        requires
            old(self).wf(),
            1 <= roll < 100,
        ensures
            final(self).wf(),
            final(self).tagged_seq() == old(self).tagged_seq(),
            roll > 50 ==> r is None,
            r is None ==> *final(self) == *old(self),
            r is None ==> roll > 50 || old(self).untagged_seq().len() > 0 || old(
                self,
            ).tagged_seq().len() > 0,
            r matches Some((id, o)) ==> roll <= 50 && !old(self).untagged_map().dom().contains(id)
                && !old(self).tagged_map().dom().contains(id) && final(self).untagged_seq() == old(
                self,
            ).untagged_seq().push((id, o)) && final(self).untagged_map() == old(
                self,
            ).untagged_map().insert(id, o),
    {
        if roll > 50 {
            return None;
        }
        let id = fresh_id();
        let feature = sample_feature();
        let r = self.capture_with(roll, id, feature);
        proof {
            if r is None {
                lemma_as_map_dom(old(self).untagged_seq());
                lemma_as_map_dom(old(self).tagged_seq());
            }
        }
        r
    }

    /// Build the tagged counterpart of every octopus currently in the
    /// untagged mapping, drawing one name per octopus from the sequencer in
    /// the order the mapping holds them. Nothing is mutated but the
    /// sequencer; the batch is committed separately.
    pub fn prepare_tag_batch(&self, seq: &mut NamingSequencer) -> (batch: Vec<
        (u128, TaggedOctopus),
    >)
        requires
            old(seq)@ + self.untagged_seq().len() <= u64::MAX,
        ensures
            batch@.len() == self.untagged_seq().len(),
            final(seq)@ == old(seq)@ + batch@.len(),
            forall|i: int|
                0 <= i < batch@.len() ==> (#[trigger] batch@[i]).0 == self.untagged_seq()[i].0
                    && batch@[i].1.identifying_feature
                    == self.untagged_seq()[i].1.identifying_feature && batch@[i].1.name@
                    == spec_name(old(seq)@ + i),
    {
        let mut batch: Vec<(u128, TaggedOctopus)> = Vec::new();
        let mut i: usize = 0;
        while i < self.untagged_octopi.len()
            invariant
                i <= self.untagged_octopi@.len(),
                batch@.len() == i,
                seq@ == old(seq)@ + (i as nat),
                old(seq)@ + self.untagged_octopi@.len() <= u64::MAX,
                forall|x: int|
                    0 <= x < i ==> (#[trigger] batch@[x]).0 == self.untagged_octopi@[x].0
                        && batch@[x].1.identifying_feature
                        == self.untagged_octopi@[x].1.identifying_feature && batch@[x].1.name@
                        == spec_name(old(seq)@ + x),
            decreases self.untagged_octopi@.len() - i,
        {
            let entry = self.untagged_octopi[i];
            let tagged = entry.1.tag(seq);
            batch.push((entry.0, tagged));
            i = i + 1;
        }
        batch
    }

    /// Commit a prepared batch in one critical section: each batch entry
    /// whose identifier is still in the untagged mapping is removed from it
    /// and its tagged record inserted into the tagged mapping; an entry
    /// whose identifier is absent — already handled — is skipped without
    /// error. Octopi captured after the batch was prepared are not in the
    /// batch and stay untagged.
    pub fn commit_tag_batch(&mut self, batch: &Vec<(u128, TaggedOctopus)>)
        requires
            old(self).wf(),
        ensures
            final(self).wf(),
            (final(self).untagged_map(), final(self).tagged_map()) == spec_commit(
                old(self).untagged_map(),
                old(self).tagged_map(),
                batch@,
            ),
            final(self).untagged_map() == old(self).untagged_map().remove_keys(key_set(batch@)),
            forall|k: u128|
                #[trigger] final(self).tagged_map().dom().contains(k) ==> old(
                    self,
                ).tagged_map().dom().contains(k) || old(self).untagged_map().dom().contains(k),
            batch@.len() == 0 ==> *final(self) == *old(self),
    {
        proof {
            assert(batch@.skip(0) =~= batch@);
            assert(key_set(batch@.take(0)) =~= Set::<u128>::empty());
            assert(self.untagged_map() =~= self.untagged_map().remove_keys(
                key_set(batch@.take(0)),
            ));
        }
        let mut i: usize = 0;
        while i < batch.len()
            invariant
                old(self).wf(),
                self.wf(),
                i <= batch@.len(),
                spec_commit(self.untagged_map(), self.tagged_map(), batch@.skip(i as int))
                    == spec_commit(old(self).untagged_map(), old(self).tagged_map(), batch@),
                self.untagged_map() == old(self).untagged_map().remove_keys(
                    key_set(batch@.take(i as int)),
                ),
                forall|k: u128|
                    #[trigger] self.tagged_map().dom().contains(k) ==> old(
                        self,
                    ).tagged_map().dom().contains(k) || old(self).untagged_map().dom().contains(k),
                i == 0 ==> *self == *old(self),
            decreases batch@.len() - i,
        {
            let ghost pre = *self;
            let ghost rest = batch@.skip(i as int);
            let id = batch[i].0;
            proof {
                assert(rest[0] == batch@[i as int]);
                assert(rest.subrange(1, rest.len() as int) =~= batch@.skip(i as int + 1));
                lemma_as_map_dom(pre.untagged_seq());
                lemma_as_map_dom(pre.tagged_seq());
                lemma_key_set_take_step(batch@, i as int);
            }
            match index_of_key(&self.untagged_octopi, id) {
                Some(j) => {
                    self.untagged_octopi.remove(j);
                    let tagged = batch[i].1.duplicate();
                    self.tagged_octopi.push((id, tagged));
                    proof {
                        assert(has_key(pre.untagged_seq(), id)) by {
                            assert(pre.untagged_seq()[j as int].0 == id);
                        }
                        assert(pre.untagged_map().dom().contains(id));
                        assert(!has_key(pre.tagged_seq(), id));
                        lemma_as_map_remove_at(pre.untagged_seq(), j as int);
                        lemma_as_map_push(pre.tagged_seq(), (id, tagged));
                        assert(self.untagged_map() == pre.untagged_map().remove(id));
                        assert(self.tagged_map() == pre.tagged_map().insert(id, tagged));
                        // the pairwise-distinct and disjointness parts of wf
                        assert(uniq_keys(self.tagged_seq())) by {
                            assert(forall|x: int|
                                0 <= x < pre.tagged_seq().len() ==> (#[trigger] self.tagged_seq()[x])
                                    == pre.tagged_seq()[x]);
                            assert(self.tagged_seq().last() == (id, tagged));
                            assert forall|x: int, y: int|
                                0 <= x < y < self.tagged_seq().len() implies (
                            #[trigger] self.tagged_seq()[x]).0 != (#[trigger] self.tagged_seq()[y]).0 by {
                                if y == self.tagged_seq().len() - 1 {
                                    if self.tagged_seq()[x].0 == id {
                                        assert(has_key(pre.tagged_seq(), id)) by {
                                            assert(pre.tagged_seq()[x].0 == id);
                                        }
                                    }
                                }
                            }
                        }
                        lemma_as_map_dom(self.untagged_seq());
                        lemma_as_map_dom(self.tagged_seq());
                        assert forall|k: u128|
                            !(has_key(self.untagged_seq(), k) && #[trigger] has_key(
                                self.tagged_seq(),
                                k,
                            )) by {
                            if has_key(self.untagged_seq(), k) && has_key(self.tagged_seq(), k) {
                                assert(self.untagged_map().dom().contains(k));
                                assert(k != id);
                                assert(pre.untagged_map().dom().contains(k));
                                assert(self.tagged_map().dom().contains(k));
                                assert(pre.tagged_map().dom().contains(k));
                                assert(has_key(pre.untagged_seq(), k) && has_key(
                                    pre.tagged_seq(),
                                    k,
                                ));
                            }
                        }
                        // one unfolding of the committed-state recursion
                        assert(tagged == batch@[i as int].1);
                        assert(spec_commit(pre.untagged_map(), pre.tagged_map(), rest)
                            == spec_commit(
                            self.untagged_map(),
                            self.tagged_map(),
                            batch@.skip(i as int + 1),
                        ));
                        // the removed-keys account gains exactly this identifier
                        assert(self.untagged_map() =~= old(self).untagged_map().remove_keys(
                            key_set(batch@.take(i as int + 1)),
                        ));
                    }
                },
                None => {
                    proof {
                        assert(!has_key(pre.untagged_seq(), id));
                        assert(!pre.untagged_map().dom().contains(id));
                        assert(spec_commit(pre.untagged_map(), pre.tagged_map(), rest)
                            == spec_commit(
                            self.untagged_map(),
                            self.tagged_map(),
                            batch@.skip(i as int + 1),
                        ));
                        assert(self.untagged_map() =~= old(self).untagged_map().remove_keys(
                            key_set(batch@.take(i as int + 1)),
                        ));
                    }
                },
            }
            i = i + 1;
        }
        proof {
            assert(batch@.skip(batch@.len() as int) =~= Seq::<(u128, TaggedOctopus)>::empty());
            assert(batch@.take(batch@.len() as int) =~= batch@);
        }
    }

    /// Tag every octopus that is in the untagged mapping now: build the
    /// batch, then commit it as one atomic step. The untagged mapping is
    /// left empty, the tagged mapping gains exactly the batch — names drawn
    /// in sequence, identifiers and features preserved — and an empty
    /// untagged mapping makes the whole call a no-op.
    pub fn tag_all(&mut self, seq: &mut NamingSequencer) -> (r: Vec<(u128, TaggedOctopus)>)
        requires
            old(self).wf(),
            old(seq)@ + old(self).untagged_seq().len() <= u64::MAX,
        ensures
            final(self).wf(),
            r@.len() == old(self).untagged_seq().len(),
            final(seq)@ == old(seq)@ + r@.len(),
            forall|i: int|
                0 <= i < r@.len() ==> (#[trigger] r@[i]).0 == old(self).untagged_seq()[i].0
                    && r@[i].1.identifying_feature
                    == old(self).untagged_seq()[i].1.identifying_feature && r@[i].1.name@
                    == spec_name(old(seq)@ + i),
            final(self).untagged_seq().len() == 0,
            final(self).untagged_map() == Map::<u128, UntaggedOctopus>::empty(),
            final(self).tagged_map() == old(self).tagged_map().union_prefer_right(as_map(r@)),
            forall|k: u128|
                #[trigger] final(self).tagged_map().dom().contains(k) <==> (old(self).tagged_map().dom().contains(k)
                    || old(self).untagged_map().dom().contains(k)),
            forall|k: u128|
                #[trigger] old(self).untagged_map().dom().contains(k)
                    ==> final(self).tagged_map()[k].identifying_feature
                    == old(self).untagged_map()[k].identifying_feature,
            old(self).untagged_seq().len() == 0 ==> *final(self) == *old(self) && final(seq)@
                == old(seq)@,
    {
        let batch = self.prepare_tag_batch(seq);
        proof {
            lemma_as_map_dom(self.untagged_seq());
            assert(uniq_keys(batch@)) by {
                assert forall|x: int, y: int|
                    0 <= x < y < batch@.len() implies (#[trigger] batch@[x]).0 != (
                #[trigger] batch@[y]).0 by {
                    assert(self.untagged_seq()[x].0 != self.untagged_seq()[y].0);
                }
            }
            assert forall|k: u128| #[trigger] self.untagged_map().dom().contains(k) <==> has_key(
                batch@,
                k,
            ) by {
                if self.untagged_map().dom().contains(k) {
                    let x = choose|x: int|
                        0 <= x < self.untagged_seq().len() && (#[trigger] self.untagged_seq()[x]).0
                            == k;
                    assert(batch@[x].0 == k);
                }
                if has_key(batch@, k) {
                    let x = choose|x: int| 0 <= x < batch@.len() && (#[trigger] batch@[x]).0 == k;
                    assert(self.untagged_seq()[x].0 == k);
                }
            }
            lemma_spec_commit_moves_all(self.untagged_map(), self.tagged_map(), batch@);
        }
        self.commit_tag_batch(&batch);
        proof {
            if self.untagged_seq().len() > 0 {
                assert(self.untagged_map().dom().contains(self.untagged_seq().last().0));
            }
            lemma_as_map_dom(batch@);
            assert forall|k: u128| #[trigger] old(self).untagged_map().dom().contains(
                k,
            ) implies self.tagged_map().dom().contains(k) && self.tagged_map()[
                k
            ].identifying_feature == old(self).untagged_map()[k].identifying_feature by {
                lemma_as_map_dom(old(self).untagged_seq());
                let x = choose|x: int|
                    0 <= x < old(self).untagged_seq().len() && (
                #[trigger] old(self).untagged_seq()[x]).0 == k;
                lemma_as_map_index(old(self).untagged_seq(), x);
                assert(batch@[x].0 == k);
                assert(uniq_keys(batch@)) by {
                    assert forall|a: int, b: int|
                        0 <= a < b < batch@.len() implies (#[trigger] batch@[a]).0 != (
                    #[trigger] batch@[b]).0 by {
                        assert(old(self).untagged_seq()[a].0 != old(self).untagged_seq()[b].0);
                    }
                }
                lemma_as_map_index(batch@, x);
                assert(as_map(batch@).dom().contains(k));
                assert(self.tagged_map()[k] == batch@[x].1);
            }
        }
        batch
    }
}

impl Default for AppState {
    /// The default registry is the empty one.
    fn default() -> (st: Self)
        ensures
            st.wf(),
            st.untagged_seq() == Seq::<(u128, UntaggedOctopus)>::empty(),
            st.tagged_seq() == Seq::<(u128, TaggedOctopus)>::empty(),
    {
        AppState::new()
    }
}

/// Idempotence of `snapshot`: two snapshots of the same registry state, with
/// no mutation in between, hold identical sequences of pairs, hence
/// identical mappings.
pub proof fn lemma_snapshot_idempotent(st: AppState, s1: OctopiSnapshot, s2: OctopiSnapshot)
    requires
        snapshot_matches(s1, st),
        snapshot_matches(s2, st),
    ensures
        s1.untagged_octopi@ == s2.untagged_octopi@,
        s1.tagged_octopi@ == s2.tagged_octopi@,
        s1.untagged_map() == s2.untagged_map(),
        s1.tagged_map() == s2.tagged_map(),
{
}

} // verus!

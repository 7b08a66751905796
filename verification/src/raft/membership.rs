//! Cluster membership, with joint consensus.
//!
//! A change goes through a joint configuration, in which every decision needs a
//! majority of the old voters and a majority of the new ones.

use std::collections::BTreeSet;

use vstd::prelude::*;

use super::ids::{ascending, ids_of, lemma_ascending, lemma_take_to_set, same_ids, set_of, NodeID};

verus! {

broadcast use vstd::std_specs::btree::group_btree_axioms;

/// A set of voters.
#[derive(Clone, Debug, Default, PartialEq, Eq)]
pub struct Membership {
    pub voters: BTreeSet<NodeID>,
}

impl View for Membership {
    type V = Set<NodeID>;

    open spec fn view(&self) -> Set<NodeID> {
        self.voters@
    }
}

/// Whether the voters among `matched` are a strict majority of `voters`.
pub open spec fn is_majority(voters: Set<NodeID>, matched: Set<NodeID>) -> bool {
    voters.intersect(matched).len() >= voters.len() / 2 + 1
}

impl Membership {
    /// The configuration of the listed voters.
    pub fn from_iter(ids: &[NodeID]) -> (r: Membership)
        ensures
            r@ == ids@.to_set(),
    {
        Membership { voters: set_of(ids) }
    }

    /// A configuration with the same voters.
    pub fn duplicate(&self) -> (r: Membership)
        ensures
            r@ == self@,
    {
        Membership { voters: self.voters.clone() }
    }

    pub fn contains(&self, id: NodeID) -> (r: bool)
        ensures
            r == self@.contains(id),
    {
        self.voters.contains(&id)
    }

    pub fn len(&self) -> (r: usize)
        ensures
            r == self@.len(),
    {
        self.voters.len()
    }

    pub fn is_empty(&self) -> (r: bool)
        ensures
            r == (self@ == Set::<NodeID>::empty()),
    {
        let r = self.voters.is_empty();
        if r {
            assert(self@ =~= Set::<NodeID>::empty());
        }
        r
    }

    /// The size of a strict majority.
    pub fn quorum_size(&self) -> (r: usize)
        ensures
            r == self@.len() / 2 + 1,
    {
        self.len() / 2 + 1
    }

    /// Whether the voters among `matched` are a majority.
    pub fn has_quorum(&self, matched: &BTreeSet<NodeID>) -> (r: bool)
        ensures
            r == is_majority(self@, matched@),
    {
        let ids = ids_of(&self.voters);
        let mut count: usize = 0;
        let mut i: usize = 0;
        proof {
            lemma_ascending(self@);
            assert(ids@.take(0).to_set().intersect(matched@) =~= Set::empty());
        }
        while i < ids.len()
            invariant
                i <= ids@.len(),
                ids@.len() <= 256,
                ids@.no_duplicates(),
                ids@.take(i as int).to_set().finite(),
                count <= i,
                count == ids@.take(i as int).to_set().intersect(matched@).len(),
            decreases ids@.len() - i,
        {
            proof {
                let before = ids@.take(i as int).to_set();
                lemma_take_to_set(ids@, i as int);
                assert(!before.contains(ids@[i as int])) by {
                    if before.contains(ids@[i as int]) {
                        let k = choose|k: int|
                            0 <= k < i && ids@.take(i as int)[k] == ids@[i as int];
                        assert(ids@[k] == ids@[i as int]);
                    }
                }
                if matched@.contains(ids@[i as int]) {
                    assert(before.insert(ids@[i as int]).intersect(matched@) =~= before.intersect(
                        matched@,
                    ).insert(ids@[i as int]));
                } else {
                    assert(before.insert(ids@[i as int]).intersect(matched@) =~= before.intersect(
                        matched@,
                    ));
                }
            }
            if matched.contains(&ids[i]) {
                count = count + 1;
            }
            i = i + 1;
        }
        assert(ids@.take(i as int) =~= ids@);
        count >= self.quorum_size()
    }
}

/// A membership change in the log.
#[derive(Clone, Debug, PartialEq, Eq)]
pub enum MembershipEntry {
    /// Joint consensus: a decision needs a majority of both configurations.
    Joint { old: Membership, new: Membership },
    /// A single configuration.
    Simple(Membership),
}

/// The voters of a [`MembershipEntry`].
#[verifier::ext_equal]
pub ghost enum MembershipView {
    Joint { old: Set<NodeID>, new: Set<NodeID> },
    Simple(Set<NodeID>),
}

impl MembershipView {
    /// Everyone who may vote.
    pub open spec fn voters(self) -> Set<NodeID> {
        match self {
            MembershipView::Simple(voters) => voters,
            MembershipView::Joint { old, new } => old.union(new),
        }
    }

    /// The configuration that the change leads to.
    pub open spec fn target(self) -> Set<NodeID> {
        match self {
            MembershipView::Simple(voters) => voters,
            MembershipView::Joint { old, new } => new,
        }
    }

    /// Whether `matched` can decide: a majority, of both configurations while
    /// they are joint.
    pub open spec fn quorum(self, matched: Set<NodeID>) -> bool {
        match self {
            MembershipView::Simple(voters) => is_majority(voters, matched),
            MembershipView::Joint { old, new } => is_majority(old, matched) && is_majority(
                new,
                matched,
            ),
        }
    }
}

impl View for MembershipEntry {
    type V = MembershipView;

    open spec fn view(&self) -> MembershipView {
        match self {
            MembershipEntry::Joint { old, new } => MembershipView::Joint { old: old@, new: new@ },
            MembershipEntry::Simple(voters) => MembershipView::Simple(voters@),
        }
    }
}

impl MembershipEntry {
    /// The same change.
    pub fn duplicate(&self) -> (r: MembershipEntry)
        ensures
            r@ == self@,
    {
        match self {
            MembershipEntry::Joint { old, new } => MembershipEntry::Joint {
                old: old.duplicate(),
                new: new.duplicate(),
            },
            MembershipEntry::Simple(voters) => MembershipEntry::Simple(voters.duplicate()),
        }
    }

    /// Everyone who may vote: both configurations while they are joint.
    pub fn all_voters(&self) -> (r: BTreeSet<NodeID>)
        ensures
            r@ == self@.voters(),
    {
        match self {
            MembershipEntry::Simple(m) => m.voters.clone(),
            MembershipEntry::Joint { old, new } => {
                let mut all = old.voters.clone();
                let more = ids_of(&new.voters);
                let mut i: usize = 0;
                proof {
                    lemma_ascending(new@);
                    assert(all@ =~= old@.union(more@.take(0).to_set()));
                }
                while i < more.len()
                    invariant
                        i <= more@.len(),
                        all@ == old@.union(more@.take(i as int).to_set()),
                    decreases more@.len() - i,
                {
                    proof {
                        lemma_take_to_set(more@, i as int);
                    }
                    let ghost before = all@;
                    all.insert(more[i]);
                    assert(all@ =~= old@.union(more@.take(i + 1).to_set()));
                    i = i + 1;
                }
                assert(more@.take(i as int) =~= more@);
                all
            },
        }
    }

    /// The configuration that the change leads to.
    pub fn target(&self) -> (r: &Membership)
        ensures
            r@ == self@.target(),
    {
        match self {
            MembershipEntry::Simple(m) => m,
            MembershipEntry::Joint { new, .. } => new,
        }
    }

    pub fn is_joint(&self) -> (r: bool)
        ensures
            r == (self@ is Joint),
    {
        match self {
            MembershipEntry::Joint { .. } => true,
            MembershipEntry::Simple(_) => false,
        }
    }

    /// Whether `matched` can decide under this configuration.
    pub fn has_quorum(&self, matched: &BTreeSet<NodeID>) -> (r: bool)
        ensures
            r == self@.quorum(matched@),
    {
        match self {
            MembershipEntry::Simple(m) => m.has_quorum(matched),
            MembershipEntry::Joint { old, new } => old.has_quorum(matched) && new.has_quorum(
                matched,
            ),
        }
    }

    /// Whether two changes have the same voters.
    pub fn same(&self, other: &MembershipEntry) -> (r: bool)
        ensures
            r == (self@ == other@),
    {
        match (self, other) {
            (
                MembershipEntry::Joint { old: a, new: b },
                MembershipEntry::Joint { old: c, new: d },
            ) => same_ids(&a.voters, &c.voters) && same_ids(&b.voters, &d.voters),
            (MembershipEntry::Simple(a), MembershipEntry::Simple(b)) => same_ids(
                &a.voters,
                &b.voters,
            ),
            _ => false,
        }
    }
}

/// The configuration in force on a node: that of the latest membership entry in
/// its log, from the moment the entry is appended.
#[derive(Clone, Debug, PartialEq, Eq)]
pub struct MembershipState {
    /// The configuration in force.
    pub active: MembershipEntry,
    /// Whether a change is under way. Only one may be at a time.
    pub change_pending: bool,
}

#[verifier::ext_equal]
pub ghost struct MembershipStateView {
    pub active: MembershipView,
    pub change_pending: bool,
}

impl MembershipStateView {
    /// After `entry` was appended to the log.
    pub open spec fn applying(self, entry: MembershipView) -> MembershipStateView {
        MembershipStateView { active: entry, change_pending: true }
    }

    /// After `entry` was committed: a single configuration ends the change.
    pub open spec fn committing(self, entry: MembershipView) -> MembershipStateView {
        MembershipStateView { change_pending: entry is Joint, ..self }
    }

    /// Everyone who may vote but `id`.
    pub open spec fn peers_of(self, id: NodeID) -> Set<NodeID> {
        self.active.voters().remove(id)
    }
}

impl View for MembershipState {
    type V = MembershipStateView;

    open spec fn view(&self) -> MembershipStateView {
        MembershipStateView { active: self.active@, change_pending: self.change_pending }
    }
}

impl MembershipState {
    /// The configuration of a new cluster: `id` and its peers.
    pub fn bootstrap(id: NodeID, peers: BTreeSet<NodeID>) -> (r: MembershipState)
        ensures
            r@ == (MembershipStateView {
                active: MembershipView::Simple(peers@.insert(id)),
                change_pending: false,
            }),
    {
        let mut voters = peers;
        voters.insert(id);
        MembershipState {
            active: MembershipEntry::Simple(Membership { voters }),
            change_pending: false,
        }
    }

    pub fn all_voters(&self) -> (r: BTreeSet<NodeID>)
        ensures
            r@ == self@.active.voters(),
    {
        self.active.all_voters()
    }

    /// Everyone who may vote but `id`.
    pub fn peers_of(&self, id: NodeID) -> (r: BTreeSet<NodeID>)
        ensures
            r@ == self@.peers_of(id),
    {
        let mut all = self.all_voters();
        all.remove(&id);
        all
    }

    pub fn has_quorum(&self, matched: &BTreeSet<NodeID>) -> (r: bool)
        ensures
            r == self@.active.quorum(matched@),
    {
        self.active.has_quorum(matched)
    }

    /// Adopts a membership entry, as soon as it is in the local log.
    pub fn apply_entry(&mut self, entry: &MembershipEntry)
        ensures
            final(self)@ == old(self)@.applying(entry@),
    {
        self.active = entry.duplicate();
        self.change_pending = true;
    }

    /// Notes that a membership entry was committed. After a joint one the
    /// target configuration is still to be proposed; a single one ends the
    /// change.
    pub fn on_commit(&mut self, entry: &MembershipEntry)
        ensures
            final(self)@ == old(self)@.committing(entry@),
    {
        match entry {
            MembershipEntry::Joint { .. } => {
                self.change_pending = true;
            },
            MembershipEntry::Simple(_) => {
                self.change_pending = false;
            },
        }
    }
}

/// Any set of node identifiers is finite.
pub proof fn lemma_ids_finite(ids: Set<NodeID>)
    ensures
        ids.finite(),
{
    lemma_ascending(ids);
    ascending(ids).lemma_cardinality_of_set();
}

/// Two majorities of the same voters have a voter in common.
pub proof fn majorities_intersect(voters: Set<NodeID>, a: Set<NodeID>, b: Set<NodeID>)
    requires
        is_majority(voters, a),
        is_majority(voters, b),
    ensures
        exists|id: NodeID| voters.contains(id) && #[trigger] a.contains(id) && b.contains(id),
{
    lemma_ids_finite(voters);
    let va = voters.intersect(a);
    let vb = voters.intersect(b);
    if va.disjoint(vb) {
        vstd::set_lib::lemma_set_disjoint_lens(va, vb);
        vstd::set_lib::lemma_len_subset(va + vb, voters);
        assert(false);
    }
    let id = choose|id: NodeID| va.contains(id) && vb.contains(id);
    assert(voters.contains(id) && a.contains(id) && b.contains(id));
}

/// Two quorums under one configuration have a voter in common, so no two of
/// them can decide differently.
pub proof fn quorums_intersect(config: MembershipView, a: Set<NodeID>, b: Set<NodeID>)
    requires
        config.quorum(a),
        config.quorum(b),
    ensures
        exists|id: NodeID|
            config.voters().contains(id) && #[trigger] a.contains(id) && b.contains(id),
{
    match config {
        MembershipView::Simple(voters) => {
            majorities_intersect(voters, a, b);
        },
        MembershipView::Joint { old, new } => {
            majorities_intersect(new, a, b);
            let id = choose|id: NodeID|
                new.contains(id) && #[trigger] a.contains(id) && b.contains(id);
            assert(config.voters().contains(id));
        },
    }
}

/// A quorum under a joint configuration has a voter in common with every quorum
/// under the old configuration and with every quorum under the new one: neither
/// can decide on its own while the change is under way.
pub proof fn joint_quorum_intersects_both(
    old: Set<NodeID>,
    new: Set<NodeID>,
    a: Set<NodeID>,
    b: Set<NodeID>,
)
    requires
        (MembershipView::Joint { old, new }).quorum(a),
        MembershipView::Simple(old).quorum(b) || MembershipView::Simple(new).quorum(b),
    ensures
        exists|id: NodeID|
            old.union(new).contains(id) && #[trigger] a.contains(id) && b.contains(id),
{
    if is_majority(old, b) {
        majorities_intersect(old, a, b);
        let id = choose|id: NodeID|
            old.contains(id) && #[trigger] a.contains(id) && b.contains(id);
        assert(old.union(new).contains(id));
    } else {
        majorities_intersect(new, a, b);
        let id = choose|id: NodeID|
            new.contains(id) && #[trigger] a.contains(id) && b.contains(id);
        assert(old.union(new).contains(id));
    }
}

/// More matching nodes never lose a quorum.
pub proof fn quorum_monotone(config: MembershipView, a: Set<NodeID>, b: Set<NodeID>)
    requires
        config.quorum(a),
        a.subset_of(b),
    ensures
        config.quorum(b),
{
    match config {
        MembershipView::Simple(voters) => {
            lemma_ids_finite(voters.intersect(b));
            vstd::set_lib::lemma_len_subset(voters.intersect(a), voters.intersect(b));
        },
        MembershipView::Joint { old, new } => {
            lemma_ids_finite(old.intersect(b));
            lemma_ids_finite(new.intersect(b));
            vstd::set_lib::lemma_len_subset(old.intersect(a), old.intersect(b));
            vstd::set_lib::lemma_len_subset(new.intersect(a), new.intersect(b));
        },
    }
}

} // verus!

//! What a node accepts: a test that a message can be taken, for callers that
//! cannot know it.
//!
//! A message that breaks the protocol, or that would have the state machine apply
//! a command that it does not take, must not be handed to a node.

use std::collections::{BTreeSet, HashSet};

use vstd::prelude::*;

use super::candidate::Candidate;
use super::entry::{entry_views, Entry, EntryView, Index, Term};
use super::follower::Follower;
use super::ids::{ascending, ordered, same_ids, NodeID};
use super::leader::{
    lemma_commit_target, lemma_confirming, lemma_reading, lemma_replicating_keeps, Leader,
};
use super::log::{lemma_same_agreeing, lemma_slice, Log, LogView};
use super::log_laws::is_consistent;
use super::membership::{lemma_ids_finite, MembershipEntry, MembershipView};
use super::message::{Envelope, Message, MessageView, Request, RequestView};
use super::model::{
    admits, becoming_candidate, campaigning, can_start, can_tick, can_win, changes_of, counting,
    follower_is_quiet, follower_takes, is_prevote, is_quiet, joint_count, new_follower, new_leader,
    opened, starting, takes_entry, Core, ElectionPhase, Led, NodeView, Options, Ticks,
};
use super::node::{Node, RawNode, Role};
use super::session::encode_session;
use super::state::State;
use crate::error::{ErrorView, Result};
use crate::storage::engine::Engine;

verus! {

broadcast use vstd::std_specs::btree::group_btree_axioms;

/// The core of a node that adopted a later term.
spec fn in_term<S: State>(core: Core<S>, term: Term) -> Core<S> {
    Core { log: LogView { term, vote: None, ..core.log }, ..core }
}

/// Whether a leader could commit: the state machine takes every command up to
/// `upto`, is not ahead of `target` where a snapshot is due, and the log has room
/// after `last` for what joint configurations lead to.
spec fn can_reach<S: State>(core: Core<S>, upto: int, target: int, last: int) -> bool {
    &&& core.is_writable_to(upto)
    &&& core.applied() <= target || !is_due(core)
    &&& last + joint_count(changes_of(core.log.slice(core.applied() + 1, upto))) < u64::MAX
}

/// Whether a leader is to take a snapshot.
spec fn is_due<S: State>(core: Core<S>) -> bool {
    Led {
        core,
        role: new_leader(core.peers(), core.log.last_index()),
        failed: None,
    }.is_snapshot_due()
}

/// Whether the progress of every peer is within the log.
spec fn is_tracked<S: State>(led: Led<S>) -> bool {
    forall|peer: NodeID| #[trigger]
        led.role.progress.contains_key(peer) ==> led.role.progress[peer].match_index
            <= led.core.log.last_index()
}

/// Replicating leaves what peers are known to have as it is.
proof fn lemma_replicating_matches<S: State>(led: Led<S>, peers: Seq<NodeID>, index: Index)
    ensures
        forall|peer: NodeID| #[trigger]
            led.role.progress.contains_key(peer) ==> led.replicating(
                peers,
                index,
            ).role.progress[peer].match_index == led.role.progress[peer].match_index,
    decreases peers.len(),
{
    if peers.len() > 0 {
        lemma_replicating_matches(led, peers.drop_last(), index);
        lemma_replicating_keeps(led, peers.drop_last(), index);
    }
}

/// The last entry can be sent to every peer that waits for it.
proof fn lemma_replicating_sends<S: State>(led: Led<S>, peers: Seq<NodeID>, index: Index)
    requires
        led.failed is None,
        index >= led.core.log.first_index,
    ensures
        led.replicating(peers, index).failed is None,
    decreases peers.len(),
{
    if peers.len() > 0 {
        lemma_replicating_sends(led, peers.drop_last(), index);
        lemma_replicating_keeps(led, peers.drop_last(), index);
    }
}

/// What may be committed depends on the terms of the entries, on who decides, and on
/// what peers are known to have.
proof fn lemma_target<S: State>(a: Led<S>, b: Led<S>, index: int)
    requires
        a.core.id == b.core.id,
        a.core.term() == b.core.term(),
        a.core.membership.active == b.core.membership.active,
        a.core.log.commit_index == b.core.log.commit_index,
        a.role.progress.dom() == b.role.progress.dom(),
        forall|peer: NodeID| #[trigger]
            a.role.progress.contains_key(peer) ==> a.role.progress[peer].match_index
                == b.role.progress[peer].match_index,
        forall|i: int|
            a.core.log.commit_index < i <= index ==> (#[trigger] a.core.log.at(i)).term
                == b.core.log.at(i).term,
    ensures
        a.commit_target(index) == b.commit_target(index),
    decreases index,
{
    if index > a.core.log.commit_index {
        assert(a.core.log.at(index).term == b.core.log.at(index).term);
        assert(a.matched_at(index) =~= b.matched_at(index)) by {
            assert forall|peer: NodeID| a.matched_at(index).contains(peer) == b.matched_at(
                index,
            ).contains(peer) by {
                assert(a.role.progress.dom().contains(peer) == b.role.progress.dom().contains(
                    peer,
                ));
            }
        }
        lemma_target(a, b, index - 1);
    }
}

/// Nothing may be committed where no peer is known to have anything and the leader
/// does not decide alone.
proof fn lemma_no_target<S: State>(led: Led<S>, index: int)
    requires
        !led.core.quorum(set![led.core.id]),
        forall|peer: NodeID| #[trigger]
            led.role.progress.contains_key(peer) ==> led.role.progress[peer].match_index == 0,
    ensures
        led.commit_target(index) == led.core.log.commit_index,
    decreases index,
{
    if index > led.core.log.commit_index {
        assert(led.matched_at(index) =~= set![led.core.id]);
        lemma_no_target(led, index - 1);
    }
}

proof fn lemma_changes_appended(entries: Seq<EntryView>, entry: EntryView)
    requires
        entry.membership is None,
    ensures
        changes_of(entries.push(entry)) == changes_of(entries),
{
    assert(entries.push(entry).drop_last() =~= entries);
}

/// When a leader that appended an entry can commit.
proof fn lemma_proposed<S: State>(led: Led<S>, command: Option<Seq<u8>>)
    requires
        led.failed is None,
        is_consistent(led.core.log),
        led.core.log.last_index() + 1 < u64::MAX,
        is_tracked(led),
    ensures
        led.proposing(command).failed is None,
        led.core.quorum(set![led.core.id]) ==> led.proposing(command).can_commit() == ((
        command matches Some(command) ==> S::takes_write(command)) && can_reach(
            led.core,
            led.core.log.last_index(),
            led.core.log.last_index() + 1,
            led.core.log.last_index() + 1,
        )),
        !led.core.quorum(set![led.core.id]) ==> ({
            let target = led.commit_target(led.core.log.last_index());
            led.proposing(command).can_commit() == (target > led.core.log.commit_index
                ==> can_reach(
                led.core,
                target as int,
                target as int,
                led.core.log.last_index() + 1,
            ))
        }),
{
    let core = led.core;
    let last = core.log.last_index();
    let appended = Led {
        core: Core { log: core.log.appending(command, None), ..core },
        ..led
    };
    let log = appended.core.log;
    let entry = log.entries.last();
    let peers = ascending(appended.core.peers());
    lemma_replicating_keeps(appended, peers, log.last_index() as u64);
    lemma_replicating_matches(appended, peers, log.last_index() as u64);
    lemma_replicating_sends(appended, peers, log.last_index() as u64);
    let after = led.proposing(command);
    assert(log.entries.drop_last() =~= core.log.entries);
    assert(after.matched_at(last + 1) =~= set![core.id]) by {
        assert forall|peer: NodeID| #[trigger] after.matched_at(last + 1).contains(peer) == (peer
            == core.id) by {
            assert(after.role.progress.dom().contains(peer) == led.role.progress.dom().contains(
                peer,
            ));
            assert(led.role.progress.contains_key(peer) ==> led.role.progress[peer].match_index
                <= last);
        }
    }
    assert(log.at(last + 1) == entry);
    let low = core.applied() + 1;
    if core.quorum(set![core.id]) {
        assert(after.commit_target(last + 1) == last + 1);
        lemma_appended_writable(core, after.core);
        if low <= last + 1 {
            assert(log.slice(low, last + 1) =~= core.log.slice(low, last).push(entry));
            lemma_changes_appended(core.log.slice(low, last), entry);
        } else {
            assert(log.slice(low, last + 1) =~= core.log.slice(low, last));
        }
    } else {
        assert forall|i: int| core.log.commit_index < i <= last implies (#[trigger] after.core.log.at(
            i,
        )).term == core.log.at(i).term by {
            assert(log.entries.drop_last()[i - core.log.first_index]
                == log.entries[i - core.log.first_index]);
        }
        lemma_target(after, led, last);
        lemma_commit_target(led, last);
        let target = led.commit_target(last);
        assert(after.commit_target(last + 1) == target);
        if target > core.log.commit_index {
            assert(log.slice(low, target as int) =~= core.log.slice(low, target as int));
            lemma_writable_prefix(core, after.core, target as int);
        }
    }
}

/// A log with one more entry can be applied as far as the log can, and the entry.
proof fn lemma_appended_writable<S: State>(before: Core<S>, after: Core<S>)
    requires
        is_consistent(before.log),
        after.log.first_index == before.log.first_index,
        after.log.entries.len() == before.log.entries.len() + 1,
        after.log.entries.drop_last() == before.log.entries,
        after.log.entries.last().index == before.log.last_index() + 1,
    ensures
        after.is_writable_to(after.log.last_index()) == (before.is_writable_to(
            before.log.last_index(),
        ) && takes_entry::<S>(after.log.entries.last())),
{
    let count = before.log.entries.len();
    assert forall|k: int| 0 <= k < count implies after.log.entries[k]
        == #[trigger] before.log.entries[k] by {
        assert(after.log.entries.drop_last()[k] == after.log.entries[k]);
    }
    if after.is_writable_to(after.log.last_index()) {
        assert(takes_entry::<S>(after.log.entries[count as int]));
        assert forall|k: int|
            0 <= k < count && (#[trigger] before.log.entries[k]).index
                <= before.log.last_index() implies takes_entry::<S>(before.log.entries[k]) by {
            assert(after.log.entries[k].index <= after.log.last_index());
        }
    }
    if before.is_writable_to(before.log.last_index()) && takes_entry::<S>(
        after.log.entries.last(),
    ) {
        assert forall|k: int|
            0 <= k < after.log.entries.len() && (#[trigger] after.log.entries[k]).index
                <= after.log.last_index() implies takes_entry::<S>(after.log.entries[k]) by {
            if k < count {
                assert(before.log.entries[k].index <= before.log.last_index());
            }
        }
    }
}

/// A log with one more entry can be applied as far before it as the log can.
proof fn lemma_writable_prefix<S: State>(before: Core<S>, after: Core<S>, index: int)
    requires
        is_consistent(before.log),
        index <= before.log.last_index(),
        after.log.entries.len() == before.log.entries.len() + 1,
        after.log.entries.drop_last() == before.log.entries,
        after.log.entries.last().index == before.log.last_index() + 1,
    ensures
        after.is_writable_to(index) == before.is_writable_to(index),
{
    assert forall|k: int| 0 <= k < before.log.entries.len() implies after.log.entries[k]
        == #[trigger] before.log.entries[k] by {
        assert(after.log.entries.drop_last()[k] == after.log.entries[k]);
    }
    if after.is_writable_to(index) {
        assert forall|k: int|
            0 <= k < before.log.entries.len() && (#[trigger] before.log.entries[k]).index
                <= index implies takes_entry::<S>(before.log.entries[k]) by {
            assert(after.log.entries[k].index <= index);
        }
    }
    if before.is_writable_to(index) {
        assert forall|k: int|
            0 <= k < after.log.entries.len() && (#[trigger] after.log.entries[k]).index
                <= index implies takes_entry::<S>(after.log.entries[k]) by {
            if k < before.log.entries.len() {
                assert(before.log.entries[k].index <= index);
            }
        }
    }
}

/// When a node can win an election.
proof fn lemma_can_win<S: State>(core: Core<S>)
    requires
        is_consistent(core.log),
    ensures
        can_win(core) == (core.log.last_index() + 1 < u64::MAX && (core.quorum(set![core.id])
            ==> can_reach(
            core,
            core.log.last_index(),
            core.log.last_index() + 1,
            core.log.last_index() + 1,
        ))),
{
    let led = Led { core, role: new_leader(core.peers(), core.log.last_index()), failed: None };
    if core.log.last_index() + 1 < u64::MAX {
        lemma_proposed(led, None);
        if !core.quorum(set![core.id]) {
            lemma_no_target(led, core.log.last_index());
        }
    }
}

/// A change of the membership can always be proposed: the leader is not alone while
/// it is under way, or no quorum decides.
proof fn lemma_can_change<S: State>(led: Led<S>, voters: Set<NodeID>)
    requires
        led.failed is None,
        led.change_refused(voters) is None,
    ensures
        led.proposing_change(voters).can_await(),
{
    let before = led.core.membership.active.target();
    let joint = MembershipView::Joint { old: before, new: voters };
    let synced = Led {
        core: Core {
            log: led.core.log.appending(None, Some(joint)),
            membership: led.core.membership.applying(joint),
            ..led.core
        },
        ..led
    }.syncing();
    lemma_replicating_keeps(
        synced,
        ascending(synced.core.peers()),
        synced.core.log.last_index() as u64,
    );
    let after = led.changing(joint);
    assert(after.core.membership.active == joint);
    if after.core.is_alone() {
        lemma_ids_finite(joint.voters());
        let one = joint.voters().choose();
        assert(joint.voters().remove(one).len() == 0);
        assert(joint.voters() =~= set![one]) by {
            assert(joint.voters().remove(one) =~= Set::empty());
            assert forall|id: NodeID| joint.voters().contains(id) implies id == one by {
                assert(!joint.voters().remove(one).contains(id));
            }
        }
        assert(voters =~= set![one]) by {
            let any = choose|id: NodeID| voters.contains(id);
            if !(exists|id: NodeID| voters.contains(id)) {
                assert(voters =~= Set::<NodeID>::empty());
            }
            assert(joint.voters().contains(any));
            assert forall|id: NodeID| voters.contains(id) implies id == one by {
                assert(joint.voters().contains(id));
            }
        }
        assert(before =~= Set::<NodeID>::empty()) by {
            assert forall|id: NodeID| !before.contains(id) by {
                if before.contains(id) {
                    assert(joint.voters().contains(id));
                    assert forall|other: NodeID| before.contains(other) implies other == one by {
                        assert(joint.voters().contains(other));
                    }
                    assert(before =~= voters);
                }
            }
        }
        lemma_undecided(after, after.core.log.last_index());
    }
}

/// Nothing may be committed where no quorum can be had.
proof fn lemma_undecided<S: State>(led: Led<S>, index: int)
    requires
        led.core.membership.active matches MembershipView::Joint { old, .. } && old == Set::<
            NodeID,
        >::empty(),
    ensures
        led.commit_target(index) == led.core.log.commit_index,
    decreases index,
{
    if index > led.core.log.commit_index {
        let matched = led.matched_at(index);
        assert(Set::<NodeID>::empty().intersect(matched) =~= Set::<NodeID>::empty());
        assert(!led.core.quorum(matched));
        lemma_undecided(led, index - 1);
    }
}

/// Whether a message belongs to a poll before an election.
fn polls(message: &Message) -> (r: bool)
    ensures
        r == is_prevote(message@),
{
    match message {
        Message::PreCampaign { .. } => true,
        Message::PreCampaignResponse { .. } => true,
        _ => false,
    }
}

/// Whether the state machine takes every command of the entries.
fn takes_all<S: State>(entries: &Vec<Entry>) -> (r: bool)
    ensures
        r == forall|k: int|
            0 <= k < entries@.len() ==> takes_entry::<S>(
                #[trigger] entry_views(entries@)[k],
            ),
{
    let mut i: usize = 0;
    while i < entries.len()
        invariant
            i <= entries@.len(),
            forall|k: int| 0 <= k < i ==> takes_entry::<S>(#[trigger] entry_views(entries@)[k]),
        decreases entries@.len() - i,
    {
        assert(entry_views(entries@)[i as int] == entries@[i as int]@);
        match &entries[i].command {
            Some(command) => {
                if !S::accepts_write(command.as_slice()) {
                    return false;
                }
            },
            None => {},
        }
        i = i + 1;
    }
    true
}

/// What is committed can be applied if the state machine takes all of it.
proof fn lemma_committed_writable<S: State>(core: Core<S>, writable: bool)
    requires
        is_consistent(core.log),
        writable == forall|k: int|
            0 <= k < core.log.slice(1, core.log.commit_index as int).len() ==> takes_entry::<S>(
                #[trigger] core.log.slice(1, core.log.commit_index as int)[k],
            ),
    ensures
        core.is_writable() == writable,
{
    let slice = core.log.slice(1, core.log.commit_index as int);
    let count = core.log.commit_index - core.log.first_index + 1;
    assert(slice =~= core.log.entries.take(count));
    if writable {
        assert forall|k: int|
            0 <= k < core.log.entries.len() && (#[trigger] core.log.entries[k]).index
                <= core.log.commit_index implies takes_entry::<S>(core.log.entries[k]) by {
            assert(slice[k] == core.log.entries[k]);
        }
    }
    if core.is_writable() {
        assert forall|k: int| 0 <= k < slice.len() implies takes_entry::<S>(
            #[trigger] slice[k],
        ) by {
            assert(slice[k] == core.log.entries[k]);
            assert(core.log.entries[k].index <= core.log.commit_index);
        }
    }
}

/// How many of the changes among the entries are joint configurations.
fn count_joint(entries: &Vec<Entry>) -> (r: u64)
    ensures
        r == joint_count(changes_of(entry_views(entries@))),
{
    let ghost views = entry_views(entries@);
    let mut count: u64 = 0;
    let mut i: usize = 0;
    while i < entries.len()
        invariant
            i <= entries@.len(),
            count <= i,
            views == entry_views(entries@),
            count == joint_count(changes_of(views.take(i as int))),
        decreases entries@.len() - i,
    {
        proof {
            assert(views.take(i + 1).drop_last() =~= views.take(i as int));
            assert(views.take(i + 1).last() == entries@[i as int]@);
            let changes = changes_of(views.take(i as int));
            if let Some(change) = entries@[i as int]@.membership {
                assert(changes.push(change).drop_last() =~= changes);
            }
        }
        match &entries[i].membership {
            Some(MembershipEntry::Joint { .. }) => {
                count = count + 1;
            },
            _ => {},
        }
        i = i + 1;
    }
    assert(views.take(i as int) =~= views);
    count
}

impl<R: Role, E: Engine, S: State> RawNode<R, E, S> {
    /// Whether the state machine takes every command up to `index`.
    fn writable_to(&mut self, index: Index) -> (r: Result<bool>)
        requires
            old(self).sound(),
        ensures
            *final(self) == (RawNode { log: final(self).log, ..*old(self) }),
            final(self).log.wf(),
            final(self).log@ == old(self).log@,
            final(self).log.reported() == old(self).log.reported(),
            final(self).reliable() == old(self).reliable(),
            match r {
                Ok(writable) => writable == old(self).base().is_writable_to(index as int),
                Err(_) => !old(self).reliable(),
            },
    {
        proof {
            self.log.lemma_bounds();
        }
        let (commit, _) = self.log.get_commit_index();
        let ghost core = self.base();
        if index <= commit {
            return Ok(true);
        }
        let entries = match self.log.entries(commit + 1, index) {
            Ok(entries) => entries,
            Err(e) => return Err(e),
        };
        let writable = takes_all::<S>(&entries);
        proof {
            let slice = core.log.slice(commit + 1, index as int);
            let from = commit + 1 - core.log.first_index;
            assert(slice == entry_views(entries@));
            lemma_slice(core.log, commit + 1, index as int);
            if writable {
                assert forall|k: int|
                    0 <= k < core.log.entries.len() && (#[trigger] core.log.entries[k]).index
                        <= index implies takes_entry::<S>(core.log.entries[k]) by {
                    if k >= from {
                        assert(k - from < slice.len());
                        assert(slice[k - from] == core.log.at(commit + 1 + (k - from)));
                    } else {
                        assert(core.log.entries[k].index <= commit);
                    }
                }
            } else {
                let k = choose|k: int|
                    0 <= k < entries@.len() && !takes_entry::<S>(
                        #[trigger] entry_views(entries@)[k],
                    );
                assert(slice[k] == core.log.at(commit + 1 + k));
                assert(core.log.entries[from + k].index <= index);
            }
        }
        Ok(writable)
    }

    /// Whether a leader with this log and state could commit up to `target`, the
    /// entries of its log up to `upto` among it.
    fn reaches(&mut self, upto: Index, target: Index, last: Index) -> (r: Result<bool>)
        requires
            old(self).sound(),
            upto <= old(self).base().log.last_index(),
        ensures
            *final(self) == (RawNode { log: final(self).log, ..*old(self) }),
            final(self).log.wf(),
            final(self).log@ == old(self).log@,
            final(self).log.reported() == old(self).log.reported(),
            final(self).reliable() == old(self).reliable(),
            match r {
                Ok(reaches) => reaches == can_reach(
                    old(self).base(),
                    upto as int,
                    target as int,
                    last as int,
                ),
                Err(_) => !old(self).reliable(),
            },
    {
        let ghost core = self.base();
        let applied = self.state.get_applied_index();
        let (snapshot, _) = self.log.get_snapshot_meta();
        let threshold = self.opts.snapshot_threshold;
        if applied > target && threshold > 0 && applied > snapshot && applied - snapshot
            >= threshold {
            return Ok(false);
        }
        match self.writable_to(upto) {
            Ok(true) => {},
            Ok(false) => return Ok(false),
            Err(e) => return Err(e),
        }
        assert(self.base() == core);
        let mut joint: u64 = 0;
        if applied < upto {
            let entries = match self.log.entries(applied + 1, upto) {
                Ok(entries) => entries,
                Err(e) => return Err(e),
            };
            joint = count_joint(&entries);
        } else {
            proof {
                self.log.lemma_bounds();
                assert(core.log.slice(applied + 1, upto as int) =~= seq![]);
            }
        }
        Ok(joint < u64::MAX - last)
    }

    /// Whether the node decides alone.
    fn decides(&self) -> (r: bool)
        ensures
            r == self.base().quorum(set![self.id]),
    {
        let mut own: BTreeSet<NodeID> = BTreeSet::new();
        own.insert(self.id);
        assert(own@ =~= set![self.id]);
        self.membership.has_quorum(&own)
    }

    /// Whether the node can win an election.
    pub(crate) fn wins(&mut self) -> (r: Result<bool>)
        requires
            old(self).sound(),
        ensures
            *final(self) == (RawNode { log: final(self).log, ..*old(self) }),
            final(self).log.wf(),
            final(self).log@ == old(self).log@,
            final(self).log.reported() == old(self).log.reported(),
            final(self).reliable() == old(self).reliable(),
            match r {
                Ok(wins) => wins == can_win(old(self).base()) && wins == can_win(
                    campaigning(old(self).base(), 0).0,
                ),
                Err(_) => !old(self).reliable(),
            },
    {
        let ghost core = self.base();
        let ghost started = campaigning(core, 0).0;
        let (last, _) = self.log.get_last_index();
        proof {
            self.log.lemma_bounds();
            lemma_can_win(core);
            lemma_can_win(started);
            assert(core.log.entries == started.log.entries);
            assert(can_reach(core, last as int, last + 1, last + 1) == can_reach(
                started,
                last as int,
                last + 1,
                last + 1,
            ));
        }
        if last >= u64::MAX - 1 {
            Ok(false)
        } else if self.decides() {
            self.reaches(last, last + 1, last + 1)
        } else {
            Ok(true)
        }
    }

    /// Whether a follower of the given leader, in the given term, can take a
    /// message.
    fn follows(&mut self, term: Term, leader: Option<NodeID>, msg: &Envelope) -> (r: Result<bool>)
        requires
            old(self).sound(),
        ensures
            *final(self) == (RawNode { log: final(self).log, ..*old(self) }),
            final(self).log.wf(),
            final(self).log@ == old(self).log@,
            final(self).log.reported() == old(self).log.reported(),
            final(self).reliable() == old(self).reliable(),
            msg@.message is Read || follower_is_quiet(
                old(self).base(),
                new_follower(leader, 0),
                msg@,
            ) ==> r is Ok,
            match r {
                Ok(takes) => takes == (if term == old(self).base().term() {
                    follower_takes(old(self).base(), new_follower(leader, 0), msg@)
                } else {
                    follower_takes(in_term(old(self).base(), term), new_follower(leader, 0), msg@)
                }),
                Err(_) => !old(self).reliable(),
            },
    {
        let ghost core = if term == self.base().term() {
            self.base()
        } else {
            in_term(self.base(), term)
        };
        let ghost now = self.base();
        let ghost view = msg@.message;
        proof {
            if let MessageView::Append { entries, .. } = view {
                lemma_same_agreeing(LogView { term, ..now.log }, core.log, entries);
            }
        }
        let (foreign, known) = match leader {
            Some(leader) => (leader != msg.from, true),
            None => (false, false),
        };
        let can_follow = known || (self.membership.all_voters().contains(&msg.from) && term != 0);
        match &msg.message {
            Message::Heartbeat { last_index, commit_index, .. } => {
                if *commit_index > *last_index {
                    return Ok(false);
                }
                if foreign {
                    return Ok(true);
                }
                if !can_follow {
                    return Ok(false);
                }
                assert(core.log.has(*last_index as int, msg.term) == now.log.has(
                    *last_index as int,
                    msg.term,
                ));
                assert(core.is_writable_to(*commit_index as int) == now.is_writable_to(
                    *commit_index as int,
                ));
                match self.log.has(*last_index, msg.term) {
                    Ok(true) => {
                        assert(self.base() == now);
                        self.writable_to(*commit_index)
                    },
                    Ok(false) => Ok(true),
                    Err(e) => Err(e),
                }
            },
            Message::Append { base_index, base_term, entries } => {
                if entries.len() > 0 {
                    assert(entry_views(entries@)[0] == entries@[0]@);
                    if *base_index == u64::MAX || entries[0].index != *base_index + 1 {
                        return Ok(false);
                    }
                }
                if foreign {
                    return Ok(true);
                }
                if !can_follow {
                    return Ok(false);
                }
                let matches = if *base_index == 0 {
                    true
                } else {
                    match self.log.has(*base_index, *base_term) {
                        Ok(matches) => matches,
                        Err(e) => return Err(e),
                    }
                };
                if !matches {
                    return Ok(true);
                }
                assert((LogView { term, ..now.log }).spliceable(entry_views(entries@))
                    == core.log.spliceable(entry_views(entries@)));
                self.log.is_spliceable(term, entries)
            },
            Message::Read { .. } => Ok(foreign || can_follow),
            Message::Campaign { last_index, last_term } => {
                let (_, vote) = self.log.get_term_vote();
                let free = match vote {
                    Some(id) => term != self.term() || id == msg.from,
                    None => true,
                };
                Ok(!(free && self.is_current(*last_index, *last_term)) || term > 0)
            },
            Message::InstallSnapshot { last_included_index, .. } => {
                let (snapshot, _) = self.log.get_snapshot_meta();
                let installs = *last_included_index >= snapshot && *last_included_index
                    >= self.state.get_applied_index();
                Ok(foreign || (can_follow && (!installs || *last_included_index < u64::MAX)))
            },
            Message::HeartbeatResponse { .. } => Ok(false),
            Message::AppendResponse { .. } => Ok(false),
            Message::ReadResponse { .. } => Ok(false),
            _ => Ok(true),
        }
    }
}


impl<E: Engine, S: State> RawNode<Follower, E, S> {
    fn accepts(&mut self, msg: &Envelope) -> (r: Result<bool>)
        requires
            old(self).sound(),
        ensures
            *final(self) == (RawNode { log: final(self).log, ..*old(self) }),
            final(self).log.wf(),
            final(self).log@ == old(self).log@,
            final(self).log.reported() == old(self).log.reported(),
            final(self).reliable() == old(self).reliable(),
            is_quiet(old(self).view(), msg@) ==> r is Ok,
            match r {
                Ok(accepts) => accepts == admits(old(self).view(), msg@),
                Err(_) => !old(self).reliable(),
            },
    {
        let term = self.term();
        if msg.to != self.id {
            Ok(false)
        } else if !self.is_known_sender(msg.from) || polls(&msg.message) || msg.term < term {
            Ok(true)
        } else if msg.term > term {
            self.follows(msg.term, None, msg)
        } else {
            let leader = self.role.leader;
            self.follows(term, leader, msg)
        }
    }
}

impl<E: Engine, S: State> RawNode<Candidate, E, S> {
    /// Whether there are enough votes with that of `from`.
    fn is_enough(&self, from: NodeID) -> (r: bool)
        ensures
            r == self.base().quorum(counting(self.base(), self.role@, from)),
    {
        let mut votes = self.role.votes.clone();
        if self.membership.all_voters().contains(&from) {
            votes.insert(from);
        }
        self.membership.has_quorum(&votes)
    }

    fn accepts(&mut self, msg: &Envelope) -> (r: Result<bool>)
        requires
            old(self).sound(),
        ensures
            *final(self) == (RawNode { log: final(self).log, ..*old(self) }),
            final(self).log.wf(),
            final(self).log@ == old(self).log@,
            final(self).log.reported() == old(self).log.reported(),
            final(self).reliable() == old(self).reliable(),
            is_quiet(old(self).view(), msg@) ==> r is Ok,
            match r {
                Ok(accepts) => accepts == admits(old(self).view(), msg@),
                Err(_) => !old(self).reliable(),
            },
    {
        let term = self.term();
        if msg.to != self.id {
            return Ok(false);
        }
        if !self.is_known_sender(msg.from) {
            return Ok(true);
        }
        match &msg.message {
            Message::PreCampaign { .. } => return Ok(true),
            Message::PreCampaignResponse { vote } => {
                match self.role.phase {
                    ElectionPhase::PreVote => {
                        if !*vote || !self.is_enough(msg.from) {
                            return Ok(true);
                        }
                    },
                    ElectionPhase::Election => return Ok(true),
                }
                if term == u64::MAX {
                    return Ok(false);
                }
                return if self.decides() {
                    self.wins()
                } else {
                    Ok(true)
                };
            },
            _ => {},
        }
        if msg.term < term {
            return Ok(true);
        }
        if msg.term > term {
            return self.follows(msg.term, None, msg);
        }
        match &msg.message {
            Message::CampaignResponse { vote } => {
                match self.role.phase {
                    ElectionPhase::Election => {
                        if *vote && self.is_enough(msg.from) {
                            self.wins()
                        } else {
                            Ok(true)
                        }
                    },
                    ElectionPhase::PreVote => Ok(true),
                }
            },
            Message::Heartbeat { .. } => self.follows(term, Some(msg.from), msg),
            Message::Append { .. } => self.follows(term, Some(msg.from), msg),
            Message::Read { .. } => self.follows(term, Some(msg.from), msg),
            Message::InstallSnapshot { .. } => self.follows(term, Some(msg.from), msg),
            Message::HeartbeatResponse { .. } => Ok(false),
            Message::AppendResponse { .. } => Ok(false),
            Message::ReadResponse { .. } => Ok(false),
            Message::ClientResponse { .. } => Ok(false),
            _ => Ok(true),
        }
    }
}

/// Hearing from a peer, and confirming reads, leaves what can be committed as it is.
proof fn lemma_heard<S: State>(led: Led<S>, from: NodeID, seq: u64, index: Index)
    requires
        led.role.progress.contains_key(from),
    ensures
        led.noting(from).confirming(from, seq).can_match(from, index) == led.can_match(from, index),
        led.noting(from).can_match(from, index) == led.can_match(from, index),
{
    let noted = led.noting(from);
    let heard = noted.confirming(from, seq);
    lemma_confirming(noted, from, seq);
    if seq > noted.role.progress[from].read_seq {
        lemma_reading(
            noted.with_progress(from, noted.role.progress[from].advancing_read(seq)),
        );
    }
    let last = led.core.log.last_index();
    let a = led.with_progress(from, led.role.progress[from].advancing(index));
    let b = noted.with_progress(from, noted.role.progress[from].advancing(index));
    let c = heard.with_progress(from, heard.role.progress[from].advancing(index));
    assert(a.role.progress.dom() =~= c.role.progress.dom());
    lemma_target(a, b, last);
    lemma_target(a, c, last);
}

impl<E: Engine, S: State> RawNode<Leader, E, S> {
    /// The highest index that may be committed once a peer is known to match up to
    /// `index`, or the commit index.
    fn target_with(&mut self, peer: NodeID, index: Index) -> (r: Result<Index>)
        requires
            old(self).sound(),
            old(self).role@.progress.contains_key(peer),
            index > old(self).role@.progress[peer].match_index,
        ensures
            *final(self) == (RawNode { log: final(self).log, ..*old(self) }),
            final(self).log.wf(),
            final(self).log@ == old(self).log@,
            final(self).log.reported() == old(self).log.reported(),
            final(self).reliable() == old(self).reliable(),
            match r {
                Ok(target) => {
                    let led = old(self).led(None);
                    target == led.with_progress(
                        peer,
                        led.role.progress[peer].advancing(index),
                    ).commit_target(led.core.log.last_index())
                },
                Err(_) => !old(self).reliable(),
            },
    {
        let (last, _) = self.log.get_last_index();
        let (commit, _) = self.log.get_commit_index();
        let ghost start = self.led(None);
        let ghost led = start.with_progress(peer, start.role.progress[peer].advancing(index));
        proof {
            self.log.lemma_bounds();
        }
        let term = self.term();
        let mut at: Index = last;
        while at > commit
            invariant
                commit <= at <= last,
                last == led.core.log.last_index(),
                commit == led.core.log.commit_index,
                led.core.log.first_index <= commit + 1,
                term == led.core.term(),
                start == old(self).led(None),
                start.role.progress.contains_key(peer),
                index > start.role.progress[peer].match_index,
                led == start.with_progress(peer, start.role.progress[peer].advancing(index)),
                *self == (RawNode { log: self.log, ..*old(self) }),
                self.log.wf(),
                self.log@ == old(self).log@,
                self.log.reported() == old(self).log.reported(),
                self.reliable() == old(self).reliable(),
                led.commit_target(last as int) == led.commit_target(at as int),
            decreases at,
        {
            match self.log.get(at) {
                Ok(Some(entry)) => {
                    if entry.term == term {
                        let mut matched = self.matched_at(at);
                        if index >= at {
                            matched.insert(peer);
                        }
                        assert(self.led(None) == start);
                        assert(matched@ =~= led.matched_at(at as int));
                        if self.membership.has_quorum(&matched) {
                            return Ok(at);
                        }
                    }
                },
                Ok(None) => {},
                Err(e) => return Err(e),
            }
            at = at - 1;
        }
        Ok(commit)
    }

    /// Whether a peer that the leader keeps track of can be seen to match up to
    /// `index`.
    fn matches(&mut self, peer: NodeID, index: Index) -> (r: Result<bool>)
        requires
            old(self).sound(),
            old(self).role@.progress.contains_key(peer),
        ensures
            *final(self) == (RawNode { log: final(self).log, ..*old(self) }),
            final(self).log.wf(),
            final(self).log@ == old(self).log@,
            final(self).log.reported() == old(self).log.reported(),
            final(self).reliable() == old(self).reliable(),
            match r {
                Ok(matches) => matches == old(self).led(None).can_match(peer, index),
                Err(_) => !old(self).reliable(),
            },
    {
        let ghost led = self.led(None);
        let (last, _) = self.log.get_last_index();
        let (commit, _) = self.log.get_commit_index();
        let known = match self.role.progress.get(&peer) {
            Some(progress) => progress.match_index,
            None => 0,
        };
        if index <= known {
            return Ok(true);
        }
        if index > last {
            return Ok(false);
        }
        let target = match self.target_with(peer, index) {
            Ok(target) => target,
            Err(e) => return Err(e),
        };
        proof {
            self.log.lemma_bounds();
            lemma_commit_target(
                led.with_progress(peer, led.role.progress[peer].advancing(index)),
                last as int,
            );
            assert(self.base() == led.core);
        }
        if target <= commit {
            Ok(true)
        } else {
            self.reaches(target, target, last)
        }
    }

    /// Whether the leader can take a write.
    fn accepts_write(&mut self, command: &[u8]) -> (r: Result<bool>)
        requires
            old(self).wf(),
        ensures
            *final(self) == (RawNode { log: final(self).log, ..*old(self) }),
            final(self).log.wf(),
            final(self).log@ == old(self).log@,
            final(self).log.reported() == old(self).log.reported(),
            final(self).reliable() == old(self).reliable(),
            match r {
                Ok(accepts) => accepts == old(self).led(None).can_serve(
                    RequestView::Write(command@),
                ),
                Err(_) => !old(self).reliable(),
            },
    {
        let ghost led = self.led(None);
        let (last, _) = self.log.get_last_index();
        let (commit, _) = self.log.get_commit_index();
        if last >= u64::MAX - 1 {
            return Ok(false);
        }
        proof {
            self.log.lemma_bounds();
            lemma_proposed(led, Some(command@));
            lemma_replicating_keeps(
                Led {
                    core: Core { log: led.core.log.appending(Some(command@), None), ..led.core },
                    ..led
                },
                ascending(led.core.peers()),
                (last + 1) as u64,
            );
            assert(led.proposing(Some(command@)).core.is_alone() == led.core.is_alone());
        }
        if self.cluster_size() != 1 {
            return Ok(true);
        }
        if self.decides() {
            return if S::accepts_write(command) {
                self.reaches(last, last + 1, last + 1)
            } else {
                Ok(false)
            };
        }
        let target = match self.quorum_commit_index() {
            Ok(target) => target,
            Err(e) => return Err(e),
        };
        proof {
            lemma_commit_target(led, last as int);
            assert(self.base() == led.core);
        }
        if target <= commit {
            Ok(true)
        } else {
            self.reaches(target, target, last + 1)
        }
    }

    /// Whether the leader can take a client's request.
    fn accepts_request(&mut self, request: &Request) -> (r: Result<bool>)
        requires
            old(self).wf(),
        ensures
            *final(self) == (RawNode { log: final(self).log, ..*old(self) }),
            final(self).log.wf(),
            final(self).log@ == old(self).log@,
            final(self).log.reported() == old(self).log.reported(),
            final(self).reliable() == old(self).reliable(),
            request@ is Read ==> r is Ok,
            match r {
                Ok(accepts) => accepts == old(self).led(None).can_serve(request@),
                Err(_) => !old(self).reliable(),
            },
    {
        match request {
            Request::Write(command) => self.accepts_write(command.as_slice()),
            Request::WriteSession { client_id, seq, command } => {
                let session = encode_session(*client_id, *seq, command.clone());
                self.accepts_write(session.as_slice())
            },
            Request::Read(command) => Ok(
                self.role.read_seq < u64::MAX && S::accepts_read(command.as_slice()),
            ),
            Request::Status => Ok(true),
            Request::ChangeMembership { voters } => {
                let ghost led = self.led(None);
                proof {
                    if led.change_refused(voters@) is None {
                        lemma_can_change(led, voters@);
                    }
                }
                let (last, _) = self.log.get_last_index();
                Ok(last < u64::MAX - 1 || self.refuses(voters))
            },
        }
    }

    /// Whether the leader refuses a change of the membership.
    fn refuses(&self, voters: &HashSet<NodeID>) -> (r: bool)
        ensures
            r == (self.led(None).change_refused(voters@) is Some),
    {
        let new = ordered(voters);
        if self.membership.change_pending || new.is_empty() {
            return true;
        }
        match &self.membership.active {
            MembershipEntry::Simple(current) => same_ids(&current.voters, &new),
            MembershipEntry::Joint { .. } => true,
        }
    }

    fn accepts(&mut self, msg: &Envelope) -> (r: Result<bool>)
        requires
            old(self).wf(),
        ensures
            *final(self) == (RawNode { log: final(self).log, ..*old(self) }),
            final(self).log.wf(),
            final(self).log@ == old(self).log@,
            final(self).log.reported() == old(self).log.reported(),
            final(self).reliable() == old(self).reliable(),
            is_quiet(old(self).view(), msg@) ==> r is Ok,
            match r {
                Ok(accepts) => accepts == admits(old(self).view(), msg@),
                Err(_) => !old(self).reliable(),
            },
    {
        let term = self.term();
        let (last, _) = self.log.get_last_index();
        let ghost led = self.led(None);
        if msg.to != self.id {
            return Ok(false);
        }
        if !self.is_known_sender(msg.from) || polls(&msg.message) || msg.term < term {
            return Ok(true);
        }
        if msg.term > term {
            return self.follows(msg.term, None, msg);
        }
        let known = self.role.progress.contains_key(&msg.from);
        match &msg.message {
            Message::HeartbeatResponse { match_index, read_seq } => {
                if !known {
                    Ok(true)
                } else if *match_index > last || *read_seq > self.role.read_seq {
                    Ok(false)
                } else {
                    proof {
                        lemma_heard(led, msg.from, *read_seq, *match_index);
                    }
                    self.matches(msg.from, *match_index)
                }
            },
            Message::AppendResponse { match_index, reject_index } => {
                if (*match_index > 0) == (*reject_index > 0) {
                    Ok(false)
                } else if !known {
                    Ok(true)
                } else if *match_index > last || *reject_index > last {
                    Ok(false)
                } else {
                    proof {
                        lemma_heard(led, msg.from, 0, *match_index);
                    }
                    self.matches(msg.from, *match_index)
                }
            },
            Message::InstallSnapshotResponse { last_included_index } => {
                if !known {
                    Ok(true)
                } else {
                    proof {
                        lemma_heard(led, msg.from, 0, *last_included_index);
                    }
                    self.matches(msg.from, *last_included_index)
                }
            },
            Message::ClientRequest { request, .. } => self.accepts_request(request),
            Message::ClientResponse { .. } => Ok(false),
            _ => Ok(true),
        }
    }
}

impl<E: Engine, S: State> Node<E, S> {
    /// Starts a node with a given election timeout, if it can start: the state
    /// machine takes what the log has committed, and a node that is alone can lead.
    pub fn try_new_with(
        id: NodeID,
        peers: HashSet<NodeID>,
        log: Log<E>,
        state: S,
        opts: Options,
        timeout: Ticks,
    ) -> (r: Result<Option<Node<E, S>>>)
        requires
            log.wf(),
            state.wf(),
        ensures
            match r {
                Ok(Some(node)) => {
                    &&& can_start::<S>(id, peers@, log@, state.model(), opts)
                    &&& node.wf()
                    &&& node.reliable() == log.reliable()
                    &&& starting::<S>(id, peers@, log@, state.model(), opts, timeout) == Ok::<
                        NodeView<S>,
                        ErrorView,
                    >(node.view())
                },
                Ok(None) => !can_start::<S>(id, peers@, log@, state.model(), opts),
                Err(e) => log.reliable() ==> {
                    &&& can_start::<S>(id, peers@, log@, state.model(), opts)
                    &&& starting::<S>(id, peers@, log@, state.model(), opts, timeout) == Err::<
                        NodeView<S>,
                        ErrorView,
                    >(e@)
                },
            },
    {
        broadcast use vstd::std_specs::hash::group_hash_axioms;

        if opts.election_timeout_range.start >= opts.election_timeout_range.end {
            return Ok(None);
        }
        let mut log = log;
        let ghost view = log@;
        if !peers.contains(&id) {
            let (commit, _) = log.get_commit_index();
            let entries = match log.entries(1, commit) {
                Ok(entries) => entries,
                Err(e) => return Err(e),
            };
            let writable = takes_all::<S>(&entries);
            proof {
                log.lemma_bounds();
                lemma_committed_writable::<S>(
                    opened::<S>(id, peers@, view, state.model(), opts),
                    writable,
                );
            }
            if !writable {
                return Ok(None);
            }
        }
        let mut node = match RawNode::new(id, peers, log, state, opts, timeout) {
            Ok(node) => node,
            Err(e) => return Err(e),
        };
        let ghost ready = node.base();
        if node.cluster_size() != 1 {
            return Ok(Some(Node::Follower(node)));
        }
        if node.term() == u64::MAX {
            return Ok(None);
        }
        proof {
            assert(becoming_candidate(ready, new_follower(None, timeout), false, timeout).0
                == becoming_candidate(ready, new_follower(None, 0), false, 0).0);
        }
        node.abort_forwarded();
        match node.maybe_apply() {
            Ok(()) => {},
            Err(e) => return Err(e),
        }
        let mut node = node.into_role(Candidate::new(timeout, ElectionPhase::Election));
        match node.wins() {
            Ok(true) => {},
            Ok(false) => return Ok(None),
            Err(e) => return Err(e),
        }
        match node.campaign(timeout) {
            Ok(()) => {},
            Err(e) => return Err(e),
        }
        match node.into_leader() {
            Ok(node) => Ok(Some(Node::Leader(node))),
            Err(e) => Err(e),
        }
    }

    /// Whether the node can be handed a message.
    pub fn accepts(&mut self, msg: &Envelope) -> (r: Result<bool>)
        requires
            old(self).wf(),
        ensures
            final(self).wf(),
            final(self).view() == old(self).view(),
            final(self).reliable() == old(self).reliable(),
            final(self).reported() == old(self).reported(),
            is_quiet(old(self).view(), msg@) ==> r is Ok,
            match r {
                Ok(accepts) => {
                    accepts == admits(old(self).view(), msg@)
                },
                Err(_) => !old(self).reliable(),
            },
    {
        match self {
            Node::Candidate(raw) => raw.accepts(msg),
            Node::Follower(raw) => raw.accepts(msg),
            Node::Leader(raw) => raw.accepts(msg),
        }
    }

    /// Whether the node can be told that time passed: a term is left for a
    /// campaign.
    pub fn accepts_tick(&self) -> (r: bool)
        requires
            self.wf(),
        ensures
            r == can_tick(self.view()),
    {
        match self {
            Node::Candidate(raw) => raw.term() < u64::MAX || (raw.role.election_duration as u16 + 1
                < raw.role.election_timeout as u16),
            Node::Follower(raw) => raw.term() < u64::MAX || (raw.role.leader_seen as u16 + 1
                < raw.role.election_timeout as u16),
            Node::Leader(_) => true,
        }
    }
}

} // verus!

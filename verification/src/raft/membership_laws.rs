//! What membership changes are for: a change goes through a joint configuration to the
//! voters that were asked for, and every node goes by the last change in its log.

use vstd::prelude::*;

use super::client_laws::tracks_all;
use super::election_laws::{lemma_replicated, newest_to, Storage};
use super::entry::{EntryView, Index, Term};
use super::ids::{ascending, lemma_ascending, NodeID};
use super::leader::lemma_replicating_keeps;
use super::log::{latest_change, LogView};
use super::log_laws::{is_consistent, slices_have_what_is_between};
use super::membership::{lemma_ids_finite, MembershipStateView, MembershipView};
use super::message::{EnvelopeView, MessageView, RequestID, RequestView};
use super::model::{
    apply_all, applying_committed, becoming_candidate, new_follower, new_leader, opened, starting,
    stepping, Core, LeaderView, Led, NodeView, Options, Progress, Ticks, Write,
};
use super::replication_laws::{follows, lemma_committed, log_in_term};
use super::restart::{lemma_apply_all, replay};
use super::state::State;
use crate::error::ErrorView;

verus! {

/// A leader refuses a membership change if and only if one is under way, no voters are
/// given, two configurations are joint, or the voters are those that vote already. The
/// client is told which, and nothing else changes.
#[verifier::rlimit(40)]
pub proof fn changes_are_refused<S: State>(
    core: Core<S>,
    role: LeaderView,
    msg: EnvelopeView,
    id: RequestID,
    voters: Set<NodeID>,
    timeout: Ticks,
    storage: Storage,
)
    requires
        msg.from == core.id || core.voters().contains(msg.from),
        msg.term == core.term(),
        msg.message == (MessageView::ClientRequest {
            id,
            request: RequestView::ChangeMembership { voters },
        }),
        core.membership.change_pending || voters == Set::<NodeID>::empty()
            || core.membership.active is Joint || core.membership.active
            == MembershipView::Simple(voters),
    ensures
        ({
            let text = if core.membership.change_pending {
                "membership change already in progress"@
            } else if voters == Set::<NodeID>::empty() {
                "voters must not be empty"@
            } else if core.membership.active is Joint {
                "already in joint consensus"@
            } else {
                "membership unchanged"@
            };
            stepping(NodeView::Leader(core, role), msg, timeout, storage) == Ok::<
                NodeView<S>,
                ErrorView,
            >(
                NodeView::Leader(
                    Core {
                        out: core.out.push(
                            EnvelopeView {
                                from: core.id,
                                term: core.term(),
                                to: msg.from,
                                message: MessageView::ClientResponse {
                                    id,
                                    response: Err(ErrorView::InvalidInput(text)),
                                },
                            },
                        ),
                        ..core
                    },
                    role,
                ),
            )
        }),
{
}

/// Any other change is taken up: the leader puts the joint configuration of its voters and
/// the new ones at the end of its log, and goes by it at once, with a change under way. It
/// keeps track of everybody in it, of whom it knew as before, and of the new ones as having
/// nothing yet. The peers that have everything before the change are sent it, and the client
/// waits for it.
#[verifier::rlimit(40)]
#[verifier::spinoff_prover]
pub proof fn changes_go_through_a_joint_configuration<S: State>(
    core: Core<S>,
    role: LeaderView,
    msg: EnvelopeView,
    id: RequestID,
    current: Set<NodeID>,
    voters: Set<NodeID>,
    timeout: Ticks,
    storage: Storage,
)
    requires
        is_consistent(core.log),
        core.log.last_index() + 2 < u64::MAX,
        core.opts.max_append_entries > 0,
        tracks_all(core, role),
        role.progress.dom() == core.peers(),
        msg.from == core.id || core.voters().contains(msg.from),
        msg.term == core.term(),
        msg.message == (MessageView::ClientRequest {
            id,
            request: RequestView::ChangeMembership { voters },
        }),
        !core.membership.change_pending,
        core.membership.active == MembershipView::Simple(current),
        voters != Set::<NodeID>::empty(),
        voters != current,
        current.union(voters).len() != 1,
    ensures
        ({
            let index = (core.log.last_index() + 1) as u64;
            let joint = MembershipView::Joint { old: current, new: voters };
            let r = stepping(NodeView::Leader(core, role), msg, timeout, storage);
            &&& r matches Ok(NodeView::Leader(next, led))
            &&& next.log.entries == core.log.entries.push(
                EntryView { index, term: core.term(), command: None, membership: Some(joint) },
            )
            &&& next.log.commit_index == core.log.commit_index
            &&& next.state == core.state
            &&& next.membership == (MembershipStateView { active: joint, change_pending: true })
            &&& led.membership_writes == role.membership_writes.insert(
                index,
                Write { from: msg.from, id },
            )
            &&& led.writes == role.writes
            &&& led.reads == role.reads
            &&& led.progress.dom() == current.union(voters).remove(core.id)
            &&& led.peer_seen.dom() == current.union(voters).remove(core.id)
            &&& forall|peer: NodeID| #[trigger]
                led.progress.contains_key(peer) && role.progress.contains_key(peer) ==> {
                    &&& led.progress[peer].match_index == role.progress[peer].match_index
                    &&& role.progress[peer].next_index == index ==> next.out.contains(
                        newest_to(next, peer, index),
                    ) && led.progress[peer].next_index == index + 1
                    &&& role.progress[peer].next_index != index ==> led.progress[peer]
                        == role.progress[peer]
                }
            &&& forall|peer: NodeID| #[trigger]
                led.progress.contains_key(peer) && !role.progress.contains_key(peer)
                    ==> led.progress[peer] == (Progress {
                    match_index: 0,
                    next_index: (index + 1) as u64,
                    read_seq: 0,
                })
        }),
{
    let index = (core.log.last_index() + 1) as u64;
    let joint = MembershipView::Joint { old: current, new: voters };
    let start = Led { core, role, failed: None };
    assert(start.change_refused(voters) is None);
    let adopted = start.adopting(joint);
    let peers = ascending(adopted.core.peers());
    lemma_ascending(adopted.core.peers());
    assert(is_consistent(adopted.core.log));
    assert(adopted.role.progress.dom() =~= current.union(voters).remove(core.id));
    assert(adopted.role.peer_seen.dom() =~= current.union(voters).remove(core.id));
    assert(core.peers() =~= current.remove(core.id));
    assert forall|k: int| 0 <= k < peers.len() implies adopted.role.progress.contains_key(
        #[trigger] peers[k],
    ) && adopted.role.progress[peers[k]].match_index
        < adopted.role.progress[peers[k]].next_index by {
        assert(peers.to_set().contains(peers[k]));
        if role.progress.contains_key(peers[k]) {
            assert(core.peers().contains(peers[k]));
        }
    }
    lemma_replicated(adopted, peers, index);
    let led = adopted.replicating(peers, index);
    assert(led == start.proposing_change(voters));
    let next = led.awaiting_change(Write { from: msg.from, id }).0;
    assert(next.core == led.core);
    assert forall|peer: NodeID| #[trigger]
        next.role.progress.contains_key(peer) && role.progress.contains_key(peer) implies {
        &&& next.role.progress[peer].match_index == role.progress[peer].match_index
        &&& role.progress[peer].next_index == index ==> next.core.out.contains(
            newest_to(next.core, peer, index),
        ) && next.role.progress[peer].next_index == index + 1
        &&& role.progress[peer].next_index != index ==> next.role.progress[peer]
            == role.progress[peer]
    } by {
        assert(peers.to_set().contains(peer));
        let j = choose|j: int| 0 <= j < peers.len() && peers[j] == peer;
        assert(adopted.role.progress[peer] == role.progress[peer]);
        assert(led.role.progress[peer].match_index == role.progress[peer].match_index);
        if role.progress[peer].next_index == index {
            assert(adopted.role.progress[peers[j]].next_index == index);
            let k = choose|k: int|
                adopted.core.out.len() <= k < led.core.out.len() && #[trigger] led.core.out[k]
                    == newest_to(adopted.core, peers[j], index);
            assert(next.core.out[k] == newest_to(next.core, peer, index));
        }
    }
    assert forall|peer: NodeID| #[trigger]
        next.role.progress.contains_key(peer) && !role.progress.contains_key(
            peer,
        ) implies next.role.progress[peer] == (Progress {
        match_index: 0,
        next_index: (index + 1) as u64,
        read_seq: 0,
    }) by {
        assert(adopted.role.progress[peer].next_index == index + 1);
        assert(led.role.progress.contains_key(peer));
    }
}

/// Once a joint configuration is committed, its leader puts the new voters alone at the end
/// of its log, and goes by them.
pub proof fn joint_configurations_give_way<S: State>(
    led: Led<S>,
    old: Set<NodeID>,
    new: Set<NodeID>,
)
    requires
        led.failed is None,
        is_consistent(led.core.log),
        led.core.log.last_index() + 1 < u64::MAX,
    ensures
        ({
            let after = led.settling(MembershipView::Joint { old, new });
            &&& after.core.log.entries == led.core.log.entries.push(
                EntryView {
                    index: (led.core.log.last_index() + 1) as u64,
                    term: led.core.term(),
                    command: None,
                    membership: Some(MembershipView::Simple(new)),
                },
            )
            &&& after.core.log.commit_index == led.core.log.commit_index
            &&& after.core.membership.active == MembershipView::Simple(new)
            &&& after.core.membership.change_pending
            &&& after.core.state == led.core.state
            &&& after.failed is None ==> after.role.progress.dom() == new.remove(led.core.id)
            &&& after.role.writes == led.role.writes
            &&& after.role.membership_writes == led.role.membership_writes
        }),
{
    let adopted = led.adopting(MembershipView::Simple(new));
    lemma_replicating_keeps(
        adopted,
        ascending(adopted.core.peers()),
        adopted.core.log.last_index() as u64,
    );
    let after = led.settling(MembershipView::Joint { old, new });
    if after.failed is None {
        assert(after.role.progress.dom() =~= new.remove(led.core.id));
    }
}

/// The last change among entries is one of them, and none after it is a change. There is
/// none only if none of them is one.
pub proof fn latest_changes_are_the_last(entries: Seq<EntryView>)
    ensures
        latest_change(entries) matches Some((index, change)) ==> exists|k: int| #![trigger entries[k]]
            0 <= k < entries.len() && entries[k].membership == Some(change) && entries[k].index
                == index && forall|j: int|
                k < j < entries.len() ==> (#[trigger] entries[j]).membership is None,
        latest_change(entries) is None ==> forall|k: int|
            0 <= k < entries.len() ==> (#[trigger] entries[k]).membership is None,
    decreases entries.len(),
{
    if entries.len() > 0 {
        let front = entries.drop_last();
        latest_changes_are_the_last(front);
        if let Some(change) = entries.last().membership {
            assert(entries[entries.len() - 1].membership == Some(change));
        } else {
            assert forall|k: int| 0 <= k < front.len() implies front[k] == #[trigger] entries[k] by {
            }
            if let Some((index, change)) = latest_change(front) {
                let k = choose|k: int| #![trigger front[k]]
                    0 <= k < front.len() && front[k].membership == Some(change) && front[k].index
                        == index && forall|j: int|
                        k < j < front.len() ==> (#[trigger] front[j]).membership is None;
                assert(entries[k].membership == Some(change));
                assert forall|j: int| k < j < entries.len() implies (
                #[trigger] entries[j]).membership is None by {
                    if j < front.len() {
                        assert(front[j].membership is None);
                    }
                }
            }
        }
    }
}

/// A node that takes entries goes by the last change in its log then, if they bring one or
/// replace some of its own. The change is over if it is committed and leads to a single
/// configuration. Otherwise its configuration stays.
#[verifier::rlimit(40)]
pub proof fn followers_go_by_the_last_change<S: State>(
    node: NodeView<S>,
    msg: EnvelopeView,
    base_index: Index,
    base_term: Term,
    entries: Seq<EntryView>,
    timeout: Ticks,
    storage: Storage,
)
    requires
        is_consistent(node.base().log),
        follows(node, msg),
        msg.message == (MessageView::Append { base_index, base_term, entries }),
        base_index == 0 || log_in_term(node, msg.term).has(base_index as int, base_term),
    ensures
        ({
            let before = node.base();
            let replaces = entries.len() > 0 && entries[0].index <= before.log.last_index();
            let brings = exists|k: int|
                0 <= k < entries.len() && (#[trigger] entries[k]).membership is Some;
            &&& stepping(node, msg, timeout, storage) matches Ok(after)
            &&& brings || replaces ==> match after.base().log.latest_membership() {
                Some((index, change)) => {
                    &&& after.base().membership.active == change
                    &&& after.base().membership.change_pending == (change is Joint || index
                        > before.log.commit_index)
                },
                None => after.base().membership == before.membership,
            }
            &&& !brings && !replaces ==> after.base().membership == before.membership
        }),
{
    latest_changes_are_the_last(entries);
}

/// When a change is committed that is the last in the log, then it is over if it leads to a
/// single configuration, and goes on if that is joint. The configuration that a node goes by
/// stays. A change that is not the last in the log leaves everything as it is.
pub proof fn committed_changes_end<S: State>(
    log: LogView,
    state: S::Model,
    membership: MembershipStateView,
    entry: EntryView,
    change: MembershipView,
)
    requires
        entry.membership == Some(change),
    ensures
        ({
            let after = apply_all::<S>(log, state, membership, seq![entry]).1;
            let last = forall|k: int|
                0 <= k < log.entries.len() && (#[trigger] log.entries[k]).membership is Some
                    ==> log.entries[k].index <= entry.index;
            &&& after.active == membership.active
            &&& last ==> after.change_pending == (change is Joint)
            &&& is_consistent(log) && !last ==> after.change_pending
                == membership.change_pending
        }),
{
    reveal_with_fuel(apply_all, 2);
    assert(seq![entry].drop_last() =~= seq![]);
    latest_changes_are_the_last(log.entries);
    let last = forall|k: int|
        0 <= k < log.entries.len() && (#[trigger] log.entries[k]).membership is Some
            ==> log.entries[k].index <= entry.index;
    if is_consistent(log) && !last {
        let k = choose|k: int|
            0 <= k < log.entries.len() && (#[trigger] log.entries[k]).membership is Some
                && log.entries[k].index > entry.index;
        let (index, found) = log.latest_membership()->0;
        let j = choose|j: int| #![trigger log.entries[j]]
            0 <= j < log.entries.len() && log.entries[j].membership == Some(found)
                && log.entries[j].index == index && forall|i: int|
                j < i < log.entries.len() ==> (#[trigger] log.entries[i]).membership is None;
        assert(k <= j);
        assert(log.entries[k].index <= log.entries[j].index);
    }
}

// Starting.

/// A node starts with the configuration of the last change in its log. Without one it is
/// that of the node and its peers, and no change is under way. It cannot start as its own
/// peer.
pub proof fn nodes_start_with_their_last_change<S: State>(
    id: NodeID,
    peers: Set<NodeID>,
    log: LogView,
    state: S::Model,
    opts: Options,
    timeout: Ticks,
)
    ensures
        peers.contains(id) ==> starting::<S>(id, peers, log, state, opts, timeout) is Err,
        ({
            let core = opened::<S>(id, peers, log, state, opts);
            &&& (core.id, core.log, core.state) == (id, log, state)
            &&& core.out == Seq::<EnvelopeView>::empty()
            &&& latest_change(log.entries) matches Some((index, change)) ==> {
                &&& core.membership.active == change
                &&& core.membership.change_pending == (change is Joint || index
                    > log.commit_index)
            }
            &&& latest_change(log.entries) is None ==> {
                &&& core.membership.active == MembershipView::Simple(peers.insert(id))
                &&& !core.membership.change_pending
            }
        }),
{
}

proof fn lemma_no_changes<S: State>(
    log: LogView,
    state: S::Model,
    membership: MembershipStateView,
    entries: Seq<EntryView>,
)
    requires
        forall|k: int| 0 <= k < entries.len() ==> (#[trigger] entries[k]).membership is None,
    ensures
        apply_all::<S>(log, state, membership, entries).1 == membership,
    decreases entries.len(),
{
    if entries.len() > 0 {
        let front = entries.drop_last();
        assert forall|k: int| 0 <= k < front.len() implies (
        #[trigger] front[k]).membership is None by {
            assert(front[k] == entries[k]);
        }
        lemma_no_changes::<S>(log, state, membership, front);
        assert(entries[entries.len() - 1].membership is None);
    }
}

/// A node that starts without peers, and has no change in its log, leads at once, in the next
/// term. One with peers follows, without a leader yet, in the term that it was in. Either has
/// applied what was committed.
pub proof fn lone_nodes_lead_at_once<S: State>(
    id: NodeID,
    peers: Set<NodeID>,
    log: LogView,
    state: S::Model,
    opts: Options,
    timeout: Ticks,
)
    requires
        !peers.contains(id),
        is_consistent(log),
        forall|k: int| 0 <= k < log.entries.len() ==> (#[trigger] log.entries[k]).membership is None,
        log.term < u64::MAX,
        log.last_index() + 1 < u64::MAX,
    ensures
        ({
            let r = starting::<S>(id, peers, log, state, opts, timeout);
            let entries = log.slice(S::applied(state) + 1, log.commit_index as int);
            &&& peers == Set::<NodeID>::empty() ==> (r matches Ok(next) ==> next is Leader
                && next.base().term() == log.term + 1)
            &&& peers != Set::<NodeID>::empty() ==> {
                &&& r matches Ok(NodeView::Follower(next, role))
                &&& next.log == log
                &&& next.state == replay::<S>(state, entries)
                &&& next.out == Seq::<EnvelopeView>::empty()
                &&& next.voters() == peers.insert(id)
                &&& role.leader is None
                &&& role.election_timeout == timeout
            }
        }),
{
    let core = opened::<S>(id, peers, log, state, opts);
    latest_changes_are_the_last(log.entries);
    let entries = log.slice(core.applied() + 1, log.commit_index as int);
    slices_have_what_is_between(log, core.applied() + 1, log.commit_index as int);
    assert forall|k: int| 0 <= k < entries.len() implies (
    #[trigger] entries[k]).membership is None by {
        let index = entries[k].index;
        assert(entries[k] == log.at(index as int));
        assert(log.entries[index - log.first_index].membership is None);
    }
    lemma_no_changes::<S>(log, state, core.membership, entries);
    lemma_apply_all::<S>(log, state, core.membership, entries);
    let ready = applying_committed(core);
    assert(ready.membership == core.membership);
    let voters = peers.insert(id);
    lemma_ids_finite(peers);
    assert(voters.len() == peers.len() + 1);
    if peers == Set::<NodeID>::empty() {
        let candidate = becoming_candidate(ready, new_follower(None, timeout), false, timeout).0;
        assert(candidate.log.term == log.term + 1);
        let start = Led {
            core: candidate,
            role: new_leader(candidate.peers(), candidate.log.last_index()),
            failed: None,
        };
        let led = start.proposing(None);
        lemma_replicating_keeps(
            Led {
                core: Core { log: candidate.log.appending(None, None), ..candidate },
                ..start
            },
            ascending(candidate.peers()),
            (candidate.log.last_index() + 1) as u64,
        );
        if led.failed is None {
            lemma_committed(led);
        }
    } else if peers.len() == 0 {
        assert(peers =~= Set::<NodeID>::empty());
    }
}

} // verus!

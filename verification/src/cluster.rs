//! A cluster in one process: the transport between its nodes, with faults, and
//! its client.

use std::collections::{BTreeMap, BTreeSet, HashSet};
use std::ops::Range;

use vstd::prelude::*;

use crate::error::{Error, ErrorView, Result};
use crate::raft::entry::Index;
use crate::raft::ids::{
    ascending, ids_of, keys_of, lemma_ascending, lemma_ascending_unique, lemma_take_to_set, ordered,
    strictly_increasing, unordered, NodeID,
};
use crate::raft::kv;
use crate::raft::kv::{decode, encode, Coded, Command, CommandView};
use crate::raft::message::{
    envelope_views, Envelope, EnvelopeView, Request, RequestView, Response, Status,
};
use crate::raft::model::Options;
use crate::raft::table::{texts, Table};
use crate::shown::{show, show_stored, shown, shown_stored};
use crate::text::{decimal, decimal_text};

verus! {

broadcast use {vstd::std_specs::btree::group_btree_axioms, vstd::std_specs::hash::group_hash_axioms};

// The transport.

/// What contracts say of a transport.
#[verifier::ext_equal]
pub ghost struct TransportView {
    /// The links, from one node to another, that carry nothing.
    pub cut: Set<(NodeID, NodeID)>,
    /// Whether messages are delivered out of order.
    pub reorder: bool,
    /// The message held back for each node.
    pub held: Map<NodeID, EnvelopeView>,
    /// The nodes that can send and receive.
    pub online: Set<NodeID>,
    /// The nodes that have a mailbox.
    pub known: Set<NodeID>,
}

/// The transport between the nodes of a cluster. It can cut links, drop messages
/// and deliver them out of order.
///
/// It says which messages to put into the mailboxes of their receivers, and in
/// what order.
pub struct Transport {
    cut: BTreeSet<u16>,
    reorder: bool,
    held: BTreeMap<NodeID, Envelope>,
    online: BTreeSet<NodeID>,
    known: BTreeSet<NodeID>,
}

/// A link as a number.
spec fn link_number(from: NodeID, to: NodeID) -> u16 {
    (from * 256 + to) as u16
}

fn link(from: NodeID, to: NodeID) -> (r: u16)
    ensures
        r == link_number(from, to),
{
    from as u16 * 256 + to as u16
}

proof fn lemma_link(a: (NodeID, NodeID), b: (NodeID, NodeID))
    ensures
        link_number(a.0, a.1) == link_number(b.0, b.1) <==> a == b,
{
}

/// The views of the messages that are held back.
pub open spec fn held_views(held: Map<NodeID, Envelope>) -> Map<NodeID, EnvelopeView> {
    held.map_values(|msg: Envelope| msg@)
}

impl View for Transport {
    type V = TransportView;

    closed spec fn view(&self) -> TransportView {
        TransportView {
            cut: Set::new(
                |pair: (NodeID, NodeID)| self.cut@.contains(link_number(pair.0, pair.1)),
            ),
            reorder: self.reorder,
            held: held_views(self.held@),
            online: self.online@,
            known: self.known@,
        }
    }
}

impl TransportView {
    /// Whether a message gets through to its receiver.
    pub open spec fn passes(self, msg: EnvelopeView, dropped: bool) -> bool {
        &&& self.online.contains(msg.from)
        &&& self.online.contains(msg.to)
        &&& !self.cut.contains((msg.from, msg.to))
        &&& !dropped
    }

    /// What a message leads to: the messages to deliver, and the transport after
    /// it. Out of order, a message is held back until the next one to the same
    /// node, which overtakes it.
    pub open spec fn delivering(self, msg: EnvelopeView, dropped: bool) -> (
        Seq<EnvelopeView>,
        TransportView,
    ) {
        if !self.passes(msg, dropped) {
            (seq![], self)
        } else if !self.reorder {
            (
                if self.known.contains(msg.to) {
                    seq![msg]
                } else {
                    seq![]
                },
                self,
            )
        } else if self.held.contains_key(msg.to) {
            (
                if self.known.contains(msg.to) {
                    seq![msg, self.held[msg.to]]
                } else {
                    seq![]
                },
                TransportView { held: self.held.remove(msg.to), ..self },
            )
        } else {
            (seq![], TransportView { held: self.held.insert(msg.to, msg), ..self })
        }
    }

    /// After a node went offline. What is held back for it is lost.
    pub open spec fn without(self, id: NodeID) -> TransportView {
        TransportView { online: self.online.remove(id), held: self.held.remove(id), ..self }
    }

    /// The messages held back, to the nodes that have a mailbox.
    pub open spec fn waiting(self) -> Seq<EnvelopeView> {
        let held = self.held;
        ascending(self.held.dom().intersect(self.known)).map_values(|id: NodeID| held[id])
    }
}

impl Default for Transport {
    fn default() -> (r: Transport)
        ensures
            r@ == (TransportView {
                cut: Set::empty(),
                reorder: false,
                held: Map::empty(),
                online: Set::empty(),
                known: Set::empty(),
            }),
    {
        let r = Transport {
            cut: BTreeSet::new(),
            reorder: false,
            held: BTreeMap::new(),
            online: BTreeSet::new(),
            known: BTreeSet::new(),
        };
        assert(r@.cut =~= Set::empty());
        assert(r@.held =~= Map::empty());
        r
    }
}

impl Transport {
    /// Adds a node, which has a mailbox and is online from now on.
    pub fn register(&mut self, id: NodeID)
        ensures
            final(self)@ == (TransportView {
                online: old(self)@.online.insert(id),
                known: old(self)@.known.insert(id),
                ..old(self)@
            }),
    {
        self.known.insert(id);
        self.online.insert(id);
    }

    /// Takes a node online or offline. A node that goes offline loses what is
    /// held back for it.
    pub fn set_online(&mut self, id: NodeID, online: bool)
        ensures
            final(self)@ == if online {
                TransportView { online: old(self)@.online.insert(id), ..old(self)@ }
            } else {
                old(self)@.without(id)
            },
    {
        if online {
            self.online.insert(id);
        } else {
            self.online.remove(&id);
            self.held.remove(&id);
            assert(self@.held =~= old(self)@.held.remove(id));
        }
    }

    /// Takes a message from its sender and returns those to put into the mailbox
    /// of its receiver, in order. `dropped` says whether the message is lost.
    pub fn deliver(&mut self, msg: Envelope, dropped: bool) -> (r: Vec<Envelope>)
        ensures
            (envelope_views(r@), final(self)@) == old(self)@.delivering(
                msg@,
                dropped,
            ),
    {
        let mut out: Vec<Envelope> = Vec::new();
        let to = msg.to;
        if !self.online.contains(&msg.from) || !self.online.contains(&to) || self.cut.contains(
            &link(msg.from, to),
        ) || dropped {
            assert(envelope_views(out@) =~= seq![]);
            return out;
        }
        let known = self.known.contains(&to);
        let ghost view = msg@;
        if !self.reorder {
            if known {
                out.push(msg);
                assert(envelope_views(out@) =~= seq![view]);
            } else {
                assert(envelope_views(out@) =~= seq![]);
            }
            return out;
        }
        match self.held.remove(&to) {
            Some(before) => {
                let ghost first = before@;
                if known {
                    out.push(msg);
                    out.push(before);
                    assert(envelope_views(out@) =~= seq![view, first]);
                } else {
                    assert(envelope_views(out@) =~= seq![]);
                }
                assert(self@.held =~= old(self)@.held.remove(to));
            },
            None => {
                self.held.insert(to, msg);
                assert(self@.held =~= old(self)@.held.insert(to, view));
                assert(envelope_views(out@) =~= seq![]);
            },
        }
        out
    }

    fn cut_link(&mut self, from: NodeID, to: NodeID)
        ensures
            final(self)@ == (TransportView {
                cut: old(self)@.cut.insert((from, to)),
                ..old(self)@
            }),
    {
        self.cut.insert(link(from, to));
        proof {
            let cut = old(self)@.cut.insert((from, to));
            assert forall|pair: (NodeID, NodeID)| #[trigger] self@.cut.contains(pair) == cut.contains(
                pair,
            ) by {
                lemma_link(pair, (from, to));
            }
            assert(self@.cut =~= old(self)@.cut.insert((from, to)));
        }
    }

    fn mend_link(&mut self, from: NodeID, to: NodeID)
        ensures
            final(self)@ == (TransportView {
                cut: old(self)@.cut.remove((from, to)),
                ..old(self)@
            }),
    {
        self.cut.remove(&link(from, to));
        proof {
            let cut = old(self)@.cut.remove((from, to));
            assert forall|pair: (NodeID, NodeID)| #[trigger] self@.cut.contains(pair) == cut.contains(
                pair,
            ) by {
                lemma_link(pair, (from, to));
            }
            assert(self@.cut =~= old(self)@.cut.remove((from, to)));
        }
    }

    /// Cuts the links between two nodes, both ways.
    pub fn partition(&mut self, a: NodeID, b: NodeID)
        ensures
            final(self)@ == (TransportView {
                cut: old(self)@.cut.insert((a, b)).insert((b, a)),
                ..old(self)@
            }),
    {
        self.cut_link(a, b);
        self.cut_link(b, a);
    }

    /// Cuts the link from one node to another.
    pub fn partition_one_way(&mut self, from: NodeID, to: NodeID)
        ensures
            final(self)@ == (TransportView {
                cut: old(self)@.cut.insert((from, to)),
                ..old(self)@
            }),
    {
        self.cut_link(from, to);
    }

    /// Cuts every link between two groups of nodes, both ways.
    pub fn partition_groups(&mut self, left: &[NodeID], right: &[NodeID])
        ensures
            final(self)@ == (TransportView {
                cut: old(self)@.cut.union(between(left@, right@)),
                ..old(self)@
            }),
    {
        let ghost before = self@;
        let mut i: usize = 0;
        assert(self@.cut =~= before.cut.union(between(left@.take(0), right@)));
        while i < left.len()
            invariant
                i <= left@.len(),
                before == old(self)@,
                self@ == (TransportView {
                    cut: before.cut.union(between(left@.take(i as int), right@)),
                    ..before
                }),
            decreases left@.len() - i,
        {
            let a = left[i];
            let ghost row = self@;
            let mut j: usize = 0;
            assert(self@.cut =~= row.cut.union(between(seq![a], right@.take(0))));
            while j < right.len()
                invariant
                    j <= right@.len(),
                    self@ == (TransportView {
                        cut: row.cut.union(between(seq![a], right@.take(j as int))),
                        ..row
                    }),
                decreases right@.len() - j,
            {
                let b = right[j];
                let ghost start = self@;
                self.partition(a, b);
                proof {
                    lemma_between_push(a, right@, j as int);
                    assert(self@.cut =~= row.cut.union(between(seq![a], right@.take(j + 1))));
                }
                j = j + 1;
            }
            proof {
                assert(right@.take(j as int) =~= right@);
                lemma_between_row(left@, right@, i as int);
                assert(self@.cut =~= before.cut.union(between(left@.take(i + 1), right@)));
            }
            i = i + 1;
        }
        assert(left@.take(i as int) =~= left@);
    }

    /// Mends the links between two nodes, both ways.
    pub fn heal_pair(&mut self, a: NodeID, b: NodeID)
        ensures
            final(self)@ == (TransportView {
                cut: old(self)@.cut.remove((a, b)).remove((b, a)),
                ..old(self)@
            }),
    {
        self.mend_link(a, b);
        self.mend_link(b, a);
    }

    /// Takes out the messages held back, in ascending order of their receivers.
    fn release(&mut self) -> (r: Vec<Envelope>)
        ensures
            envelope_views(r@) == old(self)@.waiting(),
            final(self)@ == (TransportView { held: Map::empty(), ..old(self)@ }),
    {
        let ghost start = self@;
        let mut targets: BTreeSet<NodeID> = BTreeSet::new();
        let ids = keys_of(&self.held);
        let mut i: usize = 0;
        proof {
            lemma_ascending(start.held.dom());
            assert(self.held@.dom() =~= start.held.dom());
            assert(ids@.take(0).to_set() =~= Set::empty());
        }
        while i < ids.len()
            invariant
                i <= ids@.len(),
                self@ == start,
                targets@ == ids@.take(i as int).to_set().intersect(start.known),
            decreases ids@.len() - i,
        {
            proof {
                lemma_take_to_set(ids@, i as int);
            }
            if self.known.contains(&ids[i]) {
                targets.insert(ids[i]);
            }
            assert(targets@ =~= ids@.take(i + 1).to_set().intersect(start.known));
            i = i + 1;
        }
        assert(ids@.take(i as int) =~= ids@);
        let order = ids_of(&targets);
        let mut out: Vec<Envelope> = Vec::new();
        let mut j: usize = 0;
        proof {
            lemma_ascending(targets@);
            assert(envelope_views(out@) =~= start.waiting().take(0));
            assert forall|k: int| 0 <= k < order@.len() implies self.held@.contains_key(
                #[trigger] order@[k],
            ) && self.held@[order@[k]]@ == start.held[order@[k]] by {
                assert(order@.to_set().contains(order@[k]));
            }
        }
        while j < order.len()
            invariant
                j <= order@.len(),
                order@ == ascending(targets@),
                order@.no_duplicates(),
                order@.to_set() == targets@,
                targets@ == start.held.dom().intersect(start.known),
                start.waiting() == order@.map_values(|id: NodeID| start.held[id]),
                forall|k: int|
                    j <= k < order@.len() ==> self.held@.contains_key(#[trigger] order@[k])
                        && self.held@[order@[k]]@ == start.held[order@[k]],
                self@ == (TransportView { held: self@.held, ..start }),
                envelope_views(out@) == start.waiting().take(j as int),
            decreases order@.len() - j,
        {
            let ghost before = out@;
            match self.held.remove(&order[j]) {
                Some(msg) => {
                    let ghost view = msg@;
                    out.push(msg);
                    assert(envelope_views(out@)
                        =~= envelope_views(before).push(view));
                },
                None => {},
            }
            assert(start.waiting().take(j + 1) =~= start.waiting().take(j as int).push(
                start.waiting()[j as int],
            ));
            j = j + 1;
        }
        assert(start.waiting().take(j as int) =~= start.waiting());
        self.held = BTreeMap::new();
        assert(self@.held =~= Map::empty());
        out
    }

    /// Mends every link, and returns the messages held back, to be put into the
    /// mailboxes of their receivers.
    pub fn heal_all(&mut self) -> (r: Vec<Envelope>)
        ensures
            envelope_views(r@) == old(self)@.waiting(),
            final(self)@ == (TransportView {
                cut: Set::empty(),
                held: Map::empty(),
                ..old(self)@
            }),
    {
        self.cut = BTreeSet::new();
        assert(self@.cut =~= Set::empty());
        self.release()
    }

    /// Turns delivery out of order on or off. Turned off, it returns the messages
    /// held back, to be put into the mailboxes of their receivers.
    pub fn set_reorder(&mut self, on: bool) -> (r: Vec<Envelope>)
        ensures
            if on {
                r@.len() == 0 && final(self)@ == (TransportView { reorder: true, ..old(self)@ })
            } else {
                envelope_views(r@) == old(self)@.waiting() && final(self)@
                    == (TransportView { reorder: false, held: Map::empty(), ..old(self)@ })
            },
    {
        self.reorder = on;
        if on {
            Vec::new()
        } else {
            self.release()
        }
    }
}

/// The links between two groups of nodes, both ways.
pub open spec fn between(left: Seq<NodeID>, right: Seq<NodeID>) -> Set<(NodeID, NodeID)> {
    Set::new(
        |pair: (NodeID, NodeID)|
            (left.contains(pair.0) && right.contains(pair.1)) || (left.contains(pair.1)
                && right.contains(pair.0)),
    )
}

proof fn lemma_contains_more(s: Seq<NodeID>, i: int, x: NodeID)
    requires
        0 <= i < s.len(),
    ensures
        s.take(i + 1).contains(x) == (s.take(i).contains(x) || x == s[i]),
{
    let more = s.take(i + 1);
    let less = s.take(i);
    if more.contains(x) {
        let k = choose|k: int| 0 <= k < more.len() && more[k] == x;
        if k < i {
            assert(less[k] == x);
        }
    }
    if less.contains(x) {
        let k = choose|k: int| 0 <= k < less.len() && less[k] == x;
        assert(more[k] == x);
    }
    assert(more[i] == s[i]);
}

proof fn lemma_between_push(a: NodeID, right: Seq<NodeID>, j: int)
    requires
        0 <= j < right.len(),
    ensures
        between(seq![a], right.take(j + 1)) == between(seq![a], right.take(j)).insert(
            (a, right[j]),
        ).insert((right[j], a)),
{
    assert forall|pair: (NodeID, NodeID)| #[trigger] between(seq![a], right.take(j + 1)).contains(
        pair,
    ) == between(seq![a], right.take(j)).insert((a, right[j])).insert((right[j], a)).contains(
        pair,
    ) by {
        lemma_contains_more(right, j, pair.0);
        lemma_contains_more(right, j, pair.1);
        lemma_only(a, pair.0);
        lemma_only(a, pair.1);
    }
    assert(between(seq![a], right.take(j + 1)) =~= between(seq![a], right.take(j)).insert(
        (a, right[j]),
    ).insert((right[j], a)));
}

proof fn lemma_only(a: NodeID, x: NodeID)
    ensures
        seq![a].contains(x) == (x == a),
{
    assert(seq![a][0] == a);
}

proof fn lemma_between_row(left: Seq<NodeID>, right: Seq<NodeID>, i: int)
    requires
        0 <= i < left.len(),
    ensures
        between(left.take(i + 1), right) == between(left.take(i), right).union(
            between(seq![left[i]], right),
        ),
{
    assert forall|pair: (NodeID, NodeID)| #[trigger] between(left.take(i + 1), right).contains(
        pair,
    ) == between(left.take(i), right).union(between(seq![left[i]], right)).contains(pair) by {
        lemma_contains_more(left, i, pair.0);
        lemma_contains_more(left, i, pair.1);
        lemma_only(left[i], pair.0);
        lemma_only(left[i], pair.1);
    }
    assert(between(left.take(i + 1), right) =~= between(left.take(i), right).union(
        between(seq![left[i]], right),
    ));
}

/// Nothing gets through a cut link, whatever else is set.
pub proof fn cut_links_carry_nothing(transport: TransportView, msg: EnvelopeView, dropped: bool)
    requires
        transport.cut.contains((msg.from, msg.to)),
    ensures
        transport.delivering(msg, dropped) == (Seq::<EnvelopeView>::empty(), transport),
{
}

/// Delivery out of order loses nothing: of two messages to the same node, the
/// second comes first and then the first.
pub proof fn reordering_swaps(transport: TransportView, a: EnvelopeView, b: EnvelopeView)
    requires
        transport.reorder,
        a.to == b.to,
        transport.passes(a, false),
        transport.passes(b, false),
        transport.known.contains(a.to),
        !transport.held.contains_key(a.to),
    ensures
        ({
            let (first, held) = transport.delivering(a, false);
            let (second, after) = held.delivering(b, false);
            &&& first == Seq::<EnvelopeView>::empty()
            &&& second == seq![b, a]
            &&& after == transport
        }),
{
    let held = transport.delivering(a, false).1;
    assert(held.held.remove(a.to) =~= transport.held);
}

/// What is neither cut off nor lost arrives, once and as it was sent: a message between two
/// nodes that are online, over a link that is not cut, in the order in which it was sent.
/// Nothing that is lost, and nothing from or to a node that is offline, arrives.
pub proof fn open_links_carry_messages(
    transport: TransportView,
    msg: EnvelopeView,
    dropped: bool,
)
    requires
        !transport.reorder,
        transport.known.contains(msg.to),
        !transport.cut.contains((msg.from, msg.to)),
    ensures
        transport.delivering(msg, dropped).1 == transport,
        transport.delivering(msg, dropped).0 == if !dropped && transport.online.contains(msg.from)
            && transport.online.contains(msg.to) {
            seq![msg]
        } else {
            seq![]
        },
{
}

/// Out of order, nothing is lost and nothing made up: of what was held back and the message
/// that comes, each is either delivered to its receiver or held back afterwards, and what is
/// held back for other nodes stays.
pub proof fn nothing_is_lost_out_of_order(
    transport: TransportView,
    msg: EnvelopeView,
    other: NodeID,
)
    requires
        transport.reorder,
        transport.known.contains(msg.to),
        transport.passes(msg, false),
    ensures
        ({
            let (delivered, after) = transport.delivering(msg, false);
            let held = transport.held.contains_key(msg.to);
            &&& delivered.contains(msg) != (after.held.contains_key(msg.to)
                && after.held[msg.to] == msg && !held)
            &&& held ==> delivered.contains(transport.held[msg.to]) && delivered.contains(msg)
                && delivered.len() == 2
            &&& !held ==> delivered.len() == 0
            &&& other != msg.to ==> after.held.contains_key(other)
                == transport.held.contains_key(other) && after.held[other]
                == transport.held[other]
            &&& (after.cut, after.online, after.known, after.reorder) == (
                transport.cut,
                transport.online,
                transport.known,
                transport.reorder,
            )
        }),
{
    let (delivered, after) = transport.delivering(msg, false);
    if transport.held.contains_key(msg.to) {
        assert(delivered[0] == msg);
        assert(delivered[1] == transport.held[msg.to]);
    }
}

/// A partition into two groups cuts every link from one to the other, both ways, and none
/// within a group of which no node is in the other.
pub proof fn partitions_keep_groups_together(
    left: Seq<NodeID>,
    right: Seq<NodeID>,
    a: NodeID,
    b: NodeID,
)
    ensures
        left.contains(a) && right.contains(b) ==> between(left, right).contains((a, b))
            && between(left, right).contains((b, a)),
        left.contains(a) && left.contains(b) && !right.contains(a) && !right.contains(b)
            ==> !between(left, right).contains((a, b)),
        right.contains(a) && right.contains(b) && !left.contains(a) && !left.contains(b)
            ==> !between(left, right).contains((a, b)),
{
}

// The client.

/// The nodes that clients can ask. A cluster has one registry, and all its clients
/// share it: what starts or stops, each of them sees at its next request.
pub struct Registry {
    pub nodes: BTreeSet<NodeID>,
}

/// A client of a cluster: it asks the nodes of the cluster's registry, and knows
/// which it asks first.
#[derive(Clone, Copy)]
pub struct Client {
    /// The node that answered last.
    pub preferred: NodeID,
}

/// The order in which a client asks the nodes: ascending, but the preferred one
/// first.
pub open spec fn asking_order(nodes: Set<NodeID>, preferred: NodeID) -> Seq<NodeID> {
    if nodes.contains(preferred) {
        seq![preferred] + ascending(nodes.remove(preferred))
    } else {
        ascending(nodes)
    }
}

/// The error of a node that is not in the registry.
pub open spec fn unregistered(id: NodeID) -> Seq<char> {
    "node "@ + decimal(id as nat) + " not registered"@
}

/// The error of a node that no longer takes requests.
pub open spec fn closed_off(id: NodeID) -> Seq<char> {
    "node "@ + decimal(id as nat) + " request channel closed"@
}

impl Client {
    /// The number of rounds in which a request is tried.
    pub const ATTEMPTS: u32 = 40;

    pub fn new(preferred: NodeID) -> (r: Client)
        ensures
            r.preferred == preferred,
    {
        Client { preferred }
    }

    /// Adds a node, for every client of the registry.
    pub fn register_node(&self, registry: &mut Registry, id: NodeID)
        ensures
            final(registry).nodes@ == old(registry).nodes@.insert(id),
    {
        registry.nodes.insert(id);
    }

    /// Removes a node, for every client of the registry.
    pub fn unregister_node(&self, registry: &mut Registry, id: NodeID)
        ensures
            final(registry).nodes@ == old(registry).nodes@.remove(id),
    {
        registry.nodes.remove(&id);
    }

    /// Asks this node first from now on.
    pub fn preferred_hint(&mut self, id: NodeID)
        ensures
            final(self).preferred == id,
    {
        self.preferred = id;
    }

    /// The nodes in the order in which a request is tried on them.
    pub fn request_order(&self, registry: &Registry) -> (r: Vec<NodeID>)
        ensures
            r@ == asking_order(registry.nodes@, self.preferred),
    {
        let sorted = ids_of(&registry.nodes);
        if !registry.nodes.contains(&self.preferred) {
            return sorted;
        }
        let mut out: Vec<NodeID> = vec![self.preferred];
        let mut i: usize = 0;
        let ghost rest = registry.nodes@.remove(self.preferred);
        proof {
            lemma_ascending(registry.nodes@);
            assert(out@ =~= seq![self.preferred]);
            assert(without(sorted@.take(0), self.preferred) =~= seq![]);
        }
        while i < sorted.len()
            invariant
                i <= sorted@.len(),
                out@ == seq![self.preferred] + without(sorted@.take(i as int), self.preferred),
            decreases sorted@.len() - i,
        {
            assert(sorted@.take(i + 1).drop_last() =~= sorted@.take(i as int));
            if sorted[i] != self.preferred {
                out.push(sorted[i]);
            }
            assert(out@ =~= seq![self.preferred] + without(
                sorted@.take(i + 1),
                self.preferred,
            ));
            i = i + 1;
        }
        proof {
            assert(sorted@.take(i as int) =~= sorted@);
            lemma_without(sorted@, self.preferred);
            let left = without(sorted@, self.preferred);
            assert forall|x: NodeID| #[trigger] rest.contains(x) implies left.contains(x) by {
                assert(sorted@.to_set().contains(x));
                assert(sorted@.contains(x));
            }
            assert forall|k: int| 0 <= k < left.len() implies rest.contains(#[trigger] left[k]) by {
                assert(left.contains(left[k]));
                assert(sorted@.contains(left[k]));
                assert(sorted@.to_set().contains(left[k]));
            }
            lemma_ascending_unique(left, rest, 0);
        }
        out
    }

    /// Refuses a node that is not in the registry.
    pub fn check_registered(&self, registry: &Registry, id: NodeID) -> (r: Result<()>)
        ensures
            match r {
                Ok(()) => registry.nodes@.contains(id),
                Err(e) => !registry.nodes@.contains(id) && (e matches Error::IO(text) && text@
                    == unregistered(id)),
            },
    {
        if registry.nodes.contains(&id) {
            Ok(())
        } else {
            let mut text = "node ".to_string();
            text.append(decimal_text(id as u64).as_str());
            text.append(" not registered");
            Err(Error::IO(text))
        }
    }
}

/// The error of a node that no longer takes requests.
pub fn closed_error(id: NodeID) -> (r: Error)
    ensures
        r matches Error::IO(text) && text@ == closed_off(id),
{
    let mut text = "node ".to_string();
    text.append(decimal_text(id as u64).as_str());
    text.append(" request channel closed");
    Error::IO(text)
}

/// A sequence without one identifier.
pub open spec fn without(ids: Seq<NodeID>, id: NodeID) -> Seq<NodeID>
    decreases ids.len(),
{
    if ids.len() == 0 {
        seq![]
    } else if ids.last() == id {
        without(ids.drop_last(), id)
    } else {
        without(ids.drop_last(), id).push(ids.last())
    }
}

proof fn lemma_without(ids: Seq<NodeID>, id: NodeID)
    requires
        strictly_increasing(ids),
    ensures
        strictly_increasing(without(ids, id)),
        forall|x: NodeID| #[trigger]
            without(ids, id).contains(x) == (ids.contains(x) && x != id),
    decreases ids.len(),
{
    let left = without(ids, id);
    if ids.len() > 0 {
        let front = ids.drop_last();
        lemma_without(front, id);
        let before = without(front, id);
        assert forall|x: NodeID| #[trigger] left.contains(x) == (ids.contains(x) && x != id) by {
            if ids.contains(x) {
                let k = choose|k: int| 0 <= k < ids.len() && ids[k] == x;
                if k < front.len() {
                    assert(front[k] == x);
                }
            }
            if front.contains(x) {
                let k = choose|k: int| 0 <= k < front.len() && front[k] == x;
                assert(ids[k] == x);
            }
            assert(ids.contains(x) == (front.contains(x) || x == ids.last())) by {
                assert(ids[ids.len() - 1] == ids.last());
            }
            if ids.last() != id {
                if left.contains(x) {
                    let k = choose|k: int| 0 <= k < left.len() && left[k] == x;
                    if k < before.len() {
                        assert(before[k] == x);
                    }
                }
                if before.contains(x) {
                    let k = choose|k: int| 0 <= k < before.len() && before[k] == x;
                    assert(left[k] == x);
                }
                assert(left[left.len() - 1] == ids.last());
            }
        }
        if ids.last() != id {
            assert forall|i: int, j: int| 0 <= i < j < left.len() implies left[i] < left[j] by {
                if j == before.len() {
                    assert(before.contains(before[i]));
                    assert(front.contains(before[i]));
                    let k = choose|k: int| 0 <= k < front.len() && front[k] == before[i];
                    assert(ids[k] < ids[ids.len() - 1]);
                }
            }
        }
    }
}

/// Every node of the registry is asked once in a round, the preferred one first.
pub proof fn every_node_is_asked(nodes: Set<NodeID>, preferred: NodeID)
    ensures
        asking_order(nodes, preferred).no_duplicates(),
        asking_order(nodes, preferred).to_set() == nodes,
        nodes.contains(preferred) ==> asking_order(nodes, preferred)[0] == preferred,
{
    let order = asking_order(nodes, preferred);
    let rest = nodes.remove(preferred);
    lemma_ascending(nodes);
    lemma_ascending(rest);
    if nodes.contains(preferred) {
        let tail = ascending(rest);
        assert forall|i: int, j: int| 0 <= i < order.len() && 0 <= j < order.len() && i
            != j implies order[i] != order[j] by {
            if i > 0 {
                assert(tail.to_set().contains(tail[i - 1]));
            }
            if j > 0 {
                assert(tail.to_set().contains(tail[j - 1]));
            }
        }
        assert forall|x: NodeID| #[trigger] order.to_set().contains(x) == nodes.contains(x) by {
            if order.contains(x) {
                let k = choose|k: int| 0 <= k < order.len() && order[k] == x;
                if k > 0 {
                    assert(tail.to_set().contains(tail[k - 1]));
                }
            }
            if nodes.contains(x) {
                if x == preferred {
                    assert(order[0] == x);
                } else {
                    assert(tail.to_set().contains(x));
                    let k = choose|k: int| 0 <= k < tail.len() && tail[k] == x;
                    assert(order[k + 1] == x);
                }
            }
        }
        assert(order.to_set() =~= nodes);
    }
}

/// Every client asks a node once it has started and no longer asks it once it has
/// stopped, whenever the client was handed out and whichever node it prefers.
pub proof fn clients_see_starts_and_stops(nodes: Set<NodeID>, id: NodeID, preferred: NodeID)
    ensures
        asking_order(nodes.insert(id), preferred).contains(id),
        !asking_order(nodes.remove(id), preferred).contains(id),
{
    every_node_is_asked(nodes.insert(id), preferred);
    every_node_is_asked(nodes.remove(id), preferred);
    let more = asking_order(nodes.insert(id), preferred);
    let less = asking_order(nodes.remove(id), preferred);
    assert(more.to_set().contains(id));
    assert(less.to_set().contains(id) == less.contains(id));
}

// Requests of the key-value store and their answers.

/// The request that sets a key.
pub fn put_request(key: String, value: String) -> (r: Request)
    ensures
        r@ == RequestView::Write(
            kv::command_bytes(CommandView::Put { key: key@, value: value@ }),
        ),
{
    Request::Write(encode(&Command::Put { key, value }))
}

/// The request that reads a key.
pub fn get_request(key: String) -> (r: Request)
    ensures
        r@ == RequestView::Read(kv::command_bytes(CommandView::Get { key: key@ })),
{
    Request::Read(encode(&Command::Get { key }))
}

/// The request that reads everything.
pub fn scan_request() -> (r: Request)
    ensures
        r@ == RequestView::Read(kv::command_bytes(CommandView::Scan)),
{
    Request::Read(encode(&Command::Scan))
}

/// An error with this text.
pub open spec fn is_mismatch(e: Error, start: Seq<char>, shown: Seq<char>) -> bool {
    e matches Error::InvalidData(text) && text@ == start + shown
}

/// An answer that does not fit its request.
fn mismatch(start: &str, shown: String) -> (r: Error)
    ensures
        is_mismatch(r, start@, shown@),
{
    let mut text = start.to_string();
    text.append(shown.as_str());
    Error::InvalidData(text)
}

/// The index of a write, from the answer to it. Another answer is named in the
/// error; what cannot be decoded is the decoder's error.
pub fn put_answer(response: Response) -> (r: Result<Index>)
    ensures
        match response {
            Response::Write(bytes) => match (kv::read_response(bytes@), r) {
                (Some(kv::ResponseView::Put(index)), r) => r == Ok::<Index, Error>(index),
                (Some(other), Err(e)) => is_mismatch(
                    e,
                    "unexpected write response: "@,
                    shown_stored(other),
                ),
                (None, Err(e)) => e@ == ErrorView::InvalidData,
                (_, Ok(_)) => false,
            },
            _ => r matches Err(e) && is_mismatch(e, "expected Write, got "@, shown(response@)),
        },
{
    match response {
        Response::Write(bytes) => match decode::<kv::Response>(bytes.as_slice()) {
            Ok(kv::Response::Put(index)) => Ok(index),
            Ok(other) => Err(mismatch("unexpected write response: ", show_stored(&other))),
            Err(e) => Err(e),
        },
        _ => Err(mismatch("expected Write, got ", show(&response))),
    }
}

/// The value of a key, from the answer to a read. Another answer is named in the
/// error; what cannot be decoded is the decoder's error.
pub fn get_answer(response: Response) -> (r: Result<Option<String>>)
    ensures
        match response {
            Response::Read(bytes) => match (kv::read_response(bytes@), r) {
                (Some(kv::ResponseView::Get(value)), r) => r matches Ok(found) && value
                    == kv::optional_text(found),
                (Some(other), Err(e)) => is_mismatch(
                    e,
                    "unexpected read response: "@,
                    shown_stored(other),
                ),
                (None, Err(e)) => e@ == ErrorView::InvalidData,
                (_, Ok(_)) => false,
            },
            _ => r matches Err(e) && is_mismatch(e, "expected Read, got "@, shown(response@)),
        },
{
    match response {
        Response::Read(bytes) => match decode::<kv::Response>(bytes.as_slice()) {
            Ok(kv::Response::Get(value)) => Ok(value),
            Ok(other) => Err(mismatch("unexpected read response: ", show_stored(&other))),
            Err(e) => Err(e),
        },
        _ => Err(mismatch("expected Read, got ", show(&response))),
    }
}

/// Every key with its value, from the answer to a scan. Another answer is named in
/// the error; what cannot be decoded is the decoder's error.
pub fn scan_answer(response: Response) -> (r: Result<Table>)
    ensures
        match response {
            Response::Read(bytes) => match (kv::read_response(bytes@), r) {
                (Some(kv::ResponseView::Scan(data)), r) => r matches Ok(table) && table.wf()
                    && texts(table) == data,
                (Some(other), Err(e)) => is_mismatch(
                    e,
                    "unexpected scan response: "@,
                    shown_stored(other),
                ),
                (None, Err(e)) => e@ == ErrorView::InvalidData,
                (_, Ok(_)) => false,
            },
            _ => r matches Err(e) && is_mismatch(e, "expected Read, got "@, shown(response@)),
        },
{
    match response {
        Response::Read(bytes) => match decode::<kv::Response>(bytes.as_slice()) {
            Ok(kv::Response::Scan(table)) => Ok(table),
            Ok(other) => Err(mismatch("unexpected scan response: ", show_stored(&other))),
            Err(e) => Err(e),
        },
        _ => Err(mismatch("expected Read, got ", show(&response))),
    }
}

/// The state of the cluster, from the answer to a status request. Another answer is
/// named in the error.
pub fn status_answer(response: Response) -> (r: Result<Status>)
    ensures
        match response {
            Response::Status(status) => r == Ok::<Status, Error>(status),
            _ => r matches Err(e) && is_mismatch(e, "expected Status, got "@, shown(response@)),
        },
{
    match response {
        Response::Status(status) => Ok(status),
        _ => Err(mismatch("expected Status, got ", show(&response))),
    }
}

/// The index of a membership change, from the answer to it. Another answer is named
/// in the error.
pub fn change_answer(response: Response) -> (r: Result<Index>)
    ensures
        match response {
            Response::ChangeMembership { index } => r == Ok::<Index, Error>(index),
            _ => r matches Err(e) && is_mismatch(
                e,
                "expected ChangeMembership, got "@,
                shown(response@),
            ),
        },
{
    match response {
        Response::ChangeMembership { index } => Ok(index),
        _ => Err(mismatch("expected ChangeMembership, got ", show(&response))),
    }
}

// The cluster.

/// The peers of a member.
pub fn peers_of(members: &HashSet<NodeID>, id: NodeID) -> (r: HashSet<NodeID>)
    ensures
        r@ == members@.remove(id),
{
    let mut peers = ordered(members);
    peers.remove(&id);
    unordered(&peers)
}

/// The node that a new client asks first: the first one, or 1 if there is none.
pub open spec fn asked_first(ids: Seq<NodeID>) -> NodeID {
    if ids.len() > 0 {
        ids[0]
    } else {
        1
    }
}

/// The node that a new client asks first.
pub fn first_preferred(ids: &[NodeID]) -> (r: NodeID)
    ensures
        r == asked_first(ids@),
{
    if ids.len() > 0 {
        ids[0]
    } else {
        1
    }
}

/// The nodes of a cluster that runs in one process: which run, who its members
/// are, the transport that they share, and the registry that its clients share.
pub struct Cluster {
    pub opts: Options,
    pub transport: Transport,
    /// The nodes that run.
    pub running: BTreeSet<NodeID>,
    pub members: HashSet<NodeID>,
    pub registry: Registry,
    pub client: Client,
}

/// A transport with these nodes, and no faults.
pub open spec fn connected(nodes: Set<NodeID>) -> TransportView {
    TransportView {
        cut: Set::empty(),
        reorder: false,
        held: Map::empty(),
        online: nodes,
        known: nodes,
    }
}

impl Cluster {
    /// A cluster of these nodes, with short timeouts.
    pub fn spawn(node_ids: &[NodeID]) -> (r: Cluster)
        ensures
            r.opts == short_options(),
            r.transport@ == connected(node_ids@.to_set()),
            r.running@ == node_ids@.to_set(),
            r.members@ == node_ids@.to_set(),
            r.registry.nodes@ == node_ids@.to_set(),
            r.client.preferred == asked_first(node_ids@),
    {
        Cluster::spawn_with_options(node_ids, test_options())
    }

    /// A cluster of these nodes, all of them running.
    pub fn spawn_with_options(node_ids: &[NodeID], opts: Options) -> (r: Cluster)
        ensures
            r.opts == opts,
            r.transport@ == connected(node_ids@.to_set()),
            r.running@ == node_ids@.to_set(),
            r.members@ == node_ids@.to_set(),
            r.registry.nodes@ == node_ids@.to_set(),
            r.client.preferred == asked_first(node_ids@),
    {
        let mut transport = Transport::default();
        let mut running: BTreeSet<NodeID> = BTreeSet::new();
        let mut i: usize = 0;
        proof {
            assert(node_ids@.take(0).to_set() =~= Set::empty());
        }
        while i < node_ids.len()
            invariant
                i <= node_ids@.len(),
                running@ == node_ids@.take(i as int).to_set(),
                transport@ == connected(running@),
            decreases node_ids@.len() - i,
        {
            proof {
                lemma_take_to_set(node_ids@, i as int);
            }
            transport.register(node_ids[i]);
            running.insert(node_ids[i]);
            i = i + 1;
        }
        assert(node_ids@.take(i as int) =~= node_ids@);
        let members = unordered(&running);
        let registry = Registry { nodes: running.clone() };
        let client = Client::new(first_preferred(node_ids));
        Cluster { opts, transport, running, members, registry, client }
    }

    /// A client of the cluster. It asks the nodes of the cluster's registry, so it
    /// sees what starts and stops later.
    pub fn client(&self) -> (r: Client)
        ensures
            r == self.client,
    {
        Client::new(self.client.preferred)
    }

    /// The transport of the cluster. What is done with it is done to the cluster's.
    pub fn transport(&mut self) -> (r: &mut Transport)
        ensures
            *r == old(self).transport,
            *final(self) == (Cluster { transport: *final(r), ..*old(self) }),
    {
        &mut self.transport
    }

    pub fn members(&self) -> (r: HashSet<NodeID>)
        ensures
            r@ == self.members@,
    {
        unordered(&ordered(&self.members))
    }

    pub fn options(&self) -> (r: &Options)
        ensures
            *r == self.opts,
    {
        &self.opts
    }

    /// Whether a node runs.
    pub fn is_running(&self, id: NodeID) -> (r: bool)
        ensures
            r == self.running@.contains(id),
    {
        self.running.contains(&id)
    }

    /// Stops a node, and says whether it ran. It stays a member.
    pub fn stop(&mut self, id: NodeID) -> (r: bool)
        ensures
            r == old(self).running@.contains(id),
            final(self).opts == old(self).opts,
            final(self).members@ == old(self).members@,
            final(self).running@ == old(self).running@.remove(id),
            final(self).client == old(self).client,
            if r {
                &&& final(self).registry.nodes@ == old(self).registry.nodes@.remove(id)
                &&& final(self).transport@ == old(self).transport@.without(id)
            } else {
                &&& final(self).registry.nodes@ == old(self).registry.nodes@
                &&& final(self).transport@ == old(self).transport@
            },
    {
        if !self.running.contains(&id) {
            assert(self.running@.remove(id) =~= self.running@);
            return false;
        }
        self.running.remove(&id);
        self.client.unregister_node(&mut self.registry, id);
        self.transport.set_online(id, false);
        true
    }

    /// Starts a node that does not run, as a member, and returns the peers that
    /// it is to know.
    pub fn start(&mut self, id: NodeID) -> (r: Option<HashSet<NodeID>>)
        ensures
            final(self).opts == old(self).opts,
            final(self).client == old(self).client,
            final(self).running@ == old(self).running@.insert(id),
            match r {
                Some(peers) => {
                    &&& !old(self).running@.contains(id)
                    &&& peers@ == old(self).members@.remove(id)
                    &&& final(self).members@ == old(self).members@.insert(id)
                    &&& final(self).registry.nodes@ == old(self).registry.nodes@.insert(id)
                    &&& final(self).transport@ == (TransportView {
                        online: old(self).transport@.online.insert(id),
                        known: old(self).transport@.known.insert(id),
                        ..old(self).transport@
                    })
                },
                None => {
                    &&& old(self).running@.contains(id)
                    &&& final(self).members@ == old(self).members@
                    &&& final(self).registry.nodes@ == old(self).registry.nodes@
                    &&& final(self).transport@ == old(self).transport@
                },
            },
    {
        if self.running.contains(&id) {
            assert(self.running@.insert(id) =~= self.running@);
            return None;
        }
        self.members.insert(id);
        let peers = peers_of(&self.members, id);
        assert(peers@ =~= old(self).members@.remove(id));
        self.transport.register(id);
        self.client.register_node(&mut self.registry, id);
        self.running.insert(id);
        Some(peers)
    }

    /// Says who the members are.
    pub fn set_members(&mut self, members: HashSet<NodeID>)
        ensures
            *final(self) == (Cluster { members, ..*old(self) }),
    {
        self.members = members;
    }

    /// Cuts the links between two nodes, both ways.
    pub fn partition(&mut self, a: NodeID, b: NodeID)
        ensures
            *final(self) == (Cluster { transport: final(self).transport, ..*old(self) }),
            final(self).transport@ == (TransportView {
                cut: old(self).transport@.cut.insert((a, b)).insert((b, a)),
                ..old(self).transport@
            }),
    {
        self.transport.partition(a, b);
    }

    /// Cuts every link between two groups of nodes, both ways.
    pub fn partition_groups(&mut self, left: &[NodeID], right: &[NodeID])
        ensures
            *final(self) == (Cluster { transport: final(self).transport, ..*old(self) }),
            final(self).transport@ == (TransportView {
                cut: old(self).transport@.cut.union(between(left@, right@)),
                ..old(self).transport@
            }),
    {
        self.transport.partition_groups(left, right);
    }

    /// Mends every link, and returns the messages held back.
    pub fn heal_all(&mut self) -> (r: Vec<Envelope>)
        ensures
            *final(self) == (Cluster { transport: final(self).transport, ..*old(self) }),
            envelope_views(r@) == old(self).transport@.waiting(),
            final(self).transport@ == (TransportView {
                cut: Set::empty(),
                held: Map::empty(),
                ..old(self).transport@
            }),
    {
        self.transport.heal_all()
    }

    /// Turns delivery out of order on or off. Turned off, it returns the messages
    /// held back.
    pub fn set_reorder(&mut self, on: bool) -> (r: Vec<Envelope>)
        ensures
            *final(self) == (Cluster { transport: final(self).transport, ..*old(self) }),
            if on {
                r@.len() == 0 && final(self).transport@ == (TransportView {
                    reorder: true,
                    ..old(self).transport@
                })
            } else {
                envelope_views(r@) == old(self).transport@.waiting() && final(self).transport@ == (
                TransportView { reorder: false, held: Map::empty(), ..old(self).transport@ })
            },
    {
        self.transport.set_reorder(on)
    }
}

/// Starting a node again after it was stopped connects it as it was before. What was
/// held back for it is lost.
pub proof fn restarting_reconnects(transport: TransportView, id: NodeID)
    requires
        transport.online.contains(id),
        transport.known.contains(id),
    ensures
        ({
            let stopped = transport.without(id);
            let started = TransportView {
                online: stopped.online.insert(id),
                known: stopped.known.insert(id),
                ..stopped
            };
            started == (TransportView { held: transport.held.remove(id), ..transport })
        }),
{
    let stopped = transport.without(id);
    assert(stopped.online.insert(id) =~= transport.online);
    assert(stopped.known.insert(id) =~= transport.known);
}

/// Options with short timeouts, for tests and demonstrations.
pub open spec fn short_options() -> Options {
    Options {
        heartbeat_interval: 2,
        election_timeout_range: Range { start: 5, end: 10 },
        max_append_entries: 100,
        pre_vote: true,
        check_quorum: true,
        snapshot_threshold: 0,
    }
}

/// Options with short timeouts, for tests and demonstrations.
pub fn test_options() -> (r: Options)
    ensures
        r == short_options(),
{
    Options {
        heartbeat_interval: 2,
        election_timeout_range: Range { start: 5, end: 10 },
        max_append_entries: 100,
        pre_vote: true,
        check_quorum: true,
        snapshot_threshold: 0,
    }
}

} // verus!

//! What a node's process does around the node: it opens the log and the state,
//! hands over client requests, and passes on what the node sends.

use std::collections::HashSet;

use vstd::prelude::*;

use super::entry::Term;
use super::ids::NodeID;
use super::leader::{ends_with, steps_to};
use super::log::{Log, LogView};
use super::message::{
    answer, answer_detail, envelope_views, message_detail, AnswerView, Envelope, EnvelopeView,
    Message, MessageView, Request, RequestID, RequestView, Response,
};
use super::model::{
    admits, can_start, can_tick, is_left_by, is_quiet, is_quiet_tick, is_risky, starting, stepping,
    ticking, NodeView, Options, Ticks,
};
use super::node::{random_election_timeout, Node};
use super::state::State;
use crate::error::{Error, ErrorView, Result};
use crate::storage::engine::{is_report, Engine, StatusView};

verus! {

/// Where a message that a node sent is to go.
pub enum Routed {
    /// To the client that waits for the request with this identifier.
    Reply(RequestID, Result<Response>),
    /// To another node.
    Peer(Envelope),
    /// Nowhere: it is the node's own.
    Nowhere,
}

/// What contracts say of a [`Routed`].
pub ghost enum RoutedView {
    Reply(RequestID, AnswerView),
    Peer(EnvelopeView),
    Nowhere,
}

impl View for Routed {
    type V = RoutedView;

    open spec fn view(&self) -> RoutedView {
        match self {
            Routed::Reply(id, response) => RoutedView::Reply(*id, answer(*response)),
            Routed::Peer(msg) => RoutedView::Peer(msg@),
            Routed::Nowhere => RoutedView::Nowhere,
        }
    }
}

/// Where a message that the node `id` sent is to go. What it sends to itself is
/// meant for its clients.
pub open spec fn routing(id: NodeID, msg: EnvelopeView) -> RoutedView {
    if msg.to != id {
        RoutedView::Peer(msg)
    } else {
        match msg.message {
            MessageView::ClientResponse { id: request, response } => RoutedView::Reply(
                request,
                response,
            ),
            _ => RoutedView::Nowhere,
        }
    }
}

/// Where the messages that the node `id` sent are to go, in their order.
pub open spec fn routing_all(id: NodeID, out: Seq<EnvelopeView>) -> Seq<RoutedView> {
    out.map_values(|msg: EnvelopeView| routing(id, msg))
}

pub open spec fn routed_views(routed: Seq<Routed>) -> Seq<RoutedView> {
    routed.map_values(|routed: Routed| routed@)
}

/// Says where a message that the node `id` sent is to go.
pub fn route(id: NodeID, msg: Envelope) -> (r: Routed)
    ensures
        r@ == routing(id, msg@),
        match r {
            Routed::Reply(_, response) => answer_detail(response) == message_detail(msg.message),
            Routed::Peer(sent) => message_detail(sent.message) == message_detail(msg.message),
            Routed::Nowhere => true,
        },
{
    if msg.to != id {
        return Routed::Peer(msg);
    }
    match msg.message {
        Message::ClientResponse { id: request, response } => Routed::Reply(request, response),
        _ => Routed::Nowhere,
    }
}

/// A client's request as a message to the node that it was handed to.
pub open spec fn client_envelope(
    node: NodeID,
    term: Term,
    id: RequestID,
    request: RequestView,
) -> EnvelopeView {
    EnvelopeView {
        from: node,
        term,
        to: node,
        message: MessageView::ClientRequest { id, request },
    }
}

/// Wraps a client's request into a message to the node that it was handed to.
pub fn client_message(node: NodeID, term: Term, id: RequestID, request: Request) -> (r: Envelope)
    ensures
        r@ == client_envelope(node, term, id, request@),
{
    Envelope { from: node, term, to: node, message: Message::ClientRequest { id, request } }
}

// The loop around a node.

/// What happens to a node.
pub enum Event {
    /// Time passed.
    Tick,
    /// A peer's message came in.
    Message(Envelope),
    /// A client's request came in.
    Request(RequestID, Request),
}

/// What contracts say of an [`Event`].
pub ghost enum EventView {
    Tick,
    Message(EnvelopeView),
    Request(RequestID, RequestView),
}

impl View for Event {
    type V = EventView;

    open spec fn view(&self) -> EventView {
        match self {
            Event::Tick => EventView::Tick,
            Event::Message(msg) => EventView::Message(msg@),
            Event::Request(id, request) => EventView::Request(*id, request@),
        }
    }
}

impl EventView {
    /// The message that an event hands to a node.
    pub open spec fn message<S: State>(self, node: NodeView<S>) -> Option<EnvelopeView> {
        match self {
            EventView::Tick => None,
            EventView::Message(msg) => Some(msg),
            EventView::Request(id, request) => Some(
                client_envelope(node.base().id, node.base().term(), id, request),
            ),
        }
    }

    /// Whether a node accepts an event.
    pub open spec fn is_accepted<S: State>(self, node: NodeView<S>) -> bool {
        match self.message(node) {
            None => can_tick(node),
            Some(msg) => admits(node, msg),
        }
    }

    /// The node after an event.
    pub open spec fn reached<S: State>(
        self,
        node: NodeView<S>,
        timeout: Ticks,
        storage: std::result::Result<StatusView, ErrorView>,
    ) -> std::result::Result<NodeView<S>, ErrorView> {
        match self.message(node) {
            None => Ok(ticking(node, timeout)),
            Some(msg) => stepping(node, msg, timeout, storage),
        }
    }

    /// Whether a node touches no storage for the event.
    pub open spec fn is_quiet<S: State>(self, node: NodeView<S>) -> bool {
        match self.message(node) {
            None => is_quiet_tick(node),
            Some(msg) => is_quiet(node, msg),
        }
    }

    /// Whether a node is left by the event as storage failed in the course of it, with
    /// the client answered.
    pub open spec fn is_left<S: State>(
        self,
        node: NodeView<S>,
        next: NodeView<S>,
        routed: Seq<RoutedView>,
    ) -> bool {
        self.message(node) matches Some(msg) && exists|left: NodeView<S>| #[trigger]
            is_left_by(node, msg, left) && goes_on(Ok(left), next, routed)
    }

    /// Whether a storage failure in the course of the event can leave something in
    /// storage that the node does not know of.
    pub open spec fn is_risky<S: State>(self, node: NodeView<S>) -> bool {
        match self.message(node) {
            None => false,
            Some(msg) => is_risky(node, msg),
        }
    }
}

/// What an event led to.
pub enum Handled<E: Engine, S: State> {
    /// The node went on; these are the messages that it sent.
    Done(Node<E, S>, Vec<Routed>),
    /// The node does not accept the event.
    Refused(Node<E, S>),
    /// The node failed and is gone.
    Failed(Error),
}

/// The node went on to `next`, once its messages were taken away to be routed.
pub open spec fn goes_on<S: State>(
    reached: std::result::Result<NodeView<S>, ErrorView>,
    next: NodeView<S>,
    routed: Seq<RoutedView>,
) -> bool {
    &&& reached matches Ok(node)
    &&& next == node.silenced()
    &&& routed == routing_all(node.base().id, node.base().out)
}

/// What [`handle`] promises.
pub open spec fn is_handled<E: Engine, S: State>(
    node: Node<E, S>,
    event: EventView,
    r: Handled<E, S>,
) -> bool {
    let view = node.view();
    match r {
        Handled::Done(next, routed) => {
            &&& event.is_accepted(view)
            &&& next.reliable() == node.reliable()
            &&& node.reliable() || !event.is_risky(view) ==> next.wf()
            &&& {
                ||| exists|timeout: Ticks, storage: std::result::Result<StatusView, ErrorView>|
                    view.draws(timeout) && is_report(
                        storage,
                        node.reported(),
                        node.reliable(),
                    ) && goes_on(
                        #[trigger] event.reached(view, timeout, storage),
                        next.view(),
                        routed_views(routed@),
                    )
                ||| !node.reliable() && event.is_risky(view) && event.is_left(
                    view,
                    next.view(),
                    routed_views(routed@),
                )
            }
        },
        Handled::Refused(next) => {
            &&& !event.is_accepted(view)
            &&& next.wf()
            &&& next.view() == view
            &&& next.reliable() == node.reliable()
        },
        Handled::Failed(e) => !event.is_quiet(view) && (node.reliable() ==> {
            &&& event.is_accepted(view)
            &&& exists|timeout: Ticks, storage: std::result::Result<StatusView, ErrorView>|
                view.draws(timeout) && is_report(storage, node.reported(), node.reliable())
                    && #[trigger] event.reached(view, timeout, storage) == Err::<
                    NodeView<S>,
                    ErrorView,
                >(e@)
        }),
    }
}

/// Hands an event to a node, if the node accepts it, and routes what it sends.
pub fn handle<E: Engine, S: State>(node: Node<E, S>, event: Event) -> (r: Handled<E, S>)
    requires
        node.wf(),
    ensures
        is_handled(node, event@, r),
{
    match event {
        Event::Tick => pass_time(node),
        Event::Message(msg) => hand_over(node, msg, Ghost(event@)),
        Event::Request(id, request) => {
            let msg = client_message(node.id(), node.term(), id, request);
            hand_over(node, msg, Ghost(event@))
        },
    }
}

fn pass_time<E: Engine, S: State>(node: Node<E, S>) -> (r: Handled<E, S>)
    requires
        node.wf(),
    ensures
        is_handled(node, EventView::Tick, r),
{
    if !node.accepts_tick() {
        return Handled::Refused(node);
    }
    let ghost view = node.view();
    let ghost none = Ok::<StatusView, ErrorView>(node.reported());
    let r = node.tick();
    let ghost timeout = choose|timeout: Ticks|
        view.draws(timeout) && ends_with(
            r,
            Ok(#[trigger] ticking(view, timeout)),
            node.reliable(),
            );
    assert(EventView::Tick.reached(view, timeout, none) == Ok::<NodeView<S>, ErrorView>(
        ticking(view, timeout),
    ));
    match r {
        Ok(next) => finish(next),
        Err(e) => Handled::Failed(e),
    }
}

fn hand_over<E: Engine, S: State>(
    node: Node<E, S>,
    msg: Envelope,
    Ghost(event): Ghost<EventView>,
) -> (r: Handled<E, S>)
    requires
        node.wf(),
        event.message(node.view()) == Some(msg@),
    ensures
        is_handled(node, event, r),
{
    let mut node = node;
    let ghost view = node.view();
    let ghost reliable = node.reliable();
    let ghost reported = node.reported();
    let ghost envelope = msg@;
    match node.accepts(&msg) {
        Ok(true) => {},
        Ok(false) => return Handled::Refused(node),
        Err(e) => return Handled::Failed(e),
    }
    let r = node.step(msg);
    let ghost (timeout, storage) = choose|
        timeout: Ticks,
        storage: std::result::Result<StatusView, ErrorView>,
    |
        view.draws(timeout) && is_report(storage, reported, reliable) && steps_to(
            r,
            #[trigger] stepping(view, envelope, timeout, storage),
            reliable,
            is_risky(view, envelope),
            view,
            envelope,
        );
    assert(event.reached(view, timeout, storage) == stepping(view, envelope, timeout, storage));
    match r {
        Ok(next) => {
            assert(!reliable && is_risky(view, envelope) && is_left_by(view, envelope, next.view())
                || stepping(view, envelope, timeout, storage) == Ok::<NodeView<S>, ErrorView>(
                next.view(),
            ));
            finish(next)
        },
        Err(e) => Handled::Failed(e),
    }
}

/// Takes away what a node sent and routes it.
fn finish<E: Engine, S: State>(node: Node<E, S>) -> (r: Handled<E, S>)
    ensures
        match r {
            Handled::Done(next, routed) => {
                &&& next.wf() == node.wf()
                &&& next.reliable() == node.reliable()
                &&& next.view() == node.view().silenced()
                &&& routed_views(routed@) == routing_all(
                    node.view().base().id,
                    node.view().base().out,
                )
            },
            _ => false,
        },
{
    let mut node = node;
    let id = node.id();
    let messages = node.take_messages();
    let ghost out = envelope_views(messages@);
    let mut routed: Vec<Routed> = Vec::new();
    for msg in it: messages
        invariant
            it.seq().len() == out.len(),
            forall|k: int| 0 <= k < out.len() ==> (#[trigger] it.seq()[k])@ == out[k],
            routed@.len() == it.index(),
            forall|k: int|
                0 <= k < routed@.len() ==> (#[trigger] routed@[k])@ == routing(id, out[k]),
    {
        routed.push(route(id, msg));
    }
    assert(routed_views(routed@) =~= routing_all(id, out));
    Handled::Done(node, routed)
}

/// The state that a node starts with: restored from the snapshot of its log, if
/// it has one.
pub open spec fn recovered<S: State>(log: LogView, state: S::Model) -> std::result::Result<
    S::Model,
    ErrorView,
> {
    match log.snapshot {
        Some(data) if log.snapshot_meta().0 > 0 => S::restoring(
            state,
            data,
            log.snapshot_meta().0,
        ),
        _ => Ok(state),
    }
}

/// Restores a state from the snapshot of a log, if it has one, before the node
/// starts. The entries after it are applied when the node starts.
pub fn recover<E: Engine, S: State>(log: &mut Log<E>, state: &mut S) -> (r: Result<()>)
    requires
        old(log).wf(),
        old(state).wf(),
    ensures
        final(log).wf(),
        final(log)@ == old(log)@,
        final(log).reliable() == old(log).reliable(),
        final(state).wf(),
        match r {
            Ok(()) => recovered::<S>(old(log)@, old(state).model()) == Ok::<S::Model, ErrorView>(
                final(state).model(),
            ),
            Err(e) => old(log).reliable() ==> recovered::<S>(old(log)@, old(state).model())
                == Err::<S::Model, ErrorView>(e@),
        },
{
    let snapshot = match log.get_snapshot() {
        Ok(snapshot) => snapshot,
        Err(e) => return Err(e),
    };
    let (index, _) = log.get_snapshot_meta();
    match snapshot {
        Some(data) => if index > 0 {
            state.restore(data.as_slice(), index)
        } else {
            Ok(())
        },
        None => Ok(()),
    }
}

/// What launching a node led to.
pub enum Launched<E: Engine, S: State> {
    Started(Node<E, S>),
    /// The node cannot start with this log and state.
    Refused,
    Failed(Error),
}

/// What launching a node leads to, once its state was restored.
pub open spec fn is_launched<E: Engine, S: State>(
    id: NodeID,
    peers: Set<NodeID>,
    log: Log<E>,
    model: S::Model,
    opts: Options,
    r: Launched<E, S>,
) -> bool {
    match r {
        Launched::Started(node) => {
            &&& node.wf()
            &&& node.reliable() == log.reliable()
            &&& can_start::<S>(id, peers, log@, model, opts)
            &&& exists|timeout: Ticks|
                opts.election_timeout_range.start <= timeout < opts.election_timeout_range.end
                    && #[trigger] starting::<S>(id, peers, log@, model, opts, timeout) == Ok::<
                    NodeView<S>,
                    ErrorView,
                >(node.view())
        },
        Launched::Refused => !can_start::<S>(id, peers, log@, model, opts),
        Launched::Failed(e) => log.reliable() ==> {
            &&& can_start::<S>(id, peers, log@, model, opts)
            &&& exists|timeout: Ticks|
                opts.election_timeout_range.start <= timeout < opts.election_timeout_range.end
                    && #[trigger] starting::<S>(id, peers, log@, model, opts, timeout) == Err::<
                    NodeView<S>,
                    ErrorView,
                >(e@)
        },
    }
}

/// Starts a node whose state was restored.
fn begin<E: Engine, S: State>(
    id: NodeID,
    peers: HashSet<NodeID>,
    log: Log<E>,
    state: S,
    opts: Options,
) -> (r: Launched<E, S>)
    requires
        log.wf(),
        state.wf(),
    ensures
        is_launched(id, peers@, log, state.model(), opts, r),
{
    let start = opts.election_timeout_range.start;
    let end = opts.election_timeout_range.end;
    if start >= end {
        return Launched::Refused;
    }
    let timeout = random_election_timeout(start, end);
    let ghost started = starting::<S>(id, peers@, log@, state.model(), opts, timeout);
    match Node::try_new_with(id, peers, log, state, opts, timeout) {
        Ok(Some(node)) => {
            assert(started == Ok::<NodeView<S>, ErrorView>(node.view()));
            Launched::Started(node)
        },
        Ok(None) => Launched::Refused,
        Err(e) => {
            assert(log.reliable() ==> started == Err::<NodeView<S>, ErrorView>(e@));
            Launched::Failed(e)
        },
    }
}

/// Starts a node on a log, with its state restored from the snapshot of the log. It
/// is refused if it could not start.
pub fn launch<E: Engine, S: State>(
    id: NodeID,
    peers: HashSet<NodeID>,
    log: Log<E>,
    state: S,
    opts: Options,
) -> (r: Launched<E, S>)
    requires
        log.wf(),
        state.wf(),
    ensures
        match recovered::<S>(log@, state.model()) {
            Ok(model) => log.reliable() || !(r is Failed) ==> is_launched(
                id,
                peers@,
                log,
                model,
                opts,
                r,
            ),
            Err(expected) => r matches Launched::Failed(e) && (log.reliable() ==> e@ == expected),
        },
{
    let mut log = log;
    let mut state = state;
    match recover(&mut log, &mut state) {
        Ok(()) => begin(id, peers, log, state, opts),
        Err(e) => Launched::Failed(e),
    }
}

} // verus!

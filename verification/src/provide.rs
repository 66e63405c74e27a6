//! What a sender keeps of the connections that it serves.
use vstd::prelude::*;
use std::collections::{BTreeMap, BTreeSet};
use crate::args::{SendArgs, ShareEvent, ShareStep};
use crate::digits;
use crate::outside;
use crate::text;

verus! {

broadcast use {
    vstd::seq::group_seq_axioms,
    vstd::std_specs::btree::group_btree_axioms,
    vstd::laws_cmp::group_laws_cmp,
};

/// What is kept of one connection.
#[derive(Debug)]
pub struct PerConnectionProgress {
    /// The short form of the other end's id, or a question mark.
    pub endpoint_id: String,
    /// The requests under way.
    pub requests: BTreeSet<u64>,
    /// Whether a request was completed on this connection.
    pub served: bool,
}

/// What a [`PerConnectionProgress`] holds.
#[verifier::ext_equal]
pub struct ConnectionView {
    /// The short form of the other end's id, or a question mark.
    pub endpoint_id: Seq<char>,
    /// The requests under way.
    pub requests: Set<u64>,
    /// Whether a request was completed on this connection.
    pub served: bool,
}

impl View for PerConnectionProgress {
    type V = ConnectionView;

    open spec fn view(&self) -> ConnectionView {
        ConnectionView {
            endpoint_id: self.endpoint_id@,
            requests: self.requests@,
            served: self.served,
        }
    }
}

/// Something that happened to a connection.
#[derive(Debug)]
pub enum ProvideEvent {
    /// A receiver connected, with its id where it is known.
    Connected { connection_id: u64, endpoint_id: Option<[u8; 32]> },
    /// A connection was closed.
    Closed { connection_id: u64 },
    /// A request came in.
    Received { connection_id: u64, request_id: u64 },
    /// A request was answered in full.
    Completed { connection_id: u64, request_id: u64 },
    /// A request was given up.
    Aborted { connection_id: u64, request_id: u64 },
}

/// What is to be done after an event.
#[derive(Debug)]
pub enum ProvideAction {
    /// Nothing.
    Nothing,
    /// Show a bar for the request of this endpoint.
    ShowRequest { endpoint_id: String },
    /// Drop a request that belongs to no connection.
    UnknownConnection,
    /// Clear the bars of the requests, and report a complete transfer where `done` holds.
    Clear { requests: BTreeSet<u64>, done: bool },
}

/// What a [`ProvideAction`] holds.
pub enum ActionView {
    /// Nothing.
    Nothing,
    /// Show a bar for the request of this endpoint.
    ShowRequest { endpoint_id: Seq<char> },
    /// Drop a request that belongs to no connection.
    UnknownConnection,
    /// Clear the bars of the requests, and report a complete transfer where `done` holds.
    Clear { requests: Set<u64>, done: bool },
}

impl View for ProvideAction {
    type V = ActionView;

    open spec fn view(&self) -> ActionView {
        match self {
            ProvideAction::Nothing => ActionView::Nothing,
            ProvideAction::ShowRequest { endpoint_id } => ActionView::ShowRequest {
                endpoint_id: endpoint_id@,
            },
            ProvideAction::UnknownConnection => ActionView::UnknownConnection,
            ProvideAction::Clear { requests, done } => ActionView::Clear {
                requests: requests@,
                done: *done,
            },
        }
    }
}

/// The connections, by their ids.
pub type ConnectionsView = Map<u64, ConnectionView>;

/// The short form of an endpoint's id: its first five bytes in hexadecimal, or a question mark.
pub open spec fn short_id(endpoint_id: Option<[u8; 32]>) -> Seq<char> {
    match endpoint_id {
        Some(id) => digits::hex_lower(id@.take(5)),
        None => "?"@,
    }
}

/// The connections after an event.
pub open spec fn after(c: ConnectionsView, e: ProvideEvent) -> ConnectionsView {
    match e {
        ProvideEvent::Connected { connection_id, endpoint_id } => c.insert(
            connection_id,
            ConnectionView {
                endpoint_id: short_id(endpoint_id),
                requests: Set::empty(),
                served: false,
            },
        ),
        ProvideEvent::Closed { connection_id } => c.remove(connection_id),
        ProvideEvent::Received { connection_id, request_id } => if c.contains_key(connection_id) {
            c.insert(
                connection_id,
                ConnectionView {
                    requests: c[connection_id].requests.insert(request_id),
                    ..c[connection_id]
                },
            )
        } else {
            c
        },
        ProvideEvent::Completed { connection_id, request_id } => if c.contains_key(connection_id) {
            c.insert(
                connection_id,
                ConnectionView {
                    requests: c[connection_id].requests.remove(request_id),
                    served: true,
                    ..c[connection_id]
                },
            )
        } else {
            c
        },
        ProvideEvent::Aborted { connection_id, request_id } => if c.contains_key(connection_id) {
            c.insert(
                connection_id,
                ConnectionView {
                    requests: c[connection_id].requests.remove(request_id),
                    ..c[connection_id]
                },
            )
        } else {
            c
        },
    }
}

/// What is to be done after an event.
pub open spec fn action(c: ConnectionsView, e: ProvideEvent) -> ActionView {
    match e {
        ProvideEvent::Closed { connection_id } => if c.contains_key(connection_id) {
            ActionView::Clear {
                requests: c[connection_id].requests,
                done: c[connection_id].served,
            }
        } else {
            ActionView::Clear { requests: Set::empty(), done: false }
        },
        ProvideEvent::Received { connection_id, request_id } => if c.contains_key(connection_id) {
            ActionView::ShowRequest { endpoint_id: c[connection_id].endpoint_id }
        } else {
            ActionView::UnknownConnection
        },
        _ => ActionView::Nothing,
    }
}

/// The connections that a sender serves.
#[derive(Debug)]
pub struct Connections {
    map: BTreeMap<u64, PerConnectionProgress>,
}

impl View for Connections {
    type V = ConnectionsView;

    closed spec fn view(&self) -> ConnectionsView {
        self.map@.map_values(|c: PerConnectionProgress| c@)
    }
}

fn write_short_id(endpoint_id: Option<[u8; 32]>) -> (s: String)
    ensures
        s@ == short_id(endpoint_id),
{
    match endpoint_id {
        Some(id) => {
            let mut head: Vec<u8> = Vec::new();
            for i in 0..5usize
                invariant
                    head@ == id@.take(i as int),
            {
                head.push(id[i]);
                assert(id@.take(i + 1) =~= id@.take(i as int).push(id@[i as int]));
            }
            outside::hex_encode(head.as_slice())
        },
        None => "?".to_string(),
    }
}

impl Connections {
    /// No connection yet.
    pub fn new() -> (r: Connections)
        ensures
            r@ == ConnectionsView::empty(),
    {
        let r = Connections { map: BTreeMap::new() };
        assert(r@ =~= ConnectionsView::empty());
        r
    }

    /// Takes note of an event and says what is to be done.
    pub fn handle(&mut self, event: ProvideEvent) -> (r: ProvideAction)
        ensures
            final(self)@ == after(old(self)@, event),
            r@ == action(old(self)@, event),
    {
        let ghost start = self.map@;
        match event {
            ProvideEvent::Connected { connection_id, endpoint_id } => {
                let c = PerConnectionProgress {
                    endpoint_id: write_short_id(endpoint_id),
                    requests: BTreeSet::new(),
                    served: false,
                };
                self.map.insert(connection_id, c);
                assert(self@ =~= after(old(self)@, event));
                ProvideAction::Nothing
            },
            ProvideEvent::Closed { connection_id } => {
                let removed = self.map.remove(&connection_id);
                assert(self@ =~= after(old(self)@, event));
                match removed {
                    Some(c) => ProvideAction::Clear { requests: c.requests, done: c.served },
                    None => ProvideAction::Clear { requests: BTreeSet::new(), done: false },
                }
            },
            ProvideEvent::Received { connection_id, request_id } => {
                match self.map.remove(&connection_id) {
                    Some(mut c) => {
                        c.requests.insert(request_id);
                        let endpoint_id = c.endpoint_id.as_str().to_string();
                        self.map.insert(connection_id, c);
                        assert(self@ =~= after(old(self)@, event));
                        ProvideAction::ShowRequest { endpoint_id }
                    },
                    None => {
                        assert(self@ =~= after(old(self)@, event));
                        ProvideAction::UnknownConnection
                    },
                }
            },
            ProvideEvent::Completed { connection_id, request_id } => {
                match self.map.remove(&connection_id) {
                    Some(mut c) => {
                        c.served = true;
                        c.requests.remove(&request_id);
                        self.map.insert(connection_id, c);
                    },
                    None => {},
                }
                assert(self@ =~= after(old(self)@, event));
                ProvideAction::Nothing
            },
            ProvideEvent::Aborted { connection_id, request_id } => {
                match self.map.remove(&connection_id) {
                    Some(mut c) => {
                        c.requests.remove(&request_id);
                        self.map.insert(connection_id, c);
                    },
                    None => {},
                }
                assert(self@ =~= after(old(self)@, event));
                ProvideAction::Nothing
            },
        }
    }
}

// ---------------------------------------------------------------------------------------
// One request
// ---------------------------------------------------------------------------------------

/// A step in the answer to a request.
#[derive(Debug)]
pub enum RequestUpdate {
    /// The transfer of a blob started.
    Started { index: u64, hash: [u8; 32], size: u64 },
    /// The transfer reached an offset.
    Progress { end_offset: u64 },
    /// The request was answered in full.
    Completed,
    /// The request was given up.
    Aborted,
}

/// What the bar of a request shows from now on.
#[derive(Debug)]
pub enum BarChange {
    /// What it showed before.
    Nothing,
    /// A message, and a length in bytes.
    Start { message: String, length: u64 },
    /// A position in bytes.
    Position { position: u64 },
}

/// What a [`BarChange`] holds.
pub enum BarView {
    /// What it showed before.
    Nothing,
    /// A message, and a length in bytes.
    Start { message: Seq<char>, length: u64 },
    /// A position in bytes.
    Position { position: u64 },
}

impl View for BarChange {
    type V = BarView;

    open spec fn view(&self) -> BarView {
        match self {
            BarChange::Nothing => BarView::Nothing,
            BarChange::Start { message, length } => BarView::Start {
                message: message@,
                length: *length,
            },
            BarChange::Position { position } => BarView::Position { position: *position },
        }
    }
}

/// The message of the bar of a request.
pub open spec fn request_message(
    endpoint_id: Seq<char>,
    connection_id: u64,
    request_id: u64,
    index: u64,
    hash: Seq<u8>,
) -> Seq<char> {
    "n "@ + endpoint_id + " r "@ + text::decimal(connection_id as nat) + "/"@ + text::decimal(
        request_id as nat,
    ) + " i "@ + text::decimal(index as nat) + " # "@ + digits::hex_lower(hash.take(5))
}

/// A request that is being answered.
#[derive(Debug)]
pub struct RequestProgress {
    /// The connection that it came over.
    pub connection_id: u64,
    /// The request.
    pub request_id: u64,
    /// The short form of the other end's id, as it was when the request came in.
    pub endpoint_id: String,
}

/// The event that an update is to its connection, if any.
pub open spec fn update_event(
    connection_id: u64,
    request_id: u64,
    update: RequestUpdate,
) -> Option<ProvideEvent> {
    match update {
        RequestUpdate::Completed => Some(ProvideEvent::Completed { connection_id, request_id }),
        RequestUpdate::Aborted => Some(ProvideEvent::Aborted { connection_id, request_id }),
        _ => None,
    }
}

impl RequestProgress {
    /// What the bar shows after an update.
    pub open spec fn shown(&self, update: RequestUpdate) -> BarView {
        match update {
            RequestUpdate::Started { index, hash, size } => BarView::Start {
                message: request_message(
                    self.endpoint_id@,
                    self.connection_id,
                    self.request_id,
                    index,
                    hash@,
                ),
                length: size,
            },
            RequestUpdate::Progress { end_offset } => BarView::Position { position: end_offset },
            _ => BarView::Nothing,
        }
    }

    /// Takes note of an update and says what the bar shows.
    pub fn update(&self, connections: &mut Connections, update: RequestUpdate) -> (r: BarChange)
        ensures
            r@ == self.shown(update),
            match update_event(self.connection_id, self.request_id, update) {
                Some(e) => final(connections)@ == after(old(connections)@, e),
                None => final(connections)@ == old(connections)@,
            },
    {
        match update {
            RequestUpdate::Started { index, hash, size } => {
                let mut message = "n ".to_string();
                message.append(self.endpoint_id.as_str());
                message.append(" r ");
                message.append(text::decimal_string(self.connection_id).as_str());
                message.append("/");
                message.append(text::decimal_string(self.request_id).as_str());
                message.append(" i ");
                message.append(text::decimal_string(index).as_str());
                message.append(" # ");
                message.append(outside::hash_short(hash).as_str());
                BarChange::Start { message, length: size }
            },
            RequestUpdate::Progress { end_offset } => BarChange::Position { position: end_offset },
            RequestUpdate::Completed => {
                connections.handle(
                    ProvideEvent::Completed {
                        connection_id: self.connection_id,
                        request_id: self.request_id,
                    },
                );
                BarChange::Nothing
            },
            RequestUpdate::Aborted => {
                connections.handle(
                    ProvideEvent::Aborted {
                        connection_id: self.connection_id,
                        request_id: self.request_id,
                    },
                );
                BarChange::Nothing
            },
        }
    }
}

// ---------------------------------------------------------------------------------------
// What holds of a run of events
// ---------------------------------------------------------------------------------------

/// The connections after a run of events.
pub open spec fn after_all(events: Seq<ProvideEvent>) -> ConnectionsView
    decreases events.len(),
{
    if events.len() == 0 {
        Map::empty()
    } else {
        after(after_all(events.drop_last()), events.last())
    }
}

/// Whether the event opens or closes the connection.
pub open spec fn opens_or_closes(e: ProvideEvent, id: u64) -> bool {
    match e {
        ProvideEvent::Connected { connection_id, endpoint_id } => connection_id == id,
        ProvideEvent::Closed { connection_id } => connection_id == id,
        _ => false,
    }
}

/// Whether the event completes a request of the connection.
pub open spec fn completes(e: ProvideEvent, id: u64) -> bool {
    match e {
        ProvideEvent::Completed { connection_id, request_id } => connection_id == id,
        _ => false,
    }
}

/// Whether the event opens the connection.
pub open spec fn opens(e: ProvideEvent, id: u64) -> bool {
    match e {
        ProvideEvent::Connected { connection_id, endpoint_id } => connection_id == id,
        _ => false,
    }
}

/// An event of one connection leaves what is kept of the others as it was.
pub proof fn law_connections_are_separate(c: ConnectionsView, e: ProvideEvent, other: u64)
    requires
        match e {
            ProvideEvent::Connected { connection_id, .. } => connection_id != other,
            ProvideEvent::Closed { connection_id } => connection_id != other,
            ProvideEvent::Received { connection_id, .. } => connection_id != other,
            ProvideEvent::Completed { connection_id, .. } => connection_id != other,
            ProvideEvent::Aborted { connection_id, .. } => connection_id != other,
        },
    ensures
        after(c, e).contains_key(other) == c.contains_key(other),
        c.contains_key(other) ==> after(c, e)[other] == c[other],
{
}

/// A connection that was opened at `start` and neither opened again nor closed since counts as
/// served exactly when one of its requests was completed since.
pub proof fn law_served_after_completion(events: Seq<ProvideEvent>, start: int, id: u64)
    requires
        0 <= start < events.len(),
        opens(events[start], id),
        forall|i: int| start < i < events.len() ==> !opens_or_closes(#[trigger] events[i], id),
    ensures
        after_all(events).contains_key(id),
        after_all(events)[id].served <==> exists|i: int|
            start < i < events.len() && completes(#[trigger] events[i], id),
    decreases events.len(),
{
    let front = events.drop_last();
    let last = events.last();
    if start == events.len() - 1 {
        assert(after_all(events)[id].served == false);
    } else {
        assert(forall|i: int| 0 <= i < front.len() ==> front[i] == events[i]);
        law_served_after_completion(front, start, id);
        assert(!opens_or_closes(events[events.len() - 1], id));
        if completes(last, id) {
            assert(completes(events[events.len() - 1], id));
        }
        assert(after_all(events)[id].served == (after_all(front)[id].served || completes(
            last,
            id,
        )));
        if exists|i: int| start < i < front.len() && completes(#[trigger] front[i], id) {
            let i = choose|i: int| start < i < front.len() && completes(#[trigger] front[i], id);
            assert(completes(events[i], id));
        }
        if exists|i: int| start < i < events.len() && completes(#[trigger] events[i], id) {
            let i = choose|i: int| start < i < events.len() && completes(#[trigger] events[i], id);
            if i < front.len() {
                assert(completes(front[i], id));
            }
        }
    }
}

/// A complete transfer is reported when a connection closes on which a request was completed,
/// and only then.
pub proof fn law_done_after_completion(events: Seq<ProvideEvent>, start: int, id: u64)
    requires
        0 <= start < events.len(),
        opens(events[start], id),
        forall|i: int| start < i < events.len() ==> !opens_or_closes(#[trigger] events[i], id),
    ensures
        action(after_all(events), ProvideEvent::Closed { connection_id: id }) matches ActionView::Clear {
            done,
            ..
        } && (done <==> exists|i: int|
            start < i < events.len() && completes(#[trigger] events[i], id)),
{
    law_served_after_completion(events, start, id);
}

/// A connection that was never opened is not kept.
proof fn lemma_unknown(events: Seq<ProvideEvent>, id: u64)
    requires
        forall|i: int| 0 <= i < events.len() ==> !opens(#[trigger] events[i], id),
    ensures
        !after_all(events).contains_key(id),
    decreases events.len(),
{
    if events.len() > 0 {
        let front = events.drop_last();
        assert(forall|i: int| 0 <= i < front.len() ==> front[i] == events[i]);
        lemma_unknown(front, id);
        assert(!opens(events[events.len() - 1], id));
    }
}

/// Closing a connection that was never opened reports nothing.
pub proof fn law_unknown_connection_is_not_done(events: Seq<ProvideEvent>, id: u64)
    requires
        forall|i: int| 0 <= i < events.len() ==> !opens(#[trigger] events[i], id),
    ensures
        action(after_all(events), ProvideEvent::Closed { connection_id: id }) == (ActionView::Clear {
            requests: Set::empty(),
            done: false,
        }),
{
    lemma_unknown(events, id);
}

// ---------------------------------------------------------------------------------------
// One receiver after the other
// ---------------------------------------------------------------------------------------

/// A receiver that connects, has its requests answered in full, and disconnects.
pub struct Visit {
    /// The connection.
    pub connection_id: u64,
    /// The id of the receiver, where it is known.
    pub endpoint_id: Option<[u8; 32]>,
    /// The requests.
    pub requests: Seq<u64>,
}

/// The connections after a run of events that starts with the given ones.
pub open spec fn after_run(c: ConnectionsView, events: Seq<ProvideEvent>) -> ConnectionsView
    decreases events.len(),
{
    if events.len() == 0 {
        c
    } else {
        after(after_run(c, events.drop_last()), events.last())
    }
}

/// What is to be done after each event of a run.
pub open spec fn actions(c: ConnectionsView, events: Seq<ProvideEvent>) -> Seq<ActionView>
    decreases events.len(),
{
    if events.len() == 0 {
        Seq::empty()
    } else {
        actions(c, events.drop_last()).push(
            action(after_run(c, events.drop_last()), events.last()),
        )
    }
}

/// The events of requests that are answered in full.
pub open spec fn answer_events(connection_id: u64, requests: Seq<u64>) -> Seq<ProvideEvent>
    decreases requests.len(),
{
    if requests.len() == 0 {
        Seq::empty()
    } else {
        let request_id = requests.last();
        answer_events(connection_id, requests.drop_last()).push(
            ProvideEvent::Received { connection_id, request_id },
        ).push(ProvideEvent::Completed { connection_id, request_id })
    }
}

/// What is done about requests that are answered in full.
pub open spec fn answer_actions(endpoint_id: Seq<char>, requests: nat) -> Seq<ActionView>
    decreases requests,
{
    if requests == 0 {
        Seq::empty()
    } else {
        answer_actions(endpoint_id, (requests - 1) as nat).push(
            ActionView::ShowRequest { endpoint_id },
        ).push(ActionView::Nothing)
    }
}

impl Visit {
    /// The events of the visit.
    pub open spec fn events(self) -> Seq<ProvideEvent> {
        let opened = ProvideEvent::Connected {
            connection_id: self.connection_id,
            endpoint_id: self.endpoint_id,
        };
        let closed = ProvideEvent::Closed { connection_id: self.connection_id };
        (seq![opened] + answer_events(self.connection_id, self.requests)).push(closed)
    }

    /// What is done about the visit: each request is shown, and at the end no bar is left and a
    /// complete transfer is reported.
    pub open spec fn handled(self) -> Seq<ActionView> {
        (seq![ActionView::Nothing] + answer_actions(
            short_id(self.endpoint_id),
            self.requests.len(),
        )).push(ActionView::Clear { requests: Set::empty(), done: true })
    }
}

/// What is kept of a connection with the given requests answered in full and none open.
spec fn answered(v: Visit, requests: nat) -> ConnectionView {
    ConnectionView {
        endpoint_id: short_id(v.endpoint_id),
        requests: Set::empty(),
        served: requests > 0,
    }
}

/// A visit up to its last request.
proof fn lemma_answers(c: ConnectionsView, v: Visit, requests: Seq<u64>)
    ensures
        ({
            let opened = ProvideEvent::Connected {
                connection_id: v.connection_id,
                endpoint_id: v.endpoint_id,
            };
            let events = seq![opened] + answer_events(v.connection_id, requests);
            &&& after_run(c, events) == c.insert(v.connection_id, answered(v, requests.len()))
            &&& actions(c, events) == seq![ActionView::Nothing] + answer_actions(
                short_id(v.endpoint_id),
                requests.len(),
            )
        }),
    decreases requests.len(),
{
    let id = v.connection_id;
    let opened = ProvideEvent::Connected { connection_id: id, endpoint_id: v.endpoint_id };
    let events = seq![opened] + answer_events(id, requests);
    if requests.len() == 0 {
        assert(events =~= seq![opened]);
        assert(events.drop_last() =~= Seq::<ProvideEvent>::empty());
        assert(after_run(c, events.drop_last()) == c);
        assert(after_run(c, events) =~= c.insert(id, answered(v, 0)));
        assert(actions(c, events.drop_last()) =~= Seq::<ActionView>::empty());
        assert(actions(c, events) =~= seq![ActionView::Nothing] + answer_actions(
            short_id(v.endpoint_id),
            0,
        ));
    } else {
        let front = requests.drop_last();
        let request_id = requests.last();
        lemma_answers(c, v, front);
        let before = seq![opened] + answer_events(id, front);
        let received = ProvideEvent::Received { connection_id: id, request_id };
        let completed = ProvideEvent::Completed { connection_id: id, request_id };
        let middle = before.push(received);
        assert(events =~= middle.push(completed));
        assert(events.drop_last() =~= middle);
        assert(middle.drop_last() =~= before);
        let x = after_run(c, before);
        let y = after_run(c, middle);
        assert(y == after(x, received));
        assert(y[id].requests.remove(request_id) =~= Set::<u64>::empty());
        assert(after_run(c, events) =~= c.insert(id, answered(v, requests.len())));
        assert(actions(c, middle) == actions(c, before).push(action(x, received)));
        assert(actions(c, events) == actions(c, middle).push(action(y, completed)));
        assert(actions(c, events) =~= seq![ActionView::Nothing] + answer_actions(
            short_id(v.endpoint_id),
            requests.len(),
        ));
    }
}

/// Whoever else is connected, a receiver with a connection of its own is served, and leaves the
/// connections as they were.
pub proof fn law_visit_is_handled(c: ConnectionsView, v: Visit)
    requires
        !c.contains_key(v.connection_id),
        v.requests.len() > 0,
    ensures
        after_run(c, v.events()) == c,
        actions(c, v.events()) == v.handled(),
{
    lemma_answers(c, v, v.requests);
    let id = v.connection_id;
    let opened = ProvideEvent::Connected { connection_id: id, endpoint_id: v.endpoint_id };
    let before = seq![opened] + answer_events(id, v.requests);
    assert(v.events().drop_last() =~= before);
    assert(after_run(c, v.events()) =~= c);
}

/// The events of visits, one after the other.
pub open spec fn visit_events(visits: Seq<Visit>) -> Seq<ProvideEvent>
    decreases visits.len(),
{
    if visits.len() == 0 {
        Seq::empty()
    } else {
        visit_events(visits.drop_last()) + visits.last().events()
    }
}

/// What is done about visits, one after the other.
pub open spec fn visits_handled(visits: Seq<Visit>) -> Seq<ActionView>
    decreases visits.len(),
{
    if visits.len() == 0 {
        Seq::empty()
    } else {
        visits_handled(visits.drop_last()) + visits.last().handled()
    }
}

/// A run in two parts.
proof fn lemma_run_concat(c: ConnectionsView, a: Seq<ProvideEvent>, b: Seq<ProvideEvent>)
    ensures
        after_run(c, a + b) == after_run(after_run(c, a), b),
        actions(c, a + b) == actions(c, a) + actions(after_run(c, a), b),
    decreases b.len(),
{
    if b.len() == 0 {
        assert(a + b =~= a);
        assert(actions(c, a) + actions(after_run(c, a), b) =~= actions(c, a));
    } else {
        lemma_run_concat(c, a, b.drop_last());
        assert((a + b).drop_last() =~= a + b.drop_last());
        assert((a + b).last() == b.last());
        assert(actions(c, a + b) =~= actions(c, a) + actions(after_run(c, a), b));
    }
}

/// Receivers that come one after the other are each served as if it were the first.
pub proof fn law_receivers_are_served_alike(visits: Seq<Visit>)
    requires
        forall|i: int| 0 <= i < visits.len() ==> (#[trigger] visits[i]).requests.len() > 0,
    ensures
        after_run(Map::empty(), visit_events(visits)) == ConnectionsView::empty(),
        actions(Map::empty(), visit_events(visits)) == visits_handled(visits),
    decreases visits.len(),
{
    if visits.len() > 0 {
        let front = visits.drop_last();
        assert(forall|i: int| 0 <= i < front.len() ==> front[i] == visits[i]);
        law_receivers_are_served_alike(front);
        assert(visits[visits.len() - 1] == visits.last());
        law_visit_is_handled(Map::empty(), visits.last());
        lemma_run_concat(Map::empty(), visit_events(front), visits.last().events());
    }
}

/// What the actions report to the sender: each complete transfer.
pub open spec fn reports(all: Seq<ActionView>) -> Seq<ShareEvent>
    decreases all.len(),
{
    if all.len() == 0 {
        Seq::empty()
    } else {
        match all.last() {
            ActionView::Clear { requests, done } => if done {
                reports(all.drop_last()).push(ShareEvent::Complete)
            } else {
                reports(all.drop_last())
            },
            _ => reports(all.drop_last()),
        }
    }
}

/// What a sender does after some events: what it did at the first that made it stop, if any did.
pub open spec fn share_end(args: SendArgs, events: Seq<ShareEvent>) -> ShareStep
    decreases events.len(),
{
    if events.len() == 0 {
        ShareStep::GoOn
    } else {
        match share_end(args, events.drop_last()) {
            ShareStep::GoOn => args.step(events.last()),
            stop => stop,
        }
    }
}

/// The reports of two runs of actions.
proof fn lemma_reports_concat(a: Seq<ActionView>, b: Seq<ActionView>)
    ensures
        reports(a + b) == reports(a) + reports(b),
    decreases b.len(),
{
    if b.len() == 0 {
        assert(a + b =~= a);
        assert(reports(a) + reports(b) =~= reports(a));
    } else {
        lemma_reports_concat(a, b.drop_last());
        assert((a + b).drop_last() =~= a + b.drop_last());
        assert((a + b).last() == b.last());
        assert(reports(a + b) =~= reports(a) + reports(b));
    }
}

/// Showing requests reports nothing.
proof fn lemma_answers_report(endpoint_id: Seq<char>, requests: nat)
    ensures
        reports(answer_actions(endpoint_id, requests)) == Seq::<ShareEvent>::empty(),
    decreases requests,
{
    if requests > 0 {
        lemma_answers_report(endpoint_id, (requests - 1) as nat);
        let front = answer_actions(endpoint_id, (requests - 1) as nat);
        let middle = front.push(ActionView::ShowRequest { endpoint_id });
        assert(middle.drop_last() =~= front);
        assert(reports(middle) == reports(front));
        assert(middle.push(ActionView::Nothing).drop_last() =~= middle);
        assert(reports(middle.push(ActionView::Nothing)) == reports(middle));
    } else {
        assert(reports(answer_actions(endpoint_id, requests)) =~= Seq::<ShareEvent>::empty());
    }
}

/// Each visit reports one complete transfer.
proof fn lemma_visits_report(visits: Seq<Visit>)
    ensures
        reports(visits_handled(visits)) == Seq::new(
            visits.len(),
            |i: int| ShareEvent::Complete,
        ),
    decreases visits.len(),
{
    let all = Seq::new(visits.len(), |i: int| ShareEvent::Complete);
    if visits.len() == 0 {
        assert(reports(visits_handled(visits)) =~= all);
    } else {
        let v = visits.last();
        lemma_visits_report(visits.drop_last());
        lemma_reports_concat(visits_handled(visits.drop_last()), v.handled());
        let answers = answer_actions(short_id(v.endpoint_id), v.requests.len());
        let front = seq![ActionView::Nothing] + answers;
        lemma_answers_report(short_id(v.endpoint_id), v.requests.len());
        lemma_reports_concat(seq![ActionView::Nothing], answers);
        assert(seq![ActionView::Nothing].drop_last() =~= Seq::<ActionView>::empty());
        assert(reports(Seq::<ActionView>::empty()) =~= Seq::<ShareEvent>::empty());
        assert(reports(seq![ActionView::Nothing]) =~= Seq::<ShareEvent>::empty());
        assert(reports(front) =~= Seq::<ShareEvent>::empty());
        assert(v.handled().drop_last() =~= front);
        assert(reports(v.handled()) =~= seq![ShareEvent::Complete]);
        assert(reports(visits_handled(visits)) =~= all);
    }
}

/// Without a stop after the first transfer, no event but an interrupt stops the sender.
pub proof fn law_shares_until_interrupted(args: SendArgs, events: Seq<ShareEvent>)
    requires
        args.nostop || args.bg,
        forall|i: int| 0 <= i < events.len() ==> !((#[trigger] events[i]) is Interrupted),
    ensures
        share_end(args, events) is GoOn,
    decreases events.len(),
{
    if events.len() > 0 {
        let front = events.drop_last();
        assert(forall|i: int| 0 <= i < front.len() ==> front[i] == events[i]);
        law_shares_until_interrupted(args, front);
        assert(!(events[events.len() - 1] is Interrupted));
    }
}

/// Without a stop after the first transfer, the sender goes on however many receivers came one
/// after the other, and each was served as if it were the first.
pub proof fn law_serves_one_after_the_other(args: SendArgs, visits: Seq<Visit>)
    requires
        args.nostop || args.bg,
        forall|i: int| 0 <= i < visits.len() ==> (#[trigger] visits[i]).requests.len() > 0,
    ensures
        ({
            let done = actions(Map::empty(), visit_events(visits));
            &&& done == visits_handled(visits)
            &&& reports(done).len() == visits.len()
            &&& share_end(args, reports(done)) is GoOn
        }),
{
    law_receivers_are_served_alike(visits);
    lemma_visits_report(visits);
    law_shares_until_interrupted(args, reports(visits_handled(visits)));
}

/// A sender that stops after the first transfer does so once the first receiver was served.
pub proof fn law_stops_after_first_receiver(args: SendArgs, visits: Seq<Visit>)
    requires
        !args.nostop,
        !args.bg,
        visits.len() > 0,
        forall|i: int| 0 <= i < visits.len() ==> (#[trigger] visits[i]).requests.len() > 0,
    ensures
        share_end(args, reports(actions(Map::empty(), visit_events(visits)))) == (ShareStep::Stop {
            complete: true,
        }),
    decreases visits.len(),
{
    law_receivers_are_served_alike(visits);
    lemma_visits_report(visits);
    let events = reports(visits_handled(visits));
    let front = visits.drop_last();
    assert(forall|i: int| 0 <= i < front.len() ==> front[i] == visits[i]);
    lemma_visits_report(front);
    assert(events.drop_last() =~= reports(visits_handled(front)));
    if front.len() > 0 {
        law_receivers_are_served_alike(front);
        law_stops_after_first_receiver(args, front);
    } else {
        assert(events.drop_last() =~= Seq::<ShareEvent>::empty());
        assert(share_end(args, events.drop_last()) is GoOn);
    }
}

// ---------------------------------------------------------------------------------------
// Open requests
// ---------------------------------------------------------------------------------------

/// Whether the event is about the given request of the connection.
pub open spec fn is_about(e: ProvideEvent, id: u64, request: u64) -> bool {
    match e {
        ProvideEvent::Received { connection_id, request_id } => connection_id == id && request_id
            == request,
        ProvideEvent::Completed { connection_id, request_id } => connection_id == id && request_id
            == request,
        ProvideEvent::Aborted { connection_id, request_id } => connection_id == id && request_id
            == request,
        _ => false,
    }
}

/// When a connection closes, the bars of those of its requests are cleared of which the last that
/// was heard is that they came in.
pub proof fn law_open_requests_are_cleared(
    events: Seq<ProvideEvent>,
    start: int,
    id: u64,
    request: u64,
)
    requires
        0 <= start < events.len(),
        opens(events[start], id),
        forall|i: int| start < i < events.len() ==> !opens_or_closes(#[trigger] events[i], id),
    ensures
        action(after_all(events), ProvideEvent::Closed { connection_id: id }) matches ActionView::Clear {
            requests,
            ..
        } && (requests.contains(request) <==> exists|i: int|
            start < i < events.len() && is_about(#[trigger] events[i], id, request) && events[i]
                is Received && forall|j: int|
                i < j < events.len() ==> !is_about(#[trigger] events[j], id, request)),
    decreases events.len(),
{
    law_served_after_completion(events, start, id);
    let front = events.drop_last();
    let last = events.last();
    let n = events.len() - 1;
    assert(events[n] == last);
    assert(forall|i: int| 0 <= i < front.len() ==> front[i] == events[i]);
    if start < n {
        law_open_requests_are_cleared(front, start, id, request);
        law_served_after_completion(front, start, id);
        assert(!opens_or_closes(events[n], id));
        let before = after_all(front)[id].requests;
        let now = after_all(events)[id].requests;
        if is_about(last, id, request) {
            if last is Received {
                assert(now.contains(request));
                assert(is_about(events[n], id, request));
            } else {
                assert(!now.contains(request));
            }
        } else {
            assert(now.contains(request) == before.contains(request));
            if before.contains(request) {
                let i = choose|i: int|
                    start < i < front.len() && is_about(#[trigger] front[i], id, request)
                        && front[i] is Received && forall|j: int|
                        i < j < front.len() ==> !is_about(#[trigger] front[j], id, request);
                assert(is_about(events[i], id, request));
                assert forall|j: int| i < j < events.len() implies !is_about(
                    #[trigger] events[j],
                    id,
                    request,
                ) by {
                    if j < front.len() {
                        assert(!is_about(front[j], id, request));
                    }
                }
            }
            if exists|i: int|
                start < i < events.len() && is_about(#[trigger] events[i], id, request)
                    && events[i] is Received && forall|j: int|
                    i < j < events.len() ==> !is_about(#[trigger] events[j], id, request) {
                let i = choose|i: int|
                    start < i < events.len() && is_about(#[trigger] events[i], id, request)
                        && events[i] is Received && forall|j: int|
                        i < j < events.len() ==> !is_about(#[trigger] events[j], id, request);
                assert(i < front.len());
                assert(is_about(front[i], id, request));
                assert forall|j: int| i < j < front.len() implies !is_about(
                    #[trigger] front[j],
                    id,
                    request,
                ) by {
                    assert(!is_about(events[j], id, request));
                }
            }
        }
    } else {
        assert(!after_all(events)[id].requests.contains(request));
    }
}

/// A request is shown for the endpoint that opened its connection, and dropped where no connection
/// is open.
pub proof fn law_request_is_shown(c: ConnectionsView, id: u64, request: u64)
    ensures
        ({
            let e = ProvideEvent::Received { connection_id: id, request_id: request };
            &&& c.contains_key(id) ==> action(c, e) == (ActionView::ShowRequest {
                endpoint_id: c[id].endpoint_id,
            })
            &&& !c.contains_key(id) ==> action(c, e) is UnknownConnection && after(c, e) == c
        }),
{
}

/// The bar of a request has the size of the blob that is sent and stands where the transfer stands,
/// and only the end of a request changes what is known of its connection.
pub proof fn law_request_bar(r: RequestProgress, index: u64, hash: [u8; 32], size: u64, offset: u64)
    ensures
        r.shown(RequestUpdate::Started { index, hash, size }) matches BarView::Start {
            message,
            length,
        } && length == size && message == "n "@ + r.endpoint_id@ + " r "@ + text::decimal(
            r.connection_id as nat,
        ) + "/"@ + text::decimal(r.request_id as nat) + " i "@ + text::decimal(index as nat)
            + " # "@ + digits::hex_lower(hash@.take(5)),
        r.shown(RequestUpdate::Progress { end_offset: offset }) == (BarView::Position {
            position: offset,
        }),
        update_event(
            r.connection_id,
            r.request_id,
            RequestUpdate::Started { index, hash, size },
        ) is None,
        update_event(
            r.connection_id,
            r.request_id,
            RequestUpdate::Progress { end_offset: offset },
        ) is None,
        update_event(r.connection_id, r.request_id, RequestUpdate::Completed) matches Some(e)
            && completes(e, r.connection_id) && is_about(e, r.connection_id, r.request_id),
        update_event(r.connection_id, r.request_id, RequestUpdate::Aborted) matches Some(e)
            && e is Aborted && is_about(e, r.connection_id, r.request_id),
{
}

/// An endpoint goes by the first ten digits of its id.
pub proof fn law_short_id(id: [u8; 32])
    ensures
        short_id(Some(id)).len() == 10,
        short_id(Some(id)).is_prefix_of(digits::hex_lower(id@)),
        short_id(None) == "?"@,
{
    let s = short_id(Some(id));
    assert(s =~= digits::hex_lower(id@).subrange(0, 10));
}

/// What is to be done about a connection is looked at with all that it says.
pub proof fn law_provide_action_view(a: ProvideAction)
    ensures
        a is Nothing ==> a@ is Nothing,
        a is UnknownConnection ==> a@ is UnknownConnection,
        a matches ProvideAction::ShowRequest { endpoint_id } ==> a@ == (ActionView::ShowRequest {
            endpoint_id: endpoint_id@,
        }),
        a matches ProvideAction::Clear { requests, done } ==> a@ == (ActionView::Clear {
            requests: requests@,
            done,
        }),
{
}

/// What a bar shows is looked at with all that it says.
pub proof fn law_bar_view(b: BarChange)
    ensures
        b is Nothing ==> b@ is Nothing,
        b matches BarChange::Start { message, length } ==> b@ == (BarView::Start {
            message: message@,
            length,
        }),
        b matches BarChange::Position { position } ==> b@ == (BarView::Position { position }),
{
}

}

//! The fill feed: from the matcher's channel to the clients that listen.
use vstd::prelude::*;
use vstd::string::*;

verus! {

/// The message that clients get for a fill whose text is `fill`.
pub open spec fn envelope(fill: Seq<char>) -> Seq<char> {
    "{\"data\":"@ + fill + ",\"type\":\"fill\"}"@
}

/// The message for a fill carries the text of the fill, whatever it is, under `data`.
pub proof fn law_message_carries_the_fill(fill: Seq<char>)
    ensures
        envelope(fill).len() == 23int + fill.len(),
        envelope(fill).subrange(0, 8) == seq!['{', '"', 'd', 'a', 't', 'a', '"', ':'],
        envelope(fill).subrange(8, 8int + fill.len()) == fill,
        envelope(fill).subrange(8int + fill.len(), 23int + fill.len()) == seq![
            ',', '"', 't', 'y', 'p', 'e', '"', ':', '"', 'f', 'i', 'l', 'l', '"', '}',
        ],
{
    reveal_strlit("{\"data\":");
    reveal_strlit(",\"type\":\"fill\"}");
    assert(envelope(fill).subrange(8, 8int + fill.len()) =~= fill);
}

/// Messages for different fills differ.
pub proof fn law_messages_of_different_fills_differ(fill: Seq<char>, other: Seq<char>)
    requires
        fill != other,
    ensures
        envelope(fill) != envelope(other),
{
    law_message_carries_the_fill(fill);
    law_message_carries_the_fill(other);
}

/// The message that clients get for a fill.
pub fn fill_envelope(fill: &str) -> (message: String)
    ensures
        message@ == envelope(fill@),
        message@.len() == 23int + fill@.len(),
        message@.subrange(0, 8) == seq!['{', '"', 'd', 'a', 't', 'a', '"', ':'],
        message@.subrange(8, 8int + fill@.len()) == fill@,
        message@.subrange(8int + fill@.len(), 23int + fill@.len()) == seq![
            ',', '"', 't', 'y', 'p', 'e', '"', ':', '"', 'f', 'i', 'l', 'l', '"', '}',
        ],
{
    proof {
        law_message_carries_the_fill(fill@);
    }
    let mut message = String::from_str("{\"data\":");
    message.append(fill);
    message.append(",\"type\":\"fill\"}");
    message
}

/// What comes of the subscription to the channel of fills.
#[derive(Debug)]
pub enum RelayEvent {
    /// A fill, as text.
    Fill(String),
    /// The channel ended.
    Ended,
    /// Connecting, subscribing or reading a message failed.
    Failed,
}

/// What the relay does next.
#[derive(Debug)]
pub enum RelayAction {
    /// Send a message to every client.
    Broadcast(String),
    /// Subscribe again, after so many seconds.
    Resubscribe { delay_secs: u64 },
}

/// Decides what follows an event of the subscription. It never gives up: after a failure it
/// waits a second and subscribes again.
pub fn relay_step(event: RelayEvent) -> (action: RelayAction)
    ensures
        match event {
            RelayEvent::Fill(fill) => action matches RelayAction::Broadcast(message) && message@
                == envelope(fill@),
            RelayEvent::Ended => action == (RelayAction::Resubscribe { delay_secs: 0 }),
            RelayEvent::Failed => action == (RelayAction::Resubscribe { delay_secs: 1 }),
        },
        event matches RelayEvent::Fill(fill) ==> {
            &&& action matches RelayAction::Broadcast(message)
            &&& message@.len() == 23int + fill@.len()
            &&& message@.subrange(0, 8) == seq!['{', '"', 'd', 'a', 't', 'a', '"', ':']
            &&& message@.subrange(8, 8int + fill@.len()) == fill@
            &&& message@.subrange(8int + fill@.len(), 23int + fill@.len()) == seq![
            ',', '"', 't', 'y', 'p', 'e', '"', ':', '"', 'f', 'i', 'l', 'l', '"', '}',
        ]
        },
{
    match event {
        RelayEvent::Fill(fill) => RelayAction::Broadcast(fill_envelope(fill.as_str())),
        RelayEvent::Ended => RelayAction::Resubscribe { delay_secs: 0 },
        RelayEvent::Failed => RelayAction::Resubscribe { delay_secs: 1 },
    }
}

/// What comes to a client's session.
#[derive(Debug)]
pub enum SessionEvent {
    /// A message for the client.
    Message(String),
    /// The client closes.
    Close,
    /// The client pings, with this payload.
    Ping(Vec<u8>),
    /// The client sends anything else.
    Other,
    /// Neither messages nor anything of the client will come any more.
    Exhausted,
}

/// What a session does next.
#[derive(Debug)]
pub enum SessionAction {
    SendText(String),
    SendPong(Vec<u8>),
    Wait,
    Stop,
}

/// Whether an event ends a session.
pub open spec fn ends(event: SessionEvent) -> bool {
    event is Close || event is Exhausted
}

/// What a session does on an event: a message is passed on as it is, and a ping is answered with
/// its own payload. A session that is not open does nothing more.
pub open spec fn action_for(open: bool, event: SessionEvent) -> SessionAction {
    if !open {
        SessionAction::Stop
    } else {
        match event {
            SessionEvent::Message(text) => SessionAction::SendText(text),
            SessionEvent::Ping(payload) => SessionAction::SendPong(payload),
            SessionEvent::Other => SessionAction::Wait,
            SessionEvent::Close | SessionEvent::Exhausted => SessionAction::Stop,
        }
    }
}

/// The session of one client.
#[derive(Debug)]
pub struct Session {
    open: bool,
}

impl Session {
    /// Whether the session goes on.
    pub closed spec fn is_open(&self) -> bool {
        self.open
    }

    /// The session of a client that has just connected.
    pub fn new() -> (session: Session)
        ensures
            session.is_open(),
    {
        Session { open: true }
    }

    /// Whether the session goes on.
    pub fn open(&self) -> (open: bool)
        ensures
            open == self.is_open(),
    {
        self.open
    }

    /// Decides what an event asks for.
    pub fn on_event(&mut self, event: SessionEvent) -> (action: SessionAction)
        ensures
            action == action_for(old(self).is_open(), event),
            final(self).is_open() == (old(self).is_open() && !ends(event)),
            !old(self).is_open() ==> action is Stop && !final(self).is_open(),
            old(self).is_open() ==> match event {
                SessionEvent::Message(text) => {
                    &&& action == SessionAction::SendText(text)
                    &&& final(self).is_open()
                },
                SessionEvent::Ping(payload) => {
                    &&& action == SessionAction::SendPong(payload)
                    &&& final(self).is_open()
                },
                SessionEvent::Other => action is Wait && final(self).is_open(),
                SessionEvent::Close => action is Stop && !final(self).is_open(),
                SessionEvent::Exhausted => action is Stop && !final(self).is_open(),
            },
    {
        if !self.open {
            return SessionAction::Stop;
        }
        match event {
            SessionEvent::Message(text) => SessionAction::SendText(text),
            SessionEvent::Ping(payload) => SessionAction::SendPong(payload),
            SessionEvent::Other => SessionAction::Wait,
            SessionEvent::Close | SessionEvent::Exhausted => {
                self.open = false;
                SessionAction::Stop
            },
        }
    }

    /// Takes note of whether a message reached the client: one that did not ends the session.
    pub fn text_sent(&mut self, delivered: bool)
        ensures
            final(self).is_open() == (old(self).is_open() && delivered),
    {
        if !delivered {
            self.open = false;
        }
    }
}

/// Whether a session goes on after an event, where `delivered` tells whether a message that it
/// asked to send reached the client.
pub open spec fn goes_on(open: bool, event: SessionEvent, delivered: bool) -> bool {
    open && !ends(event) && (action_for(open, event) is SendText ==> delivered)
}

/// The texts that a session sends on `events`, each with whether what it sends is delivered.
pub open spec fn texts_sent(open: bool, events: Seq<(SessionEvent, bool)>) -> Seq<Seq<char>>
    decreases events.len(),
{
    if events.len() == 0 {
        Seq::empty()
    } else {
        let (event, delivered) = events[0];
        let rest = texts_sent(goes_on(open, event, delivered), events.drop_first());
        match action_for(open, event) {
            SessionAction::SendText(text) => seq![text@] + rest,
            _ => rest,
        }
    }
}

/// The texts of the messages in `events`.
pub open spec fn messages(events: Seq<(SessionEvent, bool)>) -> Seq<Seq<char>>
    decreases events.len(),
{
    if events.len() == 0 {
        Seq::empty()
    } else {
        let rest = messages(events.drop_first());
        match events[0].0 {
            SessionEvent::Message(text) => seq![text@] + rest,
            _ => rest,
        }
    }
}

proof fn lemma_closed_session_is_silent(events: Seq<(SessionEvent, bool)>)
    ensures
        texts_sent(false, events) == Seq::<Seq<char>>::empty(),
    decreases events.len(),
{
    if events.len() > 0 {
        lemma_closed_session_is_silent(events.drop_first());
    }
}

/// A client gets the messages in order, unaltered and without a gap, for as long as its session
/// lasts; and all of them if nothing ends it.
pub proof fn law_messages_are_relayed_in_order(events: Seq<(SessionEvent, bool)>)
    ensures
        texts_sent(true, events).is_prefix_of(messages(events)),
        (forall|i: int|
            0 <= i < events.len() ==> goes_on(true, (#[trigger] events[i]).0, events[i].1))
            ==> texts_sent(true, events) == messages(events),
    decreases events.len(),
{
    if events.len() > 0 {
        let (event, delivered) = events[0];
        let rest = events.drop_first();
        if goes_on(true, event, delivered) {
            law_messages_are_relayed_in_order(rest);
            assert(forall|i: int| 0 <= i < rest.len() ==> #[trigger] rest[i] == events[i + 1]);
        } else {
            lemma_closed_session_is_silent(rest);
            assert(events[0] == (event, delivered));
        }
    }
}

/// When a session goes on: it was open, the client did not close, something can still come, and
/// a message that was to be sent was delivered.
pub proof fn law_session_goes_on(open: bool, event: SessionEvent, delivered: bool)
    ensures
        goes_on(open, event, delivered) <==> {
            &&& open
            &&& !(event is Close)
            &&& !(event is Exhausted)
            &&& event is Message ==> delivered
        },
{
}

/// What an open session does: a message goes out with its own text, a ping is answered with its
/// own payload, and the session stops exactly if the client closes or nothing can come any more.
/// A session that is not open does nothing but stop.
pub proof fn law_session_answers(event: SessionEvent, text: String, payload: Vec<u8>)
    ensures
        action_for(true, event) == SessionAction::SendText(text) <==> event
            == SessionEvent::Message(text),
        action_for(true, event) == SessionAction::SendPong(payload) <==> event
            == SessionEvent::Ping(payload),
        action_for(true, event) is Wait <==> event is Other,
        action_for(true, event) is Stop <==> event is Close || event is Exhausted,
        action_for(false, event) is Stop,
{
}

proof fn lemma_messages(events: Seq<(SessionEvent, bool)>)
    ensures
        messages(events) == events.filter(|e: (SessionEvent, bool)| e.0 is Message).map_values(
            |e: (SessionEvent, bool)| e.0->Message_0@,
        ),
    decreases events.len(),
{
    let is_message = |e: (SessionEvent, bool)| e.0 is Message;
    let text_of = |e: (SessionEvent, bool)| e.0->Message_0@;
    if events.len() == 0 {
        reveal(Seq::filter);
        assert(events.filter(is_message).map_values(text_of) =~= Seq::<Seq<char>>::empty());
    } else {
        let first = seq![events[0]];
        let rest = events.drop_first();
        lemma_messages(rest);
        assert(events =~= first + rest);
        Seq::filter_distributes_over_add(first, rest, is_message);
        assert(first.drop_last() =~= Seq::empty());
        assert(first.filter(is_message) =~= if is_message(events[0]) {
            first
        } else {
            Seq::empty()
        }) by {
            reveal(Seq::filter);
            reveal_with_fuel(Seq::filter, 2);
        }
        assert(messages(events) =~= events.filter(is_message).map_values(text_of));
    }
}

/// As long as the client does not close, something can still come and everything sent is
/// delivered, the client gets the text of every message, unaltered and in order, and nothing else.
pub proof fn law_every_message_is_relayed(events: Seq<(SessionEvent, bool)>)
    requires
        forall|i: int|
            0 <= i < events.len() ==> !((#[trigger] events[i]).0 is Close)
                && !(events[i].0 is Exhausted) && events[i].1,
    ensures
        texts_sent(true, events) == events.filter(
            |e: (SessionEvent, bool)| e.0 is Message,
        ).map_values(|e: (SessionEvent, bool)| e.0->Message_0@),
{
    assert forall|i: int| 0 <= i < events.len() implies goes_on(
        true,
        (#[trigger] events[i]).0,
        events[i].1,
    ) by {
        law_session_goes_on(true, events[i].0, events[i].1);
    }
    law_messages_are_relayed_in_order(events);
    lemma_messages(events);
}

/// Once the client closes, nothing can come any more or a message is not delivered, no further
/// text is sent.
pub proof fn law_nothing_is_sent_after_the_end(
    before: Seq<(SessionEvent, bool)>,
    event: SessionEvent,
    delivered: bool,
    after: Seq<(SessionEvent, bool)>,
)
    requires
        event is Close || event is Exhausted || (event is Message && !delivered),
    ensures
        texts_sent(true, before.push((event, delivered)) + after) == texts_sent(
            true,
            before.push((event, delivered)),
        ),
    decreases before.len(),
{
    let start = before.push((event, delivered));
    let all = start + after;
    if before.len() == 0 {
        assert(all.drop_first() =~= after);
        assert(start.drop_first() =~= Seq::empty());
        lemma_closed_session_is_silent(after);
        lemma_closed_session_is_silent(Seq::empty());
    } else {
        let rest = before.drop_first();
        assert(start.drop_first() =~= rest.push((event, delivered)));
        assert(all.drop_first() =~= rest.push((event, delivered)) + after);
        assert(all[0] == before[0] && start[0] == before[0]);
        law_nothing_is_sent_after_the_end(rest, event, delivered, after);
        lemma_closed_session_is_silent(start.drop_first());
        lemma_closed_session_is_silent(all.drop_first());
    }
}

} // verus!

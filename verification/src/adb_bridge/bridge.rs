//! Serving one `adb connect` client once it is authenticated: multiplexing its
//! streams.
//!
//! After the handshake ADB is a stream multiplexer over a single socket. Each
//! `OPEN` names a service (`shell:`, `sync:`, `tcp:8080`), and every service the
//! client can name, the provider's own adb server can open on the device. So the
//! bridge does not implement `shell` or `sync` or anything else: it opens the
//! same service upstream and copies bytes.

use crate::adb_bridge::message;
use crate::adb_bridge::message::{Command, Message};
use crate::text;
use bytes::Bytes;
use std::collections::HashMap;
use std::collections::VecDeque;
use vstd::prelude::*;
use vstd::string::*;

verus! {

broadcast use vstd::std_specs::hash::group_hash_axioms;

/// The service name that a refusal applies to, if `service` is one of those that
/// change a device in ways that outlive the session.
///
/// `root:` and `unroot:` restart `adbd`, taking the provider's own transport and
/// the live screen stream with it, and leave the next person a rooted phone.
/// `remount:` makes /system writable and stays that way until a reboot.
/// Everything else is passed through untouched, including `shell:su -c …` on a
/// device that genuinely has `su`.
pub open spec fn refused_name(service: Seq<char>) -> Option<Seq<char>> {
    let name = service.take(text::find(service, ':'));
    if name == "root"@ || name == "unroot"@ || name == "remount"@ {
        Some(name)
    } else {
        None
    }
}

/// The service name that a refusal applies to, if this is one.
pub fn refused(service: &str) -> (name: Option<&'static str>)
    ensures
        match name {
            Some(name) => refused_name(service@) == Some(name@),
            None => refused_name(service@) is None,
        },
{
    let chars = text::chars_of(service);
    let at: usize = text::found(&chars, ':');
    let name = &chars[0..at];
    assert(name@ =~= service@.take(at as int));
    if text::reads(name, "root") {
        Some("root")
    } else if text::reads(name, "unroot") {
        Some("unroot")
    } else if text::reads(name, "remount") {
        Some("remount")
    } else {
        None
    }
}

/// Why a service is refused, in words. A bare `CLSE` would make `adb root` print
/// nothing at all.
pub open spec fn refusal_text(name: Seq<char>) -> Seq<char> {
    "adb "@ + name
        + " is not available on a farm device: it changes the device for whoever has it next.\n"@
}

/// How many of a client's writes may wait on one stream before the client is not
/// heard any more.
pub const QUEUE: usize = 8;

/// One stream of a session.
pub struct Stream {
    /// The client's id for the stream.
    remote: u32,
    /// How many writes the client will take. ADB allows one unacknowledged write
    /// in flight per stream.
    permits: u64,
    /// What the device said and the client was not sent yet.
    held: Option<Vec<u8>>,
    /// What the client wrote and the device was not handed yet.
    waiting: VecDeque<Bytes>,
    /// Whether the device is being handed a write.
    delivering: bool,
    /// Whether the device's side has ended.
    ended: bool,
    /// Whether the client was told that the stream is closed.
    closed: bool,
}

/// The state of one stream.
#[verifier::ext_equal]
pub struct StreamView {
    pub remote: u32,
    pub permits: int,
    pub held: Option<Seq<u8>>,
    pub waiting: Seq<Seq<u8>>,
    pub delivering: bool,
    pub ended: bool,
    pub closed: bool,
}

/// The bytes of what waits.
pub open spec fn payloads(waiting: Seq<Bytes>) -> Seq<Seq<u8>> {
    waiting.map_values(|payload: Bytes| message::bytes_held(payload))
}

impl View for Stream {
    type V = StreamView;

    closed spec fn view(&self) -> StreamView {
        StreamView {
            remote: self.remote,
            permits: self.permits as int,
            held: match self.held {
                Some(chunk) => Some(chunk@),
                None => None,
            },
            waiting: payloads(self.waiting@),
            delivering: self.delivering,
            ended: self.ended,
            closed: self.closed,
        }
    }
}

/// What a session wants done, in this order.
pub enum Action {
    /// Somebody is driving this device.
    Activity,
    /// Send a message to the client.
    Send(Message),
    /// Open a service on the device, and say how that went.
    Open { local: u32, remote: u32, service: String },
    /// Copy what the device says on this stream from now on.
    Start { local: u32 },
    /// Write to the device, and say when it is done.
    Deliver { local: u32, payload: Bytes },
    /// Drop the device's side of a stream.
    Abort { local: u32 },
}

/// What a session wants done.
pub enum ActionView {
    Activity,
    Send(message::MessageView),
    Open { local: u32, remote: u32, service: Seq<char> },
    Start { local: u32 },
    Deliver { local: u32, payload: Seq<u8> },
    Abort { local: u32 },
}

impl View for Action {
    type V = ActionView;

    open spec fn view(&self) -> ActionView {
        match *self {
            Action::Activity => ActionView::Activity,
            Action::Send(message) => ActionView::Send(message@),
            Action::Open { local, remote, service } => ActionView::Open {
                local,
                remote,
                service: service@,
            },
            Action::Start { local } => ActionView::Start { local },
            Action::Deliver { local, payload } => ActionView::Deliver {
                local,
                payload: message::bytes_held(payload),
            },
            Action::Abort { local } => ActionView::Abort { local },
        }
    }
}

/// What a session wants done.
pub open spec fn action_views(actions: Seq<Action>) -> Seq<ActionView> {
    actions.map_values(|action: Action| action@)
}

/// A message without payload.
pub open spec fn bare(command: Command, local: u32, remote: u32) -> ActionView {
    ActionView::Send(
        message::MessageView { command, arg0: local, arg1: remote, payload: Seq::empty() },
    )
}

/// A message that carries stream payload.
pub open spec fn write_of(local: u32, remote: u32, payload: Seq<u8>) -> ActionView {
    ActionView::Send(
        message::MessageView { command: Command::Wrte, arg0: local, arg1: remote, payload },
    )
}

/// One authenticated client.
pub struct Session {
    streams: HashMap<u32, Stream>,
    next_id: u32,
}

/// The state of a session.
#[verifier::ext_equal]
pub struct SessionView {
    /// The streams by our id for each.
    pub streams: Map<u32, StreamView>,
    /// Our id for the next stream.
    pub next_id: u32,
}

impl View for Session {
    type V = SessionView;

    closed spec fn view(&self) -> SessionView {
        SessionView {
            streams: self.streams@.map_values(|stream: Stream| stream@),
            next_id: self.next_id,
        }
    }
}

/// What can happen on an open stream.
pub enum StreamEvent {
    /// The device said something.
    Spoke(Seq<u8>),
    /// The client acknowledged a write.
    Acknowledged,
    /// The client wrote something.
    Wrote(Seq<u8>),
    /// The device has what it was handed.
    Delivered,
    /// The device would not have what it was handed.
    Undelivered,
    /// The device's side ended.
    Ended,
}

impl StreamView {
    /// A stream that was just opened.
    pub open spec fn fresh(remote: u32) -> StreamView {
        StreamView {
            remote,
            permits: 1,
            held: None,
            waiting: Seq::empty(),
            delivering: false,
            ended: false,
            closed: false,
        }
    }

    /// Whether what the device says is taken: one chunk at a time, until its side
    /// has ended.
    pub open spec fn takes(self) -> bool {
        !self.ended && !self.closed && self.held is None
    }

    /// The stream with what is held sent, where the client will take it.
    pub open spec fn sending(self, local: u32) -> (StreamView, Seq<ActionView>) {
        match self.held {
            Some(chunk) if self.permits > 0 => (
                StreamView { permits: self.permits - 1, held: None, ..self },
                seq![write_of(local, self.remote, chunk)],
            ),
            _ => (self, Seq::empty()),
        }
    }

    /// The stream and the actions once it goes on as far as it can. While the
    /// device is being handed a write, nothing else happens. Otherwise what the
    /// device said goes first, as soon as the client will take it, and until then
    /// nothing is handed to the device. Then a stream whose device side has ended
    /// is closed, and on any other the next write is handed on.
    pub open spec fn proceeding(self, local: u32) -> (StreamView, Seq<ActionView>) {
        let (sent, actions) = self.sending(local);
        if self.delivering || self.closed {
            (self, Seq::empty())
        } else if sent.held is Some {
            (sent, actions)
        } else if sent.ended {
            (
                StreamView { closed: true, waiting: Seq::empty(), ..sent },
                actions.push(bare(Command::Clse, local, self.remote)),
            )
        } else if sent.waiting.len() > 0 {
            (
                StreamView { delivering: true, waiting: sent.waiting.drop_first(), ..sent },
                actions.push(ActionView::Deliver { local, payload: sent.waiting[0] }),
            )
        } else {
            (sent, actions)
        }
    }

    /// The stream and the actions after something happened on it.
    pub open spec fn after(self, local: u32, event: StreamEvent) -> (StreamView, Seq<ActionView>) {
        match event {
            StreamEvent::Spoke(chunk) => if self.takes() {
                (StreamView { held: Some(chunk), ..self }).proceeding(local)
            } else {
                (self, Seq::empty())
            },
            StreamEvent::Acknowledged => (StreamView {
                permits: if self.permits == u64::MAX {
                    self.permits
                } else {
                    self.permits + 1
                },
                ..self
            }).proceeding(local),
            StreamEvent::Wrote(payload) => if self.closed {
                (self, Seq::empty())
            } else {
                (StreamView { waiting: self.waiting.push(payload), ..self }).proceeding(local)
            },
            StreamEvent::Delivered => if self.delivering {
                let (after, actions) = (StreamView { delivering: false, ..self }).proceeding(local);
                (after, seq![bare(Command::Okay, local, self.remote)] + actions)
            } else {
                (self, Seq::empty())
            },
            StreamEvent::Undelivered => if self.delivering {
                (StreamView { delivering: false, ended: true, ..self }).proceeding(local)
            } else {
                (self, Seq::empty())
            },
            StreamEvent::Ended => (StreamView { ended: true, ..self }).proceeding(local),
        }
    }
}

impl SessionView {
    /// Our id for the stream after the next.
    pub open spec fn id_after(self) -> u32 {
        if self.next_id == u32::MAX {
            0
        } else {
            (self.next_id + 1) as u32
        }
    }

    /// The state and the actions after the client asked for a service. A refused
    /// one is accepted, told why, and closed.
    pub open spec fn opening(self, remote: u32, service: Seq<char>) -> (
        SessionView,
        Seq<ActionView>,
    ) {
        let local = self.next_id;
        let after = SessionView { next_id: self.id_after(), ..self };
        match refused_name(service) {
            Some(name) => (
                after,
                seq![
                    ActionView::Activity,
                    bare(Command::Okay, local, remote),
                    write_of(local, remote, vstd::utf8::encode_utf8(refusal_text(name))),
                    bare(Command::Clse, local, remote),
                ],
            ),
            None => (
                after,
                seq![ActionView::Activity, ActionView::Open { local, remote, service }],
            ),
        }
    }

    /// The state and the actions once it is known whether a service opened. A
    /// failure closes that stream alone: `CLSE` with a zero local id is how
    /// `adbd` says "no such service".
    pub open spec fn opened(self, local: u32, remote: u32, ok: bool) -> (
        SessionView,
        Seq<ActionView>,
    ) {
        if ok {
            (
                SessionView {
                    streams: self.streams.insert(local, StreamView::fresh(remote)),
                    ..self
                },
                seq![bare(Command::Okay, local, remote), ActionView::Start { local }],
            )
        } else {
            (self, seq![bare(Command::Clse, 0, remote)])
        }
    }

    /// The state and the actions after something happened on a stream.
    pub open spec fn on_stream(self, local: u32, event: StreamEvent) -> (
        SessionView,
        Seq<ActionView>,
    ) {
        if self.streams.contains_key(local) {
            let (stream, actions) = self.streams[local].after(local, event);
            (SessionView { streams: self.streams.insert(local, stream), ..self }, actions)
        } else {
            (self, Seq::empty())
        }
    }

    /// The state and the actions after the client wrote to a stream. One that is
    /// closed is dropped.
    pub open spec fn writing(self, local: u32, payload: Seq<u8>) -> (
        SessionView,
        Seq<ActionView>,
    ) {
        if self.streams.contains_key(local) && self.streams[local].closed {
            (
                self.closing(local).0,
                seq![ActionView::Activity, ActionView::Abort { local }],
            )
        } else {
            let (after, actions) = self.on_stream(local, StreamEvent::Wrote(payload));
            (after, seq![ActionView::Activity] + actions)
        }
    }

    /// The state and the actions after the client acknowledged a write.
    pub open spec fn acknowledging(self, local: u32) -> (SessionView, Seq<ActionView>) {
        self.on_stream(local, StreamEvent::Acknowledged)
    }

    /// The state and the actions after a stream was closed.
    pub open spec fn closing(self, local: u32) -> (SessionView, Seq<ActionView>) {
        if self.streams.contains_key(local) {
            (
                SessionView { streams: self.streams.remove(local), ..self },
                seq![ActionView::Abort { local }],
            )
        } else {
            (self, Seq::empty())
        }
    }

    /// The state and the actions after one message from the client. Anything
    /// that makes no sense after the handshake is ignored.
    pub open spec fn hearing(self, said: message::MessageView) -> (SessionView, Seq<ActionView>) {
        match said.command {
            Command::Open => self.opening(said.arg0, message::payload_text(said.payload)),
            Command::Wrte => self.writing(said.arg1, said.payload),
            Command::Okay => self.acknowledging(said.arg1),
            Command::Clse => self.closing(said.arg1),
            _ => (self, Seq::empty()),
        }
    }

    /// Whether the device may be asked what it says on a stream: it is handed
    /// nothing and nothing that it said is held.
    pub open spec fn may_read(self, local: u32) -> bool {
        self.streams.contains_key(local) && self.streams[local].takes()
            && !self.streams[local].delivering
    }

    /// Whether the client may be heard on after it wrote to a stream. Where the
    /// device is slower than the client, not hearing it is the backpressure.
    pub open spec fn has_room(self, local: u32) -> bool {
        self.streams.contains_key(local) ==> self.streams[local].waiting.len() <= QUEUE
    }

    /// The state and the actions after the device said something on a stream.
    pub open spec fn speaking(self, local: u32, chunk: Seq<u8>) -> (SessionView, Seq<ActionView>) {
        self.on_stream(local, StreamEvent::Spoke(chunk))
    }

    /// The state and the actions once the device has what the client wrote.
    pub open spec fn delivered(self, local: u32) -> (SessionView, Seq<ActionView>) {
        self.on_stream(local, StreamEvent::Delivered)
    }

    /// The state and the actions once the device would not have what the client
    /// wrote.
    pub open spec fn failing(self, local: u32) -> (SessionView, Seq<ActionView>) {
        self.on_stream(local, StreamEvent::Undelivered)
    }

    /// The state and the actions after the device's side of a stream ended. The
    /// client has to be told, or `adb shell` sits at a prompt that will never
    /// answer again.
    pub open spec fn ending(self, local: u32) -> (SessionView, Seq<ActionView>) {
        self.on_stream(local, StreamEvent::Ended)
    }
}

impl Stream {
    fn send_held(&mut self, local: u32, actions: &mut Vec<Action>)
        ensures
            final(self)@ == old(self)@.sending(local).0,
            action_views(final(actions)@) == action_views(old(actions)@) + old(self)@.sending(
                local,
            ).1,
    {
        let ghost before = action_views(actions@);
        if self.permits > 0 {
            match self.held.take() {
                Some(chunk) => {
                    let ghost one = write_of(local, self.remote, chunk@);
                    self.permits = self.permits - 1;
                    actions.push(
                        Action::Send(Message::new(Command::Wrte, local, self.remote, chunk)),
                    );
                    assert(action_views(actions@) =~= before.push(one));
                },
                None => {},
            }
        }
        assert(action_views(actions@) =~= before + old(self)@.sending(local).1);
    }

    fn proceed(&mut self, local: u32, actions: &mut Vec<Action>)
        ensures
            final(self)@ == old(self)@.proceeding(local).0,
            action_views(final(actions)@) == action_views(old(actions)@) + old(self)@.proceeding(
                local,
            ).1,
    {
        let ghost before = action_views(actions@);
        let ghost goal = self@.proceeding(local);
        if self.delivering || self.closed {
            assert(before + goal.1 =~= before);
            return;
        }
        self.send_held(local, actions);
        if self.held.is_some() {
            return;
        }
        let ghost sent = action_views(actions@);
        if self.ended {
            self.closed = true;
            self.waiting = VecDeque::new();
            assert(self@.waiting =~= Seq::<Seq<u8>>::empty());
            actions.push(Action::Send(Message::empty(Command::Clse, local, self.remote)));
            assert(action_views(actions@) =~= sent.push(bare(Command::Clse, local, self.remote)));
            assert(action_views(actions@) =~= before + goal.1);
        } else {
            let ghost all = self.waiting@;
            match self.waiting.pop_front() {
                Some(payload) => {
                    assert(payloads(self.waiting@) =~= payloads(all).drop_first());
                    let ghost one = ActionView::Deliver {
                        local,
                        payload: message::bytes_held(payload),
                    };
                    self.delivering = true;
                    actions.push(Action::Deliver { local, payload });
                    assert(action_views(actions@) =~= sent.push(one));
                    assert(action_views(actions@) =~= before + goal.1);
                },
                None => {},
            }
        }
    }
}

impl Session {
    pub fn new() -> (session: Self)
        ensures
            session@ == (SessionView { streams: Map::empty(), next_id: 1 }),
    {
        let session = Session { streams: HashMap::new(), next_id: 1 };
        assert(session@.streams =~= Map::empty());
        session
    }

    fn take_id(&mut self) -> (local: u32)
        ensures
            local == old(self)@.next_id,
            final(self)@ == (SessionView { next_id: old(self)@.id_after(), ..old(self)@ }),
    {
        let local: u32 = self.next_id;
        self.next_id = if local == u32::MAX {
            0
        } else {
            local + 1
        };
        local
    }

    fn put(&mut self, local: u32, stream: Stream)
        ensures
            final(self)@ == (SessionView {
                streams: old(self)@.streams.insert(local, stream@),
                ..old(self)@
            }),
    {
        self.streams.insert(local, stream);
        assert(self@.streams =~= old(self)@.streams.insert(local, stream@));
    }

    fn take(&mut self, local: u32) -> (stream: Option<Stream>)
        ensures
            match stream {
                Some(stream) => old(self)@.streams.contains_key(local)
                    && old(self)@.streams[local] == stream@ && final(self)@ == (SessionView {
                    streams: old(self)@.streams.remove(local),
                    ..old(self)@
                }),
                None => !old(self)@.streams.contains_key(local) && final(self)@ == old(self)@,
            },
    {
        let taken = self.streams.remove(&local);
        assert(self@.streams =~= old(self)@.streams.remove(local));
        assert(taken is None ==> self@.streams =~= old(self)@.streams);
        taken
    }

    /// Take one message from the client, and say what is to be done.
    pub fn on_message(&mut self, said: Message) -> (actions: Vec<Action>)
        ensures
            final(self)@ == old(self)@.hearing(said@).0,
            action_views(actions@) == old(self)@.hearing(said@).1,
    {
        match said.command {
            Command::Open => self.on_open(said.arg0, said.payload_str()),
            Command::Wrte => self.on_write(said.arg1, said.payload),
            Command::Okay => self.on_okay(said.arg1),
            Command::Clse => self.on_close(said.arg1),
            // A second CNXN, or a TLS offer we never advertised. Ignoring beats
            // dropping a working connection over a stray frame.
            _ => {
                let actions: Vec<Action> = Vec::new();
                assert(action_views(actions@) =~= Seq::<ActionView>::empty());
                actions
            },
        }
    }

    /// The client wants a service. `remote` is its id for the stream.
    pub fn on_open(&mut self, remote: u32, service: String) -> (actions: Vec<Action>)
        ensures
            final(self)@ == old(self)@.opening(remote, service@).0,
            action_views(actions@) == old(self)@.opening(remote, service@).1,
    {
        let ghost before = self@;
        let ghost wanted = service@;
        let mut actions: Vec<Action> = Vec::new();
        actions.push(Action::Activity);
        let name = refused(service.as_str());
        let local: u32 = self.take_id();
        match name {
            Some(name) => {
                let mut why = String::new();
                why.append("adb ");
                why.append(name);
                why.append(
                    " is not available on a farm device: it changes the device for whoever has it next.\n",
                );
                assert(why@ =~= refusal_text(name@));
                actions.push(Action::Send(Message::empty(Command::Okay, local, remote)));
                actions.push(
                    Action::Send(
                        Message::new(Command::Wrte, local, remote, text::utf8_of(why.as_str())),
                    ),
                );
                actions.push(Action::Send(Message::empty(Command::Clse, local, remote)));
            },
            None => {
                actions.push(Action::Open { local, remote, service });
            },
        }
        assert(action_views(actions@) =~= before.opening(remote, wanted).1);
        actions
    }

    /// Whether the service that was to be opened did.
    pub fn on_opened(&mut self, local: u32, remote: u32, ok: bool) -> (actions: Vec<Action>)
        ensures
            final(self)@ == old(self)@.opened(local, remote, ok).0,
            action_views(actions@) == old(self)@.opened(local, remote, ok).1,
    {
        let mut actions: Vec<Action> = Vec::new();
        if ok {
            // `OKAY` is what tells the client the stream exists and which id to
            // use for it, so it goes out before anything the service says.
            actions.push(Action::Send(Message::empty(Command::Okay, local, remote)));
            actions.push(Action::Start { local });
            let stream = Stream {
                remote,
                permits: 1,
                held: None,
                waiting: VecDeque::new(),
                delivering: false,
                ended: false,
                closed: false,
            };
            assert(stream@ =~= StreamView::fresh(remote));
            self.put(local, stream);
        } else {
            actions.push(Action::Send(Message::empty(Command::Clse, 0, remote)));
        }
        assert(action_views(actions@) =~= old(self)@.opened(local, remote, ok).1);
        actions
    }

    /// The client wrote to a stream.
    pub fn on_write(&mut self, local: u32, payload: Bytes) -> (actions: Vec<Action>)
        ensures
            final(self)@ == old(self)@.writing(local, message::bytes_held(payload)).0,
            action_views(actions@) == old(self)@.writing(local, message::bytes_held(payload)).1,
    {
        let ghost carried = message::bytes_held(payload);
        let mut actions: Vec<Action> = Vec::new();
        actions.push(Action::Activity);
        match self.take(local) {
            Some(mut stream) => {
                if stream.closed {
                    actions.push(Action::Abort { local });
                } else {
                    let ghost all = stream.waiting@;
                    stream.waiting.push_back(payload);
                    assert(payloads(stream.waiting@) =~= payloads(all).push(carried));
                    stream.proceed(local, &mut actions);
                    self.put(local, stream);
                    assert(self@.streams =~= old(self)@.writing(local, carried).0.streams);
                }
            },
            None => {},
        }
        assert(action_views(actions@) =~= old(self)@.writing(local, carried).1);
        actions
    }

    /// The client acknowledged our write and will take another.
    pub fn on_okay(&mut self, local: u32) -> (actions: Vec<Action>)
        ensures
            final(self)@ == old(self)@.acknowledging(local).0,
            action_views(actions@) == old(self)@.acknowledging(local).1,
    {
        let mut actions: Vec<Action> = Vec::new();
        match self.take(local) {
            Some(mut stream) => {
                if stream.permits < u64::MAX {
                    stream.permits = stream.permits + 1;
                }
                stream.proceed(local, &mut actions);
                self.put(local, stream);
                assert(self@.streams =~= old(self)@.acknowledging(local).0.streams);
            },
            None => {},
        }
        assert(action_views(actions@) =~= old(self)@.acknowledging(local).1);
        actions
    }

    /// The client closed a stream.
    pub fn on_close(&mut self, local: u32) -> (actions: Vec<Action>)
        ensures
            final(self)@ == old(self)@.closing(local).0,
            action_views(actions@) == old(self)@.closing(local).1,
    {
        let mut actions: Vec<Action> = Vec::new();
        match self.take(local) {
            Some(_) => {
                actions.push(Action::Abort { local });
            },
            None => {},
        }
        assert(action_views(actions@) =~= old(self)@.closing(local).1);
        actions
    }

    /// The client is gone: no stream is left.
    pub fn close_all(&mut self)
        ensures
            final(self)@ == (SessionView { streams: Map::empty(), ..old(self)@ }),
    {
        self.streams.clear();
        assert(self@.streams =~= Map::empty());
    }

    /// Whether the device may be asked what it says on a stream.
    pub fn may_read(&self, local: u32) -> (may: bool)
        ensures
            may == self@.may_read(local),
    {
        match self.streams.get(&local) {
            Some(stream) => !stream.ended && !stream.closed && stream.held.is_none()
                && !stream.delivering,
            None => false,
        }
    }

    /// Whether the client may be heard on after it wrote to a stream.
    pub fn has_room(&self, local: u32) -> (room: bool)
        ensures
            room == self@.has_room(local),
    {
        match self.streams.get(&local) {
            Some(stream) => {
                assert(self@.streams[local] == stream@);
                assert(stream@.waiting.len() == stream.waiting@.len());
                stream.waiting.len() <= QUEUE
            },
            None => true,
        }
    }

    /// The device said something on a stream.
    pub fn on_device_data(&mut self, local: u32, chunk: Vec<u8>) -> (actions: Vec<Action>)
        ensures
            final(self)@ == old(self)@.speaking(local, chunk@).0,
            action_views(actions@) == old(self)@.speaking(local, chunk@).1,
    {
        let ghost said = chunk@;
        let mut actions: Vec<Action> = Vec::new();
        match self.take(local) {
            Some(mut stream) => {
                // Taking the permit before sending is what stops a chatty `logcat`
                // from burying a client that has not caught up.
                if !stream.ended && !stream.closed && stream.held.is_none() {
                    stream.held = Some(chunk);
                    stream.proceed(local, &mut actions);
                }
                self.put(local, stream);
                assert(self@.streams =~= old(self)@.speaking(local, said).0.streams);
            },
            None => {},
        }
        assert(action_views(actions@) =~= old(self)@.speaking(local, said).1);
        actions
    }

    /// The device has what the client wrote. Acknowledged only now, so that the
    /// client's limit of one write in flight follows the device.
    pub fn on_delivered(&mut self, local: u32) -> (actions: Vec<Action>)
        ensures
            final(self)@ == old(self)@.delivered(local).0,
            action_views(actions@) == old(self)@.delivered(local).1,
    {
        let mut actions: Vec<Action> = Vec::new();
        match self.take(local) {
            Some(mut stream) => {
                if stream.delivering {
                    actions.push(Action::Send(Message::empty(Command::Okay, local, stream.remote)));
                    assert(action_views(actions@) =~= seq![
                        bare(Command::Okay, local, stream.remote),
                    ]);
                    stream.delivering = false;
                    stream.proceed(local, &mut actions);
                }
                self.put(local, stream);
                assert(self@.streams =~= old(self)@.delivered(local).0.streams);
            },
            None => {},
        }
        assert(action_views(actions@) =~= old(self)@.delivered(local).1);
        actions
    }

    /// The device would not have what the client wrote.
    pub fn on_undelivered(&mut self, local: u32) -> (actions: Vec<Action>)
        ensures
            final(self)@ == old(self)@.failing(local).0,
            action_views(actions@) == old(self)@.failing(local).1,
    {
        let mut actions: Vec<Action> = Vec::new();
        match self.take(local) {
            Some(mut stream) => {
                if stream.delivering {
                    stream.delivering = false;
                    stream.ended = true;
                    stream.proceed(local, &mut actions);
                }
                self.put(local, stream);
                assert(self@.streams =~= old(self)@.failing(local).0.streams);
            },
            None => {},
        }
        assert(action_views(actions@) =~= old(self)@.failing(local).1);
        actions
    }

    /// The device's side of a stream ended.
    pub fn on_device_ended(&mut self, local: u32) -> (actions: Vec<Action>)
        ensures
            final(self)@ == old(self)@.ending(local).0,
            action_views(actions@) == old(self)@.ending(local).1,
    {
        let mut actions: Vec<Action> = Vec::new();
        match self.take(local) {
            Some(mut stream) => {
                stream.ended = true;
                stream.proceed(local, &mut actions);
                self.put(local, stream);
                assert(self@.streams =~= old(self)@.ending(local).0.streams);
            },
            None => {},
        }
        assert(action_views(actions@) =~= old(self)@.ending(local).1);
        actions
    }
}

/// A service that is refused never reaches the device: it is answered with a
/// stream that opens, says why and closes, and leaves no stream behind. Every
/// other service is handed on as it was asked for.
pub proof fn law_only_refused_services_are_kept_from_the_device(
    state: SessionView,
    remote: u32,
    service: Seq<char>,
)
    ensures
        ({
            let (after, actions) = state.opening(remote, service);
            let local = state.next_id;
            &&& after.streams == state.streams
            &&& refused_name(service) is Some ==> {
                &&& actions.len() == 4
                &&& actions[1] == bare(Command::Okay, local, remote)
                &&& actions[2] == write_of(
                    local,
                    remote,
                    vstd::utf8::encode_utf8(refusal_text(refused_name(service)->0)),
                )
                &&& actions[3] == bare(Command::Clse, local, remote)
                &&& forall|i: int| 0 <= i < actions.len() ==> !(#[trigger] actions[i] is Open)
            }
            &&& refused_name(service) is None ==> actions.len() == 2 && actions[1] == (
            ActionView::Open { local, remote, service })
        }),
{
}

/// Whether two states hold the same streams but for one.
pub open spec fn same_but_for(a: SessionView, b: SessionView, local: u32) -> bool {
    forall|other: u32|
        other != local ==> {
            &&& #[trigger] a.streams.contains_key(other) == b.streams.contains_key(other)
            &&& a.streams[other] == b.streams[other]
        }
}

/// What happens on one stream leaves every other as it was: a failed service, a
/// close or a stalled client does not take the connection with it.
pub proof fn law_streams_do_not_touch_each_other(
    state: SessionView,
    local: u32,
    remote: u32,
    ok: bool,
    bytes: Seq<u8>,
)
    ensures
        same_but_for(state, state.opened(local, remote, ok).0, local),
        same_but_for(state, state.writing(local, bytes).0, local),
        same_but_for(state, state.acknowledging(local).0, local),
        same_but_for(state, state.closing(local).0, local),
        same_but_for(state, state.speaking(local, bytes).0, local),
        same_but_for(state, state.delivered(local).0, local),
        same_but_for(state, state.failing(local).0, local),
        same_but_for(state, state.ending(local).0, local),
        !ok ==> state.opened(local, remote, ok).0 == state,
{
}

/// That every stream has an id that was handed out.
pub open spec fn ids_handed_out(state: SessionView) -> bool {
    forall|local: u32| #[trigger] state.streams.contains_key(local) ==> local < state.next_id
}

/// Until the ids wrap, the id for a new stream is one that no stream has, and
/// stays so whatever happens.
pub proof fn law_stream_ids_are_fresh(
    state: SessionView,
    said: message::MessageView,
    local: u32,
    remote: u32,
    ok: bool,
    bytes: Seq<u8>,
)
    requires
        ids_handed_out(state),
        state.next_id < u32::MAX,
    ensures
        !state.streams.contains_key(state.next_id),
        ids_handed_out(state.hearing(said).0),
        local < state.next_id ==> ids_handed_out(state.opened(local, remote, ok).0),
        ids_handed_out(state.speaking(local, bytes).0),
        ids_handed_out(state.delivered(local).0),
        ids_handed_out(state.failing(local).0),
        ids_handed_out(state.ending(local).0),
{
}

/// The client hears of a stream before it hears anything on it: a stream that
/// was not announced with `OKAY` says nothing, and the announcement comes before
/// the copying starts.
pub proof fn law_a_stream_is_announced_before_it_speaks(
    state: SessionView,
    local: u32,
    remote: u32,
    chunk: Seq<u8>,
)
    ensures
        !state.streams.contains_key(local) ==> state.speaking(local, chunk).1.len() == 0
            && state.ending(local).1.len() == 0 && state.delivered(local).1.len() == 0
            && state.failing(local).1.len() == 0,
        state.opened(local, remote, true).1 == seq![
            bare(Command::Okay, local, remote),
            ActionView::Start { local },
        ],
{
}

/// The stream and the actions after a run of events.
pub open spec fn played(stream: StreamView, local: u32, events: Seq<StreamEvent>) -> (
    StreamView,
    Seq<ActionView>,
)
    decreases events.len(),
{
    if events.len() == 0 {
        (stream, Seq::empty())
    } else {
        let (before, actions) = played(stream, local, events.drop_last());
        let (after, more) = before.after(local, events.last());
        (after, actions + more)
    }
}

/// How often the client acknowledged a write.
pub open spec fn acknowledgements(events: Seq<StreamEvent>) -> int
    decreases events.len(),
{
    if events.len() == 0 {
        0
    } else {
        acknowledgements(events.drop_last()) + if events.last() is Acknowledged {
            1int
        } else {
            0
        }
    }
}

/// What is written to the client by these actions.
pub open spec fn written(actions: Seq<ActionView>) -> Seq<Seq<u8>>
    decreases actions.len(),
{
    if actions.len() == 0 {
        Seq::empty()
    } else {
        let before = written(actions.drop_last());
        match actions.last() {
            ActionView::Send(message) if message.command == Command::Wrte => before.push(
                message.payload,
            ),
            _ => before,
        }
    }
}

/// What is handed to the device by these actions.
pub open spec fn handed_on(actions: Seq<ActionView>) -> Seq<Seq<u8>>
    decreases actions.len(),
{
    if actions.len() == 0 {
        Seq::empty()
    } else {
        let before = handed_on(actions.drop_last());
        match actions.last() {
            ActionView::Deliver { payload, .. } => before.push(payload),
            _ => before,
        }
    }
}

/// What the device said in a run of events, as far as it was taken.
pub open spec fn taken(stream: StreamView, local: u32, events: Seq<StreamEvent>) -> Seq<Seq<u8>>
    decreases events.len(),
{
    if events.len() == 0 {
        Seq::empty()
    } else {
        let before = taken(stream, local, events.drop_last());
        match events.last() {
            StreamEvent::Spoke(chunk) if played(stream, local, events.drop_last()).0.takes() =>
                before.push(chunk),
            _ => before,
        }
    }
}

/// What the client wrote in a run of events, up to the stream's close.
pub open spec fn heard(stream: StreamView, local: u32, events: Seq<StreamEvent>) -> Seq<Seq<u8>>
    decreases events.len(),
{
    if events.len() == 0 {
        Seq::empty()
    } else {
        let before = heard(stream, local, events.drop_last());
        match events.last() {
            StreamEvent::Wrote(payload) if !played(stream, local, events.drop_last()).0.closed =>
                before.push(payload),
            _ => before,
        }
    }
}

/// What is held, as a run of chunks.
pub open spec fn held_chunks(stream: StreamView) -> Seq<Seq<u8>> {
    match stream.held {
        Some(chunk) => seq![chunk],
        None => Seq::empty(),
    }
}

proof fn lemma_written_join(a: Seq<ActionView>, b: Seq<ActionView>)
    ensures
        written(a + b) == written(a) + written(b),
        handed_on(a + b) == handed_on(a) + handed_on(b),
    decreases b.len(),
{
    if b.len() == 0 {
        assert(a + b =~= a);
        assert(written(a) + written(b) =~= written(a));
        assert(handed_on(a) + handed_on(b) =~= handed_on(a));
    } else {
        assert((a + b).drop_last() =~= a + b.drop_last());
        assert((a + b).last() == b.last());
        lemma_written_join(a, b.drop_last());
        assert(written(a + b) =~= written(a) + written(b));
        assert(handed_on(a + b) =~= handed_on(a) + handed_on(b));
    }
}

proof fn lemma_one_action(action: ActionView)
    ensures
        written(seq![action]) == match action {
            ActionView::Send(message) if message.command == Command::Wrte => seq![message.payload],
            _ => Seq::empty(),
        },
        handed_on(seq![action]) == match action {
            ActionView::Deliver { payload, .. } => seq![payload],
            _ => Seq::empty(),
        },
{
    let none = Seq::<ActionView>::empty();
    assert(seq![action].drop_last() =~= none);
    assert(written(none) =~= Seq::<Seq<u8>>::empty());
    assert(handed_on(none) =~= Seq::<Seq<u8>>::empty());
    assert(written(seq![action]) =~= match action {
        ActionView::Send(message) if message.command == Command::Wrte => seq![message.payload],
        _ => Seq::empty(),
    });
    assert(handed_on(seq![action]) =~= match action {
        ActionView::Deliver { payload, .. } => seq![payload],
        _ => Seq::empty(),
    });
}

/// What going on does to what is held and what waits.
proof fn lemma_proceeding(stream: StreamView, local: u32)
    requires
        stream.permits >= 0,
        stream.closed ==> stream.held is None,
    ensures
        ({
            let (after, actions) = stream.proceeding(local);
            &&& written(actions) + held_chunks(after) == held_chunks(stream)
            &&& written(actions).len() + after.permits == stream.permits
            &&& after.permits >= 0
            &&& after.closed ==> after.held is None
            &&& !after.closed ==> handed_on(actions) + after.waiting == stream.waiting
            &&& handed_on(actions).is_prefix_of(stream.waiting)
            &&& handed_on(actions).len() > 0 ==> after.held is None
        }),
{
    let (sent, first) = stream.sending(local);
    let (after, actions) = stream.proceeding(local);
    let none = Seq::<ActionView>::empty();
    let nothing = Seq::<Seq<u8>>::empty();
    assert(written(none) =~= nothing);
    assert(handed_on(none) =~= nothing);
    if first.len() > 0 {
        lemma_one_action(first[0]);
        assert(first =~= seq![first[0]]);
    } else {
        assert(first =~= none);
    }
    if actions.len() > first.len() {
        let last = actions.last();
        assert(actions =~= first + seq![last]);
        lemma_written_join(first, seq![last]);
        lemma_one_action(last);
    } else if stream.delivering || stream.closed {
        assert(actions =~= none);
    } else {
        assert(actions =~= first);
    }
    assert(written(actions) + held_chunks(after) =~= held_chunks(stream));
    if !after.closed {
        assert(handed_on(actions) + after.waiting =~= stream.waiting);
    }
}

/// On a stream that just opened there is never more than one write that the client
/// has not acknowledged, whatever happens and when. What was written, followed by
/// what is held, is what the device said, chunk by chunk and in order. A stream is
/// closed only once all of that was written.
pub proof fn law_one_write_in_flight(local: u32, remote: u32, events: Seq<StreamEvent>)
    requires
        events.len() < u64::MAX - 1,
    ensures
        ({
            let fresh = StreamView::fresh(remote);
            let (after, actions) = played(fresh, local, events);
            &&& written(actions).len() + after.permits == 1 + acknowledgements(events)
            &&& after.permits >= 0
            &&& written(actions).len() <= 1 + acknowledgements(events)
            &&& 0 <= acknowledgements(events) <= events.len()
            &&& written(actions) + held_chunks(after) == taken(fresh, local, events)
            &&& after.closed ==> after.held is None && written(actions) == taken(
                fresh,
                local,
                events,
            )
        }),
    decreases events.len(),
{
    let fresh = StreamView::fresh(remote);
    let (after, actions) = played(fresh, local, events);
    let nothing = Seq::<Seq<u8>>::empty();
    if events.len() == 0 {
        assert(written(actions) =~= nothing);
        assert(written(actions) + held_chunks(after) =~= nothing);
    } else {
        let shorter = events.drop_last();
        let (before, done) = played(fresh, local, shorter);
        law_one_write_in_flight(local, remote, shorter);
        let (next, more) = before.after(local, events.last());
        lemma_after(before, local, events.last());
        lemma_written_join(done, more);
        let said = match events.last() {
            StreamEvent::Spoke(chunk) if before.takes() => seq![chunk],
            _ => nothing,
        };
        assert(taken(fresh, local, events) =~= taken(fresh, local, shorter) + said);
        assert(written(actions) + held_chunks(after) =~= written(done) + (written(more)
            + held_chunks(after)));
        assert(written(done) + (held_chunks(before) + said) =~= taken(fresh, local, shorter)
            + said);
    }
    if after.closed {
        assert(written(actions) + held_chunks(after) =~= written(actions));
    }
}

/// What one event does to what is held, what waits and what the client will take.
proof fn lemma_after(stream: StreamView, local: u32, event: StreamEvent)
    requires
        0 <= stream.permits < u64::MAX,
        stream.closed ==> stream.held is None,
    ensures
        ({
            let (after, actions) = stream.after(local, event);
            let said = match event {
                StreamEvent::Spoke(chunk) if stream.takes() => seq![chunk],
                _ => Seq::empty(),
            };
            let wrote = match event {
                StreamEvent::Wrote(payload) if !stream.closed => seq![payload],
                _ => Seq::empty(),
            };
            &&& written(actions) + held_chunks(after) == held_chunks(stream) + said
            &&& written(actions).len() + after.permits == stream.permits + (if event
                is Acknowledged {
                1int
            } else {
                0
            })
            &&& after.permits >= 0
            &&& after.closed ==> after.held is None
            &&& stream.closed ==> after.closed && handed_on(actions).len() == 0
            &&& !after.closed ==> handed_on(actions) + after.waiting == stream.waiting + wrote
            &&& handed_on(actions).is_prefix_of(stream.waiting + wrote)
            &&& handed_on(actions).len() > 0 ==> after.held is None
        }),
{
    let nothing = Seq::<Seq<u8>>::empty();
    let none = Seq::<ActionView>::empty();
    assert(written(none) =~= nothing);
    assert(handed_on(none) =~= nothing);
    assert(held_chunks(stream) + nothing =~= held_chunks(stream));
    assert(stream.waiting + nothing =~= stream.waiting);
    assert(nothing + stream.waiting =~= stream.waiting);
    assert(nothing + held_chunks(stream) =~= held_chunks(stream));
    match event {
        StreamEvent::Spoke(chunk) => {
            if stream.takes() {
                lemma_proceeding(StreamView { held: Some(chunk), ..stream }, local);
                assert(held_chunks(stream) + seq![chunk] =~= seq![chunk]);
            }
        },
        StreamEvent::Acknowledged => {
            lemma_proceeding(StreamView { permits: stream.permits + 1, ..stream }, local);
        },
        StreamEvent::Wrote(payload) => {
            lemma_proceeding(StreamView { waiting: stream.waiting.push(payload), ..stream }, local);
            assert(stream.waiting + seq![payload] =~= stream.waiting.push(payload));
        },
        StreamEvent::Delivered => {
            let freed = StreamView { delivering: false, ..stream };
            lemma_proceeding(freed, local);
            let okay = bare(Command::Okay, local, stream.remote);
            lemma_one_action(okay);
            lemma_written_join(seq![okay], freed.proceeding(local).1);
            assert(nothing + written(freed.proceeding(local).1) =~= written(
                freed.proceeding(local).1,
            ));
            assert(nothing + handed_on(freed.proceeding(local).1) =~= handed_on(
                freed.proceeding(local).1,
            ));
        },
        StreamEvent::Undelivered => {
            lemma_proceeding(StreamView { delivering: false, ended: true, ..stream }, local);
        },
        StreamEvent::Ended => {
            lemma_proceeding(StreamView { ended: true, ..stream }, local);
        },
    }
}

/// What the client writes reaches the device in order: what was handed on is the
/// start of what was heard, and until the stream is closed the rest waits. Nothing
/// is handed on while something that the device said is held.
pub proof fn law_writes_reach_the_device_in_order(
    local: u32,
    remote: u32,
    events: Seq<StreamEvent>,
    event: StreamEvent,
)
    requires
        events.len() < u64::MAX - 2,
    ensures
        ({
            let fresh = StreamView::fresh(remote);
            let (after, actions) = played(fresh, local, events);
            &&& handed_on(actions).is_prefix_of(heard(fresh, local, events))
            &&& !after.closed ==> handed_on(actions) + after.waiting == heard(
                fresh,
                local,
                events,
            )
            &&& handed_on(after.after(local, event).1).len() > 0 ==> after.after(
                local,
                event,
            ).0.held is None
        }),
    decreases events.len(),
{
    let fresh = StreamView::fresh(remote);
    let (after, actions) = played(fresh, local, events);
    let nothing = Seq::<Seq<u8>>::empty();
    law_one_write_in_flight(local, remote, events);
    lemma_after(after, local, event);
    if events.len() == 0 {
        assert(handed_on(actions) =~= nothing);
        assert(handed_on(actions) + after.waiting =~= nothing);
    } else {
        let shorter = events.drop_last();
        let (before, done) = played(fresh, local, shorter);
        law_one_write_in_flight(local, remote, shorter);
        law_writes_reach_the_device_in_order(local, remote, shorter, events.last());
        let more = before.after(local, events.last()).1;
        lemma_after(before, local, events.last());
        lemma_written_join(done, more);
        let wrote = match events.last() {
            StreamEvent::Wrote(payload) if !before.closed => seq![payload],
            _ => nothing,
        };
        let all = heard(fresh, local, events);
        assert(all =~= heard(fresh, local, shorter) + wrote);
        if !before.closed {
            assert(all =~= handed_on(done) + (before.waiting + wrote));
            assert(handed_on(actions).is_prefix_of(all));
            if !after.closed {
                assert(handed_on(actions) + after.waiting =~= handed_on(done) + (handed_on(more)
                    + after.waiting));
            }
        } else {
            assert(handed_on(more) =~= nothing);
            assert(handed_on(actions) =~= handed_on(done));
            assert(all =~= heard(fresh, local, shorter));
        }
    }
}

/// That nothing longer than `limit` is held.
pub open spec fn held_within(state: SessionView, limit: int) -> bool {
    forall|local: u32| #[trigger]
        state.streams.contains_key(local) ==> match state.streams[local].held {
            Some(chunk) => chunk.len() <= limit,
            None => true,
        }
}

/// Whether every write is within `limit`.
pub open spec fn writes_within(actions: Seq<ActionView>, limit: int) -> bool {
    forall|i: int|
        0 <= i < actions.len() ==> match #[trigger] actions[i] {
            ActionView::Send(message) => message.command != Command::Wrte || message.payload.len()
                <= limit,
            _ => true,
        }
}

/// That the words of a refusal, where this message gets one, are within `limit`.
pub open spec fn refusal_within(said: message::MessageView, limit: int) -> bool {
    said.command == Command::Open ==> match refused_name(message::payload_text(said.payload)) {
        Some(name) => vstd::utf8::encode_utf8(refusal_text(name)).len() <= limit,
        None => true,
    }
}

/// Where no more than the negotiated limit is read from the device at a time, no
/// write is longer than that. The one exception are the words of a refusal, which
/// a client with a tiny limit gets whole.
pub proof fn law_writes_respect_the_negotiated_limit(
    state: SessionView,
    said: message::MessageView,
    local: u32,
    chunk: Seq<u8>,
    limit: int,
)
    requires
        held_within(state, limit),
        chunk.len() <= limit,
    ensures
        writes_within(state.speaking(local, chunk).1, limit),
        held_within(state.speaking(local, chunk).0, limit),
        writes_within(state.delivered(local).1, limit),
        held_within(state.delivered(local).0, limit),
        writes_within(state.failing(local).1, limit),
        held_within(state.failing(local).0, limit),
        writes_within(state.ending(local).1, limit),
        held_within(state.ending(local).0, limit),
        held_within(state.hearing(said).0, limit),
        refusal_within(said, limit) ==> writes_within(state.hearing(said).1, limit),
{
    lemma_on_stream_within(state, local, StreamEvent::Spoke(chunk), limit);
    lemma_on_stream_within(state, local, StreamEvent::Delivered, limit);
    lemma_on_stream_within(state, local, StreamEvent::Undelivered, limit);
    lemma_on_stream_within(state, local, StreamEvent::Ended, limit);
    match said.command {
        Command::Open => {
            let service = message::payload_text(said.payload);
            let (after, actions) = state.opening(said.arg0, service);
            assert(after.streams == state.streams);
            match refused_name(service) {
                Some(name) => {
                    assert(actions.len() == 4);
                    assert forall|i: int| 0 <= i < actions.len() && refusal_within(
                        said,
                        limit,
                    ) implies match #[trigger] actions[i] {
                        ActionView::Send(message) => message.command != Command::Wrte
                            || message.payload.len() <= limit,
                        _ => true,
                    } by {
                        assert(i == 0 || i == 1 || i == 2 || i == 3);
                    }
                },
                None => {},
            }
        },
        Command::Wrte => {
            let to = said.arg1;
            lemma_on_stream_within(state, to, StreamEvent::Wrote(said.payload), limit);
            lemma_closing_within(state, to, limit);
            let more = state.on_stream(to, StreamEvent::Wrote(said.payload)).1;
            let actions = state.writing(to, said.payload).1;
            assert forall|i: int| 0 <= i < actions.len() implies match #[trigger] actions[i] {
                ActionView::Send(message) => message.command != Command::Wrte
                    || message.payload.len() <= limit,
                _ => true,
            } by {
                if !(state.streams.contains_key(to) && state.streams[to].closed) && i > 0 {
                    assert(actions[i] == more[i - 1]);
                }
            }
        },
        Command::Okay => {
            lemma_on_stream_within(state, said.arg1, StreamEvent::Acknowledged, limit);
        },
        Command::Clse => {
            lemma_closing_within(state, said.arg1, limit);
        },
        _ => {},
    }
}

proof fn lemma_closing_within(state: SessionView, local: u32, limit: int)
    requires
        held_within(state, limit),
    ensures
        held_within(state.closing(local).0, limit),
        writes_within(state.closing(local).1, limit),
{
}

proof fn lemma_proceeding_within(stream: StreamView, local: u32, limit: int)
    requires
        stream.held matches Some(chunk) ==> chunk.len() <= limit,
    ensures
        writes_within(stream.proceeding(local).1, limit),
        stream.proceeding(local).0.held matches Some(chunk) ==> chunk.len() <= limit,
{
    let (sent, first) = stream.sending(local);
    assert(writes_within(first, limit));
}

proof fn lemma_after_within(stream: StreamView, local: u32, event: StreamEvent, limit: int)
    requires
        stream.held matches Some(chunk) ==> chunk.len() <= limit,
        event matches StreamEvent::Spoke(chunk) ==> chunk.len() <= limit,
    ensures
        writes_within(stream.after(local, event).1, limit),
        stream.after(local, event).0.held matches Some(chunk) ==> chunk.len() <= limit,
{
    match event {
        StreamEvent::Spoke(chunk) => {
            lemma_proceeding_within(StreamView { held: Some(chunk), ..stream }, local, limit);
        },
        StreamEvent::Acknowledged => {
            lemma_proceeding_within(
                StreamView {
                    permits: if stream.permits == u64::MAX {
                        stream.permits
                    } else {
                        stream.permits + 1
                    },
                    ..stream
                },
                local,
                limit,
            );
        },
        StreamEvent::Wrote(payload) => {
            lemma_proceeding_within(
                StreamView { waiting: stream.waiting.push(payload), ..stream },
                local,
                limit,
            );
        },
        StreamEvent::Delivered => {
            let freed = StreamView { delivering: false, ..stream };
            lemma_proceeding_within(freed, local, limit);
            let more = freed.proceeding(local).1;
            let actions = stream.after(local, event).1;
            assert forall|i: int| 0 <= i < actions.len() implies match #[trigger] actions[i] {
                ActionView::Send(message) => message.command != Command::Wrte
                    || message.payload.len() <= limit,
                _ => true,
            } by {
                if i > 0 {
                    assert(actions[i] == more[i - 1]);
                }
            }
        },
        StreamEvent::Undelivered => {
            lemma_proceeding_within(
                StreamView { delivering: false, ended: true, ..stream },
                local,
                limit,
            );
        },
        StreamEvent::Ended => {
            lemma_proceeding_within(StreamView { ended: true, ..stream }, local, limit);
        },
    }
}

proof fn lemma_on_stream_within(
    state: SessionView,
    local: u32,
    event: StreamEvent,
    limit: int,
)
    requires
        held_within(state, limit),
        event matches StreamEvent::Spoke(chunk) ==> chunk.len() <= limit,
    ensures
        writes_within(state.on_stream(local, event).1, limit),
        held_within(state.on_stream(local, event).0, limit),
{
    if state.streams.contains_key(local) {
        lemma_after_within(state.streams[local], local, event, limit);
        let after = state.on_stream(local, event).0;
        assert forall|other: u32| #[trigger] after.streams.contains_key(other) implies (
        match after.streams[other].held {
            Some(chunk) => chunk.len() <= limit,
            None => true,
        }) by {
            if other != local {
                assert(state.streams.contains_key(other));
            }
        }
    }
}

/// How often the client's writes were acknowledged by these actions.
pub open spec fn okays(actions: Seq<ActionView>) -> int
    decreases actions.len(),
{
    if actions.len() == 0 {
        0
    } else {
        okays(actions.drop_last()) + match actions.last() {
            ActionView::Send(message) if message.command == Command::Okay => 1int,
            _ => 0,
        }
    }
}

/// How often the device took a write that it was handed, in a run of events.
pub open spec fn taken_by_device(
    stream: StreamView,
    local: u32,
    events: Seq<StreamEvent>,
) -> int
    decreases events.len(),
{
    if events.len() == 0 {
        0
    } else {
        taken_by_device(stream, local, events.drop_last()) + if events.last() is Delivered
            && played(stream, local, events.drop_last()).0.delivering {
            1int
        } else {
            0
        }
    }
}

proof fn lemma_okays_join(a: Seq<ActionView>, b: Seq<ActionView>)
    ensures
        okays(a + b) == okays(a) + okays(b),
    decreases b.len(),
{
    if b.len() == 0 {
        assert(a + b =~= a);
    } else {
        assert((a + b).drop_last() =~= a + b.drop_last());
        lemma_okays_join(a, b.drop_last());
    }
}

proof fn lemma_proceeding_okays(stream: StreamView, local: u32)
    ensures
        okays(stream.proceeding(local).1) == 0,
{
    let actions = stream.proceeding(local).1;
    reveal_with_fuel(okays, 3);
    if actions.len() == 2 {
        assert(actions.drop_last().drop_last() =~= Seq::<ActionView>::empty());
    } else if actions.len() == 1 {
        assert(actions.drop_last() =~= Seq::<ActionView>::empty());
    }
}

/// A client's write is acknowledged when the device has it, and only then: over any
/// run of events on a stream, there are as many acknowledgements as writes that the
/// device took.
pub proof fn law_writes_are_acknowledged_once_the_device_has_them(
    local: u32,
    remote: u32,
    events: Seq<StreamEvent>,
)
    ensures
        okays(played(StreamView::fresh(remote), local, events).1) == taken_by_device(
            StreamView::fresh(remote),
            local,
            events,
        ),
    decreases events.len(),
{
    let fresh = StreamView::fresh(remote);
    if events.len() > 0 {
        let shorter = events.drop_last();
        law_writes_are_acknowledged_once_the_device_has_them(local, remote, shorter);
        let (before, done) = played(fresh, local, shorter);
        let event = events.last();
        let more = before.after(local, event).1;
        lemma_okays_join(done, more);
        match event {
            StreamEvent::Spoke(chunk) => {
                lemma_proceeding_okays(StreamView { held: Some(chunk), ..before }, local);
            },
            StreamEvent::Acknowledged => {
                lemma_proceeding_okays(
                    StreamView {
                        permits: if before.permits == u64::MAX {
                            before.permits
                        } else {
                            before.permits + 1
                        },
                        ..before
                    },
                    local,
                );
            },
            StreamEvent::Wrote(payload) => {
                lemma_proceeding_okays(
                    StreamView { waiting: before.waiting.push(payload), ..before },
                    local,
                );
            },
            StreamEvent::Delivered => {
                let freed = StreamView { delivering: false, ..before };
                lemma_proceeding_okays(freed, local);
                let okay = seq![bare(Command::Okay, local, before.remote)];
                lemma_okays_join(okay, freed.proceeding(local).1);
                assert(okay.drop_last() =~= Seq::<ActionView>::empty());
                assert(okays(okay.drop_last()) == 0);
            },
            StreamEvent::Undelivered => {
                lemma_proceeding_okays(
                    StreamView { delivering: false, ended: true, ..before },
                    local,
                );
            },
            StreamEvent::Ended => {
                lemma_proceeding_okays(StreamView { ended: true, ..before }, local);
            },
        }
    }
}

/// Nothing waits that could go on. Whatever has happened on a stream, unless the
/// device is just being handed a write: what the device said is held only because the
/// client owes an acknowledgement, a write waits only behind that, and a stream whose
/// device side has ended and that holds nothing more is closed.
pub proof fn law_nothing_waits_that_could_go_on(
    local: u32,
    remote: u32,
    events: Seq<StreamEvent>,
)
    requires
        events.len() < u64::MAX - 1,
    ensures
        ({
            let after = played(StreamView::fresh(remote), local, events).0;
            &&& after.remote == remote
            &&& !after.delivering ==> {
                &&& after.held is Some ==> after.permits == 0
                &&& after.held is None && !after.ended ==> after.waiting.len() == 0
                &&& after.held is None && after.ended ==> after.closed
            }
            &&& after.closed ==> after.ended && !after.delivering
        }),
    decreases events.len(),
{
    if events.len() > 0 {
        law_nothing_waits_that_could_go_on(local, remote, events.drop_last());
        law_one_write_in_flight(local, remote, events.drop_last());
    }
}

/// What a client is told of a service: one that opened with an `OKAY` that names the
/// stream from both sides, one that did not with a `CLSE` from nobody. A stream that
/// the client closes is dropped at once, and takes nothing with it.
pub proof fn law_a_client_hears_how_its_request_went(
    state: SessionView,
    local: u32,
    remote: u32,
)
    ensures
        state.opened(local, remote, false).1 == seq![
            ActionView::Send(
                message::MessageView {
                    command: Command::Clse,
                    arg0: 0,
                    arg1: remote,
                    payload: Seq::empty(),
                },
            ),
        ],
        state.opened(local, remote, true).1[0] == ActionView::Send(
            message::MessageView {
                command: Command::Okay,
                arg0: local,
                arg1: remote,
                payload: Seq::empty(),
            },
        ),
        state.opened(local, remote, true).0.streams.contains_key(local),
        state.streams.contains_key(local) ==> state.closing(local).1 == seq![
            ActionView::Abort { local },
        ],
        !state.closing(local).0.streams.contains_key(local),
        state.next_id < u32::MAX ==> state.opening(remote, Seq::empty()).0.next_id == state.next_id
            + 1,
{
    reveal_strlit("root");
    reveal_strlit("unroot");
    reveal_strlit("remount");
    let service = Seq::<char>::empty();
    assert(text::find(service, ':') == 0);
    assert(service.take(0) =~= service);
}

} // verus!

//! ADB's challenge-response handshake, run by the provider instead of the phone.
//!
//! The device normally does this against its own list of keys, which is why
//! every developer's key has to be enrolled on every phone. Here the set of
//! acceptable keys is handed in, so the phone's own list never grows past the
//! provider's key.

use crate::adb_bridge::key;
use crate::adb_bridge::key::{KeyError, PublicKey};
use crate::adb_bridge::message;
use crate::adb_bridge::message::{auth, Command, FrameError, Message, MAX_PAYLOAD, VERSION};
use crate::text;
use rand::Rng;
use vstd::prelude::*;
use vstd::string::*;

verus! {

/// Bytes in the challenge, matching what `adbd` issues.
pub const TOKEN_LEN: usize = 20;

/// How many authentication messages we will take before giving up.
///
/// `adb` sends one signature per key it holds and then offers one public key,
/// so a handful is generous. The cap is here because the exchange is otherwise
/// driven entirely by whoever connected to the port.
pub const MAX_ATTEMPTS: usize = 16;

/// Who a connection turned out to belong to.
#[derive(Debug, Clone)]
pub struct Identity {
    pub user_id: String,
    pub fingerprint: String,
}

/// Why a handshake failed.
#[derive(Debug, Clone, Copy, PartialEq, Eq, Structural)]
pub enum AuthError {
    Frame(FrameError),
    Unexpected { expected: Command, got: Command },
    BadKey(KeyError),
    NoProofOfPossession,
    Refused,
    TooManyAttempts,
}

/// What the handshake settled on.
pub struct Handshake {
    pub identity: Identity,
    /// The smaller of the two sides' limits; every later `WRTE` respects it.
    pub max_payload: u32,
}

/// What a handshake settled on.
#[verifier::ext_equal]
pub struct HandshakeView {
    pub user_id: Seq<char>,
    pub fingerprint: Seq<char>,
    pub max_payload: u32,
}

impl View for Handshake {
    type V = HandshakeView;

    open spec fn view(&self) -> HandshakeView {
        HandshakeView {
            user_id: self.identity.user_id@,
            fingerprint: self.identity.fingerprint@,
            max_payload: self.max_payload,
        }
    }
}

impl Command {
    /// The four letters of a command.
    pub open spec fn letters(self) -> Seq<char> {
        match self {
            Command::Cnxn => "CNXN"@,
            Command::Auth => "AUTH"@,
            Command::Open => "OPEN"@,
            Command::Okay => "OKAY"@,
            Command::Clse => "CLSE"@,
            Command::Wrte => "WRTE"@,
            Command::Stls => "STLS"@,
            Command::Sync => "SYNC"@,
        }
    }

    /// The four letters of a command.
    pub fn name(self) -> (name: &'static str)
        ensures
            name@ == self.letters(),
    {
        match self {
            Command::Cnxn => "CNXN",
            Command::Auth => "AUTH",
            Command::Open => "OPEN",
            Command::Okay => "OKAY",
            Command::Clse => "CLSE",
            Command::Wrte => "WRTE",
            Command::Stls => "STLS",
            Command::Sync => "SYNC",
        }
    }

    /// A command as a diagnostic spells it.
    pub open spec fn spelling(self) -> Seq<char> {
        match self {
            Command::Cnxn => "Cnxn"@,
            Command::Auth => "Auth"@,
            Command::Open => "Open"@,
            Command::Okay => "Okay"@,
            Command::Clse => "Clse"@,
            Command::Wrte => "Wrte"@,
            Command::Stls => "Stls"@,
            Command::Sync => "Sync"@,
        }
    }

    /// A command as a diagnostic spells it.
    pub fn spelled(self) -> (name: &'static str)
        ensures
            name@ == self.spelling(),
    {
        match self {
            Command::Cnxn => "Cnxn",
            Command::Auth => "Auth",
            Command::Open => "Open",
            Command::Okay => "Okay",
            Command::Clse => "Clse",
            Command::Wrte => "Wrte",
            Command::Stls => "Stls",
            Command::Sync => "Sync",
        }
    }
}

impl AuthError {
    pub open spec fn text(self) -> Seq<char> {
        match self {
            AuthError::Frame(error) => error.text(),
            AuthError::Unexpected { expected, got } => "expected "@ + expected.letters()
                + " from the client, got "@ + got.spelling(),
            AuthError::BadKey(error) => "the offered key is malformed: "@ + error.text(),
            AuthError::NoProofOfPossession => "the client offered a key it never signed with"@,
            AuthError::Refused => "this key is not allowed to use this device"@,
            AuthError::TooManyAttempts =>
                "the client sent 16 authentication messages without authenticating"@,
        }
    }

    /// The error in words.
    pub fn message(&self) -> (message: String)
        ensures
            message@ == self.text(),
    {
        let mut out = String::new();
        match self {
            AuthError::Frame(error) => {
                out = error.message();
            },
            AuthError::Unexpected { expected, got } => {
                out.append("expected ");
                out.append(expected.name());
                out.append(" from the client, got ");
                out.append(got.spelled());
            },
            AuthError::BadKey(error) => {
                out.append("the offered key is malformed: ");
                out.append(error.message().as_str());
            },
            AuthError::NoProofOfPossession => {
                out.append("the client offered a key it never signed with");
            },
            AuthError::Refused => {
                out.append("this key is not allowed to use this device");
            },
            AuthError::TooManyAttempts => {
                out.append("the client sent 16 authentication messages without authenticating");
            },
        }
        assert(out@ =~= self.text());
        out
    }
}

/// The payload limit for a client that proposes this one.
pub open spec fn limit_for(proposed: u32) -> u32 {
    if proposed < 1 {
        1
    } else if proposed > MAX_PAYLOAD {
        MAX_PAYLOAD
    } else {
        proposed
    }
}

/// The limit is the smaller of the two sides' own, but for a client that would take
/// nothing at all.
pub proof fn law_the_smaller_limit_counts(proposed: u32)
    ensures
        limit_for(proposed) <= 256 * 1024,
        proposed > 0 ==> limit_for(proposed) <= proposed,
        limit_for(proposed) >= 1,
        limit_for(proposed) == proposed || limit_for(proposed) == 256 * 1024 || (proposed == 0
            && limit_for(proposed) == 1),
{
}

/// What a client's opening message settles: the smaller of the two sides'
/// payload limits, which is never zero.
pub fn connect(opening: &Message) -> (max_payload: Result<u32, AuthError>)
    ensures
        max_payload == if opening.command != Command::Cnxn {
            Err(AuthError::Unexpected { expected: Command::Cnxn, got: opening.command })
        } else {
            Ok(limit_for(opening.arg1))
        },
{
    if opening.command != Command::Cnxn {
        return Err(AuthError::Unexpected { expected: Command::Cnxn, got: opening.command });
    }
    if opening.arg1 < 1 {
        Ok(1)
    } else if opening.arg1 > MAX_PAYLOAD {
        Ok(MAX_PAYLOAD)
    } else {
        Ok(opening.arg1)
    }
}

/// The `CNXN` that tells a client it is through.
pub open spec fn acceptance(banner: Seq<char>, max_payload: u32) -> message::MessageView {
    message::MessageView {
        command: Command::Cnxn,
        arg0: VERSION,
        arg1: max_payload,
        payload: vstd::utf8::encode_utf8(banner).push(0u8),
    }
}

/// The `CNXN` that tells a client it is through. `banner` is what the client
/// sees as the device's identity and features, which comes from the real device:
/// a client that is not told about `shell_v2` silently falls back to a shell
/// with no exit codes.
pub fn accept(banner: &str, max_payload: u32) -> (reply: Message)
    ensures
        reply@ == acceptance(banner@, max_payload),
{
    let mut payload = text::utf8_of(banner);
    payload.push(0);
    Message::new(Command::Cnxn, VERSION, max_payload, payload)
}

/// The challenge with this token.
pub open spec fn challenge_with(token: Seq<u8>) -> message::MessageView {
    message::MessageView { command: Command::Auth, arg0: auth::TOKEN, arg1: 0, payload: token }
}

/// The keys in a vector.
pub open spec fn key_views(keys: Seq<PublicKey>) -> Seq<key::PublicKeyView> {
    keys.map_values(|key: PublicKey| key@)
}

/// The first of `keys` under which `signature` verifies for `token`.
pub open spec fn first_verifying(
    keys: Seq<key::PublicKeyView>,
    token: Seq<u8>,
    signature: Seq<u8>,
) -> Option<key::PublicKeyView>
    decreases keys.len(),
{
    if keys.len() == 0 {
        None
    } else if keys[0].verifies(token, signature) {
        Some(keys[0])
    } else {
        first_verifying(keys.drop_first(), token, signature)
    }
}

/// Whether `key` verifies one of the signatures in `attempted`, each for its own
/// token.
pub open spec fn signed_any(
    key: key::PublicKeyView,
    attempted: Seq<(Seq<u8>, Seq<u8>)>,
) -> bool {
    exists|i: int|
        0 <= i < attempted.len() && #[trigger] key.verifies(attempted[i].0, attempted[i].1)
}

/// The challenges that were answered, each with its answer.
pub open spec fn attempts(attempted: Seq<([u8; TOKEN_LEN], Vec<u8>)>) -> Seq<(Seq<u8>, Seq<u8>)> {
    attempted.map_values(|attempt: ([u8; TOKEN_LEN], Vec<u8>)| (attempt.0@, attempt.1@))
}

/// Where a handshake goes after one authentication message.
pub enum Next {
    /// Read the next message.
    Continue,
    /// The client is through.
    Admitted(Handshake),
    /// A key that nobody vouches for yet proved that the client holds it. Ask
    /// about it.
    Ask(PublicKey),
    Failed(AuthError),
}

/// Where a handshake goes after one authentication message.
pub enum NextView {
    Continue,
    Admitted(HandshakeView),
    Ask(key::PublicKeyView),
    Failed(AuthError),
}

impl View for Next {
    type V = NextView;

    open spec fn view(&self) -> NextView {
        match *self {
            Next::Continue => NextView::Continue,
            Next::Admitted(handshake) => NextView::Admitted(handshake@),
            Next::Ask(key) => NextView::Ask(key@),
            Next::Failed(error) => NextView::Failed(error),
        }
    }
}

/// What one authentication message brings: what to send first, and where to go
/// then.
pub struct Step {
    pub send: Option<Message>,
    pub next: Next,
}

/// What one authentication message brings.
pub struct StepView {
    pub send: Option<message::MessageView>,
    pub next: NextView,
}

impl View for Step {
    type V = StepView;

    open spec fn view(&self) -> StepView {
        StepView {
            send: match self.send {
                Some(message) => Some(message@),
                None => None,
            },
            next: self.next@,
        }
    }
}

/// A handshake in progress: the client has been challenged and is to answer.
pub struct Challenge {
    max_payload: u32,
    entitled: Vec<PublicKey>,
    token: [u8; TOKEN_LEN],
    /// Every challenge that was answered and what the client signed it with. The
    /// client only reveals a public key after its signatures are refused, so
    /// proving it holds the private half means going back over what it sent
    /// earlier.
    attempted: Vec<([u8; TOKEN_LEN], Vec<u8>)>,
    taken: usize,
    /// The key that is being asked about.
    asked: Option<PublicKey>,
}

/// The state of a handshake in progress.
#[verifier::ext_equal]
pub struct ChallengeView {
    pub max_payload: u32,
    /// The keys that may use the device without anyone being asked.
    pub entitled: Seq<key::PublicKeyView>,
    /// The challenge that is to be answered.
    pub token: Seq<u8>,
    /// The challenges that were answered in vain, each with its answer.
    pub attempted: Seq<(Seq<u8>, Seq<u8>)>,
    /// How many authentication messages have been taken.
    pub taken: int,
    /// The key that is being asked about: the one that the last message offered.
    pub asked: Option<key::PublicKeyView>,
}

impl View for Challenge {
    type V = ChallengeView;

    closed spec fn view(&self) -> ChallengeView {
        ChallengeView {
            max_payload: self.max_payload,
            entitled: key_views(self.entitled@),
            token: self.token@,
            attempted: attempts(self.attempted@),
            taken: self.taken as int,
            asked: match self.asked {
                Some(key) => Some(key@),
                None => None,
            },
        }
    }
}

/// Whose a key is; nobody's where that was not said.
pub open spec fn owner_in(key: key::PublicKeyView) -> Seq<char> {
    match key.owner {
        Some(owner) => owner,
        None => Seq::empty(),
    }
}

impl ChallengeView {
    /// A handshake that was just started with this challenge.
    pub open spec fn started(
        max_payload: u32,
        entitled: Seq<key::PublicKeyView>,
        token: Seq<u8>,
    ) -> ChallengeView {
        ChallengeView {
            max_payload,
            entitled,
            token,
            attempted: Seq::empty(),
            taken: 0,
            asked: None,
        }
    }

    /// Where to go when a message has settled nothing: on, unless it was the
    /// last that is taken.
    pub open spec fn onwards(self) -> NextView {
        if self.taken >= MAX_ATTEMPTS {
            NextView::Failed(AuthError::TooManyAttempts)
        } else {
            NextView::Continue
        }
    }

    /// The state and the step after one authentication message, where `fresh`
    /// is the token for the next challenge.
    pub open spec fn stepping(self, said: message::MessageView, fresh: Seq<u8>) -> (
        ChallengeView,
        StepView,
    ) {
        let counted = ChallengeView { taken: self.taken + 1, asked: None, ..self };
        if self.taken >= MAX_ATTEMPTS {
            (
                ChallengeView { asked: None, ..self },
                StepView { send: None, next: NextView::Failed(AuthError::TooManyAttempts) },
            )
        } else if said.command != Command::Auth {
            (
                counted,
                StepView {
                    send: None,
                    next: NextView::Failed(
                        AuthError::Unexpected { expected: Command::Auth, got: said.command },
                    ),
                },
            )
        } else if said.arg0 == auth::SIGNATURE {
            match first_verifying(self.entitled, self.token, said.payload) {
                Some(key) => (
                    counted,
                    StepView {
                        send: None,
                        next: NextView::Admitted(
                            HandshakeView {
                                user_id: owner_in(key),
                                fingerprint: key.fingerprint(),
                                max_payload: self.max_payload,
                            },
                        ),
                    },
                ),
                None => (
                    ChallengeView {
                        attempted: self.attempted.push((self.token, said.payload)),
                        token: fresh,
                        ..counted
                    },
                    StepView { send: Some(challenge_with(fresh)), next: counted.onwards() },
                ),
            }
        } else if said.arg0 == auth::RSAPUBLICKEY {
            match key::key_in(message::payload_text(said.payload)) {
                Err(error) => (
                    counted,
                    StepView { send: None, next: NextView::Failed(AuthError::BadKey(error)) },
                ),
                Ok(key) => if signed_any(key, self.attempted) {
                    (
                        ChallengeView { asked: Some(key), ..counted },
                        StepView { send: None, next: NextView::Ask(key) },
                    )
                } else {
                    (
                        counted,
                        StepView {
                            send: None,
                            next: NextView::Failed(AuthError::NoProofOfPossession),
                        },
                    )
                },
            }
        } else {
            (counted, StepView { send: None, next: counted.onwards() })
        }
    }
}

/// `rand::rng().fill_bytes`: twenty bytes from the thread's generator, which is
/// cryptographically secure and seeded from the operating system. Nothing is
/// stated of them: they are random.
#[verifier::external_body]
fn new_token() -> (token: [u8; TOKEN_LEN]) {
    let mut token = [0u8; TOKEN_LEN];
    rand::rng().fill_bytes(&mut token);
    token
}

fn signed_one_of(key: &PublicKey, attempted: &Vec<([u8; TOKEN_LEN], Vec<u8>)>) -> (signed: bool)
    ensures
        signed == signed_any(key@, attempts(attempted@)),
{
    let mut i: usize = 0;
    while i < attempted.len()
        invariant
            i <= attempted@.len(),
            forall|k: int|
                0 <= k < i ==> !#[trigger] key@.verifies(
                    attempts(attempted@)[k].0,
                    attempts(attempted@)[k].1,
                ),
        decreases attempted@.len() - i,
    {
        assert(attempts(attempted@)[i as int] == (
            attempted@[i as int].0@,
            attempted@[i as int].1@,
        ));
        if key.verify(attempted[i].0.as_slice(), &attempted[i].1) {
            assert(key@.verifies(
                attempts(attempted@)[i as int].0,
                attempts(attempted@)[i as int].1,
            ));
            return true;
        }
        i += 1;
    }
    false
}

fn position_verifying(keys: &Vec<PublicKey>, token: &[u8], signature: &[u8]) -> (at: Option<usize>)
    ensures
        match at {
            Some(at) => at < keys@.len() && first_verifying(key_views(keys@), token@, signature@)
                == Some(keys@[at as int]@),
            None => first_verifying(key_views(keys@), token@, signature@) is None,
        },
{
    let mut i: usize = 0;
    let ghost all = key_views(keys@);
    assert(all.skip(0) =~= all);
    while i < keys.len()
        invariant
            i <= keys@.len(),
            all == key_views(keys@),
            first_verifying(all, token@, signature@) == first_verifying(
                all.skip(i as int),
                token@,
                signature@,
            ),
        decreases keys@.len() - i,
    {
        assert(all.skip(i as int)[0] == keys@[i as int]@);
        assert(all.skip(i as int).drop_first() =~= all.skip(i + 1));
        if keys[i].verify(token, signature) {
            return Some(i);
        }
        i += 1;
    }
    None
}

/// Which user an entitled key belongs to.
///
/// The coordinator sends the owner alongside the key; a key with no owner
/// cannot happen, but attributing it to nobody is better than guessing.
fn owner_of(key: &PublicKey) -> (owner: String)
    ensures
        owner@ == owner_in(key@),
{
    match key.owner() {
        Some(owner) => owner.to_owned(),
        None => String::new(),
    }
}

impl Challenge {
    /// Start a handshake with this challenge.
    pub fn with_token(
        max_payload: u32,
        entitled: Vec<PublicKey>,
        token: [u8; TOKEN_LEN],
    ) -> (started: (Self, Message))
        ensures
            started.0@ == ChallengeView::started(max_payload, key_views(entitled@), token@),
            started.1@ == challenge_with(token@),
    {
        let challenge = Challenge {
            max_payload,
            entitled,
            token,
            attempted: Vec::new(),
            taken: 0,
            asked: None,
        };
        assert(challenge@.attempted =~= Seq::<(Seq<u8>, Seq<u8>)>::empty());
        let payload = vstd::slice::slice_to_vec(token.as_slice());
        (challenge, Message::new(Command::Auth, auth::TOKEN, 0, payload))
    }

    /// Start a handshake with a random challenge, and say what to send.
    pub fn start(max_payload: u32, entitled: Vec<PublicKey>) -> (started: (Self, Message))
        ensures
            started.0@.token.len() == TOKEN_LEN,
            started.0@ == ChallengeView::started(
                max_payload,
                key_views(entitled@),
                started.0@.token,
            ),
            started.1@ == challenge_with(started.0@.token),
    {
        Self::with_token(max_payload, entitled, new_token())
    }

    /// Take one authentication message, where `fresh` is the token for the next
    /// challenge.
    pub fn step_with(&mut self, said: &Message, fresh: [u8; TOKEN_LEN]) -> (step: Step)
        ensures
            final(self)@ == old(self)@.stepping(said@, fresh@).0,
            step@ == old(self)@.stepping(said@, fresh@).1,
    {
        self.asked = None;
        if self.taken >= MAX_ATTEMPTS {
            return Step { send: None, next: Next::Failed(AuthError::TooManyAttempts) };
        }
        self.taken = self.taken + 1;
        if said.command != Command::Auth {
            return Step {
                send: None,
                next: Next::Failed(
                    AuthError::Unexpected { expected: Command::Auth, got: said.command },
                ),
            };
        }
        if said.arg0 == auth::SIGNATURE {
            let signature = message::bytes_slice(&said.payload);
            match position_verifying(&self.entitled, self.token.as_slice(), signature) {
                Some(at) => {
                    // The common case: a key that was vouched for already.
                    // Nobody is asked anything.
                    let key = &self.entitled[at];
                    let identity = Identity {
                        user_id: owner_of(key),
                        fingerprint: key.fingerprint().to_owned(),
                    };
                    return Step {
                        send: None,
                        next: Next::Admitted(
                            Handshake { identity, max_payload: self.max_payload },
                        ),
                    };
                },
                None => {},
            }
            // A fresh challenge makes the client move on to its next key, and
            // once it runs out, offer a public key instead. Reusing the token
            // would let it replay the signature that was just refused.
            let ghost before = self.attempted@;
            self.attempted.push((self.token, vstd::slice::slice_to_vec(signature)));
            assert(attempts(self.attempted@) =~= attempts(before).push((self.token@, signature@)));
            self.token = fresh;
            let payload = vstd::slice::slice_to_vec(fresh.as_slice());
            return Step {
                send: Some(Message::new(Command::Auth, auth::TOKEN, 0, payload)),
                next: self.onwards(),
            };
        }
        if said.arg0 == auth::RSAPUBLICKEY {
            // `adbd` trusts the person tapping "allow" at the device. Nobody is
            // standing next to the phone here, so the key has to have signed one
            // of our challenges to count as offered by whoever holds it.
            let next = match PublicKey::parse(said.payload_str().as_str()) {
                Err(error) => Next::Failed(AuthError::BadKey(error)),
                Ok(key) => if signed_one_of(&key, &self.attempted) {
                    self.asked = Some(key.clone());
                    Next::Ask(key)
                } else {
                    Next::Failed(AuthError::NoProofOfPossession)
                },
            };
            return Step { send: None, next };
        }
        Step { send: None, next: self.onwards() }
    }

    fn onwards(&self) -> (next: Next)
        ensures
            next@ == self@.onwards(),
    {
        if self.taken >= MAX_ATTEMPTS {
            Next::Failed(AuthError::TooManyAttempts)
        } else {
            Next::Continue
        }
    }

    /// Take one authentication message.
    pub fn step(&mut self, said: &Message) -> (step: Step)
        ensures
            exists|fresh: [u8; TOKEN_LEN]|
                {
                    &&& final(self)@ == #[trigger] old(self)@.stepping(said@, fresh@).0
                    &&& step@ == old(self)@.stepping(said@, fresh@).1
                },
    {
        let fresh = new_token();
        self.step_with(said, fresh)
    }

    /// The answer about the key that is being asked about: who it belongs to, if
    /// it may use the device.
    pub fn answered(&self, owner: Option<String>) -> (outcome: Result<Handshake, AuthError>)
        requires
            self@.asked is Some,
        ensures
            match (owner, outcome) {
                (Some(user_id), Ok(handshake)) => handshake@ == (HandshakeView {
                    user_id: user_id@,
                    fingerprint: self@.asked->0.fingerprint(),
                    max_payload: self@.max_payload,
                }),
                (None, Err(error)) => error == AuthError::Refused,
                _ => false,
            },
    {
        match (owner, &self.asked) {
            (Some(user_id), Some(key)) => Ok(
                Handshake {
                    identity: Identity { user_id, fingerprint: key.fingerprint().to_owned() },
                    max_payload: self.max_payload,
                },
            ),
            _ => Err(AuthError::Refused),
        }
    }
}

proof fn lemma_first_verifying(keys: Seq<key::PublicKeyView>, token: Seq<u8>, signature: Seq<u8>)
    ensures
        match first_verifying(keys, token, signature) {
            Some(key) => key.verifies(token, signature) && keys.contains(key),
            None => forall|i: int|
                0 <= i < keys.len() ==> !(#[trigger] keys[i]).verifies(token, signature),
        },
    decreases keys.len(),
{
    if keys.len() > 0 && !keys[0].verifies(token, signature) {
        lemma_first_verifying(keys.drop_first(), token, signature);
        match first_verifying(keys, token, signature) {
            Some(key) => {
                let i = choose|i: int|
                    0 <= i < keys.drop_first().len() && keys.drop_first()[i] == key;
                assert(keys[i + 1] == key);
            },
            None => {
                assert forall|i: int| 0 <= i < keys.len() implies !(#[trigger] keys[i]).verifies(
                    token,
                    signature,
                ) by {
                    if i > 0 {
                        assert(keys[i] == keys.drop_first()[i - 1]);
                    }
                }
            },
        }
    }
}

/// A run of a handshake: the messages, each with the token for the challenge after
/// it.
pub open spec fn after_exchange(
    start: ChallengeView,
    exchange: Seq<(message::MessageView, Seq<u8>)>,
) -> ChallengeView
    decreases exchange.len(),
{
    if exchange.len() == 0 {
        start
    } else {
        let before = after_exchange(start, exchange.drop_last());
        before.stepping(exchange.last().0, exchange.last().1).0
    }
}

/// The tokens that were issued in a run, the first at its start and one with every
/// challenge that it sent.
pub open spec fn issued(
    start: ChallengeView,
    exchange: Seq<(message::MessageView, Seq<u8>)>,
) -> Seq<Seq<u8>>
    decreases exchange.len(),
{
    if exchange.len() == 0 {
        seq![start.token]
    } else {
        let (said, fresh) = exchange.last();
        let before = issued(start, exchange.drop_last());
        if after_exchange(start, exchange.drop_last()).stepping(said, fresh).1.send == Some(
            challenge_with(fresh),
        ) {
            before.push(fresh)
        } else {
            before
        }
    }
}

/// Whether the `i`th message of a run is a signature with this key of the token
/// that was issued last before it.
pub open spec fn signs(
    start: ChallengeView,
    exchange: Seq<(message::MessageView, Seq<u8>)>,
    i: int,
    key: key::PublicKeyView,
) -> bool {
    let said = exchange[i].0;
    &&& said.command == Command::Auth
    &&& said.arg0 == auth::SIGNATURE
    &&& key.verifies(issued(start, exchange.take(i)).last(), said.payload)
}

/// That what a run keeps of its start stays, and that each attempt it keeps was a
/// message of its own.
proof fn lemma_exchange(
    start: ChallengeView,
    exchange: Seq<(message::MessageView, Seq<u8>)>,
    key: key::PublicKeyView,
)
    requires
        start == ChallengeView::started(start.max_payload, start.entitled, start.token),
    ensures
        ({
            let state = after_exchange(start, exchange);
            &&& state.entitled == start.entitled
            &&& state.max_payload == start.max_payload
            &&& issued(start, exchange).len() > 0
            &&& state.token == issued(start, exchange).last()
            &&& signed_any(key, state.attempted) ==> exists|i: int|
                0 <= i < exchange.len() && #[trigger] signs(start, exchange, i, key)
        }),
    decreases exchange.len(),
{
    if exchange.len() > 0 {
        let shorter = exchange.drop_last();
        let (said, fresh) = exchange.last();
        lemma_exchange(start, shorter, key);
        let before = after_exchange(start, shorter);
        let state = after_exchange(start, exchange);
        assert(exchange.take(exchange.len() - 1) =~= shorter);
        if signed_any(key, state.attempted) {
            let k = choose|k: int|
                0 <= k < state.attempted.len() && #[trigger] key.verifies(
                    state.attempted[k].0,
                    state.attempted[k].1,
                );
            if k < before.attempted.len() {
                assert(key.verifies(before.attempted[k].0, before.attempted[k].1));
                let i = choose|i: int|
                    0 <= i < shorter.len() && #[trigger] signs(start, shorter, i, key);
                assert(exchange.take(i) =~= shorter.take(i));
                assert(signs(start, exchange, i, key));
            } else {
                assert(state.attempted[k] == (before.token, said.payload));
                assert(signs(start, exchange, exchange.len() - 1, key));
            }
        }
    }
}

/// Nobody gets in without a signature. Over a whole handshake, a client is admitted
/// only by a message that signs the token issued last with an entitled key, and as
/// the owner of that key. A key is only asked about, and admitted by the answer,
/// after a message of the same handshake signed a token of its own with it.
pub proof fn law_nobody_gets_in_without_a_signature(
    start: ChallengeView,
    exchange: Seq<(message::MessageView, Seq<u8>)>,
    said: message::MessageView,
    fresh: Seq<u8>,
)
    requires
        start == ChallengeView::started(start.max_payload, start.entitled, start.token),
    ensures
        ({
            let whole = exchange.push((said, fresh));
            let (state, step) = after_exchange(start, exchange).stepping(said, fresh);
            &&& state == after_exchange(start, whole)
            &&& state.max_payload == start.max_payload
            &&& match step.next {
                NextView::Admitted(handshake) => exists|key: key::PublicKeyView|
                    {
                        &&& start.entitled.contains(key)
                        &&& #[trigger] signs(start, whole, exchange.len() as int, key)
                        &&& handshake == (HandshakeView {
                            user_id: owner_in(key),
                            fingerprint: key.fingerprint(),
                            max_payload: start.max_payload,
                        })
                    },
                NextView::Ask(key) => state.asked == Some(key) && exists|i: int|
                    0 <= i < exchange.len() && #[trigger] signs(start, whole, i, key),
                _ => state.asked is None,
            }
        }),
{
    let whole = exchange.push((said, fresh));
    assert(whole.drop_last() =~= exchange);
    let before = after_exchange(start, exchange);
    let step = before.stepping(said, fresh).1;
    lemma_first_verifying(before.entitled, before.token, said.payload);
    match step.next {
        NextView::Admitted(_) => {
            let key = first_verifying(before.entitled, before.token, said.payload)->0;
            lemma_exchange(start, exchange, key);
            assert(whole.take(exchange.len() as int) =~= exchange);
            assert(signs(start, whole, exchange.len() as int, key));
        },
        NextView::Ask(key) => {
            lemma_exchange(start, exchange, key);
            let i = choose|i: int|
                0 <= i < exchange.len() && #[trigger] signs(start, exchange, i, key);
            assert(whole.take(i) =~= exchange.take(i));
            assert(signs(start, whole, i, key));
        },
        _ => {
            lemma_exchange(start, exchange, arbitrary());
        },
    }
}

/// Whether every message of a run left the handshake open.
pub open spec fn goes_on(
    start: ChallengeView,
    exchange: Seq<(message::MessageView, Seq<u8>)>,
) -> bool {
    forall|i: int|
        0 <= i < exchange.len() ==> #[trigger] after_exchange(start, exchange.take(i)).stepping(
            exchange[i].0,
            exchange[i].1,
        ).1.next is Continue
}

proof fn lemma_goes_on(
    start: ChallengeView,
    exchange: Seq<(message::MessageView, Seq<u8>)>,
    i: int,
    key: key::PublicKeyView,
)
    requires
        start == ChallengeView::started(start.max_payload, start.entitled, start.token),
        goes_on(start, exchange),
        exchange.len() < MAX_ATTEMPTS,
    ensures
        after_exchange(start, exchange).taken == exchange.len(),
        0 <= i < exchange.len() && signs(start, exchange, i, key) ==> signed_any(
            key,
            after_exchange(start, exchange).attempted,
        ),
    decreases exchange.len(),
{
    if exchange.len() > 0 {
        let n = exchange.len() - 1;
        let shorter = exchange.drop_last();
        let (said, fresh) = exchange.last();
        assert(exchange.take(n) =~= shorter);
        assert(goes_on(start, shorter)) by {
            assert forall|k: int| 0 <= k < shorter.len() implies #[trigger] after_exchange(
                start,
                shorter.take(k),
            ).stepping(shorter[k].0, shorter[k].1).1.next is Continue by {
                assert(shorter.take(k) =~= exchange.take(k));
                assert(after_exchange(start, exchange.take(k)).stepping(
                    exchange[k].0,
                    exchange[k].1,
                ).1.next is Continue);
            }
        }
        lemma_goes_on(start, shorter, i, key);
        lemma_exchange(start, shorter, key);
        let before = after_exchange(start, shorter);
        let after = after_exchange(start, exchange);
        assert(after_exchange(start, exchange.take(n)).stepping(
            exchange[n].0,
            exchange[n].1,
        ).1.next is Continue);
        if 0 <= i < exchange.len() && signs(start, exchange, i, key) {
            if i < n {
                assert(shorter.take(i) =~= exchange.take(i));
                assert(signs(start, shorter, i, key));
                let k = choose|k: int|
                    0 <= k < before.attempted.len() && #[trigger] key.verifies(
                        before.attempted[k].0,
                        before.attempted[k].1,
                    );
                assert(after.attempted[k] == before.attempted[k]);
                assert(key.verifies(after.attempted[k].0, after.attempted[k].1));
            } else {
                let k = before.attempted.len() as int;
                assert(after.attempted[k] == (before.token, said.payload));
                assert(key.verifies(after.attempted[k].0, after.attempted[k].1));
            }
        }
    }
}

/// Whoever proved that they hold a key is heard. Over a whole handshake that is
/// still open and within the cap, an offer of a well-formed key with which any
/// message before it signed the token that was open then is always asked about,
/// whatever else was signed in between.
pub proof fn law_a_key_that_signed_is_asked_about(
    start: ChallengeView,
    exchange: Seq<(message::MessageView, Seq<u8>)>,
    i: int,
    key: key::PublicKeyView,
    offer: message::MessageView,
    fresh: Seq<u8>,
)
    requires
        start == ChallengeView::started(start.max_payload, start.entitled, start.token),
        goes_on(start, exchange),
        exchange.len() < MAX_ATTEMPTS,
        0 <= i < exchange.len(),
        signs(start, exchange, i, key),
        offer.command == Command::Auth,
        offer.arg0 == auth::RSAPUBLICKEY,
        key::key_in(message::payload_text(offer.payload)) == Ok::<_, KeyError>(key),
    ensures
        after_exchange(start, exchange).stepping(offer, fresh).1.next == NextView::Ask(key),
        after_exchange(start, exchange).stepping(offer, fresh).0.asked == Some(key),
{
    lemma_goes_on(start, exchange, i, key);
}

/// An entitled key always gets in, and at once. Over a whole handshake that is still
/// open and within the cap, a signature of the token issued last with an entitled
/// key admits the client, as the owner of the first entitled key that it verifies
/// under. One that verifies under none is answered with a fresh token, so that the
/// client can try its next key.
pub proof fn law_a_signature_is_answered(
    start: ChallengeView,
    exchange: Seq<(message::MessageView, Seq<u8>)>,
    said: message::MessageView,
    fresh: Seq<u8>,
    at: int,
)
    requires
        start == ChallengeView::started(start.max_payload, start.entitled, start.token),
        goes_on(start, exchange),
        exchange.len() < MAX_ATTEMPTS,
        said.command == Command::Auth,
        said.arg0 == auth::SIGNATURE,
    ensures
        ({
            let open = issued(start, exchange).last();
            let (after, step) = after_exchange(start, exchange).stepping(said, fresh);
            &&& (0 <= at < start.entitled.len() && start.entitled[at].verifies(open, said.payload)
                && (forall|k: int|
                0 <= k < at ==> !(#[trigger] start.entitled[k]).verifies(open, said.payload)))
                ==> step.next == NextView::Admitted(
                HandshakeView {
                    user_id: match start.entitled[at].owner {
                        Some(owner) => owner,
                        None => Seq::empty(),
                    },
                    fingerprint: start.entitled[at].fingerprint(),
                    max_payload: start.max_payload,
                },
            ) && step.send is None
            &&& (forall|k: int|
                0 <= k < start.entitled.len() ==> !(#[trigger] start.entitled[k]).verifies(
                    open,
                    said.payload,
                )) ==> {
                &&& step.send == Some(
                    message::MessageView {
                        command: Command::Auth,
                        arg0: auth::TOKEN,
                        arg1: 0,
                        payload: fresh,
                    },
                )
                &&& after.token == fresh
                &&& exchange.len() + 1 < MAX_ATTEMPTS ==> step.next is Continue
                &&& exchange.len() + 1 == MAX_ATTEMPTS ==> step.next == NextView::Failed(
                    AuthError::TooManyAttempts,
                )
            }
        }),
{
    let key = arbitrary::<key::PublicKeyView>();
    lemma_goes_on(start, exchange, -1, key);
    lemma_exchange(start, exchange, key);
    let open = issued(start, exchange).last();
    lemma_first_verifying(start.entitled, open, said.payload);
    if 0 <= at < start.entitled.len() {
        lemma_first_at(start.entitled, open, said.payload, at);
    }
}

proof fn lemma_first_at(
    keys: Seq<key::PublicKeyView>,
    token: Seq<u8>,
    signature: Seq<u8>,
    at: int,
)
    requires
        0 <= at < keys.len(),
    ensures
        (keys[at].verifies(token, signature) && forall|k: int|
            0 <= k < at ==> !(#[trigger] keys[k]).verifies(token, signature)) ==> first_verifying(
            keys,
            token,
            signature,
        ) == Some(keys[at]),
    decreases keys.len(),
{
    if at > 0 && keys[at].verifies(token, signature) && (forall|k: int|
        0 <= k < at ==> !(#[trigger] keys[k]).verifies(token, signature)) {
        let rest = keys.drop_first();
        assert(!keys[0].verifies(token, signature));
        assert forall|k: int| 0 <= k < at - 1 implies !(#[trigger] rest[k]).verifies(
            token,
            signature,
        ) by {
            assert(rest[k] == keys[k + 1]);
        }
        lemma_first_at(rest, token, signature, at - 1);
    }
}

/// A signature that was refused stays refused: the challenge that is open is
/// never one that was answered, as long as tokens are fresh, and no entitled key
/// verifies what is kept of the earlier answers.
pub open spec fn refusals_hold(state: ChallengeView) -> bool {
    &&& forall|i: int|
        0 <= i < state.attempted.len() ==> (#[trigger] state.attempted[i]).0 != state.token
    &&& forall|i: int|
        0 <= i < state.attempted.len() ==> first_verifying(
            state.entitled,
            (#[trigger] state.attempted[i]).0,
            state.attempted[i].1,
        ) is None
}

/// With fresh tokens, a handshake never opens a challenge again that was
/// answered, and keeps only answers that no entitled key verifies.
pub proof fn law_a_refused_signature_cannot_be_replayed(
    state: ChallengeView,
    said: message::MessageView,
    fresh: Seq<u8>,
)
    requires
        refusals_hold(state),
        fresh != state.token,
        forall|i: int|
            0 <= i < state.attempted.len() ==> (#[trigger] state.attempted[i]).0 != fresh,
    ensures
        refusals_hold(state.stepping(said, fresh).0),
{
}

/// The exchange ends: a handshake goes on only while fewer messages were taken
/// than the cap, and each message that is taken counts.
pub proof fn law_a_handshake_takes_a_bounded_number_of_messages(
    state: ChallengeView,
    said: message::MessageView,
    fresh: Seq<u8>,
)
    ensures
        state.taken < MAX_ATTEMPTS ==> state.stepping(said, fresh).0.taken == state.taken + 1,
        state.stepping(said, fresh).1.next is Continue ==> state.stepping(said, fresh).0.taken
            < MAX_ATTEMPTS,
{
}

/// A command's number is its four letters on the wire, in reading order.
pub proof fn law_commands_are_spelt_on_the_wire(command: Command, i: int)
    requires
        0 <= i < 4,
    ensures
        command.letters().len() == 4,
        crate::wire::le32(command.number())[i] == command.letters()[i] as u32,
{
    assert(i == 0 || i == 1 || i == 2 || i == 3);
    match command {
        Command::Cnxn => {
            reveal_strlit("CNXN");
            assert(crate::wire::le32(0x4e58_4e43) =~= seq![0x43u8, 0x4eu8, 0x58u8, 0x4eu8]);
        },
        Command::Auth => {
            reveal_strlit("AUTH");
            assert(crate::wire::le32(0x4854_5541) =~= seq![0x41u8, 0x55u8, 0x54u8, 0x48u8]);
        },
        Command::Open => {
            reveal_strlit("OPEN");
            assert(crate::wire::le32(0x4e45_504f) =~= seq![0x4fu8, 0x50u8, 0x45u8, 0x4eu8]);
        },
        Command::Okay => {
            reveal_strlit("OKAY");
            assert(crate::wire::le32(0x5941_4b4f) =~= seq![0x4fu8, 0x4bu8, 0x41u8, 0x59u8]);
        },
        Command::Clse => {
            reveal_strlit("CLSE");
            assert(crate::wire::le32(0x4553_4c43) =~= seq![0x43u8, 0x4cu8, 0x53u8, 0x45u8]);
        },
        Command::Wrte => {
            reveal_strlit("WRTE");
            assert(crate::wire::le32(0x4554_5257) =~= seq![0x57u8, 0x52u8, 0x54u8, 0x45u8]);
        },
        Command::Stls => {
            reveal_strlit("STLS");
            assert(crate::wire::le32(0x534c_5453) =~= seq![0x53u8, 0x54u8, 0x4cu8, 0x53u8]);
        },
        Command::Sync => {
            reveal_strlit("SYNC");
            assert(crate::wire::le32(0x434e_5953) =~= seq![0x53u8, 0x59u8, 0x4eu8, 0x43u8]);
        },
    }
}

/// A message of the handshake that is neither a signature nor a key is passed over,
/// and changes nothing but how many messages are left; one that does not belong to
/// the handshake ends it.
pub proof fn law_what_is_no_answer_settles_nothing(
    state: ChallengeView,
    said: message::MessageView,
    fresh: Seq<u8>,
)
    requires
        0 <= state.taken < MAX_ATTEMPTS,
    ensures
        ({
            let (after, step) = state.stepping(said, fresh);
            &&& said.command != Command::Auth ==> step.send is None && step.next
                == NextView::Failed(
                AuthError::Unexpected { expected: Command::Auth, got: said.command },
            )
            &&& said.command == Command::Auth && said.arg0 != 2 && said.arg0 != 3 ==> {
                &&& step.send is None
                &&& after.token == state.token
                &&& after.attempted == state.attempted
                &&& after.entitled == state.entitled
                &&& state.taken + 1 < 16 ==> step.next is Continue
                &&& state.taken + 1 == 16 ==> step.next == NextView::Failed(
                    AuthError::TooManyAttempts,
                )
            }
        }),
{
}

/// An offer that nothing in the handshake backs is turned away, and so is one that is
/// no key.
pub proof fn law_an_offer_without_proof_is_turned_away(
    start: ChallengeView,
    exchange: Seq<(message::MessageView, Seq<u8>)>,
    offer: message::MessageView,
    fresh: Seq<u8>,
)
    requires
        start == ChallengeView::started(start.max_payload, start.entitled, start.token),
        goes_on(start, exchange),
        exchange.len() < MAX_ATTEMPTS,
        offer.command == Command::Auth,
        offer.arg0 == 3,
    ensures
        match key::key_in(message::payload_text(offer.payload)) {
            Err(error) => after_exchange(start, exchange).stepping(offer, fresh).1.next
                == NextView::Failed(AuthError::BadKey(error)),
            Ok(key) => (forall|i: int|
                0 <= i < exchange.len() ==> !#[trigger] signs(start, exchange, i, key))
                ==> after_exchange(start, exchange).stepping(offer, fresh).1.next
                == NextView::Failed(AuthError::NoProofOfPossession),
        },
{
    if let Ok(key) = key::key_in(message::payload_text(offer.payload)) {
        lemma_goes_on(start, exchange, -1, key);
        lemma_exchange(start, exchange, key);
    } else {
        lemma_goes_on(start, exchange, -1, arbitrary());
    }
}

/// A client that is accepted is told the version of the protocol, the size that was
/// agreed on, and the banner as a text that ends in a zero.
pub proof fn law_an_acceptance_tells_what_was_agreed(banner: Seq<char>, max_payload: u32)
    ensures
        ({
            let told = acceptance(banner, max_payload);
            &&& told.command == Command::Cnxn
            &&& told.arg0 == 0x0100_0000
            &&& told.arg1 == max_payload
            &&& told.payload.len() == vstd::utf8::encode_utf8(banner).len() + 1
            &&& told.payload.last() == 0
            &&& told.payload.drop_last() == vstd::utf8::encode_utf8(banner)
        }),
{
    let told = acceptance(banner, max_payload);
    assert(told.payload.drop_last() =~= vstd::utf8::encode_utf8(banner));
}

/// The first key that a signature fits is the one that counts, and where none does
/// nothing is found.
pub proof fn law_the_first_key_that_fits_counts(
    before: Seq<key::PublicKeyView>,
    fits: key::PublicKeyView,
    after: Seq<key::PublicKeyView>,
    token: Seq<u8>,
    signature: Seq<u8>,
)
    requires
        fits.verifies(token, signature),
        forall|i: int|
            0 <= i < before.len() ==> !(#[trigger] before[i]).verifies(token, signature),
    ensures
        first_verifying(before + seq![fits] + after, token, signature) == Some(fits),
        first_verifying(before, token, signature) is None,
    decreases before.len(),
{
    let all = before + seq![fits] + after;
    if before.len() == 0 {
        assert(all[0] == fits);
    } else {
        let fewer = before.drop_first();
        assert forall|i: int| 0 <= i < fewer.len() implies !(#[trigger] fewer[i]).verifies(
            token,
            signature,
        ) by {
            assert(fewer[i] == before[i + 1]);
        }
        assert(!before[0].verifies(token, signature));
        assert(all[0] == before[0]);
        assert(all.drop_first() =~= fewer + seq![fits] + after);
        law_the_first_key_that_fits_counts(fewer, fits, after, token, signature);
    }
}

} // verus!

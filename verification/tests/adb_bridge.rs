//! The bridge: framing, keys, the handshake and the streams behind it.

use std::collections::{HashMap, VecDeque};

use rsa::pkcs1v15::Pkcs1v15Sign;
use rsa::{BigUint, RsaPrivateKey};
use sha1::Sha1;
use yard_provider::adb_bridge::auth::{
    accept, connect, AuthError, Challenge, Handshake, Next, MAX_ATTEMPTS, TOKEN_LEN,
};
use yard_provider::adb_bridge::bridge::{refused, Action, Session};
use yard_provider::adb_bridge::key::{KeyError, PublicKey};
use yard_provider::adb_bridge::message::{
    auth, checksum, Command, FrameError, Header, Message, HEADER_LEN, MAX_PAYLOAD, VERSION,
};
use yard_provider::backend_android::bridge::{entitled, EntitledKey};

const BANNER: &str = "device::ro.product.name=farm;features=shell_v2,cmd";

/// A throwaway key: its file, its primes, and the fingerprint that another
/// implementation gives it.
const TEST_BLOB: &str =
    "QAAAACl2kqLnec7nSv844SB93DVEfFstSJh9yAPD7VbdGGvmmk9kGIf1JcrPUZ5o1h1AaNLqgLHORQJJrTbDfHqfBR\
     KTo1eh6kpcK8dQ/6bB2tGNVdb0VNPileOkSWi34YrpQiYSnqqteZh4Po9j/TVBitkmq4lSlTVQr77LfDwf6/eEWvm7\
     026lQP/2xNPUN8zVkaCM2HrPoc1mnX58NA5iNSh23UNgPs8DanmhbC5eVd0IAQAQVSmOF2Pnlq93pEeC7GWcyTXebs\
     jlO9fBFhojuZZP3aGAF1aum+8+2zfkOuY6nRWq8f2v0gccPJEhKupRGZLFmowKBWIyYFJOxM95UX8wnTGM5P7/Z6ez\
     W/8g9xTt//7pFQGVSlTSbheSKJm50m//7iJ+hFYK3b6gorCagPuLNpr7JMD+Cfmyw1HSWFFETbWKJp6g0VmlFLEpjy\
     Z7pgYzyT9wusJXO8tbXQoCL8rTC7xwQX6ajhVP4rxtIXmeek88c62F5L39HX+a3xJI/hYf3/BbwvOGoo6+SbwD4YDa\
     atqee+l1JtihaiV1gkBriFgL41jLbUOBLn+qHnBG2nZC92afbAkpHIzEgal3gnRkj86Cs2gtF9z+4vpO39ytihOsVW\
     aoldxoRXa3nlV/gb6qnGKFpeTGW6iNQ7urObSLMa6wPuDXuslez+L34syXtu80CAEAAQA=";
const TEST_COMMENT: &str = "tester@workbench";
const TEST_FINGERPRINT: &str = "SHA256:GVA/dxhVIJZ5hTCysp7frqQvBsTFizds15XnpYYqbCk";
const TEST_P: &str =
    "c1ce90f40e9b58c0d4f7148c5ee1a5137af883e8201c44bc1b3d03197bf8fd6e713a718eaf5a54c3358d7ccf20\
     73429c14c842ef6cc816fa283196b9fe52b634f4766279e46aef50fea86c90ef0a57b824081b8efc1d6f98b284\
     59b929e8d8db2dcd86a902dce6d56c470f5ca05d60a9e2abedc3b4d3a642035c7a984c4df603";
const TEST_Q: &str =
    "b92ead76347d55f96856b7844314d2efb7e7e3e879abc248e3ca727a38b84403f3379bfcc6970fd18bbdbcaa1b\
     4302f5db79e736fb562e91f7b784ca0994b43babd02313f2ccda21ca7a8a84c9769574fcc08227660366db74a2\
     cd7e78c1c42683a05ab6ba1bdb7e4202059d83e19142d0dec8502d75101fe0c7c5e554a7294d";
/// The signature over the bytes from 0 to 19, made elsewhere.
const TEST_SIGNATURE: &str =
    "0bfb6d837c8b3f6fda87c68cf2d97f59514684d7c78662837c0081f0a9b16d1198844f5872e0bc32c121e810a3\
     75ab9e315a4a63b4f4e72772a961fa4ba1ab08dac3c822f705ebf8e0eb845fd64bb59b770566a668fb0fe9f66c\
     e6b21bfbc3a1898ae318cbcc8436527ccf27660e150f2d6f88038d72e91452a869ebdc5ee300ac3c96f38da731\
     74b7ba5817946730960b833fbb2e2302ceae291f8c26a767da54b936cd2c6e00899dd0be0f655c09b268815a0e\
     85d6dc765b3e91b40ed6315fa5d77824d67fc462bff10de826cc5664062106ec162037e811159d72236c98c5a9\
     147792f73e67e0f62d25764a235c9d6fec4c74406a54c7173eb0fc50dd329f";

/// A second key, standing in for somebody else's laptop.
const OTHER_BLOB: &str =
    "QAAAAEMcpBWV73MVYaeRSNI7tcHJJ3prgluVXwd7n7QX0wcwRLZha6qUAjz6F4Ds00ik73IwKtoeUDqlV+smD7JH67\
     w4GZThY9RBEfUooGStl2PI9gs0x56jMrRA/q5gjFChdxFnhPQOG3uLwszA+68eyMTp78Zx6FNFUOvu48fT5Ryf1zBt\
     qveD9c0RYod313cv17G/ND8X1MMMPY6NHawhC2hzptWnbHjR+w/W3535P2A4VroxM/Cz7sLXoPbrKrF2+zUOpu3NA2\
     jcZmBx07dCB4gW8cmz1ygy3U4NPR3AhNLITEE6q1goFNN/3CovxOl+4rMbLwUddFQF2OlRTJuA8ubv87PRLyv+Hcr1\
     uzwPSxJ2AvzQJP3rQsOwNmy5ZA+aKqlGmD4Bxxhi9D5Etc9xLvZJRB97K88Ne74hgnskwMXUxYxOFLRQo81+lWg8U6\
     cZ1vNHLtdM4tILJvBmp1YUxPQGjo7jrG26+v+oRHdZGJe+UYbZSifN2f7n83aX4AUdjC5+c1MabEPd5zr8bIOUB82T\
     POe4j5NyKIj/gfJZfrqFSu2zdP1Lb8a8Nmpar+MTNjO3dyabqtWAyumJEvApjlbh8xKx1WbfcqxiimqQVOwKYZg9i8\
     bvgBLMkO3BhalJpRs1WMPXd4RViu0gFyidCThvTAPY36iCMrEFwx+9xP8cq+0lKgEAAQA=";
const OTHER_FINGERPRINT: &str = "SHA256:lriju22z2kqKKyZ8T4xBXIffyKTCidgUTX8DvP2kl54";


fn key_file() -> String {
    format!("{TEST_BLOB} {TEST_COMMENT}\n")
}

fn test_key() -> PublicKey {
    PublicKey::parse(&key_file()).expect("the key parses")
}

fn other_key() -> PublicKey {
    PublicKey::parse(OTHER_BLOB).expect("the key parses")
}

fn big(hex: &str) -> BigUint {
    BigUint::parse_bytes(hex.as_bytes(), 16).expect("a number")
}

fn test_private_key() -> RsaPrivateKey {
    RsaPrivateKey::from_p_q(big(TEST_P), big(TEST_Q), BigUint::from(65537u32))
        .expect("the private key is one")
}

fn sign(token: &[u8]) -> Vec<u8> {
    test_private_key()
        .sign(Pkcs1v15Sign::new::<Sha1>(), token)
        .expect("signing succeeds")
}

fn opening() -> Message {
    Message::new(
        Command::Cnxn,
        VERSION,
        MAX_PAYLOAD,
        b"host::features=cmd\0".to_vec(),
    )
}

fn signature(bytes: Vec<u8>) -> Message {
    Message::new(Command::Auth, auth::SIGNATURE, 0, bytes)
}

fn offer(key: &PublicKey) -> Message {
    Message::new(
        Command::Auth,
        auth::RSAPUBLICKEY,
        0,
        format!("{}\0", key.blob()).into_bytes(),
    )
}

fn token_in(message: &Message) -> Vec<u8> {
    assert_eq!(message.command, Command::Auth);
    assert_eq!(message.arg0, auth::TOKEN, "expected a token");
    message.payload.to_vec()
}

fn begin(keys: Vec<PublicKey>) -> (Challenge, Vec<u8>) {
    let limit = connect(&opening()).expect("a client opens with CNXN");
    let (challenge, first) = Challenge::start(limit, keys);
    let token = token_in(&first);
    (challenge, token)
}

fn admitted(next: Next) -> Handshake {
    match next {
        Next::Admitted(handshake) => handshake,
        _ => panic!("the client was not admitted"),
    }
}

fn failed(next: Next) -> AuthError {
    match next {
        Next::Failed(error) => error,
        _ => panic!("the handshake did not fail"),
    }
}

#[test]
fn only_the_three_state_changing_services_are_refused() {
    assert_eq!(refused("root:"), Some("root"));
    assert_eq!(refused("remount:"), Some("remount"));
    assert_eq!(refused("unroot:"), Some("unroot"));

    assert_eq!(refused("shell:"), None);
    assert_eq!(refused("sync:"), None);
    assert_eq!(refused("tcp:8080"), None);
    // Not a prefix match: refusing this would break `adb shell su -c`.
    assert_eq!(refused("shell:su -c id"), None);
    assert_eq!(refused("shell:rootish"), None);
}

fn same(a: &Message, b: &Message) -> bool {
    a.command == b.command && a.arg0 == b.arg0 && a.arg1 == b.arg1 && a.payload == b.payload
}

#[test]
fn a_message_survives_a_round_trip() {
    let msg = Message::new(Command::Wrte, 7, 9, b"hello".to_vec());
    let encoded = msg.encode();
    let (back, used) = Message::read(&encoded).unwrap().unwrap();
    assert!(same(&back, &msg));
    assert_eq!(used, encoded.len());
}

#[test]
fn an_empty_payload_round_trips() {
    let msg = Message::empty(Command::Okay, 1, 2);
    let (back, _) = Message::read(&msg.encode()).unwrap().unwrap();
    assert!(same(&back, &msg));
}

#[test]
fn the_header_is_what_adb_expects() {
    let encoded = Message::new(Command::Cnxn, VERSION, MAX_PAYLOAD, b"host::".to_vec()).encode();
    assert_eq!(encoded.len(), HEADER_LEN + 6);
    assert_eq!(&encoded[0..4], b"CNXN");
    assert_eq!(
        u32::from_le_bytes(encoded[12..16].try_into().unwrap()),
        6,
        "the length field is the payload length"
    );
    assert_eq!(
        u32::from_le_bytes(encoded[20..24].try_into().unwrap()),
        !u32::from_le_bytes(encoded[0..4].try_into().unwrap()),
        "magic is the command's ones' complement"
    );
}

#[test]
fn a_mismatched_magic_is_refused() {
    let mut encoded = Message::empty(Command::Okay, 0, 0).encode();
    encoded[20] ^= 0xff;
    assert!(matches!(
        Message::read(&encoded),
        Err(FrameError::BadMagic)
    ));
}

#[test]
fn an_oversized_length_is_refused_before_allocating() {
    let mut header = Message::empty(Command::Wrte, 0, 0).encode();
    header[12..16].copy_from_slice(&u32::MAX.to_le_bytes());
    assert!(matches!(
        Message::read(&header),
        Err(FrameError::PayloadTooLarge(u32::MAX))
    ));
    assert!(matches!(
        Header::parse(&header),
        Err(FrameError::PayloadTooLarge(u32::MAX))
    ));
}

#[test]
fn an_unknown_command_is_refused() {
    let mut encoded = Message::empty(Command::Okay, 0, 0).encode();
    let bogus: u32 = 0x1234_5678;
    encoded[0..4].copy_from_slice(&bogus.to_le_bytes());
    encoded[20..24].copy_from_slice(&(!bogus).to_le_bytes());
    assert!(matches!(
        Message::read(&encoded),
        Err(FrameError::UnknownCommand(_))
    ));
}

#[test]
fn a_service_name_loses_its_terminator() {
    let msg = Message::new(Command::Open, 1, 0, b"shell:ls\0".to_vec());
    assert_eq!(msg.payload_str(), "shell:ls");
}

#[test]
fn a_message_is_not_read_before_it_is_whole() {
    let encoded = Message::new(Command::Wrte, 7, 9, b"hello".to_vec()).encode();
    for n in 0..encoded.len() {
        assert!(Message::read(&encoded[..n]).unwrap().is_none());
    }
    let mut two = encoded.clone();
    two.extend(Message::empty(Command::Clse, 3, 4).encode());
    let (_, used) = Message::read(&two).unwrap().unwrap();
    let (second, _) = Message::read(&two[used..]).unwrap().unwrap();
    assert_eq!(second.command, Command::Clse);
    assert_eq!((second.arg0, second.arg1), (3, 4));
}

#[test]
fn the_checksum_is_the_sum_of_the_bytes() {
    assert_eq!(checksum(b""), 0);
    assert_eq!(checksum(&[1, 2, 250, 255]), 508);
    let encoded = Message::new(Command::Wrte, 0, 0, vec![255; 300]).encode();
    assert_eq!(
        u32::from_le_bytes(encoded[16..20].try_into().unwrap()),
        255 * 300
    );
}

#[test]
fn every_command_has_its_own_code() {
    let commands = [
        Command::Cnxn,
        Command::Auth,
        Command::Open,
        Command::Okay,
        Command::Clse,
        Command::Wrte,
        Command::Stls,
        Command::Sync,
    ];
    for command in commands {
        assert_eq!(Command::from_code(command.code()), Some(command));
        assert_eq!(&command.code().to_le_bytes()[..], command.name().as_bytes());
    }
    assert_eq!(Command::from_code(0), None);
}

#[test]
fn payload_text_that_is_not_utf8_is_replaced_not_refused() {
    let msg = Message::new(Command::Open, 1, 0, vec![b'a', 0xff, b'b']);
    assert_eq!(msg.payload_str(), "a\u{fffd}b");
}

#[test]
fn frame_errors_say_what_was_wrong() {
    assert!(FrameError::BadMagic.message().contains("magic"));
    assert!(FrameError::PayloadTooLarge(9_999_999)
        .message()
        .contains("9999999"));
    assert!(FrameError::UnknownCommand(0x1234_5678)
        .message()
        .contains("12345678"));
}

#[test]
fn the_fingerprint_matches_the_one_openssl_and_typescript_produce() {
    let key = test_key();
    assert_eq!(key.fingerprint(), TEST_FINGERPRINT);
    assert_eq!(key.comment(), Some(TEST_COMMENT));
    assert_eq!(other_key().fingerprint(), OTHER_FINGERPRINT);
}

#[test]
fn the_blob_is_kept_without_the_comment() {
    let file = key_file();
    let key = PublicKey::parse(&file).unwrap();
    assert_eq!(key.blob(), file.split_whitespace().next().unwrap());
}

#[test]
fn a_key_offered_without_a_comment_is_the_same_key() {
    let file = key_file();
    let bare = file.split_whitespace().next().unwrap();
    assert_eq!(
        PublicKey::parse(bare).unwrap().fingerprint(),
        PublicKey::parse(&file).unwrap().fingerprint()
    );
    assert_eq!(PublicKey::parse(bare).unwrap().comment(), None);
}

#[test]
fn keys_that_are_none_are_told_apart() {
    assert_eq!(PublicKey::parse("  \n").err(), Some(KeyError::Empty));
    assert_eq!(PublicKey::parse("!!! me").err(), Some(KeyError::NotBase64));
    assert_eq!(
        PublicKey::parse("AAAA me").err(),
        Some(KeyError::WrongSize(3))
    );
    // 524 bytes that announce another size than 64 words, and then 524 zeros
    // with the right size, whose modulus is none.
    let zeros = "A".repeat(698) + "A=";
    assert_eq!(
        PublicKey::parse(&zeros).err(),
        Some(KeyError::UnsupportedSize)
    );
    let mut small = String::from("QAAA");
    small.push_str(&"A".repeat(694));
    small.push_str("A=");
    assert_eq!(PublicKey::parse(&small).err(), Some(KeyError::NotAnRsaKey));
    for error in [
        KeyError::Empty,
        KeyError::NotBase64,
        KeyError::WrongSize(3),
        KeyError::UnsupportedSize,
        KeyError::NotAnRsaKey,
    ] {
        assert!(!error.message().is_empty());
    }
    assert!(KeyError::WrongSize(3).message().contains('3'));
}

#[test]
fn only_the_keys_own_signature_over_the_token_verifies() {
    let token: Vec<u8> = (0..20).collect();
    let made_elsewhere: Vec<u8> = (0..TEST_SIGNATURE.len() / 2)
        .map(|i| u8::from_str_radix(&TEST_SIGNATURE[2 * i..2 * i + 2], 16).unwrap())
        .collect();
    let key = test_key();
    assert!(key.verify(&token, &made_elsewhere));
    assert_eq!(sign(&token), made_elsewhere);

    let mut other_token = token.clone();
    other_token[0] ^= 1;
    assert!(!key.verify(&other_token, &made_elsewhere));
    let mut tampered = made_elsewhere.clone();
    tampered[200] ^= 1;
    assert!(!key.verify(&token, &tampered));
    assert!(!key.verify(&token, &[]));
    assert!(!key.verify(&[], &made_elsewhere));
    assert!(!other_key().verify(&token, &made_elsewhere));
}

#[test]
fn entitled_keys_carry_their_owner_and_bad_ones_are_dropped() {
    let keys = entitled(vec![
        EntitledKey {
            public_key: key_file(),
            user_id: "user-1".into(),
        },
        EntitledKey {
            public_key: "not a key".into(),
            user_id: "user-2".into(),
        },
        EntitledKey {
            public_key: OTHER_BLOB.into(),
            user_id: "user-3".into(),
        },
    ]);
    let owners: Vec<_> = keys.iter().map(|key| key.owner()).collect();
    assert_eq!(owners, [Some("user-1"), Some("user-3")]);
    assert_eq!(test_key().owner(), None);
}

#[test]
fn a_known_key_is_admitted_without_asking_anyone() {
    let (mut challenge, token) = begin(vec![test_key().with_owner("user-1".into())]);
    let step = challenge.step(&signature(sign(&token)));
    assert!(step.send.is_none());
    let handshake = admitted(step.next);
    assert_eq!(handshake.identity.user_id, "user-1");
    assert_eq!(handshake.identity.fingerprint, test_key().fingerprint());

    let accepted = accept(BANNER, handshake.max_payload);
    assert_eq!(accepted.command, Command::Cnxn);
    assert_eq!(
        accepted.payload_str(),
        BANNER,
        "the device banner is passed through, so the client keeps shell_v2"
    );
    assert_eq!(accepted.arg0, VERSION);
    assert_eq!(accepted.arg1, handshake.max_payload);
}

#[test]
fn an_unknown_key_is_offered_and_approved() {
    // What a real client does: sign, get refused, then offer the key itself.
    let (mut challenge, token) = begin(Vec::new());
    let step = challenge.step(&signature(sign(&token)));
    assert!(matches!(step.next, Next::Continue));
    token_in(&step.send.expect("another challenge"));
    let step = challenge.step(&offer(&test_key()));
    let asked = match step.next {
        Next::Ask(key) => key,
        _ => panic!("the holder is asked"),
    };
    assert_eq!(asked.fingerprint(), TEST_FINGERPRINT);
    let handshake = challenge
        .answered(Some("user-7".into()))
        .expect("approval admits");
    assert_eq!(handshake.identity.user_id, "user-7");
    assert_eq!(handshake.identity.fingerprint, TEST_FINGERPRINT);
}

#[test]
fn a_refused_key_does_not_get_in() {
    let (mut challenge, token) = begin(Vec::new());
    challenge.step(&signature(sign(&token)));
    assert!(
        matches!(challenge.step(&offer(&test_key())).next, Next::Ask(_)),
        "the holder is asked"
    );
    // The holder said no.
    assert!(matches!(
        challenge.answered(None),
        Err(AuthError::Refused)
    ));
}

#[test]
fn a_key_that_never_signed_anything_is_not_proof_of_anything() {
    let (mut challenge, _) = begin(Vec::new());
    assert_eq!(
        failed(challenge.step(&offer(&test_key())).next),
        AuthError::NoProofOfPossession
    );
}

#[test]
fn signing_with_one_key_and_offering_another_is_refused() {
    let (mut challenge, token) = begin(Vec::new());
    challenge.step(&signature(sign(&token)));
    assert_eq!(
        failed(challenge.step(&offer(&other_key())).next),
        AuthError::NoProofOfPossession
    );
}

#[test]
fn a_second_key_still_gets_its_turn() {
    let (mut challenge, first) = begin(Vec::new());
    let step = challenge.step(&signature(sign(&first)));
    let second = token_in(&step.send.unwrap());
    let step = challenge.step(&signature(sign(&second)));
    token_in(&step.send.unwrap());
    assert!(matches!(
        challenge.step(&offer(&test_key())).next,
        Next::Ask(_)
    ));
    let handshake = challenge.answered(Some("user-9".into())).expect("approved");
    assert_eq!(handshake.identity.user_id, "user-9");
    assert_eq!(handshake.identity.fingerprint, test_key().fingerprint());
    assert_eq!(accept(BANNER, handshake.max_payload).command, Command::Cnxn);
}

#[test]
fn a_challenge_is_never_reissued() {
    let (mut challenge, first) = begin(Vec::new());
    let step = challenge.step(&signature(sign(&first)));
    let second = token_in(&step.send.unwrap());
    assert_ne!(
        first, second,
        "reusing the token would let a refused signature be replayed"
    );
    assert_eq!(second.len(), TOKEN_LEN);
}

#[test]
fn a_signature_that_was_refused_cannot_be_replayed() {
    let keys = vec![test_key().with_owner("user-1".into())];
    let (mut challenge, _) = Challenge::with_token(MAX_PAYLOAD, keys, [1; TOKEN_LEN]);
    let stale = sign(&[9; TOKEN_LEN]);
    let step = challenge.step_with(&signature(stale.clone()), [2; TOKEN_LEN]);
    assert_eq!(token_in(&step.send.unwrap()), vec![2; TOKEN_LEN]);
    let step = challenge.step_with(&signature(stale), [3; TOKEN_LEN]);
    assert!(matches!(step.next, Next::Continue));
    let step = challenge.step_with(&signature(sign(&[3; TOKEN_LEN])), [4; TOKEN_LEN]);
    assert_eq!(admitted(step.next).identity.user_id, "user-1");
}

#[test]
fn a_client_that_does_not_open_with_cnxn_is_refused() {
    let error = connect(&Message::empty(Command::Open, 1, 0)).unwrap_err();
    assert!(matches!(
        error,
        AuthError::Unexpected {
            expected: Command::Cnxn,
            got: Command::Open,
        }
    ));
    assert!(error.message().contains("CNXN"));
    let (mut challenge, _) = begin(Vec::new());
    assert!(matches!(
        failed(challenge.step(&Message::empty(Command::Open, 1, 0)).next),
        AuthError::Unexpected {
            expected: Command::Auth,
            ..
        }
    ));
}

#[test]
fn an_endless_stream_of_auth_messages_gives_up() {
    let (mut challenge, _) = begin(Vec::new());
    // Whoever connected drives this loop, so it has to be bounded from here.
    let mut taken = 0;
    let error = loop {
        taken += 1;
        assert!(taken <= 64, "the handshake never gave up");
        if let Next::Failed(error) = challenge.step(&signature(vec![0u8; 256])).next {
            break error;
        }
    };
    assert_eq!(error, AuthError::TooManyAttempts);
    assert_eq!(taken, MAX_ATTEMPTS);
}

#[test]
fn an_offer_that_is_no_key_says_so() {
    let (mut challenge, _) = begin(Vec::new());
    let bad = Message::new(Command::Auth, auth::RSAPUBLICKEY, 0, b"AAAA\0".to_vec());
    assert_eq!(
        failed(challenge.step(&bad).next),
        AuthError::BadKey(KeyError::WrongSize(3))
    );
}

#[test]
fn the_smaller_limit_wins() {
    let small = Message::new(Command::Cnxn, VERSION, 4096, b"host::\0".to_vec());
    assert_eq!(connect(&small).unwrap(), 4096);
    let large = Message::new(Command::Cnxn, VERSION, u32::MAX, b"host::\0".to_vec());
    assert_eq!(connect(&large).unwrap(), MAX_PAYLOAD);
}

#[test]
fn authentication_errors_say_what_was_wrong() {
    for error in [
        AuthError::Frame(FrameError::BadMagic),
        AuthError::BadKey(KeyError::Empty),
        AuthError::NoProofOfPossession,
        AuthError::Refused,
        AuthError::TooManyAttempts,
    ] {
        assert!(!error.message().is_empty());
    }
}

/// A device that echoes, plus a record of what was asked for.
#[derive(Default)]
struct FakeDevice {
    opened: Vec<String>,
    /// Bytes a service emits the moment it is opened.
    greetings: HashMap<String, Vec<u8>>,
    fails: Vec<String>,
    activity: usize,
    aborted: Vec<u32>,
}

/// A session with a client on one side and a device on the other.
struct Client {
    session: Session,
    device: FakeDevice,
    services: HashMap<u32, String>,
    /// What the device has said and the session has not taken yet.
    speaking: HashMap<u32, VecDeque<Vec<u8>>>,
    received: Vec<Message>,
}

impl Client {
    fn connected(device: FakeDevice) -> Self {
        Self {
            session: Session::new(),
            device,
            services: HashMap::new(),
            speaking: HashMap::new(),
            received: Vec::new(),
        }
    }

    fn say(&mut self, message: Message) {
        let actions = self.session.on_message(message);
        self.perform(actions);
        self.listen();
    }

    /// Hand over what the device has said, as far as the client will take it.
    fn listen(&mut self) {
        let streams: Vec<u32> = self.speaking.keys().copied().collect();
        for local in streams {
            while self.session.may_read(local) {
                let Some(chunk) = self.speaking.get_mut(&local).and_then(VecDeque::pop_front)
                else {
                    break;
                };
                let actions = self.session.on_device_data(local, chunk);
                self.perform(actions);
            }
        }
    }

    fn perform(&mut self, actions: Vec<Action>) {
        for action in actions {
            match action {
                Action::Activity => self.device.activity += 1,
                Action::Send(message) => self.received.push(message),
                Action::Open {
                    local,
                    remote,
                    service,
                } => {
                    let ok = !self.device.fails.contains(&service);
                    self.device.opened.push(service.clone());
                    self.services.insert(local, service);
                    let actions = self.session.on_opened(local, remote, ok);
                    self.perform(actions);
                }
                Action::Start { local } => {
                    let service = &self.services[&local];
                    if let Some(greeting) = self.device.greetings.get(service) {
                        self.speaking
                            .entry(local)
                            .or_default()
                            .push_back(greeting.clone());
                    }
                }
                Action::Deliver { local, payload } => {
                    let actions = self.session.on_delivered(local);
                    self.perform(actions);
                    self.speaking
                        .entry(local)
                        .or_default()
                        .push_back(payload.to_vec());
                }
                Action::Abort { local } => self.device.aborted.push(local),
            }
        }
    }

    fn open(&mut self, remote: u32, service: &str) -> Message {
        self.say(Message::new(
            Command::Open,
            remote,
            0,
            format!("{service}\0").into_bytes(),
        ));
        self.next_where(|msg| {
            msg.arg1 == remote && matches!(msg.command, Command::Okay | Command::Clse)
        })
    }

    fn next(&mut self) -> Message {
        self.received.remove(0)
    }

    fn next_where(&mut self, want: impl Fn(&Message) -> bool) -> Message {
        let at = self
            .received
            .iter()
            .position(want)
            .expect("the frame arrives");
        self.received.remove(at)
    }

    fn write(&mut self, remote: u32, local: u32, data: &[u8]) {
        self.say(Message::new(Command::Wrte, remote, local, data.to_vec()));
    }
}

#[test]
fn a_service_is_opened_upstream_and_bytes_flow_both_ways() {
    let mut client = Client::connected(FakeDevice::default());

    let okay = client.open(11, "shell:echo hi");
    assert_eq!(okay.command, Command::Okay);
    assert_eq!(okay.arg1, 11, "the client's own id comes back to it");
    let local = okay.arg0;

    assert_eq!(
        client.device.opened,
        ["shell:echo hi"],
        "the service string is passed through untouched"
    );

    client.write(11, local, b"ping");

    let echoed = client.next_where(|msg| msg.command == Command::Wrte && msg.arg0 == local);
    assert_eq!(
        &echoed.payload[..],
        b"ping",
        "bytes reached the device and came back"
    );
}

#[test]
fn a_stream_is_acknowledged_before_it_says_anything() {
    let mut device = FakeDevice::default();
    device
        .greetings
        .insert("shell:".into(), b"immediately".to_vec());
    let mut client = Client::connected(device);

    client.say(Message::new(Command::Open, 77, 0, b"shell:\0".to_vec()));

    assert_eq!(
        client.next().command,
        Command::Okay,
        "the acknowledgement has to come first, whatever the service does"
    );
    assert_eq!(client.next().payload_str(), "immediately");
}

#[test]
fn two_streams_do_not_interfere() {
    let mut device = FakeDevice::default();
    device
        .greetings
        .insert("shell:one".into(), b"first".to_vec());
    device
        .greetings
        .insert("shell:two".into(), b"second".to_vec());
    let mut client = Client::connected(device);

    let a = client.open(100, "shell:one").arg0;
    let b = client.open(200, "shell:two").arg0;
    assert_ne!(a, b, "each stream gets its own id");

    let first = client.next_where(|m| m.command == Command::Wrte && m.arg0 == a);
    let second = client.next_where(|m| m.command == Command::Wrte && m.arg0 == b);
    assert_eq!(first.payload_str(), "first");
    assert_eq!(second.payload_str(), "second");
    assert_eq!(
        first.arg1, 100,
        "each frame carries the client's id for its own stream"
    );
    assert_eq!(second.arg1, 200);
}

#[test]
fn closing_one_stream_leaves_the_other_alone() {
    let mut device = FakeDevice::default();
    device
        .greetings
        .insert("shell:two".into(), b"still here".to_vec());
    let mut client = Client::connected(device);

    let doomed = client.open(100, "shell:one").arg0;
    client.say(Message::empty(Command::Clse, 100, doomed));
    assert_eq!(client.device.aborted, [doomed]);

    let b = client.open(200, "shell:two").arg0;
    let msg = client.next_where(|m| m.command == Command::Wrte && m.arg0 == b);
    assert_eq!(msg.payload_str(), "still here");
}

#[test]
fn a_service_the_device_refuses_closes_only_that_stream() {
    let mut device = FakeDevice::default();
    device.fails.push("jdwp:9999".into());
    let mut client = Client::connected(device);

    let answer = client.open(42, "jdwp:9999");
    assert_eq!(answer.command, Command::Clse);
    assert_eq!(answer.arg0, 0, "a zero local id means the open failed");

    // The connection is still usable.
    assert_eq!(client.open(43, "shell:").command, Command::Okay);
}

#[test]
fn root_remount_and_unroot_are_refused_with_an_explanation() {
    for service in ["root:", "unroot:", "remount:"] {
        let mut client = Client::connected(FakeDevice::default());

        assert_eq!(client.open(1, service).command, Command::Okay);

        let told = client.next();
        assert_eq!(told.command, Command::Wrte);
        assert!(
            told.payload_str().contains("farm device"),
            "the person running `adb {service}` has to be told why, not just cut off"
        );
        assert_eq!(client.next().command, Command::Clse);

        assert!(
            client.device.opened.is_empty(),
            "a refused service must never reach the device"
        );
    }
}

#[test]
fn traffic_counts_as_using_the_device() {
    let mut client = Client::connected(FakeDevice::default());
    let local = client.open(1, "shell:").arg0;
    client.write(1, local, b"ls\n");
    client.next_where(|m| m.command == Command::Wrte || m.command == Command::Okay);

    assert!(
        client.device.activity >= 2,
        "opening a stream and writing to it are both activity"
    );
}

#[test]
fn the_device_hanging_up_closes_the_stream() {
    let mut device = FakeDevice::default();
    device
        .greetings
        .insert("shell:echo hi".into(), b"hi\n".to_vec());
    let mut client = Client::connected(device);

    let local = client.open(5, "shell:echo hi").arg0;
    let data = client.next_where(|m| m.command == Command::Wrte && m.arg0 == local);
    assert_eq!(data.payload_str(), "hi\n");

    // A stream the client walks away from must not leave the connection stuck.
    client.say(Message::empty(Command::Clse, 5, local));
    assert_eq!(client.open(6, "shell:").command, Command::Okay);
}

#[test]
fn the_device_ending_its_side_is_passed_on() {
    let mut client = Client::connected(FakeDevice::default());
    let local = client.open(5, "shell:echo hi").arg0;
    let actions = client.session.on_device_ended(local);
    client.perform(actions);
    let closed = client.next_where(|m| m.command == Command::Clse);
    assert_eq!((closed.arg0, closed.arg1), (local, 5));
}

#[test]
fn one_write_is_in_flight_until_it_is_acknowledged() {
    let mut client = Client::connected(FakeDevice::default());
    let local = client.open(9, "shell:cat").arg0;
    client.write(9, local, b"one");
    client.write(9, local, b"two");
    let writes = |client: &Client| {
        client
            .received
            .iter()
            .filter(|m| m.command == Command::Wrte)
            .count()
    };
    assert_eq!(writes(&client), 1, "the second waits for the first");
    client.say(Message::empty(Command::Okay, 9, local));
    client.listen();
    assert_eq!(writes(&client), 2);
}

#[test]
fn traffic_for_a_stream_that_is_not_there_does_not_matter() {
    let mut client = Client::connected(FakeDevice::default());
    client.write(9, 77, b"lost");
    client.say(Message::empty(Command::Okay, 9, 77));
    client.say(Message::empty(Command::Clse, 9, 77));
    assert!(!client.session.may_read(77));
    assert_eq!(client.open(1, "shell:").command, Command::Okay);
}

#[test]
fn a_client_that_is_gone_leaves_no_stream_behind() {
    let mut client = Client::connected(FakeDevice::default());
    let local = client.open(9, "shell:cat").arg0;
    assert!(client.session.may_read(local));
    client.session.close_all();
    assert!(!client.session.may_read(local));
    assert!(client.session.on_device_data(local, b"late".to_vec()).is_empty());
    let next = client.open(10, "shell:").arg0;
    assert_ne!(next, local, "an id is never handed out twice");
}

#[test]
fn copies_say_what_the_originals_say() {
    let key = PublicKey::parse(&key_file()).unwrap().with_owner("alice".into());
    let copy = key.clone();
    assert_eq!(copy.fingerprint(), key.fingerprint());
    assert_eq!(copy.blob(), key.blob());
    assert_eq!(copy.comment(), key.comment());
    assert_eq!(copy.owner(), Some("alice"));

    let message = Message::new(Command::Wrte, 1, 2, b"hello".to_vec());
    assert_eq!(message.clone(), message);
    assert_eq!(message.clone().encode(), message.encode());
}

#[test]
fn what_the_device_said_is_sent_before_the_stream_is_closed() {
    let mut session = Session::new();
    session.on_opened(1, 9, true);
    let sent = |actions: Vec<Action>| -> Vec<(Command, Vec<u8>)> {
        actions
            .into_iter()
            .filter_map(|action| match action {
                Action::Send(message) => Some((message.command, message.payload.to_vec())),
                _ => None,
            })
            .collect()
    };
    assert_eq!(
        sent(session.on_device_data(1, b"one".to_vec())),
        [(Command::Wrte, b"one".to_vec())]
    );
    assert!(session.may_read(1));
    assert!(sent(session.on_device_data(1, b"two".to_vec())).is_empty());
    assert!(!session.may_read(1), "one chunk waits for its permit");

    // No write is handed to the device while the chunk waits.
    let payload = bytes::Bytes::from_static(b"typed");
    let actions = session.on_write(1, payload);
    assert!(matches!(actions[..], [Action::Activity]));
    assert!(sent(session.on_device_ended(1)).is_empty());
    assert_eq!(
        sent(session.on_okay(1)),
        [(Command::Wrte, b"two".to_vec()), (Command::Clse, Vec::new())]
    );
    assert!(sent(session.on_okay(1)).is_empty());
}

#[test]
fn writes_are_handed_on_one_at_a_time() {
    let mut session = Session::new();
    session.on_opened(1, 9, true);
    let handed = |actions: &[Action]| -> Vec<Vec<u8>> {
        actions
            .iter()
            .filter_map(|action| match action {
                Action::Deliver { payload, .. } => Some(payload.to_vec()),
                _ => None,
            })
            .collect()
    };
    let write = |n: u8| bytes::Bytes::from(vec![n]);
    assert_eq!(handed(&session.on_write(1, write(0))), [[0]]);
    assert!(!session.may_read(1), "the device is being handed a write");
    for n in 1..=8 {
        assert!(handed(&session.on_write(1, write(n))).is_empty());
        assert!(session.has_room(1));
    }
    session.on_write(1, write(9));
    assert!(!session.has_room(1), "the client has to wait");

    let actions = session.on_delivered(1);
    assert!(matches!(&actions[0], Action::Send(m) if m.command == Command::Okay));
    assert_eq!(handed(&actions), [[1]]);
    assert!(session.has_room(1));

    let actions = session.on_undelivered(1);
    assert!(handed(&actions).is_empty());
    assert!(matches!(&actions[..], [Action::Send(m)] if m.command == Command::Clse));
    assert!(session.has_room(1));
    let actions = session.on_write(1, write(10));
    assert!(matches!(actions[..], [Action::Activity, Action::Abort { local: 1 }]));
}

#[test]
fn a_checksum_is_not_looked_at() {
    let message = Message::new(Command::Wrte, 1, 2, b"hello".to_vec());
    let mut bytes = message.encode();
    bytes[16..20].copy_from_slice(&[0xde, 0xad, 0xbe, 0xef]);
    let (read, used) = Message::read(&bytes).unwrap().unwrap();
    assert_eq!(read, message);
    assert_eq!(used, bytes.len());
}

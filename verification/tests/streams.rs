use transmitic_core::config::SharedUser;
use transmitic_core::core_consts::{
    MAX_DATA_SIZE, MSG_FILE_CHUNK, MSG_FILE_FINISHED, MSG_FILE_LIST, PAYLOAD_OFFSET,
    TOTAL_BUFFER_SIZE, TOTAL_CRYPTO_BUFFER_SIZE,
};
use transmitic_core::crypto::{generate_id_pair, get_base64_str_from_bytes};
use transmitic_core::encrypted_stream::{EncryptedStream, StreamError};
use transmitic_core::secure_stream::{SecureStream, SecureStreamError};
use transmitic_core::transmitic_stream::{
    new_diffie_secret, HandshakeError, HandshakeStep, TransmiticStream, BUFFER_SIZE, HEADER_SIZE,
};
use transmitic_core::utils::get_payload_size_from_buffer;

fn user(nickname: &str, public_id: Vec<u8>) -> SharedUser {
    SharedUser {
        nickname: nickname.to_string(),
        public_id: get_base64_str_from_bytes(public_id),
        ip: "127.0.0.1".to_string(),
        port: "1".to_string(),
        allowed: true,
    }
}

fn stream(key: u8) -> EncryptedStream {
    EncryptedStream::new([key; 32], user("bob", vec![1]), vec![2])
}

fn send(from: &mut EncryptedStream, to: &mut EncryptedStream, msg: u16, payload: &[u8]) {
    let (bytes, r) = from.write(msg, payload);
    assert!(r.is_ok());
    let n = EncryptedStream::message_frame_size();
    let rest = to.read_message(&bytes[..n]).unwrap() as usize;
    assert_eq!(bytes.len(), n + rest);
    if rest > 0 {
        to.read_payload(&bytes[n..]).unwrap();
    }
    assert_eq!(to.get_message(), msg);
    assert_eq!(to.get_payload().unwrap(), payload);
}

#[test]
fn encrypted_messages_are_read_as_written() {
    let (mut a, mut b) = (stream(7), stream(7));
    send(&mut a, &mut b, MSG_FILE_LIST, b"");
    send(&mut a, &mut b, MSG_FILE_CHUNK, b"some bytes");
    send(&mut b, &mut a, MSG_FILE_FINISHED, b"others");
    send(&mut a, &mut b, MSG_FILE_CHUNK, b"");
    send(&mut a, &mut b, MSG_FILE_CHUNK, &vec![9; MAX_DATA_SIZE]);
    send(&mut b, &mut a, MSG_FILE_LIST, b"x");
}

#[test]
fn encrypted_frames_have_known_sizes() {
    let mut a = stream(7);
    assert_eq!(EncryptedStream::message_frame_size(), 22);
    assert_eq!(a.write(MSG_FILE_LIST, b"").0.len(), 22);
    assert_eq!(a.write(MSG_FILE_LIST, b"abc").0.len(), 22 + 3 + 16);
    assert_eq!(a.write(MSG_FILE_CHUNK, b"abc").0.len(), 22 + 3 + 4 + 16);
}

#[test]
fn same_message_is_never_sent_in_the_same_form() {
    let mut a = stream(7);
    let first = a.write(MSG_FILE_LIST, b"x").0;
    assert_ne!(first, a.write(MSG_FILE_LIST, b"x").0);
    assert_eq!(first, stream(7).write(MSG_FILE_LIST, b"x").0);
    assert_ne!(first, stream(8).write(MSG_FILE_LIST, b"x").0);
}

#[test]
fn changed_frames_are_refused() {
    let mut a = stream(7);
    let (bytes, _) = a.write(MSG_FILE_CHUNK, b"some bytes");
    let n = EncryptedStream::message_frame_size();
    let mut changed = bytes.clone();
    changed[3] ^= 1;
    let mut b = stream(7);
    let e = b.read_message(&changed[..n]).unwrap_err();
    assert!(matches!(e, StreamError::DecryptMessage));
    assert_eq!(e.message(), "Encrypted Stream read failed to decrypt message. aead::Error");

    let mut b = stream(7);
    assert_eq!(b.read_message(&bytes[..n]).unwrap(), 30);
    let mut changed = bytes.clone();
    changed[n + 3] ^= 1;
    let e = b.read_payload(&changed[n..]).unwrap_err();
    assert!(matches!(e, StreamError::DecryptPayload));
    assert_eq!(e.message(), "Encrypted Stream read failed to decrypt payload. aead::Error");
    b.read_payload(&bytes[n..]).unwrap();
    assert_eq!(b.get_payload().unwrap(), b"some bytes");
}

#[test]
fn wrong_checksum_is_found() {
    let (mut a, mut b) = (stream(7), stream(7));
    send(&mut a, &mut b, MSG_FILE_CHUNK, b"123456789");
    b.buffer[PAYLOAD_OFFSET + 9] ^= 0x80;
    let e = b.get_payload().unwrap_err();
    assert!(matches!(e, StreamError::Checksum { actual: 0xCBF43926, expected: 0x4BF43926 }));
    assert_eq!(
        e.message(),
        "Checksum mismatch. Actual: '3421780262' - Expected '1274296614'"
    );
}

#[test]
fn stream_errors_have_messages() {
    assert_eq!(StreamError::NonceMaxed.message(), "Nonce maxed. Reconnect.");
    assert_eq!(
        StreamError::EncryptMessage.message(),
        "Encrypted Stream write failed to encrypt message. aead::Error"
    );
    assert_eq!(
        StreamError::EncryptPayload.message(),
        "Encrypted Stream write failed to encrypt payload. aead::Error"
    );
}

#[test]
fn both_ends_of_a_handshake_agree() {
    let (alice_private, alice_public) = generate_id_pair().unwrap();
    let (bob_private, bob_public) = generate_id_pair().unwrap();
    let (_, eve_public) = generate_id_pair().unwrap();
    let mut alice =
        TransmiticStream::new("1.2.3.4".to_string(), vec![user("bob", bob_public)], alice_private);
    let mut bob = TransmiticStream::new(
        "5.6.7.8".to_string(),
        vec![user("eve", eve_public), user("alice", alice_public)],
        bob_private.clone(),
    );

    let header = TransmiticStream::send_transmitic_header();
    assert_eq!(header, [b'T', b'R', b'A', b'Q', 8, 0, 0]);
    assert!(alice.receive_transmitic_header(&header).is_ok());
    assert!(bob.receive_transmitic_header(&header).is_ok());

    let a = new_diffie_secret().unwrap();
    let b = new_diffie_secret().unwrap();
    assert_ne!(a, b);
    let from_alice = alice.send_diffie_helman_key(&a);
    let from_bob = bob.send_diffie_helman_key(&b);
    assert_eq!(from_alice.len(), BUFFER_SIZE);
    let bobs_key = alice.receive_diffie_helman_key(&from_bob).unwrap();
    let alices_key = bob.receive_diffie_helman_key(&from_alice).unwrap();
    assert_eq!(&from_bob[..32], &bobs_key);
    let key = TransmiticStream::get_encryption_key(&a, &bobs_key);
    assert_eq!(key, TransmiticStream::get_encryption_key(&b, &alices_key));
    assert_ne!(key, bobs_key);

    let mut one = alice.get_encrypted_stream(key);
    let mut other = bob.get_encrypted_stream(key);
    assert_eq!(one.shared_user.nickname, "bob");
    assert_eq!(other.shared_user.nickname, "alice");
    assert_eq!(other.private_id_bytes, bob_private);
    send(&mut one, &mut other, MSG_FILE_LIST, b"");
}

#[test]
fn handshake_refusals() {
    let (private, _) = generate_id_pair().unwrap();
    let (eve_private, _) = generate_id_pair().unwrap();
    let (_, bob_public) = generate_id_pair().unwrap();
    let mut s =
        TransmiticStream::new("1.2.3.4".to_string(), vec![user("bob", bob_public)], private.clone());
    let mut header = TransmiticStream::send_transmitic_header();
    assert_eq!(header.len(), HEADER_SIZE);
    header[0] = b'X';
    assert_eq!(
        s.receive_transmitic_header(&header).unwrap_err().message(),
        "1.2.3.4 TRAN MAGIC NUMBER mismatch. [88, 82, 65, 81]"
    );
    header[0] = b'T';
    header[4] = 9;
    assert_eq!(
        s.receive_transmitic_header(&header).unwrap_err().message(),
        "1.2.3.4 TRAN API MAJOR mismatch. 9"
    );
    header[4] = 8;
    header[6] = 77;
    assert!(s.receive_transmitic_header(&header).is_ok());

    let eve = TransmiticStream::new("6.6.6.6".to_string(), vec![], eve_private);
    let from_eve = eve.send_diffie_helman_key(&[5; 32]);
    let e = s.receive_diffie_helman_key(&from_eve).unwrap_err();
    assert!(matches!(e, HandshakeError::RemoteIdNotFound));
    assert_eq!(e.message(), "Could not find matching PublicID. User unknown.");

    let mut broken = user("bob", vec![1]);
    broken.public_id = "@".to_string();
    let mut s = TransmiticStream::new("1.2.3.4".to_string(), vec![broken], private);
    let e = s.receive_diffie_helman_key(&from_eve).unwrap_err();
    assert!(matches!(e, HandshakeError::PublicId(_)));

    assert!(TransmiticStream::try_new("1.2.3.4".to_string(), vec![], vec![1, 2]).is_none());
}

#[test]
fn steps_of_the_two_ends_fit() {
    for n in 0..4 {
        let fits = matches!(
            (TransmiticStream::connect(n), TransmiticStream::wait_for_incoming(n)),
            (HandshakeStep::SendHeader, HandshakeStep::ReceiveHeader)
                | (HandshakeStep::ReceiveHeader, HandshakeStep::SendHeader)
                | (HandshakeStep::SendKey, HandshakeStep::ReceiveKey)
                | (HandshakeStep::ReceiveKey, HandshakeStep::SendKey)
        );
        assert!(fits);
    }
    assert!(matches!(TransmiticStream::connect(4), HandshakeStep::Finish));
    assert!(matches!(TransmiticStream::wait_for_incoming(4), HandshakeStep::Finish));
}

#[test]
fn known_agreement() {
    let alice: [u8; 32] = [
        0x77, 0x07, 0x6d, 0x0a, 0x73, 0x18, 0xa5, 0x7d, 0x3c, 0x16, 0xc1, 0x72, 0x51, 0xb2, 0x66,
        0x45, 0xdf, 0x4c, 0x2f, 0x87, 0xeb, 0xc0, 0x99, 0x2a, 0xb1, 0x77, 0xfb, 0xa5, 0x1d, 0xb9,
        0x2c, 0x2a,
    ];
    let bob_public: [u8; 32] = [
        0xde, 0x9e, 0xdb, 0x7d, 0x7b, 0x7d, 0xc1, 0xb4, 0xd3, 0x5b, 0x61, 0xc2, 0xec, 0xe4, 0x35,
        0x37, 0x3f, 0x83, 0x43, 0xc8, 0x5b, 0x78, 0x67, 0x4d, 0xad, 0xfc, 0x7e, 0x14, 0x6f, 0x88,
        0x2b, 0x4f,
    ];
    let shared: [u8; 32] = [
        0x4a, 0x5d, 0x9d, 0x5b, 0xa4, 0xce, 0x2d, 0xe1, 0x72, 0x8e, 0x3b, 0xf4, 0x80, 0x35, 0x0f,
        0x25, 0xe0, 0x7e, 0x21, 0xc9, 0x47, 0xd1, 0x9e, 0x33, 0x76, 0xf0, 0x9b, 0x3c, 0x1e, 0x16,
        0x17, 0x42,
    ];
    assert_eq!(TransmiticStream::get_encryption_key(&alice, &bob_public), shared);
}

#[test]
fn secure_messages_are_read_as_written() {
    let mut a = SecureStream::new([3; 32]);
    let mut b = SecureStream::new([3; 32]);
    for n in 0..300usize {
        let payload = vec![n as u8; n];
        let (frame, r) = a.write(4, &payload);
        assert!(r.is_ok());
        assert_eq!(frame.len(), TOTAL_CRYPTO_BUFFER_SIZE);
        b.read(&frame).unwrap();
        assert_eq!(b.buffer.len(), TOTAL_BUFFER_SIZE);
        assert_eq!(b.buffer[0], 4);
        assert_eq!(get_payload_size_from_buffer(&b.buffer), n);
        assert_eq!(&b.buffer[PAYLOAD_OFFSET..PAYLOAD_OFFSET + n], payload.as_slice());
    }
    let (mut frame, _) = a.write(4, b"x");
    frame[0] ^= 1;
    assert!(matches!(b.read(&frame), Err(SecureStreamError::Decrypt)));
}

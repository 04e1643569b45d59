//! Messages between two users, encrypted and numbered.
//!
//! A message is sent as one encrypted frame that holds its number and the size of its payload,
//! and, where there is a payload, a second one that holds the payload. Every frame uses up one
//! nonce; both ends count in step.
use vstd::prelude::*;
use vstd::slice::slice_subrange;
use crate::bytes::{be_bytes, be_value, from_be_bytes, law_be_bytes_injective, law_be_bytes_of_be_value, law_be_value_of_be_bytes, lemma_be_bytes_len, lemma_pow256, to_be_bytes};
use crate::config::SharedUser;
use crate::core_consts::{CRC_MESSAGES, CRC_SIZE, CRYPTO_EXTENSION_SIZE, MSG_FILE_CHUNK, MSG_FILE_LIST_FINAL, MSG_FILE_LIST_PIECE, MSG_FILE_SELECTION_CONTINUE, MSG_TYPE_SIZE, PAYLOAD_OFFSET, PAYLOAD_SIZE_LEN, TOTAL_BUFFER_SIZE};
use crate::crypto::{aes256gcm_opened, aes256gcm_sealed, crc32, crc32_hash, gcm_decrypt, gcm_encrypt, NONCE_INIT, NONCE_MAX};
use crate::text::{decimal, has_part, law_parts_are_found, push_decimal};

verus! {

/// Why a message could not be sent or read.
#[derive(Clone, Copy, Debug, PartialEq, Eq, Structural)]
pub enum StreamError {
    NonceMaxed,
    EncryptMessage,
    EncryptPayload,
    DecryptMessage,
    DecryptPayload,
    Checksum { actual: u32, expected: u32 },
}

impl StreamError {
    /// The wording of `message`.
    pub open spec fn message_text(&self) -> Seq<char> {
        match self {
            StreamError::NonceMaxed => "Nonce maxed. Reconnect."@,
            StreamError::EncryptMessage =>
                "Encrypted Stream write failed to encrypt message. aead::Error"@,
            StreamError::EncryptPayload =>
                "Encrypted Stream write failed to encrypt payload. aead::Error"@,
            StreamError::DecryptMessage =>
                "Encrypted Stream read failed to decrypt message. aead::Error"@,
            StreamError::DecryptPayload =>
                "Encrypted Stream read failed to decrypt payload. aead::Error"@,
            StreamError::Checksum { actual, expected } => "Checksum mismatch. Actual: '"@ + decimal(
                *actual as nat,
            ) + "' - Expected '"@ + decimal(*expected as nat) + "'"@,
        }
    }

    /// The error in words.
    pub fn message(&self) -> (s: String)
        ensures
            s@ == self.message_text(),
    {
        let mut s = String::new();
        match self {
            StreamError::NonceMaxed => s.push_str("Nonce maxed. Reconnect."),
            StreamError::EncryptMessage => s.push_str(
                "Encrypted Stream write failed to encrypt message. aead::Error",
            ),
            StreamError::EncryptPayload => s.push_str(
                "Encrypted Stream write failed to encrypt payload. aead::Error",
            ),
            StreamError::DecryptMessage => s.push_str(
                "Encrypted Stream read failed to decrypt message. aead::Error",
            ),
            StreamError::DecryptPayload => s.push_str(
                "Encrypted Stream read failed to decrypt payload. aead::Error",
            ),
            StreamError::Checksum { actual, expected } => {
                s.push_str("Checksum mismatch. Actual: '");
                push_decimal(&mut s, *actual as u64);
                s.push_str("' - Expected '");
                push_decimal(&mut s, *expected as u64);
                s.push_str("'");
            },
        }
        assert(s@ =~= self.message_text());
        s
    }
}

/// Whether the payload of a message is followed by its checksum.
pub open spec fn has_checksum(msg: u16) -> bool {
    CRC_MESSAGES@.contains(msg)
}

/// The checksum of a payload, as it is sent.
pub open spec fn checksum_bytes(payload: Seq<u8>) -> Seq<u8> {
    be_bytes(crc32(payload) as nat, CRC_SIZE as nat)
}

/// What the first frame of a message holds.
pub open spec fn message_head(msg: u16, payload_len: nat) -> Seq<u8> {
    be_bytes(msg as nat, 2) + be_bytes(payload_len, 4)
}

/// What the second frame of a message holds.
pub open spec fn message_body(msg: u16, payload: Seq<u8>) -> Seq<u8> {
    if has_checksum(msg) {
        payload + checksum_bytes(payload)
    } else {
        payload
    }
}

/// A nonce as the cipher takes it.
pub open spec fn nonce_bytes(nonce: nat) -> Seq<u8> {
    be_bytes(nonce, 12)
}

/// The first frame of a message.
pub open spec fn head_frame(key: Seq<u8>, nonce: nat, msg: u16, payload_len: nat) -> Seq<u8> {
    aes256gcm_sealed(key, nonce_bytes(nonce), message_head(msg, payload_len))
}

/// The second frame of a message.
pub open spec fn body_frame(key: Seq<u8>, nonce: nat, msg: u16, payload: Seq<u8>) -> Seq<u8> {
    aes256gcm_sealed(key, nonce_bytes(nonce), message_body(msg, payload))
}

/// `buffer` with `bytes` written over it at `at`.
pub open spec fn patched(buffer: Seq<u8>, at: int, bytes: Seq<u8>) -> Seq<u8> {
    buffer.take(at) + bytes + buffer.skip(at + bytes.len())
}

/// The message number in a buffer.
pub open spec fn message_in(buffer: Seq<u8>) -> u16 {
    be_value(buffer.subrange(0, 2)) as u16
}

/// The payload size in a buffer.
pub open spec fn payload_size_in(buffer: Seq<u8>) -> nat {
    be_value(buffer.subrange(2, 6))
}

/// The payload in a buffer, where its checksum fits.
pub open spec fn payload_in(buffer: Seq<u8>) -> Result<Seq<u8>, StreamError> {
    let size = payload_size_in(buffer) as int;
    let payload = buffer.subrange(6, 6 + size);
    let expected = be_value(buffer.subrange(6 + size, 6 + size + 4)) as u32;
    if has_checksum(message_in(buffer)) && size > 0 && expected != crc32(payload) {
        Err(StreamError::Checksum { actual: crc32(payload), expected })
    } else {
        Ok(payload)
    }
}

/// How many bytes of a buffer hold a message with its payload and checksum.
pub open spec fn used_len(buffer: Seq<u8>) -> nat {
    let size = payload_size_in(buffer);
    if has_checksum(message_in(buffer)) && size > 0 {
        6 + size + 4
    } else {
        6 + size
    }
}

/// Size of the second frame of the message in a buffer; zero where there is none.
pub open spec fn body_frame_size(buffer: Seq<u8>) -> nat {
    let size = payload_size_in(buffer);
    if size == 0 {
        0
    } else if has_checksum(message_in(buffer)) {
        size + 16 + 4
    } else {
        size + 16
    }
}

/// One end of a connection.
pub struct StreamView {
    pub key: Seq<u8>,
    pub nonce: nat,
    pub buffer: Seq<u8>,
}

/// A nonce used up: the end after it, and whether there is another.
pub open spec fn counted(s: StreamView) -> (StreamView, Result<(), StreamError>) {
    if s.nonce >= NONCE_MAX {
        (s, Err(StreamError::NonceMaxed))
    } else {
        (StreamView { nonce: s.nonce + 1, ..s }, Ok(()))
    }
}

/// The end after the first frame of a message has come in.
pub open spec fn head_read(s: StreamView, frame: Seq<u8>) -> (StreamView, Result<
    nat,
    StreamError,
>) {
    match aes256gcm_opened(s.key, nonce_bytes(s.nonce), frame) {
        None => (s, Err(StreamError::DecryptMessage)),
        Some(head) => {
            let (t, counted) = counted(
                StreamView { buffer: patched(s.buffer, 0, head), ..s },
            );
            match counted {
                Ok(()) => (t, Ok(body_frame_size(t.buffer))),
                Err(e) => (t, Err(e)),
            }
        },
    }
}

/// The end after the second frame of a message has come in.
pub open spec fn body_read(s: StreamView, frame: Seq<u8>) -> (StreamView, Result<
    (),
    StreamError,
>) {
    match aes256gcm_opened(s.key, nonce_bytes(s.nonce), frame) {
        None => (s, Err(StreamError::DecryptPayload)),
        Some(body) => counted(StreamView { buffer: patched(s.buffer, 6, body), ..s }),
    }
}

/// The end after a message has been written, what was sent, and whether there is another nonce.
pub open spec fn written(s: StreamView, msg: u16, payload: Seq<u8>) -> (
    StreamView,
    Seq<u8>,
    Result<(), StreamError>,
) {
    let head = head_frame(s.key, s.nonce, msg, payload.len());
    let (t, first) = counted(
        StreamView { buffer: patched(s.buffer, 0, message_head(msg, payload.len())), ..s },
    );
    if first is Err || payload.len() == 0 {
        (t, head, first)
    } else {
        let body = body_frame(s.key, t.nonce, msg, payload);
        let (u, second) = counted(
            StreamView { buffer: patched(t.buffer, 0, message_body(msg, payload)), ..t },
        );
        (u, head + body, second)
    }
}

/// Whether an end with this key and nonce that reads `sent` ends up with message `msg` and
/// `payload` in its buffer, whatever was in it before.
pub open spec fn delivers(
    key: Seq<u8>,
    nonce: nat,
    sent: Seq<u8>,
    msg: u16,
    payload: Seq<u8>,
) -> bool {
    let head_size = PAYLOAD_OFFSET + CRYPTO_EXTENSION_SIZE;
    let head = message_head(msg, payload.len());
    &&& sent.len() >= head_size
    &&& aes256gcm_opened(key, nonce_bytes(nonce), sent.take(head_size)) == Some(head)
    &&& payload.len() == 0 ==> sent.len() == head_size
    &&& payload.len() > 0 ==> aes256gcm_opened(
        key,
        nonce_bytes(nonce + 1),
        sent.skip(head_size),
    ) == Some(message_body(msg, payload))
    &&& payload.len() > 0 ==> sent.len() == head_size + message_body(msg, payload).len()
        + CRYPTO_EXTENSION_SIZE
}

/// One end of an encrypted connection. What it seals has to be sent, and what it opens has to
/// have been received, over a byte stream.
pub struct EncryptedStream {
    key: [u8; 32],
    nonce: u128,
    pub buffer: Vec<u8>,
    pub shared_user: SharedUser,
    pub private_id_bytes: Vec<u8>,
}

impl View for EncryptedStream {
    type V = StreamView;

    closed spec fn view(&self) -> StreamView {
        StreamView { key: self.key@, nonce: self.nonce as nat, buffer: self.buffer@ }
    }
}

impl EncryptedStream {
    /// The buffer holds one message of the largest size, and the nonce has twelve bytes.
    pub open spec fn wf(&self) -> bool {
        &&& self@.key.len() == 32
        &&& self@.nonce <= NONCE_MAX
        &&& self@.buffer.len() == TOTAL_BUFFER_SIZE
    }

    /// Who the connection is with, and the private id it was made with.
    pub closed spec fn parties(&self) -> (SharedUser, Seq<u8>) {
        (self.shared_user, self.private_id_bytes@)
    }

    pub fn new(
        encryption_key: [u8; 32],
        shared_user: SharedUser,
        private_id_bytes: Vec<u8>,
    ) -> (s: EncryptedStream)
        ensures
            s.wf(),
            s@.key == encryption_key@,
            s@.nonce == NONCE_INIT,
            s@.buffer == Seq::new(TOTAL_BUFFER_SIZE as nat, |i: int| 0u8),
            s.parties() == (shared_user, private_id_bytes@),
    {
        let mut buffer: Vec<u8> = Vec::with_capacity(TOTAL_BUFFER_SIZE);
        let mut i: usize = 0;
        while i < TOTAL_BUFFER_SIZE
            invariant
                i <= TOTAL_BUFFER_SIZE,
                buffer@ == Seq::new(i as nat, |j: int| 0u8),
            decreases TOTAL_BUFFER_SIZE - i,
        {
            buffer.push(0);
            i += 1;
            assert(buffer@ =~= Seq::new(i as nat, |j: int| 0u8));
        }
        EncryptedStream {
            key: encryption_key,
            nonce: NONCE_INIT,
            buffer,
            shared_user,
            private_id_bytes,
        }
    }

    fn increment_nonce(&mut self) -> (r: Result<(), StreamError>)
        requires
            old(self).wf(),
        ensures
            final(self).wf(),
            final(self).parties() == old(self).parties(),
            (final(self)@, r) == counted(old(self)@),
    {
        if self.nonce >= NONCE_MAX {
            return Err(StreamError::NonceMaxed);
        }
        self.nonce = self.nonce + 1;
        Ok(())
    }

    fn get_nonce_bytes(&self) -> (b: Vec<u8>)
        requires
            self.wf(),
        ensures
            b@ == nonce_bytes(self@.nonce),
            b@.len() == 12,
    {
        to_be_bytes(self.nonce, 12)
    }

    fn write_buffer(&mut self, at: usize, bytes: &[u8])
        requires
            old(self).wf(),
            at + bytes@.len() <= TOTAL_BUFFER_SIZE,
        ensures
            final(self).wf(),
            final(self).parties() == old(self).parties(),
            final(self)@ == (StreamView {
                buffer: patched(old(self)@.buffer, at as int, bytes@),
                ..old(self)@
            }),
    {
        let ghost before = self.buffer@;
        let mut i: usize = 0;
        while i < bytes.len()
            invariant
                i <= bytes@.len(),
                at + bytes@.len() <= TOTAL_BUFFER_SIZE,
                before.len() == TOTAL_BUFFER_SIZE,
                self.key == old(self).key,
                self.nonce == old(self).nonce,
                self.parties() == old(self).parties(),
                self.buffer@ == patched(before, at as int, bytes@.take(i as int)),
            decreases bytes@.len() - i,
        {
            self.buffer.set(at + i, bytes[i]);
            i += 1;
            assert(self.buffer@ =~= patched(before, at as int, bytes@.take(i as int)));
        }
        assert(bytes@.take(i as int) =~= bytes@);
        assert(self.buffer@ =~= patched(before, at as int, bytes@));
    }

    fn is_crc_payload(message: u16) -> (r: bool)
        ensures
            r == has_checksum(message),
    {
        let mut i: usize = 0;
        while i < CRC_MESSAGES.len()
            invariant
                i <= CRC_MESSAGES@.len(),
                forall|k: int| 0 <= k < i ==> CRC_MESSAGES@[k] != message,
            decreases CRC_MESSAGES@.len() - i,
        {
            if CRC_MESSAGES[i] == message {
                assert(CRC_MESSAGES@[i as int] == message);
                return true;
            }
            i += 1;
        }
        false
    }

    /// The number of the message in the buffer.
    pub fn get_message(&self) -> (msg: u16)
        requires
            self.wf(),
        ensures
            msg == message_in(self@.buffer),
    {
        let part = slice_subrange(self.buffer.as_slice(), 0, MSG_TYPE_SIZE);
        from_be_bytes(part) as u16
    }

    fn get_payload_size(&self) -> (size: u32)
        requires
            self.wf(),
        ensures
            size == payload_size_in(self@.buffer),
    {
        let part = slice_subrange(self.buffer.as_slice(), 2, 6);
        proof {
            law_be_bytes_of_be_value(part@);
            lemma_pow256();
        }
        from_be_bytes(part) as u32
    }

    /// The payload of the message in the buffer.
    pub fn get_payload(&self) -> (r: Result<&[u8], StreamError>)
        requires
            self.wf(),
            used_len(self@.buffer) <= TOTAL_BUFFER_SIZE,
        ensures
            match payload_in(self@.buffer) {
                Ok(payload) => r is Ok && r->Ok_0@ == payload,
                Err(e) => r is Err && r->Err_0 == e,
            },
    {
        let size: usize = self.get_payload_size() as usize;
        let payload = slice_subrange(self.buffer.as_slice(), PAYLOAD_OFFSET, PAYLOAD_OFFSET + size);
        if Self::is_crc_payload(self.get_message()) && size > 0 {
            let part = slice_subrange(
                self.buffer.as_slice(),
                PAYLOAD_OFFSET + size,
                PAYLOAD_OFFSET + size + CRC_SIZE,
            );
            proof {
                law_be_bytes_of_be_value(part@);
                lemma_pow256();
            }
            let expected: u32 = from_be_bytes(part) as u32;
            let actual: u32 = crc32_hash(payload);
            if expected != actual {
                return Err(StreamError::Checksum { actual, expected });
            }
        }
        Ok(payload)
    }

    /// The first frame of a message, as it has to be sent.
    fn write_message(&mut self, msg: u16, payload: &[u8]) -> (r: Result<Vec<u8>, StreamError>)
        requires
            old(self).wf(),
            payload@.len() <= TOTAL_BUFFER_SIZE,
        ensures
            final(self).wf(),
            final(self).parties() == old(self).parties(),
            final(self)@ == (StreamView {
                buffer: patched(old(self)@.buffer, 0, message_head(msg, payload@.len())),
                ..old(self)@
            }),
            r is Ok,
            r->Ok_0@ == head_frame(old(self)@.key, old(self)@.nonce, msg, payload@.len()),
            r->Ok_0@.len() == PAYLOAD_OFFSET + CRYPTO_EXTENSION_SIZE,
            aes256gcm_opened(old(self)@.key, nonce_bytes(old(self)@.nonce), r->Ok_0@) == Some(
                message_head(msg, payload@.len()),
            ),
    {
        let mut head = to_be_bytes(msg as u128, MSG_TYPE_SIZE);
        let mut size = to_be_bytes(payload.len() as u128, PAYLOAD_SIZE_LEN);
        head.append(&mut size);
        assert(head@ =~= message_head(msg, payload@.len()));
        self.write_buffer(0, head.as_slice());
        let nonce = self.get_nonce_bytes();
        match gcm_encrypt(
            &self.key,
            nonce.as_slice(),
            slice_subrange(self.buffer.as_slice(), 0, PAYLOAD_OFFSET),
        ) {
            Some(frame) => {
                assert(self.buffer@.subrange(0, 6) =~= head@);
                Ok(frame)
            },
            None => Err(StreamError::EncryptMessage),
        }
    }

    /// The second frame of a message, as it has to be sent.
    fn write_payload(&mut self, msg: u16, payload: &[u8]) -> (r: Result<Vec<u8>, StreamError>)
        requires
            old(self).wf(),
            message_body(msg, payload@).len() <= TOTAL_BUFFER_SIZE,
        ensures
            final(self).wf(),
            final(self).parties() == old(self).parties(),
            final(self)@ == (StreamView {
                buffer: patched(old(self)@.buffer, 0, message_body(msg, payload@)),
                ..old(self)@
            }),
            r is Ok,
            r->Ok_0@ == body_frame(old(self)@.key, old(self)@.nonce, msg, payload@),
            r->Ok_0@.len() == message_body(msg, payload@).len() + CRYPTO_EXTENSION_SIZE,
            aes256gcm_opened(old(self)@.key, nonce_bytes(old(self)@.nonce), r->Ok_0@) == Some(
                message_body(msg, payload@),
            ),
    {
        let mut used: usize = payload.len();
        proof {
            lemma_be_bytes_len(crc32(payload@) as nat, 4);
        }
        self.write_buffer(0, payload);
        if Self::is_crc_payload(msg) {
            let checksum = to_be_bytes(crc32_hash(payload) as u128, CRC_SIZE);
            self.write_buffer(used, checksum.as_slice());
            used += CRC_SIZE;
        }
        assert(self.buffer@ =~= patched(old(self)@.buffer, 0, message_body(msg, payload@)));
        assert(self.buffer@.subrange(0, used as int) =~= message_body(msg, payload@));
        let nonce = self.get_nonce_bytes();
        match gcm_encrypt(
            &self.key,
            nonce.as_slice(),
            slice_subrange(self.buffer.as_slice(), 0, used),
        ) {
            Some(frame) => Ok(frame),
            None => Err(StreamError::EncryptPayload),
        }
    }

    /// Seals a message. The first result is what has to be sent, the second what the sender is
    /// told once it has been. The other end, with the same key and nonce, gets the message.
    pub fn write(&mut self, msg: u16, payload: &[u8]) -> (r: (Vec<u8>, Result<(), StreamError>))
        requires
            old(self).wf(),
            message_body(msg, payload@).len() <= TOTAL_BUFFER_SIZE,
        ensures
            final(self).wf(),
            final(self).parties() == old(self).parties(),
            (final(self)@, r.0@, r.1) == written(old(self)@, msg, payload@),
            r.1 is Ok ==> delivers(old(self)@.key, old(self)@.nonce, r.0@, msg, payload@),
    {
        let mut sent = match self.write_message(msg, payload) {
            Ok(frame) => frame,
            Err(e) => return (Vec::new(), Err(e)),
        };
        let ghost head = sent@;
        match self.increment_nonce() {
            Ok(()) => {},
            Err(e) => return (sent, Err(e)),
        }
        if payload.len() == 0 {
            proof {
                assert(head.take(22) =~= head);
            }
            return (sent, Ok(()));
        }
        let mut body = match self.write_payload(msg, payload) {
            Ok(frame) => frame,
            Err(e) => return (sent, Err(e)),
        };
        let ghost tail = body@;
        sent.append(&mut body);
        proof {
            assert(sent@ =~= head + tail);
            assert(sent@.take(22) =~= head);
            assert(sent@.skip(22) =~= tail);
        }
        let counted = self.increment_nonce();
        (sent, counted)
    }

    /// Size of the first frame of every message.
    pub fn message_frame_size() -> (n: usize)
        ensures
            n == PAYLOAD_OFFSET + CRYPTO_EXTENSION_SIZE,
    {
        PAYLOAD_OFFSET + CRYPTO_EXTENSION_SIZE
    }

    /// Opens the first frame of a message, and says how long its second frame is; zero where
    /// there is none.
    pub fn read_message(&mut self, frame: &[u8]) -> (r: Result<u64, StreamError>)
        requires
            old(self).wf(),
            frame@.len() == PAYLOAD_OFFSET + CRYPTO_EXTENSION_SIZE,
        ensures
            final(self).wf(),
            final(self).parties() == old(self).parties(),
            final(self)@ == head_read(old(self)@, frame@).0,
            match head_read(old(self)@, frame@).1 {
                Ok(size) => r is Ok && r->Ok_0 == size,
                Err(e) => r is Err && r->Err_0 == e,
            },
    {
        let nonce = self.get_nonce_bytes();
        let head = match gcm_decrypt(&self.key, nonce.as_slice(), frame) {
            Some(head) => head,
            None => return Err(StreamError::DecryptMessage),
        };
        self.write_buffer(0, head.as_slice());
        match self.increment_nonce() {
            Ok(()) => {},
            Err(e) => return Err(e),
        }
        let size: u64 = self.get_payload_size() as u64;
        if size == 0 {
            return Ok(0);
        }
        let mut frame_size: u64 = size + CRYPTO_EXTENSION_SIZE as u64;
        if Self::is_crc_payload(self.get_message()) {
            frame_size += CRC_SIZE as u64;
        }
        Ok(frame_size)
    }

    /// Opens the second frame of a message.
    pub fn read_payload(&mut self, frame: &[u8]) -> (r: Result<(), StreamError>)
        requires
            old(self).wf(),
            PAYLOAD_OFFSET + frame@.len() <= TOTAL_BUFFER_SIZE + CRYPTO_EXTENSION_SIZE,
        ensures
            final(self).wf(),
            final(self).parties() == old(self).parties(),
            (final(self)@, r) == body_read(old(self)@, frame@),
    {
        let nonce = self.get_nonce_bytes();
        let body = match gcm_decrypt(&self.key, nonce.as_slice(), frame) {
            Some(body) => body,
            None => return Err(StreamError::DecryptPayload),
        };
        self.write_buffer(PAYLOAD_OFFSET, body.as_slice());
        self.increment_nonce()
    }
}

proof fn lemma_message_head(msg: u16, len: nat, buffer: Seq<u8>)
    requires
        len < 0x1_0000_0000,
        buffer.len() >= 6,
        buffer.subrange(0, 6) == message_head(msg, len),
    ensures
        message_head(msg, len).len() == 6,
        message_in(buffer) == msg,
        payload_size_in(buffer) == len,
{
    lemma_pow256();
    lemma_be_bytes_len(msg as nat, 2);
    lemma_be_bytes_len(len, 4);
    law_be_value_of_be_bytes(msg as nat, 2);
    law_be_value_of_be_bytes(len, 4);
    let head = message_head(msg, len);
    assert(buffer.subrange(0, 2) =~= head.subrange(0, 2)) by {
        assert(buffer.subrange(0, 6).subrange(0, 2) =~= buffer.subrange(0, 2));
    }
    assert(buffer.subrange(2, 6) =~= head.subrange(2, 6)) by {
        assert(buffer.subrange(0, 6).subrange(2, 6) =~= buffer.subrange(2, 6));
    }
    assert(head.subrange(0, 2) =~= be_bytes(msg as nat, 2));
    assert(head.subrange(2, 6) =~= be_bytes(len, 4));
}

/// What one end has written the other end reads: with the same key and the same nonce, its buffer
/// holds the message and the payload, and both ends go on with the same nonce.
pub proof fn law_read_of_write(
    writer: StreamView,
    reader: StreamView,
    msg: u16,
    payload: Seq<u8>,
    sent: Seq<u8>,
)
    requires
        writer.key == reader.key,
        writer.nonce == reader.nonce,
        written(writer, msg, payload).1 == sent,
        written(writer, msg, payload).2 is Ok,
        delivers(writer.key, writer.nonce, sent, msg, payload),
        reader.buffer.len() == TOTAL_BUFFER_SIZE,
        PAYLOAD_OFFSET + message_body(msg, payload).len() <= TOTAL_BUFFER_SIZE,
    ensures
        ({
            let head_size = PAYLOAD_OFFSET + CRYPTO_EXTENSION_SIZE;
            let (t, size) = head_read(reader, sent.take(head_size));
            let (u, done) = body_read(t, sent.skip(head_size));
            let end = if payload.len() == 0 {
                t
            } else {
                u
            };
            &&& size == Ok::<nat, StreamError>((sent.len() - head_size) as nat)
            &&& payload.len() > 0 ==> done is Ok
            &&& message_in(end.buffer) == msg
            &&& used_len(end.buffer) <= TOTAL_BUFFER_SIZE
            &&& payload_in(end.buffer) == Ok::<Seq<u8>, StreamError>(payload)
            &&& end.nonce == written(writer, msg, payload).0.nonce
            &&& end.key == written(writer, msg, payload).0.key
            &&& end.buffer.len() == TOTAL_BUFFER_SIZE
        }),
{
    let head = message_head(msg, payload.len());
    let body = message_body(msg, payload);
    let sum = checksum_bytes(payload);
    lemma_pow256();
    lemma_be_bytes_len(crc32(payload) as nat, 4);
    law_be_value_of_be_bytes(crc32(payload) as nat, 4);
    lemma_be_bytes_len(msg as nat, 2);
    lemma_be_bytes_len(payload.len(), 4);
    let (t, size) = head_read(reader, sent.take(22));
    assert(t.buffer.subrange(0, 6) =~= head);
    lemma_message_head(msg, payload.len(), t.buffer);
    if payload.len() == 0 {
        assert(t.buffer.subrange(6, 6) =~= payload);
    } else {
        let (u, done) = body_read(t, sent.skip(22));
        assert(u.buffer.subrange(0, 6) =~= t.buffer.subrange(0, 6));
        lemma_message_head(msg, payload.len(), u.buffer);
        let n = payload.len() as int;
        assert(u.buffer.subrange(6, 6 + n) =~= payload);
        if has_checksum(msg) {
            assert(u.buffer.subrange(6 + n, 6 + n + 4) =~= sum);
        }
    }
}

/// A write that ends well uses one nonce for each frame it sends, and moves on past them.
pub proof fn law_write_moves_nonce(s: StreamView, msg: u16, payload: Seq<u8>)
    requires
        s.nonce <= NONCE_MAX,
    ensures
        written(s, msg, payload).2 is Ok ==> written(s, msg, payload).0.nonce == s.nonce + (
        if payload.len() == 0 {
            1nat
        } else {
            2nat
        }),
        s.nonce <= written(s, msg, payload).0.nonce <= NONCE_MAX,
        written(s, msg, payload).0.key == s.key,
        written(s, msg, payload).2 is Err <==> s.nonce == NONCE_MAX || (payload.len() > 0
            && s.nonce + 1 == NONCE_MAX),
{
}

/// Different nonces of a connection look different to the cipher.
pub proof fn law_nonces_differ(a: nat, b: nat)
    requires
        a <= NONCE_MAX,
        b <= NONCE_MAX,
        a != b,
    ensures
        nonce_bytes(a) != nonce_bytes(b),
{
    lemma_pow256();
    if nonce_bytes(a) == nonce_bytes(b) {
        law_be_bytes_injective(a, b, 12);
    }
}

/// A message is announced by its number in two bytes and the size of its payload in four.
pub proof fn law_head_of_message(msg: u16, len: nat)
    requires
        len < 0x1_0000_0000,
    ensures
        message_head(msg, len).len() == 6,
        be_value(message_head(msg, len).take(2)) == msg,
        be_value(message_head(msg, len).skip(2)) == len,
{
    lemma_pow256();
    lemma_be_bytes_len(msg as nat, 2);
    lemma_be_bytes_len(len, 4);
    law_be_value_of_be_bytes(msg as nat, 2);
    law_be_value_of_be_bytes(len, 4);
    assert(message_head(msg, len).take(2) =~= be_bytes(msg as nat, 2));
    assert(message_head(msg, len).skip(2) =~= be_bytes(len, 4));
}

/// A payload is sent as it is. Behind it stands its checksum in four bytes, for the pieces of a list
/// of files, the parts of a file and the requests for one, and for no other message.
pub proof fn law_body_of_message(msg: u16, payload: Seq<u8>)
    ensures
        message_body(msg, payload).take(payload.len() as int) == payload,
        has_checksum(msg) <==> msg == MSG_FILE_LIST_PIECE || msg == MSG_FILE_LIST_FINAL || msg
            == MSG_FILE_CHUNK || msg == MSG_FILE_SELECTION_CONTINUE,
        has_checksum(msg) ==> message_body(msg, payload).len() == payload.len() + 4 && be_value(
            message_body(msg, payload).skip(payload.len() as int),
        ) == crc32(payload),
        !has_checksum(msg) ==> message_body(msg, payload) == payload,
{
    lemma_pow256();
    lemma_be_bytes_len(crc32(payload) as nat, 4);
    law_be_value_of_be_bytes(crc32(payload) as nat, 4);
    let body = message_body(msg, payload);
    assert(body.take(payload.len() as int) =~= payload);
    let list = CRC_MESSAGES@;
    assert(list[0] == MSG_FILE_LIST_PIECE && list[1] == MSG_FILE_LIST_FINAL && list[2]
        == MSG_FILE_CHUNK && list[3] == MSG_FILE_SELECTION_CONTINUE);
    if has_checksum(msg) {
        assert(body.skip(payload.len() as int) =~= checksum_bytes(payload));
    }
}

/// A payload is handed out exactly where it has no checksum, is empty, or has the checksum that it
/// came with; it is then what stands in the buffer.
pub proof fn law_damage_is_found(buffer: Seq<u8>)
    ensures
        ({
            let size = payload_size_in(buffer) as int;
            let payload = buffer.subrange(6, 6 + size);
            let came = be_value(buffer.subrange(6 + size, 6 + size + 4)) as u32;
            &&& payload_in(buffer) is Err <==> has_checksum(message_in(buffer)) && size > 0 && came
                != crc32(payload)
            &&& payload_in(buffer) matches Ok(p) ==> p == payload
        }),
{
}

/// The two frames of a message are sealed with different nonces, the first with the nonce of the
/// end and the second with the next; a message without payload has one frame.
pub proof fn law_frames_have_their_nonces(s: StreamView, msg: u16, payload: Seq<u8>)
    requires
        s.nonce + 2 <= NONCE_MAX,
    ensures
        ({
            let head = aes256gcm_sealed(
                s.key,
                nonce_bytes(s.nonce),
                message_head(msg, payload.len()),
            );
            let body = aes256gcm_sealed(
                s.key,
                nonce_bytes(s.nonce + 1),
                message_body(msg, payload),
            );
            written(s, msg, payload).1 == if payload.len() == 0 {
                head
            } else {
                head + body
            }
        }),
        nonce_bytes(s.nonce) != nonce_bytes(s.nonce + 1),
{
    law_nonces_differ(s.nonce, s.nonce + 1);
}

/// A frame that cannot be opened changes nothing and is an error; one that can be opened uses up
/// the nonce, and key and size of the buffer stay.
pub proof fn law_broken_frame_changes_nothing(s: StreamView, frame: Seq<u8>)
    requires
        s.nonce < NONCE_MAX,
    ensures
        aes256gcm_opened(s.key, nonce_bytes(s.nonce), frame) is None ==> {
            &&& head_read(s, frame).0 == s && head_read(s, frame).1 is Err
            &&& body_read(s, frame).0 == s && body_read(s, frame).1 is Err
        },
        aes256gcm_opened(s.key, nonce_bytes(s.nonce), frame) is Some ==> {
            &&& head_read(s, frame).1 is Ok && head_read(s, frame).0.nonce == s.nonce + 1
            &&& body_read(s, frame).1 is Ok && body_read(s, frame).0.nonce == s.nonce + 1
            &&& head_read(s, frame).0.key == s.key && body_read(s, frame).0.key == s.key
        },
{
}

/// A nonce is a number in twelve bytes, the highest first.
pub proof fn law_nonce_is_a_number(nonce: nat)
    requires
        nonce <= NONCE_MAX,
    ensures
        nonce_bytes(nonce).len() == 12,
        be_value(nonce_bytes(nonce)) == nonce,
{
    lemma_pow256();
    lemma_be_bytes_len(nonce, 12);
    law_be_value_of_be_bytes(nonce, 12);
}

/// What is put into a buffer stands where it was put, and the rest of the buffer stays.
pub proof fn law_rest_of_buffer_stays(buffer: Seq<u8>, at: int, bytes: Seq<u8>, i: int)
    requires
        0 <= at,
        at + bytes.len() <= buffer.len(),
    ensures
        patched(buffer, at, bytes).len() == buffer.len(),
        patched(buffer, at, bytes).subrange(at, at + bytes.len()) == bytes,
        0 <= i < at || at + bytes.len() <= i < buffer.len() ==> patched(buffer, at, bytes)[i]
            == buffer[i],
{
    assert(patched(buffer, at, bytes).subrange(at, at + bytes.len()) =~= bytes);
}

/// Where a frame cannot be opened, the error says which of the two it was; where no nonce is left,
/// it says so; a wrong checksum is told with the right one.
pub proof fn law_errors_of_stream(s: StreamView, frame: Seq<u8>, msg: u16, payload: Seq<u8>)
    requires
        s.nonce <= NONCE_MAX,
    ensures
        aes256gcm_opened(s.key, nonce_bytes(s.nonce), frame) is None ==> head_read(s, frame).1
            == Err::<nat, StreamError>(StreamError::DecryptMessage) && body_read(s, frame).1
            == Err::<(), StreamError>(StreamError::DecryptPayload),
        aes256gcm_opened(s.key, nonce_bytes(s.nonce), frame) is Some && s.nonce == NONCE_MAX ==> {
            &&& head_read(s, frame).1 == Err::<nat, StreamError>(StreamError::NonceMaxed)
            &&& body_read(s, frame).1 == Err::<(), StreamError>(StreamError::NonceMaxed)
        },
        written(s, msg, payload).2 matches Err(e) ==> e == StreamError::NonceMaxed,
        payload_in(s.buffer) matches Err(e) ==> (e matches StreamError::Checksum { actual, expected }
            && actual == crc32(
            s.buffer.subrange(6, 6 + payload_size_in(s.buffer) as int),
        ) && expected != actual),
{
}

/// The second frame of a message is as long as its body with what sealing adds to it, and a message
/// without payload has none.
pub proof fn law_size_of_second_frame(buffer: Seq<u8>, payload: Seq<u8>)
    requires
        payload.len() == payload_size_in(buffer),
    ensures
        payload.len() == 0 ==> body_frame_size(buffer) == 0 && used_len(buffer) == PAYLOAD_OFFSET,
        payload.len() > 0 ==> body_frame_size(buffer) == message_body(
            message_in(buffer),
            payload,
        ).len() + CRYPTO_EXTENSION_SIZE && used_len(buffer) == PAYLOAD_OFFSET + message_body(
            message_in(buffer),
            payload,
        ).len(),
{
    lemma_be_bytes_len(crc32(payload) as nat, 4);
}

/// A wrong checksum is told in words with both numbers.
#[verifier::rlimit(40)]
pub proof fn law_checksum_is_named(actual: u32, expected: u32)
    ensures
        ({
            let t = (StreamError::Checksum { actual, expected }).message_text();
            &&& has_part(t, "Actual: '"@ + decimal(actual as nat))
            &&& has_part(t, "Expected '"@ + decimal(expected as nat))
        }),
{
    let a = "Checksum mismatch. Actual: '"@;
    let b = "' - Expected '"@;
    let q = "'"@;
    reveal_strlit("Checksum mismatch. Actual: '");
    reveal_strlit("' - Expected '");
    reveal_strlit("Actual: '");
    reveal_strlit("Expected '");
    let x = "Actual: '"@;
    let y = "Expected '"@;
    let d = decimal(actual as nat);
    let e = decimal(expected as nat);
    let u = a.take(a.len() - x.len());
    let v = b.take(b.len() - y.len());
    assert(a =~= u + x);
    assert(b =~= v + y);
    law_parts_are_found(u, x + d, b + e + q);
    assert(a + d + b + e + q =~= u + (x + d) + (b + e + q));
    law_parts_are_found(a + d + v, y + e, q);
    assert(a + d + b + e + q =~= a + d + v + (y + e) + q);
}

} // verus!

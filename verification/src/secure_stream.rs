//! Messages of one fixed size, encrypted and numbered.
//!
//! Every message is a whole buffer, sealed as it is. The nonce counts up from its first byte.
use vstd::prelude::*;
use crate::core_consts::{PAYLOAD_OFFSET, TOTAL_BUFFER_SIZE, TOTAL_CRYPTO_BUFFER_SIZE};
use crate::crypto::{aes256gcm_opened, aes256gcm_sealed, gcm_decrypt, gcm_encrypt};
use crate::utils::{set_buffer, with_message};

verus! {

/// The number that bytes stand for, the least significant first.
pub open spec fn le_value(b: Seq<u8>) -> nat
    decreases b.len(),
{
    if b.len() == 0 {
        0
    } else {
        b[0] as nat + 256 * le_value(b.skip(1))
    }
}

/// The bytes of the next number; nothing where there is none of that length.
pub open spec fn le_next(b: Seq<u8>) -> Option<Seq<u8>>
    decreases b.len(),
{
    if b.len() == 0 {
        None
    } else if b[0] < 255 {
        Some(b.update(0, (b[0] + 1) as u8))
    } else {
        match le_next(b.skip(1)) {
            Some(rest) => Some(seq![0u8] + rest),
            None => None,
        }
    }
}

/// The next nonce stands for the next number, so no nonce comes twice; there is none only behind
/// the largest.
pub proof fn law_next_nonce(b: Seq<u8>)
    ensures
        le_next(b) matches Some(next) ==> next.len() == b.len() && le_value(next) == le_value(b) + 1,
        le_next(b) is None <==> forall|i: int| 0 <= i < b.len() ==> b[i] == 255,
    decreases b.len(),
{
    if b.len() > 0 {
        let rest = b.skip(1);
        law_next_nonce(rest);
        if b[0] < 255 {
            let next = b.update(0, (b[0] + 1) as u8);
            assert(next.skip(1) =~= rest);
        } else {
            match le_next(rest) {
                Some(r) => {
                    assert((seq![0u8] + r).skip(1) =~= r);
                    let i = choose|i: int| 0 <= i < rest.len() && rest[i] != 255;
                    assert(b[i + 1] == rest[i]);
                },
                None => {
                    assert forall|i: int| 0 <= i < b.len() implies b[i] == 255 by {
                        if i > 0 {
                            assert(b[i] == rest[i - 1]);
                        }
                    }
                },
            }
        }
    }
}

/// Why a message could not be sent or read.
#[derive(Clone, Copy, Debug, PartialEq, Eq, Structural)]
pub enum SecureStreamError {
    NonceMaxed,
    Encrypt,
    Decrypt,
}

/// What one end of a connection holds.
pub struct SecureView {
    pub key: Seq<u8>,
    pub nonce: Seq<u8>,
    pub buffer: Seq<u8>,
}

/// One end of an encrypted connection.
pub struct SecureStream {
    key: [u8; 32],
    nonce: Vec<u8>,
    pub buffer: Vec<u8>,
}

impl View for SecureStream {
    type V = SecureView;

    closed spec fn view(&self) -> SecureView {
        SecureView { key: self.key@, nonce: self.nonce@, buffer: self.buffer@ }
    }
}

/// The end after its nonce has been used up, and whether there is another.
pub open spec fn secure_counted(s: SecureView) -> (SecureView, Result<(), SecureStreamError>) {
    match le_next(s.nonce) {
        Some(nonce) => (SecureView { nonce, ..s }, Ok(())),
        None => (s, Err(SecureStreamError::NonceMaxed)),
    }
}

/// The end after a sealed buffer has come in.
pub open spec fn secure_read(s: SecureView, frame: Seq<u8>) -> (SecureView, Result<
    (),
    SecureStreamError,
>) {
    match aes256gcm_opened(s.key, s.nonce, frame) {
        None => (s, Err(SecureStreamError::Decrypt)),
        Some(buffer) => secure_counted(SecureView { buffer, ..s }),
    }
}

impl SecureStream {
    /// The buffer has its fixed size, and the nonce twelve bytes.
    pub open spec fn wf(&self) -> bool {
        self@.nonce.len() == 12 && self@.buffer.len() == TOTAL_BUFFER_SIZE && self@.key.len() == 32
    }

    pub fn new(encryption_key: [u8; 32]) -> (s: SecureStream)
        ensures
            s.wf(),
            s@.key == encryption_key@,
            s@.nonce == Seq::new(12, |i: int| 0u8),
            s@.buffer == Seq::new(TOTAL_BUFFER_SIZE as nat, |i: int| 0u8),
    {
        let nonce = zeros(12);
        let buffer = zeros(TOTAL_BUFFER_SIZE);
        SecureStream { key: encryption_key, nonce, buffer }
    }

    fn increment_nonce(&mut self) -> (r: Result<(), SecureStreamError>)
        requires
            old(self).wf(),
        ensures
            final(self).wf(),
            (final(self)@, r) == secure_counted(old(self)@),
    {
        let ghost before = self.nonce@;
        proof {
            law_next_nonce(before);
        }
        let mut i: usize = 0;
        while i < 12 && self.nonce[i] == 255
            invariant
                i <= 12,
                *self == *old(self),
                before == self.nonce@,
                before.len() == 12,
                forall|k: int| 0 <= k < i ==> before[k] == 255,
            decreases 12 - i,
        {
            i += 1;
        }
        if i == 12 {
            return Err(SecureStreamError::NonceMaxed);
        }
        let ghost at = i as int;
        proof {
            lemma_le_next_at(before, at);
        }
        let last: u8 = self.nonce[i];
        self.nonce.set(i, last + 1);
        while i > 0
            invariant
                i <= at < 12,
                before.len() == 12,
                self.key == old(self).key,
                self.buffer == old(self).buffer,
                self.nonce@.len() == 12,
                before[at] < 255,
                forall|k: int| 0 <= k < at ==> before[k] == 255,
                forall|k: int| 0 <= k < i ==> self.nonce@[k] == 255,
                forall|k: int| i <= k < at ==> self.nonce@[k] == 0,
                self.nonce@[at] == before[at] + 1,
                forall|k: int| at < k < 12 ==> self.nonce@[k] == before[k],
            decreases i,
        {
            i -= 1;
            self.nonce.set(i, 0);
        }
        assert(self.nonce@ =~= Seq::new(
            12,
            |k: int|
                if k < at {
                    0u8
                } else if k == at {
                    (before[at] + 1) as u8
                } else {
                    before[k]
                },
        ));
        Ok(())
    }

    /// Opens a sealed buffer.
    pub fn read(&mut self, frame: &[u8]) -> (r: Result<(), SecureStreamError>)
        requires
            old(self).wf(),
            frame@.len() == TOTAL_CRYPTO_BUFFER_SIZE,
        ensures
            final(self).wf(),
            (final(self)@, r) == secure_read(old(self)@, frame@),
    {
        match gcm_decrypt(&self.key, self.nonce.as_slice(), frame) {
            None => Err(SecureStreamError::Decrypt),
            Some(buffer) => {
                self.buffer = buffer;
                self.increment_nonce()
            },
        }
    }

    /// Seals a message. The first result is what has to be sent, the second what the sender is
    /// told once it has been. The other end, with the same key and nonce, gets the buffer.
    pub fn write(&mut self, msg: u8, payload: &[u8]) -> (r: (
        Vec<u8>,
        Result<(), SecureStreamError>,
    ))
        requires
            old(self).wf(),
            PAYLOAD_OFFSET + payload@.len() <= TOTAL_BUFFER_SIZE,
        ensures
            final(self).wf(),
            r.0@ == aes256gcm_sealed(
                old(self)@.key,
                old(self)@.nonce,
                with_message(old(self)@.buffer, msg, payload@),
            ),
            r.0@.len() == TOTAL_CRYPTO_BUFFER_SIZE,
            (final(self)@, r.1) == secure_counted(
                SecureView {
                    buffer: with_message(old(self)@.buffer, msg, payload@),
                    ..old(self)@
                },
            ),
            forall|reader: SecureView|
                reader.key == old(self)@.key && reader.nonce == old(self)@.nonce
                    ==> #[trigger] secure_read(reader, r.0@) == (final(self)@, r.1),
    {
        set_buffer(&mut self.buffer, msg, payload);
        match gcm_encrypt(&self.key, self.nonce.as_slice(), self.buffer.as_slice()) {
            Some(frame) => {
                let counted = self.increment_nonce();
                (frame, counted)
            },
            None => (Vec::new(), Err(SecureStreamError::Encrypt)),
        }
    }
}

fn zeros(n: usize) -> (v: Vec<u8>)
    ensures
        v@ == Seq::new(n as nat, |i: int| 0u8),
{
    let mut v: Vec<u8> = Vec::with_capacity(n);
    let mut i: usize = 0;
    while i < n
        invariant
            i <= n,
            v@ == Seq::new(i as nat, |j: int| 0u8),
        decreases n - i,
    {
        v.push(0);
        i += 1;
        assert(v@ =~= Seq::new(i as nat, |j: int| 0u8));
    }
    v
}

proof fn lemma_le_next_at(b: Seq<u8>, at: int)
    requires
        0 <= at < b.len(),
        b[at] < 255,
        forall|k: int| 0 <= k < at ==> b[k] == 255,
    ensures
        le_next(b) == Some(
            Seq::new(
                b.len(),
                |k: int|
                    if k < at {
                        0u8
                    } else if k == at {
                        (b[at] + 1) as u8
                    } else {
                        b[k]
                    },
            ),
        ),
    decreases b.len(),
{
    let target = Seq::new(
        b.len(),
        |k: int|
            if k < at {
                0u8
            } else if k == at {
                (b[at] + 1) as u8
            } else {
                b[k]
            },
    );
    if at == 0 {
        assert(b.update(0, (b[0] + 1) as u8) =~= target);
    } else {
        lemma_le_next_at(b.skip(1), at - 1);
        assert(seq![0u8] + le_next(b.skip(1))->0 =~= target);
    }
}

/// A buffer that cannot be opened changes nothing and is an error. One that can be opened takes the
/// place of the old one, and the next nonce that of the nonce it was opened with; the key stays.
pub proof fn law_secure_read(s: SecureView, frame: Seq<u8>)
    ensures
        match aes256gcm_opened(s.key, s.nonce, frame) {
            None => secure_read(s, frame) == (
                s,
                Err::<(), SecureStreamError>(SecureStreamError::Decrypt),
            ),
            Some(buffer) => {
                let (t, r) = secure_read(s, frame);
                &&& t.buffer == buffer
                &&& t.key == s.key
                &&& r is Ok ==> t.nonce.len() == s.nonce.len() && le_value(t.nonce) == le_value(
                    s.nonce,
                ) + 1
                &&& r is Err ==> t.nonce == s.nonce && forall|i: int|
                    0 <= i < s.nonce.len() ==> s.nonce[i] == 255
            },
        },
{
    law_next_nonce(s.nonce);
}

} // verus!

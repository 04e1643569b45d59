//! How two users find out that they know each other and agree on a key.
//!
//! Both ends send a header that names the protocol, and then a fresh X25519 public key, signed
//! with their private id. An end goes on only where one of its users has signed what it got.
use vstd::prelude::*;
use vstd::slice::{slice_subrange, slice_to_vec};
use crate::base64::{encoded, law_encoded_injective};
use crate::bytes::{be_bytes, be_value, law_be_value_of_be_bytes, lemma_be_bytes_len, lemma_pow256, to_be_bytes};
use crate::config::{base64_bytes, SharedUser, UserView};
use crate::core_consts::{TRAN_API_MAJOR, TRAN_API_MINOR, TRAN_MAGIC_NUMBER};
use crate::crypto::{base64_refusal, dalek_public, dalek_shared, ed25519_public_key, ed25519_signature, ed25519_valid, get_bytes_from_base64_str, is_base64, os_random, ring_public_key, ring_sign, ring_verify, x25519_public, x25519_shared, NONCE_INIT};
use crate::encrypted_stream::EncryptedStream;
use crate::outgoing_downloader::ERR_REMOTE_ID_NOT_FOUND;
use crate::text::{decimal, has_part, has_prefix, law_parts_are_found, occurs_at, push_decimal};

verus! {

/// Length of the header.
pub const HEADER_SIZE: usize = 7;

/// Length of a signed key: the key and its signature.
pub const BUFFER_SIZE: usize = 96;

/// What both ends send first.
pub open spec fn header_bytes() -> Seq<u8> {
    TRAN_MAGIC_NUMBER@ + seq![TRAN_API_MAJOR as u8] + be_bytes(TRAN_API_MINOR as nat, 2)
}

/// Why two ends do not get together.
#[derive(Debug)]
pub enum HandshakeError {
    MagicNumber { ip: String, bytes: Vec<u8> },
    ApiMajor { ip: String, version: u8 },
    PublicId(String),
    RemoteIdNotFound,
}

/// Numbers in a row, behind each other with commas.
pub open spec fn listed(b: Seq<u8>) -> Seq<char>
    decreases b.len(),
{
    if b.len() == 0 {
        seq![]
    } else if b.len() == 1 {
        decimal(b[0] as nat)
    } else {
        listed(b.drop_last()) + ", "@ + decimal(b.last() as nat)
    }
}

fn push_listed(s: &mut String, b: &[u8])
    ensures
        final(s)@ == old(s)@ + listed(b@),
{
    let ghost before = s@;
    let mut i: usize = 0;
    assert(s@ =~= before + listed(b@.take(0)));
    while i < b.len()
        invariant
            i <= b@.len(),
            s@ == before + listed(b@.take(i as int)),
        decreases b@.len() - i,
    {
        if i > 0 {
            s.push_str(", ");
        }
        push_decimal(s, b[i] as u64);
        proof {
            let t = b@.take(i + 1);
            assert(t.drop_last() =~= b@.take(i as int));
            assert(s@ =~= before + listed(t));
        }
        i += 1;
    }
    assert(b@.take(i as int) =~= b@);
}

impl HandshakeError {
    /// The wording of `message`.
    pub open spec fn message_text(&self) -> Seq<char> {
        match self {
            HandshakeError::MagicNumber { ip, bytes } => ip@
                + " TRAN MAGIC NUMBER mismatch. ["@ + listed(bytes@) + "]"@,
            HandshakeError::ApiMajor { ip, version } => ip@ + " TRAN API MAJOR mismatch. "@
                + decimal(*version as nat),
            HandshakeError::PublicId(e) => e@,
            HandshakeError::RemoteIdNotFound => ERR_REMOTE_ID_NOT_FOUND@,
        }
    }

    /// The error in words.
    pub fn message(&self) -> (s: String)
        ensures
            s@ == self.message_text(),
    {
        let mut s = String::new();
        match self {
            HandshakeError::MagicNumber { ip, bytes } => {
                s.push_str(ip.as_str());
                s.push_str(" TRAN MAGIC NUMBER mismatch. [");
                push_listed(&mut s, bytes.as_slice());
                s.push_str("]");
            },
            HandshakeError::ApiMajor { ip, version } => {
                s.push_str(ip.as_str());
                s.push_str(" TRAN API MAJOR mismatch. ");
                push_decimal(&mut s, *version as u64);
            },
            HandshakeError::PublicId(e) => s.push_str(e.as_str()),
            HandshakeError::RemoteIdNotFound => s.push_str(ERR_REMOTE_ID_NOT_FOUND),
        }
        assert(s@ =~= self.message_text());
        s
    }
}

/// What an end does next while it gets together with another.
#[derive(Clone, Copy, Debug, PartialEq, Eq, Structural)]
pub enum HandshakeStep {
    SendHeader,
    ReceiveHeader,
    SendKey,
    ReceiveKey,
    Finish,
}

/// What the other end does in the same step.
pub open spec fn opposite(step: HandshakeStep) -> HandshakeStep {
    match step {
        HandshakeStep::SendHeader => HandshakeStep::ReceiveHeader,
        HandshakeStep::ReceiveHeader => HandshakeStep::SendHeader,
        HandshakeStep::SendKey => HandshakeStep::ReceiveKey,
        HandshakeStep::ReceiveKey => HandshakeStep::SendKey,
        HandshakeStep::Finish => HandshakeStep::Finish,
    }
}

/// What the end that connects does in step `n`.
pub open spec fn connect_step(n: nat) -> HandshakeStep {
    if n == 0 {
        HandshakeStep::SendHeader
    } else if n == 1 {
        HandshakeStep::ReceiveHeader
    } else if n == 2 {
        HandshakeStep::SendKey
    } else if n == 3 {
        HandshakeStep::ReceiveKey
    } else {
        HandshakeStep::Finish
    }
}

/// The public key that a user's public id stands for.
pub open spec fn user_key(user: UserView) -> Seq<u8> {
    base64_bytes(user.public_id)
}

/// The first user from `i` on that has signed a message; an error where a public id before is no
/// base64.
pub open spec fn signer(
    users: Seq<UserView>,
    i: int,
    message: Seq<u8>,
    signature: Seq<u8>,
) -> Result<Option<int>, Seq<char>>
    decreases users.len() - i,
{
    if i >= users.len() {
        Ok(None)
    } else if !is_base64(users[i].public_id) {
        Err(base64_refusal(users[i].public_id))
    } else if ed25519_valid(user_key(users[i]), message, signature) {
        Ok(Some(i))
    } else {
        signer(users, i + 1, message, signature)
    }
}

/// One end while it gets together with another.
pub struct TransmiticStream {
    connecting_ip: String,
    shared_users: Vec<SharedUser>,
    private_id_bytes: Vec<u8>,
    matched_shared_user: Option<SharedUser>,
}

/// A fresh secret for one connection. Nothing is promised of what it is; it fails where the
/// system gives no random bytes.
pub fn new_diffie_secret() -> (r: Result<[u8; 32], String>)
{
    os_random()
}

pub(crate) fn array_32(b: &[u8]) -> (a: [u8; 32])
    requires
        b@.len() == 32,
    ensures
        a@ == b@,
{
    let mut a: [u8; 32] = [0;32];
    let mut i: usize = 0;
    while i < 32
        invariant
            i <= 32,
            b@.len() == 32,
            forall|j: int| 0 <= j < i ==> a@[j] == b@[j],
        decreases 32 - i,
    {
        a[i] = b[i];
        i += 1;
    }
    assert(a@ =~= b@);
    a
}

impl TransmiticStream {
    #[verifier::type_invariant]
    spec fn key_is_accepted(&self) -> bool {
        ed25519_public_key(self.private_id_bytes@) is Ok
    }

    pub closed spec fn ip(&self) -> Seq<char> {
        self.connecting_ip@
    }

    pub closed spec fn users(&self) -> Seq<UserView> {
        self.shared_users.deep_view()
    }

    pub closed spec fn private_id(&self) -> Seq<u8> {
        self.private_id_bytes@
    }

    pub closed spec fn matched(&self) -> Option<SharedUser> {
        self.matched_shared_user
    }

    pub fn new(
        connecting_ip: String,
        shared_users: Vec<SharedUser>,
        private_id_bytes: Vec<u8>,
    ) -> (s: TransmiticStream)
        requires
            ed25519_public_key(private_id_bytes@) is Ok,
        ensures
            s.ip() == connecting_ip@,
            s.users() == shared_users.deep_view(),
            s.private_id() == private_id_bytes@,
            s.matched() is None,
    {
        TransmiticStream {
            connecting_ip,
            shared_users,
            private_id_bytes,
            matched_shared_user: None,
        }
    }

    /// As `new`; nothing where the private id is no Ed25519 key pair.
    pub fn try_new(
        connecting_ip: String,
        shared_users: Vec<SharedUser>,
        private_id_bytes: Vec<u8>,
    ) -> (r: Option<TransmiticStream>)
        ensures
            r is Some <==> ed25519_public_key(private_id_bytes@) is Ok,
            r matches Some(s) ==> s.ip() == connecting_ip@ && s.users()
                == shared_users.deep_view() && s.private_id() == private_id_bytes@
                && s.matched() is None,
    {
        match ring_public_key(private_id_bytes.as_slice()) {
            Ok(_) => Some(TransmiticStream::new(connecting_ip, shared_users, private_id_bytes)),
            Err(_) => None,
        }
    }

    /// What the end that connects does in step `n`.
    pub fn connect(n: usize) -> (step: HandshakeStep)
        ensures
            step == connect_step(n as nat),
    {
        if n == 0 {
            HandshakeStep::SendHeader
        } else if n == 1 {
            HandshakeStep::ReceiveHeader
        } else if n == 2 {
            HandshakeStep::SendKey
        } else if n == 3 {
            HandshakeStep::ReceiveKey
        } else {
            HandshakeStep::Finish
        }
    }

    /// What the end that was connected to does in step `n`: it receives where the other sends,
    /// and sends where the other receives.
    pub fn wait_for_incoming(n: usize) -> (step: HandshakeStep)
        ensures
            step == opposite(connect_step(n as nat)),
    {
        if n == 0 {
            HandshakeStep::ReceiveHeader
        } else if n == 1 {
            HandshakeStep::SendHeader
        } else if n == 2 {
            HandshakeStep::ReceiveKey
        } else if n == 3 {
            HandshakeStep::SendKey
        } else {
            HandshakeStep::Finish
        }
    }

    /// The header to send.
    pub fn send_transmitic_header() -> (b: Vec<u8>)
        ensures
            b@ == header_bytes(),
            b@.len() == HEADER_SIZE,
    {
        let mut b: Vec<u8> = Vec::new();
        b.push(TRAN_MAGIC_NUMBER[0]);
        b.push(TRAN_MAGIC_NUMBER[1]);
        b.push(TRAN_MAGIC_NUMBER[2]);
        b.push(TRAN_MAGIC_NUMBER[3]);
        b.push(TRAN_API_MAJOR as u8);
        let mut minor = to_be_bytes(TRAN_API_MINOR as u128, 2);
        b.append(&mut minor);
        assert(b@ =~= header_bytes());
        b
    }

    /// Checks the header of the other end: the protocol and its major version have to be the
    /// same, the minor version may differ.
    pub fn receive_transmitic_header(&self, buffer: &[u8]) -> (r: Result<(), HandshakeError>)
        requires
            buffer@.len() == HEADER_SIZE,
        ensures
            if buffer@.take(4) != TRAN_MAGIC_NUMBER@ {
                r matches Err(HandshakeError::MagicNumber { ip, bytes }) && ip@ == self.ip()
                    && bytes@ == buffer@.take(4)
            } else if buffer@[4] != TRAN_API_MAJOR {
                r matches Err(HandshakeError::ApiMajor { ip, version }) && ip@ == self.ip() && version
                    == buffer@[4]
            } else {
                r is Ok
            },
    {
        let mut same = true;
        let mut found: Vec<u8> = Vec::new();
        let mut i: usize = 0;
        while i < 4
            invariant
                i <= 4,
                buffer@.len() == HEADER_SIZE,
                found@ == buffer@.take(i as int),
                same <==> forall|j: int|
                    0 <= j < i ==> #[trigger] buffer@[j] == TRAN_MAGIC_NUMBER@[j],
            decreases 4 - i,
        {
            if buffer[i] != TRAN_MAGIC_NUMBER[i] {
                same = false;
            }
            found.push(buffer[i]);
            i += 1;
            assert(found@ =~= buffer@.take(i as int));
        }
        proof {
            if same {
                assert(buffer@.take(4) =~= TRAN_MAGIC_NUMBER@);
            } else {
                let j = choose|j: int|
                    0 <= j < 4 && #[trigger] buffer@[j] != TRAN_MAGIC_NUMBER@[j];
                assert(buffer@.take(4)[j] != TRAN_MAGIC_NUMBER@[j]);
            }
        }
        if !same {
            return Err(HandshakeError::MagicNumber { ip: self.connecting_ip.clone(), bytes: found });
        }
        if buffer[4] as u16 != TRAN_API_MAJOR {
            return Err(
                HandshakeError::ApiMajor { ip: self.connecting_ip.clone(), version: buffer[4] },
            );
        }
        Ok(())
    }

    /// The public key of a secret, signed with the private id.
    pub fn send_diffie_helman_key(&self, secret: &[u8; 32]) -> (b: Vec<u8>)
        ensures
            b@.len() == BUFFER_SIZE,
            b@.take(32) == x25519_public(secret@),
            b@.skip(32) == ed25519_signature(self.private_id(), x25519_public(secret@)),
            ed25519_public_key(self.private_id()) is Ok,
            ed25519_valid(
                ed25519_public_key(self.private_id())->Ok_0,
                b@.take(32),
                b@.skip(32),
            ),
    {
        proof {
            use_type_invariant(self);
        }
        let public_key = dalek_public(secret);
        let mut b = slice_to_vec(public_key.as_slice());
        match ring_sign(self.private_id_bytes.as_slice(), public_key.as_slice()) {
            Ok(mut signature) => {
                let ghost sig = signature@;
                b.append(&mut signature);
                assert(b@.take(32) =~= public_key@);
                assert(b@.skip(32) =~= sig);
            },
            Err(_) => {},
        }
        b
    }

    /// Checks the signed key of the other end against the public ids of all users, and keeps the
    /// user that it matches.
    pub fn receive_diffie_helman_key(&mut self, buffer: &[u8]) -> (r: Result<
        [u8; 32],
        HandshakeError,
    >)
        requires
            buffer@.len() == BUFFER_SIZE,
        ensures
            final(self).ip() == old(self).ip(),
            final(self).users() == old(self).users(),
            final(self).private_id() == old(self).private_id(),
            match signer(old(self).users(), 0, buffer@.take(32), buffer@.skip(32)) {
                Err(e) => r matches Err(HandshakeError::PublicId(why)) && why@ == e
                    && final(self).matched() == old(self).matched(),
                Ok(Some(i)) => r is Ok && r->Ok_0@ == buffer@.take(32)
                    && final(self).matched() is Some && final(self).matched()->0@
                    == old(self).users()[i],
                Ok(None) => final(self).matched() == old(self).matched() && if old(self).matched()
                    is Some {
                    r is Ok && r->Ok_0@ == buffer@.take(32)
                } else {
                    r == Err::<[u8; 32], HandshakeError>(HandshakeError::RemoteIdNotFound)
                },
            },
    {
        proof {
            use_type_invariant(&*self);
        }
        let key_bytes = slice_subrange(buffer, 0, 32);
        let signature = slice_subrange(buffer, 32, BUFFER_SIZE);
        assert(key_bytes@ =~= buffer@.take(32));
        assert(signature@ =~= buffer@.skip(32));
        let mut i: usize = 0;
        let mut found: Option<SharedUser> = None;
        while i < self.shared_users.len() && found.is_none()
            invariant
                i <= self.shared_users@.len(),
                key_bytes@ == buffer@.take(32),
                signature@ == buffer@.skip(32),
                *self == *old(self),
                match found {
                    None => signer(self.users(), 0, key_bytes@, signature@) == signer(
                        self.users(),
                        i as int,
                        key_bytes@,
                        signature@,
                    ),
                    Some(user) => i < self.shared_users@.len() && user@ == self.users()[i as int]
                        && signer(self.users(), 0, key_bytes@, signature@) == Ok::<
                        Option<int>,
                        Seq<char>,
                    >(Some(i as int)),
                },
            decreases
                self.shared_users@.len() - i,
                if found is None {
                    1int
                } else {
                    0int
                },
        {
            let user = &self.shared_users[i];
            assert(self.users()[i as int] == user@);
            match get_bytes_from_base64_str(user.public_id.as_str()) {
                Ok(public_id) => {
                    assert(user_key(user@) == public_id@) by {
                        assert(encoded(public_id@) == user@.public_id);
                        law_encoded_injective(user_key(user@), public_id@);
                    }
                    if ring_verify(public_id.as_slice(), key_bytes, signature) {
                        found = Some(user.clone());
                    } else {
                        i += 1;
                    }
                },
                Err(e) => {
                    return Err(HandshakeError::PublicId(e));
                },
            }
        }
        match found {
            Some(user) => {
                self.matched_shared_user = Some(user);
            },
            None => {},
        }
        if self.matched_shared_user.is_none() {
            return Err(HandshakeError::RemoteIdNotFound);
        }
        Ok(array_32(key_bytes))
    }

    /// The key that both ends get, each from its own secret and what the other has sent.
    pub fn get_encryption_key(
        local_diffie_secret: &[u8; 32],
        remote_diffie_public_key: &[u8; 32],
    ) -> (key: [u8; 32])
        ensures
            key@ == x25519_shared(local_diffie_secret@, remote_diffie_public_key@),
            forall|remote_diffie_secret: Seq<u8>|
                remote_diffie_secret.len() == 32 && #[trigger] x25519_public(remote_diffie_secret)
                    == remote_diffie_public_key@ ==> key@ == x25519_shared(
                    remote_diffie_secret,
                    x25519_public(local_diffie_secret@),
                ),
    {
        dalek_shared(local_diffie_secret, remote_diffie_public_key)
    }

    /// The encrypted connection with the user that was matched.
    pub fn get_encrypted_stream(&self, encryption_key: [u8; 32]) -> (s: EncryptedStream)
        requires
            self.matched() is Some,
        ensures
            s.wf(),
            s@.key == encryption_key@,
            s@.nonce == NONCE_INIT,
            s.parties() == (self.matched()->0, self.private_id()),
    {
        let shared_user = match &self.matched_shared_user {
            Some(user) => user.clone(),
            None => vstd::pervasive::unreached(),
        };
        EncryptedStream::new(
            encryption_key,
            shared_user,
            slice_to_vec(self.private_id_bytes.as_slice()),
        )
    }
}

/// The header that one end sends is one that the other accepts.
pub proof fn law_header_accepted()
    ensures
        header_bytes().len() == HEADER_SIZE,
        header_bytes().take(4) == TRAN_MAGIC_NUMBER@,
        header_bytes()[4] == TRAN_API_MAJOR,
{
    lemma_be_bytes_len(TRAN_API_MINOR as nat, 2);
    assert(header_bytes().take(4) =~= TRAN_MAGIC_NUMBER@);
}

/// In every step one end sends what the other receives, until both are finished in step four.
pub proof fn law_steps_fit(n: nat)
    ensures
        connect_step(n) is SendHeader <==> opposite(connect_step(n)) is ReceiveHeader,
        connect_step(n) is ReceiveHeader <==> opposite(connect_step(n)) is SendHeader,
        connect_step(n) is SendKey <==> opposite(connect_step(n)) is ReceiveKey,
        connect_step(n) is ReceiveKey <==> opposite(connect_step(n)) is SendKey,
        connect_step(n) is Finish <==> n >= 4,
{
}

/// A user is matched only where the signature is valid under the user's public id, and only where
/// it is not valid under that of any user before.
pub proof fn law_signer_has_signed(
    users: Seq<UserView>,
    start: int,
    message: Seq<u8>,
    signature: Seq<u8>,
)
    requires
        0 <= start <= users.len(),
    ensures
        signer(users, start, message, signature) matches Ok(Some(i)) ==> start <= i < users.len()
            && is_base64(users[i].public_id) && ed25519_valid(
            user_key(users[i]),
            message,
            signature,
        ) && forall|j: int|
            start <= j < i ==> !ed25519_valid(user_key(#[trigger] users[j]), message, signature),
    decreases users.len() - start,
{
    if start < users.len() {
        law_signer_has_signed(users, start + 1, message, signature);
    }
}

/// A known user gets through: where all public ids are base64 and one of them belongs to the key
/// that signed, some user is matched.
pub proof fn law_known_user_is_found(
    users: Seq<UserView>,
    start: int,
    known: int,
    public_key: Seq<u8>,
    message: Seq<u8>,
    signature: Seq<u8>,
)
    requires
        0 <= start <= known < users.len(),
        forall|j: int| start <= j < users.len() ==> is_base64(#[trigger] users[j].public_id),
        users[known].public_id == encoded(public_key),
        ed25519_valid(public_key, message, signature),
    ensures
        signer(users, start, message, signature) matches Ok(Some(i)) && start <= i <= known,
    decreases known - start,
{
    if start < known {
        assert(is_base64(users[start].public_id));
        law_known_user_is_found(users, start + 1, known, public_key, message, signature);
    } else {
        assert(is_base64(users[known].public_id));
        law_encoded_injective(user_key(users[known]), public_key);
    }
}

/// An unknown user does not get through: where all public ids are base64 and the signature is
/// valid under none, no user is matched.
pub proof fn law_unknown_user_is_not_found(
    users: Seq<UserView>,
    start: int,
    message: Seq<u8>,
    signature: Seq<u8>,
)
    requires
        0 <= start <= users.len(),
        forall|j: int|
            start <= j < users.len() ==> is_base64(#[trigger] users[j].public_id)
                && !ed25519_valid(user_key(users[j]), message, signature),
    ensures
        signer(users, start, message, signature) == Ok::<Option<int>, Seq<char>>(None),
    decreases users.len() - start,
{
    if start < users.len() {
        assert(is_base64(users[start].public_id));
        law_unknown_user_is_not_found(users, start + 1, message, signature);
    }
}

/// An end that connects sends its header before anything else and its key before it takes one, and
/// it looks at the header of the other end before it sends its key.
pub proof fn law_order_of_steps()
    ensures
        connect_step(0) is SendHeader,
        connect_step(1) is ReceiveHeader,
        connect_step(2) is SendKey,
        connect_step(3) is ReceiveKey,
        connect_step(4) is Finish,
{
}

/// A public id that is no base64 is an error, unless a user before it has signed.
pub proof fn law_bad_public_id_is_refused(
    users: Seq<UserView>,
    start: int,
    message: Seq<u8>,
    signature: Seq<u8>,
)
    requires
        0 <= start <= users.len(),
    ensures
        signer(users, start, message, signature) is Err <==> exists|i: int|
            #![trigger users[i]]
            start <= i < users.len() && !is_base64(users[i].public_id) && forall|j: int|
                #![trigger users[j]]
                start <= j < i ==> is_base64(users[j].public_id) && !ed25519_valid(
                    user_key(users[j]),
                    message,
                    signature,
                ),
    decreases users.len() - start,
{
    if start < users.len() {
        law_bad_public_id_is_refused(users, start + 1, message, signature);
        if !is_base64(users[start].public_id) {
            assert(!is_base64(users[start].public_id));
        } else if !ed25519_valid(user_key(users[start]), message, signature) {
            if signer(users, start + 1, message, signature) is Err {
                let i = choose|i: int|
                    #![trigger users[i]]
                    start + 1 <= i < users.len() && !is_base64(users[i].public_id) && forall|
                        j: int,
                    |
                        #![trigger users[j]]
                        start + 1 <= j < i ==> is_base64(users[j].public_id) && !ed25519_valid(
                            user_key(users[j]),
                            message,
                            signature,
                        );
                assert(!is_base64(users[i].public_id));
            }
            if exists|i: int|
                #![trigger users[i]]
                start <= i < users.len() && !is_base64(users[i].public_id) && forall|j: int|
                    #![trigger users[j]]
                    start <= j < i ==> is_base64(users[j].public_id) && !ed25519_valid(
                        user_key(users[j]),
                        message,
                        signature,
                    ) {
                let i = choose|i: int|
                    #![trigger users[i]]
                    start <= i < users.len() && !is_base64(users[i].public_id) && forall|j: int|
                        #![trigger users[j]]
                        start <= j < i ==> is_base64(users[j].public_id) && !ed25519_valid(
                            user_key(users[j]),
                            message,
                            signature,
                        );
                assert(i != start);
                assert(!is_base64(users[i].public_id));
            }
        }
    }
}

/// A header ends with the minor version, in two bytes with the higher first.
pub proof fn law_header_tells_minor_version()
    ensures
        be_value(header_bytes().skip(5)) == TRAN_API_MINOR,
{
    lemma_pow256();
    lemma_be_bytes_len(TRAN_API_MINOR as nat, 2);
    law_be_value_of_be_bytes(TRAN_API_MINOR as nat, 2);
    assert(header_bytes().skip(5) =~= be_bytes(TRAN_API_MINOR as nat, 2));
}

/// A header that does not start as it has to is told with the address that it came from and with
/// each byte that came.
pub proof fn law_refused_header_is_named(ip: String, bytes: Vec<u8>, i: int)
    requires
        0 <= i < bytes@.len(),
    ensures
        ({
            let t = (HandshakeError::MagicNumber { ip, bytes }).message_text();
            has_prefix(t, ip@) && has_part(t, listed(bytes@))
        }),
        has_part(listed(bytes@), decimal(bytes@[i] as nat)),
{
    lemma_told_with_address(ip@, " TRAN MAGIC NUMBER mismatch. ["@, listed(bytes@), "]"@);
    lemma_byte_is_listed(bytes@, i);
}

/// A version that does not fit is told with the address that it came from.
pub proof fn law_refused_version_is_named(ip: String, version: u8)
    ensures
        ({
            let t = (HandshakeError::ApiMajor { ip, version }).message_text();
            has_prefix(t, ip@) && has_part(t, decimal(version as nat))
        }),
{
    let none = Seq::<char>::empty();
    let b = " TRAN API MAJOR mismatch. "@;
    let d = decimal(version as nat);
    lemma_told_with_address(ip@, b, d, none);
    assert(ip@ + b + d + none =~= ip@ + b + d);
}

proof fn lemma_told_with_address(ip: Seq<char>, a: Seq<char>, b: Seq<char>, c: Seq<char>)
    ensures
        has_prefix(ip + a + b + c, ip),
        has_part(ip + a + b + c, b),
{
    let rest = a + b + c;
    law_parts_are_found(ip, rest, c);
    assert(ip + rest =~= ip + a + b + c);
    law_parts_are_found(ip + a, b, c);
}

proof fn lemma_byte_is_listed(b: Seq<u8>, i: int)
    requires
        0 <= i < b.len(),
    ensures
        has_part(listed(b), decimal(b[i] as nat)),
    decreases b.len(),
{
    let none = Seq::<char>::empty();
    let d = decimal(b.last() as nat);
    if b.len() == 1 {
        law_parts_are_found(none, d, none);
        assert(none + d + none =~= d);
    } else {
        let front = listed(b.drop_last());
        let part = decimal(b[i] as nat);
        if i == b.len() - 1 {
            law_parts_are_found(front + ", "@, d, none);
            assert(front + ", "@ + d + none =~= front + ", "@ + d);
        } else {
            lemma_byte_is_listed(b.drop_last(), i);
            let at = choose|at: int| #[trigger] occurs_at(front, part, at);
            assert(listed(b).subrange(at, at + part.len()) =~= front.subrange(at, at + part.len()));
            assert(occurs_at(listed(b), part, at));
        }
    }
}

} // verus!

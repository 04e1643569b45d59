//! Looking up files, and the fixed message buffer.
use vstd::prelude::*;
use vstd::slice::slice_subrange;
use crate::bytes::{be_bytes, be_value, from_be_bytes, law_be_bytes_of_be_value, law_be_value_of_be_bytes, lemma_be_bytes_len, lemma_pow256, to_be_bytes};
use crate::core_consts::{MSG_TYPE_SIZE, PAYLOAD_OFFSET, PAYLOAD_SIZE_LEN, TOTAL_BUFFER_SIZE};
use crate::shared_file::{views, FileView, SharedFile};
use crate::text::{cat2, cat3, str_eq};

verus! {

/// The first file with a path, in the order in which files are listed.
pub open spec fn file_at(path: Seq<char>, f: FileView) -> Option<FileView>
    decreases f, 0int,
{
    if f.path == path {
        Some(f)
    } else {
        file_among(path, f.files, 0)
    }
}

pub open spec fn file_among(path: Seq<char>, files: Seq<FileView>, i: int) -> Option<FileView>
    decreases files, files.len() - i,
{
    if 0 <= i < files.len() {
        match file_at(path, files[i]) {
            Some(f) => Some(f),
            None => file_among(path, files, i + 1),
        }
    } else {
        None
    }
}

/// Finds a file, or a directory, by its path.
pub fn get_file_by_path(file_choice: &str, shared_file: &SharedFile) -> (r: Option<SharedFile>)
    ensures
        match file_at(file_choice@, shared_file@) {
            Some(f) => r is Some && r->0@ == f,
            None => r is None,
        },
    decreases shared_file,
{
    if str_eq(shared_file.path.as_str(), file_choice) {
        return Some(shared_file.clone());
    }
    let ghost files = shared_file@.files;
    let mut i: usize = 0;
    assert(files =~= views(shared_file.files@));
    while i < shared_file.files.len()
        invariant
            i <= shared_file.files@.len(),
            files == views(shared_file.files@),
            file_at(file_choice@, shared_file@) == file_among(file_choice@, files, i as int),
        decreases shared_file.files@.len() - i,
    {
        assert(files[i as int] == shared_file.files@[i as int]@);
        match get_file_by_path(file_choice, &shared_file.files[i]) {
            Some(found) => return Some(found),
            None => {},
        }
        i += 1;
    }
    None
}

/// Whether `g` is `f` or somewhere below it.
pub open spec fn is_within(g: FileView, f: FileView) -> bool
    decreases f,
{
    g == f || exists|i: int|
        #![trigger f.files[i]]
        0 <= i < f.files.len() && is_within(g, f.files[i])
}

proof fn lemma_file_among(path: Seq<char>, files: Seq<FileView>, i: int)
    requires
        0 <= i <= files.len(),
    ensures
        match file_among(path, files, i) {
            Some(g) => g.path == path && exists|k: int|
                #![trigger files[k]]
                i <= k < files.len() && is_within(g, files[k]),
            None => forall|g: FileView, k: int|
                #![trigger is_within(g, files[k])]
                i <= k < files.len() && is_within(g, files[k]) ==> g.path != path,
        },
    decreases files, files.len() - i,
{
    if i < files.len() {
        law_file_at(path, files[i]);
        lemma_file_among(path, files, i + 1);
    }
}

/// What is found by a path has that path and is there; where nothing is found, nothing that is
/// there has that path.
pub proof fn law_file_at(path: Seq<char>, f: FileView)
    ensures
        match file_at(path, f) {
            Some(g) => g.path == path && is_within(g, f),
            None => forall|g: FileView| #[trigger] is_within(g, f) ==> g.path != path,
        },
    decreases f, 0int,
{
    if f.path != path {
        lemma_file_among(path, f.files, 0);
        match file_among(path, f.files, 0) {
            Some(g) => {
                let k = choose|k: int|
                    #![trigger f.files[k]]
                    0 <= k < f.files.len() && is_within(g, f.files[k]);
                assert(is_within(g, f.files[k]));
            },
            None => {
                assert forall|g: FileView| #[trigger] is_within(g, f) implies g.path != path by {
                    if g != f {
                        let k = choose|k: int|
                            #![trigger f.files[k]]
                            0 <= k < f.files.len() && is_within(g, f.files[k]);
                        assert(is_within(g, f.files[k]));
                    }
                }
            },
        }
    }
}

/// How the address of a user is read: as it is, or else as one of the longer kind that lacks
/// its brackets, or else as a name that has to be looked up.
#[derive(Clone, Copy, Debug, PartialEq, Eq, Structural)]
pub enum AddressReading {
    AsItIs,
    InBrackets,
    Name,
}

/// The address of a host.
pub fn host_address(host: &str, port: &str) -> (s: String)
    ensures
        s@ == host@ + ":"@ + port@,
{
    cat3(host, ":", port)
}

/// The address of a host in brackets.
pub fn bracketed_address(host: &str, port: &str) -> (s: String)
    ensures
        s@ == "["@ + host@ + "]:"@ + port@,
{
    cat2(cat3("[", host, "]:").as_str(), port)
}

/// Decides how the address of a user is read: `is_address` says that the host and port are an
/// address as they are, `is_ipv6_in_brackets` that they are one of the longer kind with brackets.
pub fn resolve_address(is_address: bool, is_ipv6_in_brackets: bool) -> (r: AddressReading)
    ensures
        r == (if is_address {
            AddressReading::AsItIs
        } else if is_ipv6_in_brackets {
            AddressReading::InBrackets
        } else {
            AddressReading::Name
        }),
{
    if is_address {
        AddressReading::AsItIs
    } else if is_ipv6_in_brackets {
        AddressReading::InBrackets
    } else {
        AddressReading::Name
    }
}

/// The error where the host of a user cannot be looked up.
pub fn unresolved_error(nickname: &str, error: &str) -> (s: String)
    ensures
        s@ == "Failed to resolve host for '"@ + nickname@ + "'. "@ + error@,
{
    cat2(cat3("Failed to resolve host for '", nickname, "'. ").as_str(), error)
}

/// A buffer with a message written into it: its number in the first byte, the size of its payload
/// in the four bytes before the payload, and the payload.
pub open spec fn with_message(buffer: Seq<u8>, msg: u8, payload: Seq<u8>) -> Seq<u8> {
    Seq::new(
        buffer.len(),
        |i: int|
            if i == 0 {
                msg
            } else if MSG_TYPE_SIZE <= i < PAYLOAD_OFFSET {
                be_bytes(payload.len(), 4)[i - MSG_TYPE_SIZE]
            } else if PAYLOAD_OFFSET <= i < PAYLOAD_OFFSET + payload.len() {
                payload[i - PAYLOAD_OFFSET]
            } else {
                buffer[i]
            },
    )
}

/// The size of the payload in a buffer.
pub open spec fn buffered_size(buffer: Seq<u8>) -> nat {
    be_value(buffer.subrange(MSG_TYPE_SIZE as int, PAYLOAD_OFFSET as int))
}

/// Writes a message into a buffer.
pub fn set_buffer(buffer: &mut Vec<u8>, msg: u8, payload: &[u8])
    requires
        old(buffer)@.len() == TOTAL_BUFFER_SIZE,
        PAYLOAD_OFFSET + payload@.len() <= TOTAL_BUFFER_SIZE,
    ensures
        final(buffer)@ == with_message(old(buffer)@, msg, payload@),
{
    let size = to_be_bytes(payload.len() as u128, PAYLOAD_SIZE_LEN);
    buffer.set(0, msg);
    buffer.set(2, size[0]);
    buffer.set(3, size[1]);
    buffer.set(4, size[2]);
    buffer.set(5, size[3]);
    let ghost start = buffer@;
    let mut i: usize = 0;
    while i < payload.len()
        invariant
            i <= payload@.len(),
            start.len() == TOTAL_BUFFER_SIZE,
            buffer@.len() == TOTAL_BUFFER_SIZE,
            PAYLOAD_OFFSET + payload@.len() <= TOTAL_BUFFER_SIZE,
            forall|k: int|
                0 <= k < TOTAL_BUFFER_SIZE ==> #[trigger] buffer@[k] == (if PAYLOAD_OFFSET <= k
                    < PAYLOAD_OFFSET + i {
                    payload@[k - PAYLOAD_OFFSET]
                } else {
                    start[k]
                }),
        decreases payload@.len() - i,
    {
        buffer.set(PAYLOAD_OFFSET + i, payload[i]);
        i += 1;
    }
    assert(buffer@ =~= with_message(old(buffer)@, msg, payload@));
}

/// The size of the payload in a buffer.
pub fn get_payload_size_from_buffer(buffer: &Vec<u8>) -> (size: usize)
    requires
        buffer@.len() == TOTAL_BUFFER_SIZE,
    ensures
        size == buffered_size(buffer@),
{
    let part = slice_subrange(buffer.as_slice(), MSG_TYPE_SIZE, PAYLOAD_OFFSET);
    proof {
        law_be_bytes_of_be_value(part@);
        lemma_pow256();
    }
    from_be_bytes(part) as usize
}

/// A message is read back from the buffer that it was written into.
pub proof fn law_message_in_buffer(buffer: Seq<u8>, msg: u8, payload: Seq<u8>)
    requires
        buffer.len() == TOTAL_BUFFER_SIZE,
        PAYLOAD_OFFSET + payload.len() <= TOTAL_BUFFER_SIZE,
    ensures
        with_message(buffer, msg, payload)[0] == msg,
        buffered_size(with_message(buffer, msg, payload)) == payload.len(),
        with_message(buffer, msg, payload).subrange(
            PAYLOAD_OFFSET as int,
            PAYLOAD_OFFSET + payload.len(),
        ) == payload,
{
    let b = with_message(buffer, msg, payload);
    lemma_be_bytes_len(payload.len(), 4);
    lemma_pow256();
    law_be_value_of_be_bytes(payload.len(), 4);
    assert(b.subrange(2, 6) =~= be_bytes(payload.len(), 4));
    assert(b.subrange(6, (6 + payload.len()) as int) =~= payload);
}

/// A file is found by its own path, whatever is below it. Below it, what is found is what is found
/// in the first of its files in which anything is.
pub proof fn law_first_file_is_found(path: Seq<char>, f: FileView)
    ensures
        file_at(f.path, f) == Some(f),
        f.path != path ==> match file_at(path, f) {
            Some(g) => exists|k: int|
                #![trigger f.files[k]]
                0 <= k < f.files.len() && file_at(path, f.files[k]) == Some(g) && forall|j: int|
                    #![trigger f.files[j]]
                    0 <= j < k ==> file_at(path, f.files[j]) is None,
            None => forall|j: int|
                #![trigger f.files[j]]
                0 <= j < f.files.len() ==> file_at(path, f.files[j]) is None,
        },
{
    if f.path != path {
        lemma_first_among(path, f.files, 0);
    }
}

proof fn lemma_first_among(path: Seq<char>, files: Seq<FileView>, from: int)
    requires
        0 <= from <= files.len(),
    ensures
        match file_among(path, files, from) {
            Some(g) => exists|k: int|
                #![trigger files[k]]
                from <= k < files.len() && file_at(path, files[k]) == Some(g) && forall|j: int|
                    #![trigger files[j]]
                    from <= j < k ==> file_at(path, files[j]) is None,
            None => forall|j: int|
                #![trigger files[j]]
                from <= j < files.len() ==> file_at(path, files[j]) is None,
        },
    decreases files.len() - from,
{
    if from < files.len() {
        assert(files[from] == files[from]);
        if file_at(path, files[from]) is None {
            lemma_first_among(path, files, from + 1);
        }
    }
}

/// Writing a message into a buffer leaves what stands behind it, what stands between its number and
/// its size, and how long the buffer is.
pub proof fn law_rest_of_buffer_stays(buffer: Seq<u8>, msg: u8, payload: Seq<u8>, i: int)
    requires
        buffer.len() == TOTAL_BUFFER_SIZE,
        PAYLOAD_OFFSET + payload.len() <= TOTAL_BUFFER_SIZE,
    ensures
        with_message(buffer, msg, payload).len() == buffer.len(),
        0 < i < MSG_TYPE_SIZE || PAYLOAD_OFFSET + payload.len() <= i < buffer.len()
            ==> with_message(buffer, msg, payload)[i] == buffer[i],
{
}

} // verus!

//! Sizes and message numbers of the wire protocol.
use vstd::prelude::*;

verus! {

/// First bytes of every connection: `TRAQ`.
pub const TRAN_MAGIC_NUMBER: [u8; 4] = [0x54, 0x52, 0x41, 0x51];

pub const TRAN_API_MAJOR: u16 = 8;

pub const TRAN_API_MINOR: u16 = 0;

pub const MSG_TYPE_SIZE: usize = 2;

pub const PAYLOAD_SIZE_LEN: usize = 4;

pub const CRC_SIZE: usize = 4;

pub const MSG_FILE_LIST: u16 = 1;

pub const MSG_FILE_LIST_PIECE: u16 = 2;

pub const MSG_FILE_LIST_FINAL: u16 = 3;

pub const MSG_FILE_CHUNK: u16 = 4;

pub const MSG_FILE_FINISHED: u16 = 5;

pub const MSG_FILE_INVALID_FILE: u16 = 6;

pub const MSG_CANNOT_SELECT_DIRECTORY: u16 = 7;

pub const MSG_FILE_SELECTION_CONTINUE: u16 = 8;

pub const MSG_REVERSE: u16 = 9;

pub const MSG_REVERSE_NO_LIST: u16 = 10;

/// Messages whose payload is followed by a checksum.
pub const CRC_MESSAGES: [u16; 4] = [
    MSG_FILE_LIST_PIECE,
    MSG_FILE_LIST_FINAL,
    MSG_FILE_CHUNK,
    MSG_FILE_SELECTION_CONTINUE,
];

/// Largest payload of a single message.
pub const MAX_DATA_SIZE: usize = 100_000;

/// What authenticated encryption adds to a plaintext.
pub const CRYPTO_EXTENSION_SIZE: usize = 16;

pub const TOTAL_BUFFER_SIZE: usize = MSG_TYPE_SIZE + PAYLOAD_SIZE_LEN + MAX_DATA_SIZE + CRC_SIZE;

pub const TOTAL_CRYPTO_BUFFER_SIZE: usize = TOTAL_BUFFER_SIZE + CRYPTO_EXTENSION_SIZE;

/// Where the payload starts in a message buffer.
pub const PAYLOAD_OFFSET: usize = MSG_TYPE_SIZE + PAYLOAD_SIZE_LEN;

/// No two messages have the same number.
pub proof fn law_messages_differ()
    ensures
        0 < MSG_FILE_LIST < MSG_FILE_LIST_PIECE < MSG_FILE_LIST_FINAL < MSG_FILE_CHUNK,
        MSG_FILE_CHUNK < MSG_FILE_FINISHED < MSG_FILE_INVALID_FILE < MSG_CANNOT_SELECT_DIRECTORY,
        MSG_CANNOT_SELECT_DIRECTORY < MSG_FILE_SELECTION_CONTINUE < MSG_REVERSE
            < MSG_REVERSE_NO_LIST,
{
}

} // verus!

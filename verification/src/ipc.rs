//! The IPC protocol between the command-line tool and the daemon: a command
//! byte, an optional decimal record identifier, and a line feed.
use vstd::prelude::*;
use vstd::utf8::*;
use crate::constants::{IPC_CMD_EXIT, IPC_CMD_RESTORE, IPC_DELIMITER};
use crate::content::{decode_lossy, decoded_text};
use crate::decimal::{i64_to_string, parse_i64, parse_i64_chars, signed_decimal, lemma_parse_signed_decimal, lemma_decimal, is_digit};
use crate::text::{chars_of, trim_chars, trim_seq, trim_start_seq, trim_end_seq, is_white_space};

verus! {

/// What the daemon makes of a message.
pub enum IpcRequest {
    /// Stop the daemon.
    Exit,
    /// Put record `id` back on the clipboard.
    Restore { id: i64 },
    /// Anything else: no action.
    Ignored,
}

/// The request that the message `buf` (as read up to and including the
/// line feed) carries: the first byte names the command and the bytes
/// between it and the final byte hold the record identifier.
pub open spec fn request_of(buf: Seq<u8>) -> IpcRequest {
    if buf.len() <= 1 {
        IpcRequest::Ignored
    } else if buf[0] == IPC_CMD_EXIT {
        IpcRequest::Exit
    } else if buf[0] == IPC_CMD_RESTORE {
        match parse_i64(trim_seq(decoded_text(buf.subrange(1, buf.len() - 1)))) {
            Some(id) => IpcRequest::Restore { id },
            None => IpcRequest::Ignored,
        }
    } else {
        IpcRequest::Ignored
    }
}

/// The message that asks the daemon to restore record `id`.
pub open spec fn restore_message(id: i64) -> Seq<u8> {
    seq![IPC_CMD_RESTORE] + encode_utf8(signed_decimal(id as int)) + seq![IPC_DELIMITER]
}

/// The message that asks the daemon to exit, as the tool sends it: the
/// command byte alone.
pub open spec fn exit_message() -> Seq<u8> {
    seq![IPC_CMD_EXIT]
}

/// Reads the request in a message.
pub fn parse_request(buf: &[u8]) -> (r: IpcRequest)
    ensures
        r == request_of(buf@),
{
    if buf.len() <= 1 {
        return IpcRequest::Ignored;
    }
    let n = buf.len() - 1;
    if buf[0] == IPC_CMD_EXIT {
        IpcRequest::Exit
    } else if buf[0] == IPC_CMD_RESTORE {
        let payload = &buf[1..n];
        assert(payload@ =~= buf@.subrange(1, buf@.len() - 1));
        let text = decode_lossy(payload);
        let chars = chars_of(text.as_str());
        let trimmed = trim_chars(chars.as_slice());
        match parse_i64_chars(trimmed.as_slice()) {
            Some(id) => IpcRequest::Restore { id },
            None => IpcRequest::Ignored,
        }
    } else {
        IpcRequest::Ignored
    }
}

/// The message that asks the daemon to restore record `id`.
pub fn restore_request(id: i64) -> (m: Vec<u8>)
    ensures
        m@ == restore_message(id),
{
    let s = i64_to_string(id);
    let bytes = s.as_str().as_bytes();
    let mut m: Vec<u8> = Vec::new();
    m.push(IPC_CMD_RESTORE);
    let mut i: usize = 0;
    while i < bytes.len()
        invariant
            i <= bytes@.len(),
            m@ == seq![IPC_CMD_RESTORE] + bytes@.take(i as int),
        decreases bytes@.len() - i,
    {
        m.push(bytes[i]);
        assert(m@ =~= seq![IPC_CMD_RESTORE] + bytes@.take(i + 1));
        i = i + 1;
    }
    m.push(IPC_DELIMITER);
    assert(bytes@.take(bytes@.len() as int) =~= bytes@);
    assert(m@ =~= restore_message(id));
    m
}

/// The message that asks the daemon to exit.
pub fn exit_request() -> (m: Vec<u8>)
    ensures
        m@ == exit_message(),
{
    let mut m: Vec<u8> = Vec::new();
    m.push(IPC_CMD_EXIT);
    assert(m@ =~= exit_message());
    m
}

/// A numeral has no white space to trim.
proof fn lemma_trim_numeral(n: i64)
    ensures
        trim_seq(signed_decimal(n as int)) == signed_decimal(n as int),
{
    let s = signed_decimal(n as int);
    let m = if n < 0 { (-(n as int)) as nat } else { n as nat };
    lemma_decimal(m);
    let d = crate::decimal::decimal(m);
    assert(is_digit(d[0]) && is_digit(d.last()));
    if n < 0 {
        assert(s[0] == '-');
        assert(s.last() == d.last());
    } else {
        assert(s == d);
    }
    assert(!is_white_space(s[0]));
    assert(trim_start_seq(s) == s);
    assert(!is_white_space(s.last()));
    assert(trim_end_seq(s) == s);
}

/// The daemon reads back exactly the identifier that a restore message
/// carries.
pub proof fn law_restore_message_round_trip(id: i64)
    ensures
        request_of(restore_message(id)) == (IpcRequest::Restore { id }),
{
    broadcast use encode_utf8_valid_utf8, encode_utf8_decode_utf8;

    let digits = signed_decimal(id as int);
    let m = restore_message(id);
    assert(m.subrange(1, m.len() - 1) =~= encode_utf8(digits));
    assert(decoded_text(encode_utf8(digits)) == digits);
    lemma_trim_numeral(id);
    lemma_parse_signed_decimal(id);
}

/// The exit message as the tool sends it (the command byte without a line
/// feed) carries no request; with the line feed it asks the daemon to exit.
pub proof fn law_exit_message(extra: u8)
    ensures
        request_of(exit_message()) == IpcRequest::Ignored,
        request_of(exit_message().push(extra)) == IpcRequest::Exit,
{
}

} // verus!

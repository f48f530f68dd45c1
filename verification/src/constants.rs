//! Configuration values shared by the storage, the IPC protocol and the
//! clipboard session.
use vstd::prelude::*;
use crate::decimal::{decimal, push_decimal};
use crate::text::push_str;

verus! {

/// Directory name (under the user's data directory) that holds the database.
pub const DB_DIR_NAME: &'static str = "y1-clipboard";

/// File name of the SQLite database.
pub const DB_FILE_NAME: &'static str = "y4_clipboard.sqlite";

/// Number of records the history keeps; older records are evicted.
pub const MAX_HISTORY: usize = 256;

/// Busy timeout for SQLite connections, in milliseconds.
pub const SQLITE_TIMEOUT_MS: u64 = 5000;

/// IPC command byte: restore a stored record to the clipboard.
pub const IPC_CMD_RESTORE: u8 = 0x01;

/// IPC command byte: ask the running daemon to exit.
pub const IPC_CMD_EXIT: u8 = 0x02;

/// Byte that terminates an IPC message.
pub const IPC_DELIMITER: u8 = 0x0a;

/// Pause after asking an older daemon to exit, in milliseconds.
pub const RECONNECT_DELAY_MS: u64 = 500;

/// MIME type used when none is given.
pub const DEFAULT_MIME: &'static str = "text/plain;charset=utf-8";

/// Number of characters kept as the preview of a textual record.
pub const PREVIEW_CHARS: usize = 100;

/// MIME type of a list of URIs (file managers copy files with it).
pub const MIME_URI_LIST: &'static str = "text/uri-list";

/// Column widths of the history listing.
pub const WIDTH_ID: usize = 6;
pub const WIDTH_WHEN: usize = 8;
pub const WIDTH_SIZE: usize = 11;
pub const PREVIEW_WIDTH: usize = 42;
pub const ELLIPSIS: &'static str = "...";
pub const TABLE_SEP: &'static str = " | ";
pub const TABLE_LINE_CHAR: &'static str = "-";

/// Labels of the listing.
pub const LABEL_IMAGE: &'static str = "[IMG]";
pub const LABEL_TEXT: &'static str = "[TXT]";
pub const LABEL_DATA: &'static str = "[BIN]";
pub const LABEL_FILE: &'static str = "[FIL]";

pub const LIST_HEADER_ID: &'static str = "ID";
pub const LIST_HEADER_WHEN: &'static str = "WHEN";
pub const LIST_HEADER_SIZE: &'static str = "SIZE";
pub const LIST_HEADER_CONTENT: &'static str = "CONTENT";

pub const TIME_UNIT_SEC: &'static str = "s ago";
pub const TIME_UNIT_MIN: &'static str = "m ago";
pub const TIME_UNIT_HOUR: &'static str = "h ago";

/// Wayland interfaces the session binds.
pub const INTERFACE_MANAGER: &'static str = "ext_data_control_manager_v1";
pub const INTERFACE_SEAT: &'static str = "wl_seat";

/// Prefixes of log lines.
pub const LOG_INFO: &'static str = "info: ";
pub const LOG_ERROR: &'static str = "error: ";

pub const MSG_DAEMON_START: &'static str = "starting y4-clipboard daemon...";
pub const MSG_DAEMON_STOP: &'static str = "daemon process terminated.";
pub const MSG_WAYLAND_CONN_FAIL: &'static str = "failed to connect to wayland compositor. is DISPLAY/WAYLAND_DISPLAY set?";

/// Base of the path of the Unix domain socket used for IPC; each user's
/// socket is `<base>.<uid>.sock`.
pub const SOCKET_PATH: &'static str = "/tmp/y1-clipboard";

/// The log line for a stored record.
pub fn log_save(mime: &str, size: usize) -> (line: String)
    ensures
        line@ == LOG_INFO@ + "saved: "@ + mime@ + " ("@ + decimal(size as nat) + " bytes)"@,
{
    let mut line = String::new();
    push_str(&mut line, LOG_INFO);
    push_str(&mut line, "saved: ");
    push_str(&mut line, mime);
    push_str(&mut line, " (");
    push_decimal(&mut line, size as u64);
    push_str(&mut line, " bytes)");
    assert(line@ =~= LOG_INFO@ + "saved: "@ + mime@ + " ("@ + decimal(size as nat) + " bytes)"@);
    line
}

/// The log line for a record restored to the clipboard.
pub fn log_restore(idx: usize) -> (line: String)
    ensures
        line@ == LOG_INFO@ + "restored ID ["@ + decimal(idx as nat) + "] to clipboard"@,
{
    let mut line = String::new();
    push_str(&mut line, LOG_INFO);
    push_str(&mut line, "restored ID [");
    push_decimal(&mut line, idx as u64);
    push_str(&mut line, "] to clipboard");
    assert(line@ =~= LOG_INFO@ + "restored ID ["@ + decimal(idx as nat) + "] to clipboard"@);
    line
}

/// The log line for a detected seat.
pub fn log_seat_detected(name: &str, caps: &str) -> (line: String)
    ensures
        line@ == LOG_INFO@ + "wayland seat detected: "@ + name@ + " (capabilities: "@ + caps@ + ")"@,
{
    let mut line = String::new();
    push_str(&mut line, LOG_INFO);
    push_str(&mut line, "wayland seat detected: ");
    push_str(&mut line, name);
    push_str(&mut line, " (capabilities: ");
    push_str(&mut line, caps);
    push_str(&mut line, ")");
    assert(line@ =~= LOG_INFO@ + "wayland seat detected: "@ + name@ + " (capabilities: "@ + caps@ + ")"@);
    line
}

/// The log line for a bound Wayland interface.
pub fn log_protocol_bound(interface: &str) -> (line: String)
    ensures
        line@ == LOG_INFO@ + "bound to wayland interface: "@ + interface@,
{
    let mut line = String::new();
    push_str(&mut line, LOG_INFO);
    push_str(&mut line, "bound to wayland interface: ");
    push_str(&mut line, interface);
    assert(line@ =~= LOG_INFO@ + "bound to wayland interface: "@ + interface@);
    line
}

/// The per-user IPC socket path of the user `uid`.
pub fn socket_path_for_uid(uid: u32) -> (path: String)
    ensures
        path@ == "/tmp/y1-clipboard."@ + decimal(uid as nat) + ".sock"@,
{
    let mut path = String::new();
    push_str(&mut path, SOCKET_PATH);
    push_str(&mut path, ".");
    push_decimal(&mut path, uid as u64);
    push_str(&mut path, ".sock");
    proof {
        reveal_strlit("/tmp/y1-clipboard");
        reveal_strlit(".");
        reveal_strlit("/tmp/y1-clipboard.");
    }
    assert(path@ =~= "/tmp/y1-clipboard."@ + decimal(uid as nat) + ".sock"@);
    path
}

} // verus!

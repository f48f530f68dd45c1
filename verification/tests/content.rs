use y4_clipboard::cli::{daemon_args, paste_from_args, search_args, search_title, store_args, ArgContext, ArgError};
use y4_clipboard::content::{make_preview, outgoing_payload, uri_list_as_text};
use y4_clipboard::decimal::{i64_to_string, parse_i64_chars, u64_to_string};
use y4_clipboard::digest::{cache_file_name, content_hash, to_hex_lower};
use y4_clipboard::mime::{is_mime_compatible, is_cached_mime, is_previewed_mime, is_sensitive_mime, offer_mimes, payload_mime, select_receive_mime, sniff_mime};
use y4_clipboard::state::{OfferData, SourceMetadata};
use y4_clipboard::text::{str_contains, str_eq, str_starts_with, trim_chars};

fn strings(v: &[&str]) -> Vec<String> {
    v.iter().map(|s| s.to_string()).collect()
}

fn ctx(pos: &[&str]) -> ArgContext {
    ArgContext {
        positionals: strings(pos),
        unknown_flags: Vec::new(),
        raw: false,
        full: false,
        force: false,
        verbose: false,
        use_id: false,
    }
}

#[test]
fn preview_takes_first_hundred_chars_on_one_line() {
    assert_eq!(make_preview(b"a\nb\nc"), "a b c");
    let long: String = std::iter::repeat('x').take(150).collect();
    assert_eq!(make_preview(long.as_bytes()).chars().count(), 100);
    assert_eq!(make_preview("é\n".as_bytes()), "é ");
    assert_eq!(make_preview(&[0xff, b'a']), "\u{fffd}a");
}

#[test]
fn md5_hex() {
    assert_eq!(content_hash(b""), "d41d8cd98f00b204e9800998ecf8427e");
    assert_eq!(content_hash(b"hello"), "5d41402abc4b2a76b9719d911017c592");
    assert_eq!(to_hex_lower(&[0x00, 0x0f, 0xa0, 0xff]), "000fa0ff");
    assert_eq!(cache_file_name("abc"), "abc.cache");
}

#[test]
fn decimal_numbers() {
    assert_eq!(u64_to_string(0), "0");
    assert_eq!(u64_to_string(1234567890), "1234567890");
    assert_eq!(i64_to_string(-42), "-42");
    assert_eq!(i64_to_string(i64::MIN), "-9223372036854775808");
    let c: Vec<char> = "-9223372036854775808".chars().collect();
    assert_eq!(parse_i64_chars(&c), Some(i64::MIN));
    let c: Vec<char> = "9223372036854775808".chars().collect();
    assert_eq!(parse_i64_chars(&c), None);
    let c: Vec<char> = "0012".chars().collect();
    assert_eq!(parse_i64_chars(&c), Some(12));
    let c: Vec<char> = "".chars().collect();
    assert_eq!(parse_i64_chars(&c), None);
    let c: Vec<char> = "1 2".chars().collect();
    assert_eq!(parse_i64_chars(&c), None);
}

#[test]
fn mime_rules() {
    assert!(is_sensitive_mime("x-kde-passwordManagerHint"));
    assert!(!is_sensitive_mime("text/plain"));
    assert!(is_cached_mime("image/png"));
    assert!(is_cached_mime("video/gif"));
    assert!(!is_cached_mime("text/plain"));
    assert!(is_previewed_mime("text/plain"));
    assert!(is_previewed_mime("x-special/uri-list"));
    assert!(!is_previewed_mime("application/json"));
}

#[test]
fn receive_mime_priority() {
    assert_eq!(select_receive_mime(&strings(&["text/plain", "image/png"])), "image/png");
    assert_eq!(select_receive_mime(&strings(&["text/plain;charset=utf-8", "text/uri-list"])), "text/uri-list");
    assert_eq!(select_receive_mime(&strings(&["TEXT", "image/png;foo=1"])), "image/png;foo=1");
    assert_eq!(select_receive_mime(&strings(&["application/x", "image/bmp"])), "image/bmp");
    assert_eq!(select_receive_mime(&strings(&["application/x", "text/html"])), "text/html");
    assert_eq!(select_receive_mime(&strings(&["application/x", "UTF8_STRING"])), "application/x");
    assert_eq!(select_receive_mime(&strings(&[])), "text/plain;charset=utf-8");
}

#[test]
fn magic_bytes() {
    assert_eq!(sniff_mime(&[0x89, 0x50, 0x4e, 0x47, 0]).as_deref(), Some("image/png"));
    assert_eq!(sniff_mime(&[0xff, 0xd8, 0xff, 0xe0]).as_deref(), Some("image/jpeg"));
    assert_eq!(sniff_mime(b"GIF89a").as_deref(), Some("image/gif"));
    assert_eq!(sniff_mime(b"RIFF\0\0\0\0WEBPVP8").as_deref(), Some("image/webp"));
    assert_eq!(sniff_mime(b"RIFF\0\0\0\0WAVE"), None);
    assert_eq!(sniff_mime(b"abc"), None);
    assert_eq!(payload_mime(b"hello", "text/plain"), "text/plain");
    assert_eq!(payload_mime(b"GIF89a", "text/plain"), "image/gif");
}

#[test]
fn offered_types() {
    assert_eq!(offer_mimes("image/png"), strings(&["image/png", "image/jpeg", "image/webp", "image/gif"]));
    assert_eq!(offer_mimes("text/plain"), strings(&["text/plain", "text/plain;charset=utf-8", "UTF8_STRING", "STRING", "TEXT"]));
    assert_eq!(
        offer_mimes("text/uri-list"),
        strings(&["text/uri-list", "text/plain;charset=utf-8", "text/plain", "UTF8_STRING", "STRING", "TEXT", "text/plain"])
    );
    assert_eq!(offer_mimes("application/json"), strings(&["application/json"]));
}

#[test]
fn uri_list_as_plain_text() {
    assert_eq!(uri_list_as_text("file:///a\r\nfile:///b\n"), "/a\n/b");
    assert_eq!(uri_list_as_text("file://file:///x"), "/x");
    assert_eq!(uri_list_as_text(""), "");
    assert_eq!(uri_list_as_text("\n"), "");
    assert_eq!(uri_list_as_text("a\n\nb"), "a\n\nb");
    assert_eq!(uri_list_as_text("a\r"), "a\r");
    assert_eq!(outgoing_payload("text/uri-list", "text/plain", b"file:///tmp/x\n"), b"/tmp/x".to_vec());
    assert_eq!(outgoing_payload("text/uri-list", "text/uri-list", b"file:///tmp/x\n"), b"file:///tmp/x\n".to_vec());
    assert_eq!(outgoing_payload("text/plain", "text/plain", b"file:///x"), b"file:///x".to_vec());
}

#[test]
fn string_helpers() {
    assert!(str_contains("abcdef", "cde"));
    assert!(!str_contains("abc", "abcd"));
    assert!(str_contains("abc", ""));
    assert!(str_starts_with("image/png", "image/"));
    assert!(!str_starts_with("text", "image/"));
    assert!(str_eq("x", "x"));
    assert!(!str_eq("x", "xy"));
    let t: Vec<char> = "\u{a0} a b \t".chars().collect();
    assert_eq!(trim_chars(&t).into_iter().collect::<String>(), "a b");
}

#[test]
fn command_lines() {
    assert!(matches!(daemon_args(&ctx(&[])), Ok(false)));
    assert!(matches!(daemon_args(&ctx(&["x"])), Err(ArgError::UnexpectedPositionals)));
    let mut c = ctx(&[]);
    c.raw = true;
    assert!(matches!(daemon_args(&c), Err(ArgError::UnsupportedOptions)));
    assert_eq!(store_args(&ctx(&[])).ok().unwrap(), "text/plain;charset=utf-8");
    assert_eq!(store_args(&ctx(&["application/json"])).ok().unwrap(), "application/json");
    assert!(matches!(store_args(&ctx(&["a", "b"])), Err(ArgError::TooManyArguments)));
    let mut c = ctx(&[]);
    c.verbose = true;
    assert!(matches!(paste_from_args(&c), Err(ArgError::UnsupportedOptions)));
    assert_eq!(paste_from_args(&ctx(&["text/html"])).ok().unwrap(), "text/html");
    assert!(matches!(search_args(&ctx(&[])), Err(ArgError::MissingKeyword)));
    assert!(matches!(search_args(&ctx(&["a", "b"])), Err(ArgError::TooManyArguments)));
    assert_eq!(search_args(&ctx(&["word"])).ok().unwrap(), "word");
    assert_eq!(search_title("word", 3), "search: 'word' (3 hits)");
}

#[test]
fn carried_data() {
    let m = SourceMetadata::new("text/plain".to_string(), vec![1, 2]);
    assert_eq!(m.mime, "text/plain");
    assert_eq!(m.data, vec![1, 2]);
    let o = OfferData::new();
    assert!(o.mimes.lock().unwrap().is_empty());
}

#[test]
fn compatible_types() {
    assert!(is_mime_compatible("image/jpeg", "image/png"));
    assert!(is_mime_compatible("image/png", "image/png"));
    assert!(!is_mime_compatible("text/plain", "image/png"));
    assert!(is_mime_compatible("text/plain", "text/uri-list"));
    assert!(is_mime_compatible("UTF8_STRING", "text/plain"));
    assert!(!is_mime_compatible("image/png", "text/plain"));
    assert!(is_mime_compatible("application/json", "application/json"));
    assert!(!is_mime_compatible("text/plain", "application/json"));
}

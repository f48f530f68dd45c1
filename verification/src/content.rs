//! What the library derives from a record's bytes: their text, the preview
//! kept beside the record, and the plain-text form of a URI list.
use vstd::prelude::*;
use vstd::utf8::*;
use crate::constants::PREVIEW_CHARS;
use crate::constants::MIME_URI_LIST;
use crate::text::{chars_occur_at, chars_of, contains_seq, join_with, push_chars, starts_with_seq, str_contains, str_eq, string_push};

verus! {

/// The text that `String::from_utf8_lossy` makes of `bytes`: valid UTF-8 is
/// decoded, each invalid sequence becomes U+FFFD.
pub uninterp spec fn utf8_lossy(bytes: Seq<u8>) -> Seq<char>;

/// Decodes bytes as UTF-8, replacing invalid sequences.
///
/// Calls `String::from_utf8_lossy`. Claimed: the result is the named result
/// `utf8_lossy` of the bytes, and where the bytes are valid UTF-8 it is their
/// decoding (the documentation: "If the slice is valid UTF-8, the result
/// holds exactly its characters"). Not claimed: how invalid sequences are
/// replaced.
#[verifier::external_body]
pub(crate) fn decode_lossy(bytes: &[u8]) -> (s: String)
    ensures
        s@ == utf8_lossy(bytes@),
        valid_utf8(bytes@) ==> s@ == decode_utf8(bytes@),
{
    String::from_utf8_lossy(bytes).into_owned()
}

/// The text of `bytes`: their decoding where they are valid UTF-8, the
/// lossy decoding otherwise.
pub open spec fn decoded_text(bytes: Seq<u8>) -> Seq<char> {
    if valid_utf8(bytes) { decode_utf8(bytes) } else { utf8_lossy(bytes) }
}

/// The first `n` characters of `s` (all of `s` when it is shorter).
pub open spec fn prefix_chars(s: Seq<char>, n: nat) -> Seq<char> {
    if s.len() <= n {
        s
    } else {
        s.take(n as int)
    }
}

/// `s` with every line feed replaced by a space.
pub open spec fn flatten_newlines(s: Seq<char>) -> Seq<char> {
    Seq::new(s.len(), |i: int| if s[i] == '\n' { ' ' } else { s[i] })
}

/// The preview stored beside a textual record: the first
/// `PREVIEW_CHARS` characters of its text, on one line.
pub open spec fn preview_of(data: Seq<u8>) -> Seq<char> {
    flatten_newlines(prefix_chars(decoded_text(data), PREVIEW_CHARS as nat))
}

/// A preview is one line of at most `PREVIEW_CHARS` characters.
pub proof fn law_preview_is_one_short_line(data: Seq<u8>)
    ensures
        preview_of(data).len() <= PREVIEW_CHARS,
        forall|i: int| 0 <= i < preview_of(data).len() ==> #[trigger] preview_of(data)[i] != '\n',
{
}

/// Computes the preview of a record's bytes.
pub fn make_preview(data: &[u8]) -> (p: String)
    ensures
        p@ == preview_of(data@),
{
    let text = decode_lossy(data);
    let mut out = String::new();
    let mut n: usize = 0;
    let ghost full = text@;
    for c in it: text.chars()
        invariant_except_break
            n == it.index(),
        invariant
            full == text@,
            n <= PREVIEW_CHARS,
            n <= full.len(),
            it.seq() == full,
            out@ == flatten_newlines(full.take(n as int)),
        ensures
            n == PREVIEW_CHARS || n == full.len(),
            n <= full.len(),
            out@ == flatten_newlines(full.take(n as int)),
    {
        if n == PREVIEW_CHARS {
            break;
        }
        if c == '\n' {
            string_push(&mut out, ' ');
        } else {
            string_push(&mut out, c);
        }
        assert(flatten_newlines(full.take(n as int)).push(if c == '\n' { ' ' } else { c })
            =~= flatten_newlines(full.take(n + 1)));
        n = n + 1;
    }
    assert(full.take(full.len() as int) =~= full);
    assert(out@ =~= preview_of(data@));
    out
}

/// Length of the first line of `s`: the characters before the first line
/// feed.
pub open spec fn line_end(s: Seq<char>) -> nat
    decreases s.len(),
{
    if s.len() == 0 || s[0] == '\n' { 0 } else { 1 + line_end(s.drop_first()) }
}

/// `l` without one trailing carriage return.
pub open spec fn strip_cr(l: Seq<char>) -> Seq<char> {
    if l.len() > 0 && l.last() == '\r' { l.drop_last() } else { l }
}

/// `l` without every leading repetition of `p` (`str::trim_start_matches`).
pub open spec fn strip_prefix_all(l: Seq<char>, p: Seq<char>) -> Seq<char>
    decreases l.len(),
{
    if p.len() > 0 && starts_with_seq(l, p) { strip_prefix_all(l.skip(p.len() as int), p) } else { l }
}

/// A line of a URI list as plain text: the line without `file://`.
pub open spec fn plain_line(l: Seq<char>) -> Seq<char> {
    strip_prefix_all(l, "file://"@)
}

/// The lines of `s` as `str::lines` yields them (a line feed ends a line,
/// a carriage return before it is dropped, no empty line after a final
/// line feed), each as plain text.
pub open spec fn plain_lines(s: Seq<char>) -> Seq<Seq<char>>
    decreases s.len(),
{
    if s.len() == 0 {
        Seq::empty()
    } else if line_end(s) >= s.len() {
        seq![plain_line(s)]
    } else {
        seq![plain_line(strip_cr(s.take(line_end(s) as int)))] + plain_lines(s.skip(line_end(s) + 1 as int))
    }
}

/// A URI list as plain text: its lines without `file://`, one per line.
pub open spec fn uri_list_text(s: Seq<char>) -> Seq<char> {
    join_with(plain_lines(s), "\n"@)
}

proof fn lemma_line_end(s: Seq<char>, m: int)
    requires
        0 <= m <= s.len(),
        forall|k: int| 0 <= k < m ==> #[trigger] s[k] != '\n',
        m < s.len() ==> s[m] == '\n',
    ensures
        line_end(s) == m,
    decreases m,
{
    if m > 0 {
        assert forall|k: int| 0 <= k < m - 1 implies #[trigger] s.drop_first()[k] != '\n' by {
            assert(s.drop_first()[k] == s[k + 1]);
        }
        lemma_line_end(s.drop_first(), m - 1);
    }
}

/// `l` without every leading `file://`.
fn strip_file_prefixes(l: &[char]) -> (r: Vec<char>)
    ensures
        r@ == plain_line(l@),
{
    let pat = chars_of("file://");
    proof { reveal_strlit("file://"); }
    assert(pat@.len() == 7);
    let mut pos: usize = 0;
    assert(l@.skip(0) =~= l@);
    while chars_occur_at(l, pat.as_slice(), pos)
        invariant
            pat@ == "file://"@,
            pat@.len() == 7,
            l@.len() == l.len(),
            pos <= l@.len(),
            plain_line(l@) == strip_prefix_all(l@.skip(pos as int), pat@),
        decreases l@.len() - pos,
    {
        assert(l@.skip(pos as int).subrange(0, 7) =~= l@.subrange(pos as int, pos + 7));
        assert(l@.skip(pos as int).skip(7) =~= l@.skip(pos + 7));
        pos = pos + 7;
    }
    assert(!starts_with_seq(l@.skip(pos as int), pat@)) by {
        if starts_with_seq(l@.skip(pos as int), pat@) {
            assert(l@.skip(pos as int).subrange(0, 7) =~= l@.subrange(pos as int, pos + 7));
        }
    }
    let mut r: Vec<char> = Vec::new();
    let mut i = pos;
    while i < l.len()
        invariant
            pos <= i <= l@.len(),
            r@ == l@.subrange(pos as int, i as int),
        decreases l@.len() - i,
    {
        r.push(l[i]);
        assert(r@ =~= l@.subrange(pos as int, i + 1));
        i = i + 1;
    }
    assert(r@ =~= l@.skip(pos as int));
    r
}

/// A URI list as plain text: each line without its leading `file://`.
pub fn uri_list_as_text(content: &str) -> (t: String)
    ensures
        t@ == uri_list_text(content@),
{
    let cs = chars_of(content);
    let ghost all = cs@;
    let n = cs.len();
    let mut out = String::new();
    let ghost mut done: Seq<Seq<char>> = Seq::empty();
    let mut i: usize = 0;
    assert(all.skip(0) =~= all);
    while i < n
        invariant
            all == cs@,
            n == all.len(),
            i <= n,
            plain_lines(all) == done + plain_lines(all.skip(i as int)),
            out@ == join_with(done, "\n"@),
            (i == 0) == (done.len() == 0),
        decreases n - i,
    {
        let mut j = i;
        while j < n && cs[j] != '\n'
            invariant
                i <= j <= n,
                n == all.len(),
                all == cs@,
                forall|k: int| i <= k < j ==> #[trigger] all[k] != '\n',
            decreases n - j,
        {
            j = j + 1;
        }
        let ghost rest = all.skip(i as int);
        proof {
            assert forall|k: int| 0 <= k < j - i implies #[trigger] rest[k] != '\n' by {
                assert(rest[k] == all[i + k]);
            }
            if j < n {
                assert(rest[j - i] == all[j as int]);
            }
            lemma_line_end(rest, (j - i) as int);
        }
        let mut end = j;
        if j < n && j > i && cs[j - 1] == '\r' {
            end = j - 1;
        }
        let line = strip_file_prefixes(&cs[i..end]);
        let ghost raw = if j < n { strip_cr(rest.take((j - i) as int)) } else { rest };
        assert(cs@.subrange(i as int, end as int) =~= raw);
        if i > 0 {
            string_push(&mut out, '\n');
        }
        push_chars(&mut out, line.as_slice());
        proof {
            let nd = done.push(line@);
            assert(nd.drop_last() =~= done);
            if done.len() == 0 {
                assert(join_with(nd, "\n"@) == line@);
            } else {
                assert(join_with(nd, "\n"@) == join_with(done, "\n"@) + "\n"@ + line@);
                reveal_strlit("\n");
            }
            assert(out@ =~= join_with(nd, "\n"@));
            if j < n {
                assert(rest.skip(j - i + 1) =~= all.skip(j + 1));
            }
            done = nd;
        }
        i = if j < n { j + 1 } else { n };
    }
    assert(all.skip(n as int) =~= Seq::<char>::empty());
    assert(done =~= plain_lines(all));
    out
}

/// A copy of `bytes`.
pub fn copy_bytes(bytes: &[u8]) -> (v: Vec<u8>)
    ensures
        v@ == bytes@,
{
    let mut v: Vec<u8> = Vec::new();
    let mut i: usize = 0;
    while i < bytes.len()
        invariant
            i <= bytes@.len(),
            v@ == bytes@.take(i as int),
        decreases bytes@.len() - i,
    {
        v.push(bytes[i]);
        assert(v@ =~= bytes@.take(i + 1));
        i = i + 1;
    }
    assert(v@ =~= bytes@);
    v
}

/// The bytes sent to a client that asked for `requested` of a record of
/// type `source`: a URI list asked for as plain text is sent as plain text,
/// anything else as stored.
pub open spec fn sent_bytes(source: Seq<char>, requested: Seq<char>, data: Seq<u8>) -> Seq<u8> {
    if source == MIME_URI_LIST@ && contains_seq(requested, "text/plain"@) {
        encode_utf8(uri_list_text(decoded_text(data)))
    } else {
        data
    }
}

/// Prepares the bytes sent to a client that asked for `requested` of a
/// record of type `source`.
pub fn outgoing_payload(source: &str, requested: &str, data: &[u8]) -> (out: Vec<u8>)
    ensures
        out@ == sent_bytes(source@, requested@, data@),
{
    if str_eq(source, MIME_URI_LIST) && str_contains(requested, "text/plain") {
        let content = decode_lossy(data);
        let text = uri_list_as_text(content.as_str());
        copy_bytes(text.as_str().as_bytes())
    } else {
        copy_bytes(data)
    }
}

// ---------------------------------------------------------------------------
// Laws on previews and on URI lists sent as text.

/// The preview holds the first `PREVIEW_CHARS` characters of the decoded
/// bytes (all of them when there are fewer), line feeds turned into spaces.
/// The bytes are decoded whole: valid UTF-8 as its characters, anything else
/// as `String::from_utf8_lossy` decodes it.
pub proof fn law_preview_of_text(data: Seq<u8>)
    ensures
        ({
            let t = if valid_utf8(data) { decode_utf8(data) } else { utf8_lossy(data) };
            let n = if t.len() <= PREVIEW_CHARS { t.len() } else { PREVIEW_CHARS as nat };
            &&& preview_of(data).len() == n
            &&& forall|i: int| 0 <= i < n ==> #[trigger] preview_of(data)[i] == (if t[i] == '\n' { ' ' } else { t[i] })
        }),
{
}

proof fn lemma_join_first(x: Seq<char>, rest: Seq<Seq<char>>, sep: Seq<char>)
    requires
        rest.len() > 0,
    ensures
        join_with(seq![x] + rest, sep) == x + sep + join_with(rest, sep),
    decreases rest.len(),
{
    let all = seq![x] + rest;
    assert(all.last() == rest.last());
    assert(join_with(all, sep) == join_with(all.drop_last(), sep) + sep + all.last());
    if rest.len() == 1 {
        assert(all.drop_last() =~= seq![x]);
        assert(join_with(seq![x], sep) == x);
        assert(join_with(rest, sep) == rest[0]);
        assert(rest[0] == rest.last());
        assert(join_with(all, sep) =~= x + sep + join_with(rest, sep));
    } else {
        lemma_join_first(x, rest.drop_last(), sep);
        assert(all.drop_last() =~= seq![x] + rest.drop_last());
        assert(join_with(rest, sep) == join_with(rest.drop_last(), sep) + sep + rest.last());
        assert((x + sep + join_with(rest.drop_last(), sep)) + sep + rest.last()
            =~= x + sep + (join_with(rest.drop_last(), sep) + sep + rest.last()));
    }
}

/// The first line of a list that starts with `file://` followed by `path`
/// and a line feed.
proof fn lemma_first_uri_line(path: Seq<char>, rest: Seq<char>)
    requires
        forall|i: int| 0 <= i < path.len() ==> #[trigger] path[i] != '\n',
        path.len() == 0 || path.last() != '\r',
        !starts_with_seq(path, "file://"@),
    ensures
        ({
            let s = "file://"@ + path + "\n"@ + rest;
            &&& plain_lines(s) == seq![path] + plain_lines(rest)
        }),
{
    reveal_strlit("file://");
    reveal_strlit("\n");
    let u = "file://"@;
    let s = u + path + "\n"@ + rest;
    let m: int = (u.len() + path.len()) as int;
    assert forall|k: int| 0 <= k < m implies #[trigger] s[k] != '\n' by {
        if k >= 7 {
            assert(s[k] == path[k - 7]);
        }
    }
    assert(s[m] == '\n');
    lemma_line_end(s, m);
    let line = s.take(m);
    assert(line =~= u + path);
    assert(strip_cr(line) == line) by {
        if path.len() > 0 {
            assert(line.last() == path.last());
        }
    }
    assert(starts_with_seq(line, u)) by {
        assert(line.subrange(0, 7) =~= u);
    }
    assert(line.skip(7) =~= path);
    assert(strip_prefix_all(path, u) == path);
    assert(plain_line(line) == path);
    assert(s.skip(m + 1) =~= rest);
}

/// A URI list entry `file://<path>` followed by more lines reads as the
/// path, a line feed, and the rest read the same way.
pub proof fn law_uri_list_line(path: Seq<char>, rest: Seq<char>)
    requires
        forall|i: int| 0 <= i < path.len() ==> #[trigger] path[i] != '\n',
        path.len() == 0 || path.last() != '\r',
        !starts_with_seq(path, "file://"@),
        rest.len() > 0,
    ensures
        uri_list_text("file://"@ + path + "\n"@ + rest) == path + "\n"@ + uri_list_text(rest),
{
    lemma_first_uri_line(path, rest);
    assert(plain_lines(rest).len() > 0);
    lemma_join_first(path, plain_lines(rest), "\n"@);
}

/// A URI list of the single entry `file://<path>`, ending in a line feed,
/// reads as the path alone.
pub proof fn law_uri_list_last_line(path: Seq<char>)
    requires
        forall|i: int| 0 <= i < path.len() ==> #[trigger] path[i] != '\n',
        path.len() == 0 || path.last() != '\r',
        !starts_with_seq(path, "file://"@),
    ensures
        uri_list_text("file://"@ + path + "\n"@) == path,
{
    lemma_first_uri_line(path, Seq::empty());
    assert("file://"@ + path + "\n"@ + Seq::<char>::empty() =~= "file://"@ + path + "\n"@);
    assert(seq![path] + plain_lines(Seq::<char>::empty()) =~= seq![path]);
}

/// A URI list asked for as any type naming `text/plain` (with or without
/// parameters) is sent as its plain text; every other request gets the
/// stored bytes.
pub proof fn law_sent_bytes(source: Seq<char>, requested: Seq<char>, data: Seq<u8>)
    ensures
        source == MIME_URI_LIST@ && contains_seq(requested, "text/plain"@) ==>
            sent_bytes(source, requested, data) == encode_utf8(uri_list_text(
                if valid_utf8(data) { decode_utf8(data) } else { utf8_lossy(data) })),
        !(source == MIME_URI_LIST@ && contains_seq(requested, "text/plain"@)) ==> sent_bytes(source, requested, data) == data,
{
}

/// A copied file, `file://<path>` and a line feed in UTF-8, asked for as
/// plain text (with or without parameters) is sent as the path in UTF-8.
pub proof fn law_copied_file_sent_as_path(requested: Seq<char>, path: Seq<char>)
    requires
        contains_seq(requested, "text/plain"@),
        forall|i: int| 0 <= i < path.len() ==> #[trigger] path[i] != '\n',
        path.len() == 0 || path.last() != '\r',
        !starts_with_seq(path, "file://"@),
    ensures
        sent_bytes(MIME_URI_LIST@, requested, encode_utf8("file://"@ + path + "\n"@)) == encode_utf8(path),
{
    broadcast use encode_utf8_valid_utf8, encode_utf8_decode_utf8;
    law_uri_list_last_line(path);
    assert(decoded_text(encode_utf8("file://"@ + path + "\n"@)) == "file://"@ + path + "\n"@);
}

} // verus!

//! Rules on MIME types: which records are private, which are images kept in
//! the cache directory, which are text with a preview.
use vstd::prelude::*;
use crate::constants::{DEFAULT_MIME, MIME_URI_LIST};
use crate::text::{contains_seq, push_str, starts_with_seq, str_contains, str_eq, str_starts_with};

verus! {

/// A MIME type that carries a hint of private data (password managers,
/// secrets); such records are never stored.
pub open spec fn sensitive_mime(mime: Seq<char>) -> bool {
    ||| contains_seq(mime, "x-kde-passwordManagerHint"@)
    ||| contains_seq(mime, "password"@)
    ||| contains_seq(mime, "secret"@)
    ||| contains_seq(mime, "x-gnome-cliptrace"@)
}

/// A MIME type whose content the store keeps in a cache file rather than in
/// the database.
pub open spec fn cached_mime(mime: Seq<char>) -> bool {
    starts_with_seq(mime, "image/"@) || contains_seq(mime, "gif"@)
}

/// A MIME type whose records get a text preview in the store.
pub open spec fn previewed_mime(mime: Seq<char>) -> bool {
    contains_seq(mime, "text"@) || contains_seq(mime, "uri-list"@)
}

/// Whether records of this MIME type must not be stored.
pub fn is_sensitive_mime(mime: &str) -> (b: bool)
    ensures
        b == sensitive_mime(mime@),
{
    str_contains(mime, "x-kde-passwordManagerHint") || str_contains(mime, "password")
        || str_contains(mime, "secret") || str_contains(mime, "x-gnome-cliptrace")
}

/// Whether records of this MIME type keep their content in a cache file.
pub fn is_cached_mime(mime: &str) -> (b: bool)
    ensures
        b == cached_mime(mime@),
{
    str_starts_with(mime, "image/") || str_contains(mime, "gif")
}

/// Whether records of this MIME type get a text preview.
pub fn is_previewed_mime(mime: &str) -> (b: bool)
    ensures
        b == previewed_mime(mime@),
{
    str_contains(mime, "text") || str_contains(mime, "uri-list")
}

/// The views of a sequence of strings.
pub open spec fn strings_view(v: Seq<String>) -> Seq<Seq<char>> {
    Seq::new(v.len(), |i: int| v[i]@)
}

/// The offered types the daemon prefers, best first.
pub open spec fn priority_mimes() -> Seq<Seq<char>> {
    seq![
        "image/webp"@,
        "image/png"@,
        "image/jpeg"@,
        "image/gif"@,
        MIME_URI_LIST@,
        "text/plain;charset=utf-8"@,
        "text/plain"@,
    ]
}

/// `m` is the preferred type `p`, possibly with parameters.
pub open spec fn matches_mime(m: Seq<char>, p: Seq<char>) -> bool {
    m == p || starts_with_seq(m, p + ";"@)
}

/// The first offered type that matches `p`.
pub open spec fn first_matching(ms: Seq<Seq<char>>, p: Seq<char>) -> Option<Seq<char>>
    decreases ms.len(),
{
    if ms.len() == 0 {
        None
    } else if matches_mime(ms[0], p) {
        Some(ms[0])
    } else {
        first_matching(ms.drop_first(), p)
    }
}

/// The first offered type that begins with `prefix`.
pub open spec fn first_with_prefix(ms: Seq<Seq<char>>, prefix: Seq<char>) -> Option<Seq<char>>
    decreases ms.len(),
{
    if ms.len() == 0 {
        None
    } else if starts_with_seq(ms[0], prefix) {
        Some(ms[0])
    } else {
        first_with_prefix(ms.drop_first(), prefix)
    }
}

/// The offered type matching the best of the preferred types `ps`.
pub open spec fn by_priority(ms: Seq<Seq<char>>, ps: Seq<Seq<char>>) -> Option<Seq<char>>
    decreases ps.len(),
{
    if ps.len() == 0 {
        None
    } else {
        match first_matching(ms, ps[0]) {
            Some(m) => Some(m),
            None => by_priority(ms, ps.drop_first()),
        }
    }
}

/// The type the daemon asks for among the offered types `ms`: the best
/// preferred type; else the first image type; else the first text type;
/// else the first offered type; else the default type.
pub open spec fn receive_mime(ms: Seq<Seq<char>>) -> Seq<char> {
    match by_priority(ms, priority_mimes()) {
        Some(m) => m,
        None => match first_with_prefix(ms, "image/"@) {
            Some(m) => m,
            None => match first_with_prefix(ms, "text/"@) {
                Some(m) => m,
                None => if ms.len() > 0 { ms[0] } else { DEFAULT_MIME@ },
            },
        },
    }
}

/// Index of the first offered type that matches `p`.
fn find_matching(ms: &Vec<String>, p: &str) -> (r: Option<usize>)
    ensures
        match r {
            Some(i) => i < ms@.len() && first_matching(strings_view(ms@), p@) == Some(ms@[i as int]@),
            None => first_matching(strings_view(ms@), p@) is None,
        },
{
    let ghost all = strings_view(ms@);
    let mut with_params = String::new();
    push_str(&mut with_params, p);
    push_str(&mut with_params, ";");
    let mut i: usize = 0;
    assert(all.skip(0) =~= all);
    while i < ms.len()
        invariant
            all == strings_view(ms@),
            i <= ms@.len(),
            with_params@ == p@ + ";"@,
            first_matching(all, p@) == first_matching(all.skip(i as int), p@),
        decreases ms@.len() - i,
    {
        let m = ms[i].as_str();
        assert(all.skip(i as int)[0] == m@);
        if str_eq(m, p) || str_starts_with(m, with_params.as_str()) {
            return Some(i);
        }
        assert(all.skip(i as int).drop_first() =~= all.skip(i + 1));
        i = i + 1;
    }
    assert(all.skip(i as int) =~= Seq::<Seq<char>>::empty());
    None
}

/// Index of the first offered type that begins with `prefix`.
fn find_with_prefix(ms: &Vec<String>, prefix: &str) -> (r: Option<usize>)
    ensures
        match r {
            Some(i) => i < ms@.len() && first_with_prefix(strings_view(ms@), prefix@) == Some(ms@[i as int]@),
            None => first_with_prefix(strings_view(ms@), prefix@) is None,
        },
{
    let ghost all = strings_view(ms@);
    let mut i: usize = 0;
    assert(all.skip(0) =~= all);
    while i < ms.len()
        invariant
            all == strings_view(ms@),
            i <= ms@.len(),
            first_with_prefix(all, prefix@) == first_with_prefix(all.skip(i as int), prefix@),
        decreases ms@.len() - i,
    {
        let m = ms[i].as_str();
        assert(all.skip(i as int)[0] == m@);
        if str_starts_with(m, prefix) {
            return Some(i);
        }
        assert(all.skip(i as int).drop_first() =~= all.skip(i + 1));
        i = i + 1;
    }
    assert(all.skip(i as int) =~= Seq::<Seq<char>>::empty());
    None
}

fn priority_mime(k: usize) -> (p: &'static str)
    requires
        k < 7,
    ensures
        p@ == priority_mimes()[k as int],
{
    match k {
        0 => "image/webp",
        1 => "image/png",
        2 => "image/jpeg",
        3 => "image/gif",
        4 => MIME_URI_LIST,
        5 => "text/plain;charset=utf-8",
        _ => "text/plain",
    }
}

/// Chooses the type to ask for among the offered types.
pub fn select_receive_mime(ms: &Vec<String>) -> (m: String)
    ensures
        m@ == receive_mime(strings_view(ms@)),
{
    let ghost all = strings_view(ms@);
    let ghost ps = priority_mimes();
    let mut k: usize = 0;
    assert(ps.skip(0) =~= ps);
    while k < 7
        invariant
            all == strings_view(ms@),
            ps == priority_mimes(),
            k <= 7,
            by_priority(all, ps) == by_priority(all, ps.skip(k as int)),
        decreases 7 - k,
    {
        let p = priority_mime(k);
        assert(ps.skip(k as int)[0] == p@);
        match find_matching(ms, p) {
            Some(i) => {
                return ms[i].clone();
            },
            None => {},
        }
        assert(ps.skip(k as int).drop_first() =~= ps.skip(k + 1));
        k = k + 1;
    }
    assert(ps.skip(7) =~= Seq::<Seq<char>>::empty());
    match find_with_prefix(ms, "image/") {
        Some(i) => {
            return ms[i].clone();
        },
        None => {},
    }
    match find_with_prefix(ms, "text/") {
        Some(i) => {
            return ms[i].clone();
        },
        None => {},
    }
    if ms.len() > 0 {
        ms[0].clone()
    } else {
        DEFAULT_MIME.to_owned()
    }
}

/// The image type that the first bytes of `p` reveal, if any.
pub open spec fn sniffed_mime(p: Seq<u8>) -> Option<Seq<char>> {
    if p.len() < 4 {
        None
    } else if p[0] == 0x89 && p[1] == 0x50 && p[2] == 0x4e && p[3] == 0x47 {
        Some("image/png"@)
    } else if p[0] == 0xff && p[1] == 0xd8 && p[2] == 0xff {
        Some("image/jpeg"@)
    } else if p[0] == 0x47 && p[1] == 0x49 && p[2] == 0x46 && p[3] == 0x38 {
        Some("image/gif"@)
    } else if p[0] == 0x52 && p[1] == 0x49 && p[2] == 0x46 && p[3] == 0x46 && p.len() >= 12
        && p[8] == 0x57 && p[9] == 0x45 && p[10] == 0x42 && p[11] == 0x50 {
        Some("image/webp"@)
    } else {
        None
    }
}

/// Identifies PNG, JPEG, GIF and WebP content by its first bytes.
pub fn sniff_mime(p: &[u8]) -> (r: Option<String>)
    ensures
        match r {
            Some(m) => sniffed_mime(p@) == Some(m@),
            None => sniffed_mime(p@) is None,
        },
{
    if p.len() < 4 {
        None
    } else if p[0] == 0x89 && p[1] == 0x50 && p[2] == 0x4e && p[3] == 0x47 {
        Some("image/png".to_owned())
    } else if p[0] == 0xff && p[1] == 0xd8 && p[2] == 0xff {
        Some("image/jpeg".to_owned())
    } else if p[0] == 0x47 && p[1] == 0x49 && p[2] == 0x46 && p[3] == 0x38 {
        Some("image/gif".to_owned())
    } else if p[0] == 0x52 && p[1] == 0x49 && p[2] == 0x46 && p[3] == 0x46 && p.len() >= 12
        && p[8] == 0x57 && p[9] == 0x45 && p[10] == 0x42 && p[11] == 0x50 {
        Some("image/webp".to_owned())
    } else {
        None
    }
}

/// The type under which received content is stored: the type its first
/// bytes reveal, else the type that was asked for.
pub open spec fn stored_mime(payload: Seq<u8>, asked: Seq<char>) -> Seq<char> {
    match sniffed_mime(payload) {
        Some(m) => m,
        None => asked,
    }
}

/// Chooses the type under which received content is stored.
pub fn payload_mime(payload: &[u8], asked: &str) -> (m: String)
    ensures
        m@ == stored_mime(payload@, asked@),
{
    match sniff_mime(payload) {
        Some(m) => m,
        None => asked.to_owned(),
    }
}

/// Image types a restored image is also offered as.
pub open spec fn image_alternatives() -> Seq<Seq<char>> {
    seq!["image/png"@, "image/jpeg"@, "image/webp"@, "image/gif"@]
}

/// Text types restored text is also offered as.
pub open spec fn text_alternatives() -> Seq<Seq<char>> {
    seq!["text/plain;charset=utf-8"@, "text/plain"@, "UTF8_STRING"@, "STRING"@, "TEXT"@]
}

/// The entries of `list` other than `m`, in order.
pub open spec fn others(list: Seq<Seq<char>>, m: Seq<char>) -> Seq<Seq<char>>
    decreases list.len(),
{
    if list.len() == 0 {
        Seq::empty()
    } else if list.last() == m {
        others(list.drop_last(), m)
    } else {
        others(list.drop_last(), m).push(list.last())
    }
}

/// The types under which a restored record of type `m` is offered: `m`
/// first, then its image or text alternatives, and plain text for a URI
/// list.
pub open spec fn offered_mimes(m: Seq<char>) -> Seq<Seq<char>> {
    seq![m] + if starts_with_seq(m, "image/"@) {
        others(image_alternatives(), m)
    } else if contains_seq(m, "text"@) || m == MIME_URI_LIST@ {
        others(text_alternatives(), m) + if m == MIME_URI_LIST@ { seq!["text/plain"@] } else { Seq::empty() }
    } else {
        Seq::empty()
    }
}

fn image_alternative(k: usize) -> (a: &'static str)
    requires
        k < 4,
    ensures
        a@ == image_alternatives()[k as int],
{
    match k {
        0 => "image/png",
        1 => "image/jpeg",
        2 => "image/webp",
        _ => "image/gif",
    }
}

fn text_alternative(k: usize) -> (a: &'static str)
    requires
        k < 5,
    ensures
        a@ == text_alternatives()[k as int],
{
    match k {
        0 => "text/plain;charset=utf-8",
        1 => "text/plain",
        2 => "UTF8_STRING",
        3 => "STRING",
        _ => "TEXT",
    }
}

/// Appends to `out` the alternatives other than `m`.
fn push_others(out: &mut Vec<String>, m: &str, images: bool)
    ensures
        strings_view(final(out)@) == strings_view(old(out)@)
            + others(if images { image_alternatives() } else { text_alternatives() }, m@),
{
    let ghost list = if images { image_alternatives() } else { text_alternatives() };
    let n: usize = if images { 4 } else { 5 };
    let mut k: usize = 0;
    assert(list.take(0) =~= Seq::<Seq<char>>::empty());
    assert(strings_view(out@) =~= strings_view(old(out)@) + others(list.take(0), m@));
    while k < n
        invariant
            list == if images { image_alternatives() } else { text_alternatives() },
            n == list.len(),
            k <= n,
            strings_view(out@) == strings_view(old(out)@) + others(list.take(k as int), m@),
        decreases n - k,
    {
        let a = if images { image_alternative(k) } else { text_alternative(k) };
        assert(list.take(k + 1).drop_last() =~= list.take(k as int));
        assert(list.take(k + 1).last() == a@);
        if !str_eq(a, m) {
            let ghost before = out@;
            out.push(a.to_owned());
            assert(strings_view(out@) =~= strings_view(before).push(a@));
        }
        assert(strings_view(out@) =~= strings_view(old(out)@) + others(list.take(k + 1), m@));
        k = k + 1;
    }
    assert(list.take(n as int) =~= list);
}

/// The types under which a restored record of type `m` is offered.
pub fn offer_mimes(m: &str) -> (r: Vec<String>)
    ensures
        strings_view(r@) == offered_mimes(m@),
{
    let mut r: Vec<String> = Vec::new();
    r.push(m.to_owned());
    assert(strings_view(r@) =~= seq![m@]);
    if str_starts_with(m, "image/") {
        push_others(&mut r, m, true);
    } else {
        let is_uri_list = str_eq(m, MIME_URI_LIST);
        if str_contains(m, "text") || is_uri_list {
            push_others(&mut r, m, false);
            if is_uri_list {
                let ghost before = r@;
                r.push("text/plain".to_owned());
                assert(strings_view(r@) =~= strings_view(before).push("text/plain"@));
            }
        }
    }
    assert(strings_view(r@) =~= offered_mimes(m@));
    r
}

/// Some offered type carries a hint of private data.
pub open spec fn offer_sensitive(ms: Seq<Seq<char>>) -> bool {
    exists|i: int| 0 <= i < ms.len() && sensitive_mime(#[trigger] ms[i])
}

/// Whether a selection offers a private type among `ms`.
pub fn is_offer_sensitive(ms: &Vec<String>) -> (b: bool)
    ensures
        b == offer_sensitive(strings_view(ms@)),
{
    let ghost all = strings_view(ms@);
    let mut i: usize = 0;
    while i < ms.len()
        invariant
            all == strings_view(ms@),
            i <= ms@.len(),
            forall|k: int| 0 <= k < i ==> !sensitive_mime(#[trigger] all[k]),
        decreases ms@.len() - i,
    {
        if is_sensitive_mime(ms[i].as_str()) {
            assert(sensitive_mime(all[i as int]));
            return true;
        }
        i = i + 1;
    }
    false
}

/// A client may be sent a record of type `source` when it asks for
/// `requested`: one of the types the record is offered under.
pub open spec fn mime_compatible(requested: Seq<char>, source: Seq<char>) -> bool {
    offered_mimes(source).contains(requested)
}

/// Whether a request for `requested` may be answered with a record of type
/// `source`.
pub fn is_mime_compatible(requested: &str, source: &str) -> (b: bool)
    ensures
        b == mime_compatible(requested@, source@),
{
    let offered = offer_mimes(source);
    let ghost all = strings_view(offered@);
    let mut i: usize = 0;
    while i < offered.len()
        invariant
            all == strings_view(offered@),
            all == offered_mimes(source@),
            i <= offered@.len(),
            forall|k: int| 0 <= k < i ==> #[trigger] all[k] != requested@,
        decreases offered@.len() - i,
    {
        if str_eq(offered[i].as_str(), requested) {
            assert(all[i as int] == requested@);
            return true;
        }
        i = i + 1;
    }
    false
}

// ---------------------------------------------------------------------------
// Laws on the choice of types.

/// `m` is the type `p`, possibly with parameters.
pub open spec fn is_form_of(m: Seq<char>, p: Seq<char>) -> bool {
    m == p || starts_with_seq(m, p + ";"@)
}

proof fn lemma_first_matching(ms: Seq<Seq<char>>, p: Seq<char>)
    ensures
        first_matching(ms, p) is None <==> (forall|i: int| 0 <= i < ms.len() ==> !matches_mime(#[trigger] ms[i], p)),
        first_matching(ms, p) matches Some(m) ==> matches_mime(m, p) && ms.contains(m),
    decreases ms.len(),
{
    if ms.len() > 0 {
        lemma_first_matching(ms.drop_first(), p);
        if first_matching(ms, p) is None {
            assert forall|i: int| 0 <= i < ms.len() implies !matches_mime(#[trigger] ms[i], p) by {
                if i > 0 {
                    assert(ms[i] == ms.drop_first()[i - 1]);
                }
            }
        } else {
            if !matches_mime(ms[0], p) {
                let m = first_matching(ms, p)->0;
                let j = choose|j: int| 0 <= j < ms.drop_first().len() && ms.drop_first()[j] == m;
                assert(ms[j + 1] == m);
            }
        }
    }
}

/// Preferred types that no offered type matches are passed over.
proof fn lemma_by_priority_skip(ms: Seq<Seq<char>>, ps: Seq<Seq<char>>, k: int)
    requires
        0 <= k <= ps.len(),
        forall|j: int| 0 <= j < k ==> #[trigger] first_matching(ms, ps[j]) is None,
    ensures
        by_priority(ms, ps) == by_priority(ms, ps.skip(k)),
    decreases k,
{
    if k > 0 {
        assert(first_matching(ms, ps[0]) is None);
        assert forall|j: int| 0 <= j < k - 1 implies #[trigger] first_matching(ms, ps.drop_first()[j]) is None by {
            assert(ps.drop_first()[j] == ps[j + 1]);
        }
        lemma_by_priority_skip(ms, ps.drop_first(), k - 1);
        assert(ps.drop_first().skip(k - 1) =~= ps.skip(k));
    } else {
        assert(ps.skip(0) =~= ps);
    }
}

/// Plain text wins over other text types: when an offer holds
/// `text/plain;charset=utf-8` or `text/plain` (possibly with parameters)
/// and none of the image types or a URI list, the type asked for is one of
/// those plain-text types from the offer.
pub proof fn law_plain_text_preferred(ms: Seq<Seq<char>>)
    requires
        exists|i: int| 0 <= i < ms.len()
            && (is_form_of(#[trigger] ms[i], "text/plain;charset=utf-8"@) || is_form_of(ms[i], "text/plain"@)),
        forall|i: int| 0 <= i < ms.len() ==> {
            &&& !is_form_of(#[trigger] ms[i], "image/webp"@)
            &&& !is_form_of(ms[i], "image/png"@)
            &&& !is_form_of(ms[i], "image/jpeg"@)
            &&& !is_form_of(ms[i], "image/gif"@)
            &&& !is_form_of(ms[i], MIME_URI_LIST@)
        },
    ensures
        ms.contains(receive_mime(ms)),
        is_form_of(receive_mime(ms), "text/plain;charset=utf-8"@) || is_form_of(receive_mime(ms), "text/plain"@),
{
    let ps = priority_mimes();
    let w = choose|i: int| 0 <= i < ms.len()
        && (is_form_of(#[trigger] ms[i], "text/plain;charset=utf-8"@) || is_form_of(ms[i], "text/plain"@));
    assert forall|k: int| 0 <= k < 5 implies #[trigger] first_matching(ms, ps[k]) is None by {
        lemma_first_matching(ms, ps[k]);
        assert forall|i: int| 0 <= i < ms.len() implies !matches_mime(#[trigger] ms[i], ps[k]) by {
            assert(!is_form_of(ms[i], ps[k]));
        }
    }
    lemma_by_priority_skip(ms, ps, 5);
    let q5 = ps.skip(5);
    assert(q5[0] == "text/plain;charset=utf-8"@);
    lemma_first_matching(ms, "text/plain;charset=utf-8"@);
    if first_matching(ms, "text/plain;charset=utf-8"@) is None {
        assert(!matches_mime(ms[w], "text/plain;charset=utf-8"@));
        let q6 = ps.skip(6);
        assert(q5.drop_first() =~= q6);
        assert(q6[0] == "text/plain"@);
        lemma_first_matching(ms, "text/plain"@);
        assert(matches_mime(ms[w], "text/plain"@));
        assert(by_priority(ms, q5) == by_priority(ms, q6));
        let r = first_matching(ms, "text/plain"@)->0;
        assert(by_priority(ms, q6) == Some(r));
        assert(receive_mime(ms) == r);
    } else {
        let r = first_matching(ms, "text/plain;charset=utf-8"@)->0;
        assert(by_priority(ms, q5) == Some(r));
        assert(receive_mime(ms) == r);
    }
}

proof fn lemma_others_contains(list: Seq<Seq<char>>, m: Seq<char>, a: Seq<char>)
    requires
        list.contains(a),
        a != m,
    ensures
        others(list, m).contains(a),
    decreases list.len(),
{
    if list.last() == a {
        assert(others(list, m).last() == a);
    } else {
        let i = choose|i: int| 0 <= i < list.len() && list[i] == a;
        assert(list.drop_last()[i] == a);
        lemma_others_contains(list.drop_last(), m, a);
        let o = others(list.drop_last(), m);
        let j = choose|j: int| 0 <= j < o.len() && o[j] == a;
        if list.last() != m {
            assert(o.push(list.last())[j] == a);
        }
    }
}

/// A restored text record (any type containing `text`, with or without
/// parameters, other than an image type) is offered first under its own
/// type and then under each of `text/plain;charset=utf-8`, `text/plain`,
/// `UTF8_STRING`, `STRING` and `TEXT` other than its own, and a request for
/// any of those is answered.
pub proof fn law_text_offered_as_all_text_types(m: Seq<char>, a: Seq<char>)
    requires
        contains_seq(m, "text"@),
        !starts_with_seq(m, "image/"@),
    ensures
        offered_mimes(m).len() > 0,
        offered_mimes(m)[0] == m,
        mime_compatible(m, m),
        (a == "text/plain;charset=utf-8"@ || a == "text/plain"@ || a == "UTF8_STRING"@ || a == "STRING"@
            || a == "TEXT"@) ==> offered_mimes(m).contains(a) && mime_compatible(a, m),
{
    let o = offered_mimes(m);
    assert(o[0] == m);
    let tail = others(text_alternatives(), m) + if m == MIME_URI_LIST@ { seq!["text/plain"@] } else { Seq::<Seq<char>>::empty() };
    assert(o == seq![m] + tail);
    if a == "text/plain;charset=utf-8"@ || a == "text/plain"@ || a == "UTF8_STRING"@ || a == "STRING"@ || a == "TEXT"@ {
        if a != m {
            let t = text_alternatives();
            if a == "text/plain;charset=utf-8"@ { assert(t[0] == a); }
            else if a == "text/plain"@ { assert(t[1] == a); }
            else if a == "UTF8_STRING"@ { assert(t[2] == a); }
            else if a == "STRING"@ { assert(t[3] == a); }
            else { assert(t[4] == a); }
            lemma_others_contains(t, m, a);
            let ot = others(t, m);
            let j = choose|j: int| 0 <= j < ot.len() && ot[j] == a;
            assert(tail[j] == a);
            assert(o[j + 1] == a);
        }
    }
}

} // verus!

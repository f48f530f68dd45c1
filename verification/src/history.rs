//! The clipboard history: the records of the store, newest first, with at
//! most one record per content hash and at most `MAX_HISTORY` records after
//! each insertion.
use vstd::prelude::*;
use crate::constants::MAX_HISTORY;
use crate::content::{make_preview, preview_of};
use crate::mime::{cached_mime, is_cached_mime, is_previewed_mime, is_sensitive_mime, previewed_mime, sensitive_mime};
use crate::digest::{cache_file_name, content_hash, content_hash_of};
use crate::text::{contains_seq, starts_with_seq, str_eq};

verus! {

/// One record of the history.
pub struct Entry {
    /// Stable identifier; never reused.
    pub id: i64,
    /// Time of the last copy of this content, in milliseconds.
    pub timestamp: i64,
    pub mime: String,
    /// Length of the content in bytes.
    pub size: usize,
    /// First characters of a textual record.
    pub preview: Option<String>,
    /// The content is kept in the database (`true`) or in the cache file
    /// named after the hash (`false`).
    pub inline: bool,
    /// Hex digest of the content.
    pub hash: String,
}

/// What a record holds, as values.
pub struct EntryView {
    pub id: i64,
    pub timestamp: i64,
    pub mime: Seq<char>,
    pub size: usize,
    pub preview: Option<Seq<char>>,
    pub inline: bool,
    pub hash: Seq<char>,
}

pub open spec fn opt_string_view(o: Option<String>) -> Option<Seq<char>> {
    match o {
        Some(s) => Some(s@),
        None => None,
    }
}

impl View for Entry {
    type V = EntryView;

    open spec fn view(&self) -> EntryView {
        EntryView {
            id: self.id,
            timestamp: self.timestamp,
            mime: self.mime@,
            size: self.size,
            preview: opt_string_view(self.preview),
            inline: self.inline,
            hash: self.hash@,
        }
    }
}

/// The views of a sequence of records.
pub open spec fn view_seq(s: Seq<Entry>) -> Seq<EntryView> {
    Seq::new(s.len(), |i: int| s[i]@)
}

/// `a` comes before `b` in the history: it was copied later, or at the same
/// time with a larger identifier.
pub open spec fn newer(a: EntryView, b: EntryView) -> bool {
    a.timestamp > b.timestamp || (a.timestamp == b.timestamp && a.id > b.id)
}

pub open spec fn newest_first(s: Seq<EntryView>) -> bool {
    forall|i: int, j: int| 0 <= i < j < s.len() ==> newer(#[trigger] s[i], #[trigger] s[j])
}

pub open spec fn ids_distinct(s: Seq<EntryView>) -> bool {
    forall|i: int, j: int|
        0 <= i < s.len() && 0 <= j < s.len() && i != j ==> #[trigger] s[i].id != #[trigger] s[j].id
}

pub open spec fn hashes_distinct(s: Seq<EntryView>) -> bool {
    forall|i: int, j: int|
        0 <= i < s.len() && 0 <= j < s.len() && i != j ==> #[trigger] s[i].hash != #[trigger] s[j].hash
}

/// The history as values: its records, newest first, and the last
/// identifier it handed out.
pub struct HistoryView {
    pub entries: Seq<EntryView>,
    pub last_id: i64,
}

/// The invariant of a history.
pub open spec fn history_valid(v: HistoryView) -> bool {
    &&& newest_first(v.entries)
    &&& ids_distinct(v.entries)
    &&& hashes_distinct(v.entries)
    &&& forall|i: int| 0 <= i < v.entries.len() ==> #[trigger] v.entries[i].id <= v.last_id
}

/// Index at which `e` belongs in the newest-first sequence `s`: after every
/// record newer than it.
pub open spec fn position(s: Seq<EntryView>, e: EntryView) -> nat
    decreases s.len(),
{
    if s.len() == 0 {
        0
    } else if newer(s[0], e) {
        1 + position(s.drop_first(), e)
    } else {
        0
    }
}

/// `s` with `e` inserted at its place.
pub open spec fn place(s: Seq<EntryView>, e: EntryView) -> Seq<EntryView> {
    s.insert(position(s, e) as int, e)
}

pub open spec fn has_hash(s: Seq<EntryView>, h: Seq<char>) -> bool {
    exists|i: int| 0 <= i < s.len() && #[trigger] s[i].hash == h
}

pub open spec fn hash_index(s: Seq<EntryView>, h: Seq<char>) -> int {
    choose|i: int| 0 <= i < s.len() && #[trigger] s[i].hash == h
}

pub open spec fn has_id(s: Seq<EntryView>, id: i64) -> bool {
    exists|i: int| 0 <= i < s.len() && #[trigger] s[i].id == id
}

pub open spec fn id_index(s: Seq<EntryView>, id: i64) -> int {
    choose|i: int| 0 <= i < s.len() && #[trigger] s[i].id == id
}

/// `e` copied again at time `now`.
pub open spec fn retimed(e: EntryView, now: i64) -> EntryView {
    EntryView { timestamp: now, ..e }
}

/// The record that storing `data` under `mime` and `hash` at `now` creates.
pub open spec fn fresh_entry(id: i64, now: i64, mime: Seq<char>, data: Seq<u8>, hash: Seq<char>) -> EntryView {
    EntryView {
        id,
        timestamp: now,
        mime,
        size: data.len() as usize,
        preview: if previewed_mime(mime) { Some(preview_of(data)) } else { None },
        inline: !cached_mime(mime),
        hash,
    }
}

/// The records that stay: the `MAX_HISTORY` first.
pub open spec fn kept(s: Seq<EntryView>) -> Seq<EntryView> {
    if s.len() > MAX_HISTORY { s.take(MAX_HISTORY as int) } else { s }
}

/// The records that an insertion evicts: those after the `MAX_HISTORY` first.
pub open spec fn evicted(s: Seq<EntryView>) -> Seq<EntryView> {
    if s.len() > MAX_HISTORY { s.skip(MAX_HISTORY as int) } else { Seq::empty() }
}

/// Content that the store ignores: empty, or of a private MIME type.
pub open spec fn ignored_input(mime: Seq<char>, data: Seq<u8>) -> bool {
    data.len() == 0 || sensitive_mime(mime)
}

/// The records after storing new content, before eviction: the record with
/// the same hash is moved to time `now`, or a fresh record is added.
pub open spec fn staged(v: HistoryView, mime: Seq<char>, data: Seq<u8>, hash: Seq<char>, now: i64) -> Seq<EntryView> {
    if has_hash(v.entries, hash) {
        let i = hash_index(v.entries, hash);
        place(v.entries.remove(i), retimed(v.entries[i], now))
    } else {
        place(v.entries, fresh_entry((v.last_id + 1) as i64, now, mime, data, hash))
    }
}

/// The history after storing `data` under `mime` and `hash` at `now`.
pub open spec fn after_insert(v: HistoryView, mime: Seq<char>, data: Seq<u8>, hash: Seq<char>, now: i64) -> HistoryView {
    if ignored_input(mime, data) {
        v
    } else {
        HistoryView {
            entries: kept(staged(v, mime, data, hash, now)),
            last_id: if has_hash(v.entries, hash) { v.last_id } else { (v.last_id + 1) as i64 },
        }
    }
}

/// The records that storing `data` evicts.
pub open spec fn evicted_by_insert(v: HistoryView, mime: Seq<char>, data: Seq<u8>, hash: Seq<char>, now: i64) -> Seq<EntryView> {
    if ignored_input(mime, data) { Seq::empty() } else { evicted(staged(v, mime, data, hash, now)) }
}

/// Storing new content needs an identifier that is no longer available.
pub open spec fn ids_exhausted(v: HistoryView, mime: Seq<char>, data: Seq<u8>, hash: Seq<char>) -> bool {
    !ignored_input(mime, data) && !has_hash(v.entries, hash) && v.last_id == i64::MAX
}

/// What an insertion did with the content.
pub enum InsertOutcome {
    /// Empty or private content: nothing changed.
    Ignored,
    /// Content already stored: its record was moved to the new time.
    Refreshed { id: i64 },
    /// New content: a record with this identifier was added.
    Added { id: i64 },
}

/// The first `n` records of `s` (all of them when there are fewer).
pub open spec fn first_entries(s: Seq<EntryView>, n: nat) -> Seq<EntryView> {
    if s.len() <= n { s } else { s.take(n as int) }
}

/// The largest of `floor` and the identifiers in `s`.
pub open spec fn max_id_from(s: Seq<EntryView>, floor: i64) -> i64
    decreases s.len(),
{
    if s.len() == 0 {
        floor
    } else {
        let m = max_id_from(s.drop_last(), floor);
        if s.last().id > m { s.last().id } else { m }
    }
}

/// The history after the record `id` was copied again at `now`.
pub open spec fn after_refresh(v: HistoryView, id: i64, now: i64) -> HistoryView {
    if has_id(v.entries, id) {
        let i = id_index(v.entries, id);
        HistoryView { entries: place(v.entries.remove(i), retimed(v.entries[i], now)), last_id: v.last_id }
    } else {
        v
    }
}

/// The history after the record `id` was deleted.
pub open spec fn after_delete(v: HistoryView, id: i64) -> HistoryView {
    if has_id(v.entries, id) {
        HistoryView { entries: v.entries.remove(id_index(v.entries, id)), last_id: v.last_id }
    } else {
        v
    }
}

/// The outcome of an insertion and what the caller must mirror outside the
/// history.
pub struct InsertReport {
    pub outcome: InsertOutcome,
    /// The content belongs in the cache file named after its hash.
    pub cache_content: bool,
    /// The records that were evicted, newest first.
    pub evicted: Vec<Entry>,
}

pub open spec fn insert_outcome(v: HistoryView, mime: Seq<char>, data: Seq<u8>, hash: Seq<char>) -> InsertOutcome {
    if ignored_input(mime, data) {
        InsertOutcome::Ignored
    } else if has_hash(v.entries, hash) {
        InsertOutcome::Refreshed { id: v.entries[hash_index(v.entries, hash)].id }
    } else {
        InsertOutcome::Added { id: (v.last_id + 1) as i64 }
    }
}

/// Where the content of a record is kept.
pub enum ContentLocation {
    /// In the database, beside the record.
    Inline,
    /// In the cache file of this name.
    CacheFile { name: String },
}

/// Errors of the history.
pub enum HistoryError {
    /// Every identifier has been handed out.
    IdsExhausted,
}

/// The clipboard history.
pub struct ClipboardHistory {
    entries: Vec<Entry>,
    last_id: i64,
}

impl View for ClipboardHistory {
    type V = HistoryView;

    closed spec fn view(&self) -> HistoryView {
        HistoryView { entries: view_seq(self.entries@), last_id: self.last_id }
    }
}

// ---------------------------------------------------------------------------
// Lemmas on the order of records.

/// `position` is the first index whose record is not newer than `e`.
proof fn lemma_position(s: Seq<EntryView>, e: EntryView)
    ensures
        position(s, e) <= s.len(),
        forall|k: int| 0 <= k < position(s, e) ==> newer(#[trigger] s[k], e),
        position(s, e) < s.len() ==> !newer(s[position(s, e) as int], e),
    decreases s.len(),
{
    if s.len() > 0 && newer(s[0], e) {
        lemma_position(s.drop_first(), e);
        assert forall|k: int| 0 <= k < position(s, e) implies newer(#[trigger] s[k], e) by {
            if k > 0 {
                assert(s[k] == s.drop_first()[k - 1]);
            }
        }
    }
}

/// A scan that stops at the first record not newer than `e` finds `position`.
proof fn lemma_position_is(s: Seq<EntryView>, e: EntryView, p: int)
    requires
        0 <= p <= s.len(),
        forall|k: int| 0 <= k < p ==> newer(#[trigger] s[k], e),
        p < s.len() ==> !newer(s[p], e),
    ensures
        position(s, e) == p,
    decreases p,
{
    if p > 0 {
        assert(newer(s[0], e));
        assert forall|k: int| 0 <= k < p - 1 implies newer(#[trigger] s.drop_first()[k], e) by {
            assert(s.drop_first()[k] == s[k + 1]);
        }
        lemma_position_is(s.drop_first(), e, p - 1);
    }
}

/// Placing a record whose identifier is new keeps the order and the
/// distinctness of identifiers.
proof fn lemma_place(s: Seq<EntryView>, e: EntryView)
    requires
        newest_first(s),
        ids_distinct(s),
        forall|k: int| 0 <= k < s.len() ==> #[trigger] s[k].id != e.id,
    ensures
        newest_first(place(s, e)),
        ids_distinct(place(s, e)),
        place(s, e).len() == s.len() + 1,
        place(s, e)[position(s, e) as int] == e,
        forall|k: int| 0 <= k < place(s, e).len() ==> (#[trigger] place(s, e)[k] == e || s.contains(place(s, e)[k])),
        forall|k: int| 0 <= k < s.len() ==> place(s, e).contains(#[trigger] s[k]),
{
    lemma_position(s, e);
    let p = position(s, e) as int;
    let t = place(s, e);
    assert forall|k: int| p <= k < s.len() implies newer(e, #[trigger] s[k]) by {
        assert(!newer(s[p], e));
        assert(s[p].id != e.id);
        if k > p {
            assert(newer(s[p], s[k]));
        }
    }
    assert forall|i: int, j: int| 0 <= i < j < t.len() implies newer(#[trigger] t[i], #[trigger] t[j]) by {
        if i < p && j < p {
            assert(t[i] == s[i] && t[j] == s[j]);
        } else if i < p && j == p {
        } else if i < p {
            assert(t[i] == s[i] && t[j] == s[j - 1]);
        } else if i == p {
            assert(t[j] == s[j - 1]);
        } else {
            assert(t[i] == s[i - 1] && t[j] == s[j - 1]);
        }
    }
    assert forall|i: int, j: int| 0 <= i < t.len() && 0 <= j < t.len() && i != j implies #[trigger] t[i].id != #[trigger] t[j].id by {
        if i != p && j != p {
            let a = if i < p { i } else { i - 1 };
            let b = if j < p { j } else { j - 1 };
            assert(t[i] == s[a] && t[j] == s[b]);
        } else if i == p {
            let b = if j < p { j } else { j - 1 };
            assert(t[j] == s[b]);
        } else {
            let a = if i < p { i } else { i - 1 };
            assert(t[i] == s[a]);
        }
    }
    assert forall|k: int| 0 <= k < t.len() implies (#[trigger] t[k] == e || s.contains(t[k])) by {
        if k < p {
            assert(t[k] == s[k]);
        } else if k > p {
            assert(t[k] == s[k - 1]);
        }
    }
    assert forall|k: int| 0 <= k < s.len() implies t.contains(#[trigger] s[k]) by {
        if k < p {
            assert(t[k] == s[k]);
        } else {
            assert(t[k + 1] == s[k]);
        }
    }
}

/// Removing a record keeps the order and distinctness.
proof fn lemma_remove(s: Seq<EntryView>, i: int)
    requires
        0 <= i < s.len(),
        newest_first(s),
        ids_distinct(s),
        hashes_distinct(s),
    ensures
        newest_first(s.remove(i)),
        ids_distinct(s.remove(i)),
        hashes_distinct(s.remove(i)),
        forall|k: int| 0 <= k < s.remove(i).len() ==> #[trigger] s.remove(i)[k].id != s[i].id,
        forall|k: int| 0 <= k < s.remove(i).len() ==> #[trigger] s.remove(i)[k].hash != s[i].hash,
        forall|k: int| 0 <= k < s.remove(i).len() ==> s.contains(#[trigger] s.remove(i)[k]),
{
    let t = s.remove(i);
    assert forall|a: int, b: int| 0 <= a < b < t.len() implies newer(#[trigger] t[a], #[trigger] t[b]) by {
        let x = if a < i { a } else { a + 1 };
        let y = if b < i { b } else { b + 1 };
        assert(t[a] == s[x] && t[b] == s[y]);
    }
    assert forall|a: int, b: int| 0 <= a < t.len() && 0 <= b < t.len() && a != b implies #[trigger] t[a].id != #[trigger] t[b].id by {
        let x = if a < i { a } else { a + 1 };
        let y = if b < i { b } else { b + 1 };
        assert(t[a] == s[x] && t[b] == s[y]);
    }
    assert forall|a: int, b: int| 0 <= a < t.len() && 0 <= b < t.len() && a != b implies #[trigger] t[a].hash != #[trigger] t[b].hash by {
        let x = if a < i { a } else { a + 1 };
        let y = if b < i { b } else { b + 1 };
        assert(t[a] == s[x] && t[b] == s[y]);
    }
    assert forall|k: int| 0 <= k < t.len() implies #[trigger] t[k].id != s[i].id && t[k].hash != s[i].hash && s.contains(t[k]) by {
        let x = if k < i { k } else { k + 1 };
        assert(t[k] == s[x]);
    }
}

/// With distinct hashes, the record found with a hash is the one `hash_index`
/// names.
proof fn lemma_hash_index(s: Seq<EntryView>, h: Seq<char>, i: int)
    requires
        hashes_distinct(s),
        0 <= i < s.len(),
        s[i].hash == h,
    ensures
        has_hash(s, h),
        hash_index(s, h) == i,
{
    assert(has_hash(s, h));
    let j = hash_index(s, h);
    assert(s[j].hash == h);
}

/// With distinct identifiers, the record found with an identifier is the one
/// `id_index` names.
proof fn lemma_id_index(s: Seq<EntryView>, id: i64, i: int)
    requires
        ids_distinct(s),
        0 <= i < s.len(),
        s[i].id == id,
    ensures
        has_id(s, id),
        id_index(s, id) == i,
{
    assert(has_id(s, id));
    let j = id_index(s, id);
    assert(s[j].id == id);
}

/// What stays of a valid sequence of records is valid.
proof fn lemma_kept_valid(s: Seq<EntryView>, last_id: i64)
    requires
        history_valid(HistoryView { entries: s, last_id }),
    ensures
        history_valid(HistoryView { entries: kept(s), last_id }),
        kept(s).len() <= s.len(),
        s.len() <= MAX_HISTORY ==> kept(s) == s,
        kept(s) + evicted(s) == s,
{
    let t = kept(s);
    if s.len() > MAX_HISTORY {
        assert forall|i: int, j: int| 0 <= i < j < t.len() implies newer(#[trigger] t[i], #[trigger] t[j]) by {
            assert(t[i] == s[i] && t[j] == s[j]);
        }
        assert forall|i: int, j: int| 0 <= i < t.len() && 0 <= j < t.len() && i != j implies #[trigger] t[i].id != #[trigger] t[j].id by {
            assert(t[i] == s[i] && t[j] == s[j]);
        }
        assert forall|i: int, j: int| 0 <= i < t.len() && 0 <= j < t.len() && i != j implies #[trigger] t[i].hash != #[trigger] t[j].hash by {
            assert(t[i] == s[i] && t[j] == s[j]);
        }
        assert forall|i: int| 0 <= i < t.len() implies #[trigger] t[i].id <= last_id by {
            assert(t[i] == s[i]);
        }
        assert(kept(s) + evicted(s) =~= s);
    } else {
        assert(kept(s) + evicted(s) =~= s);
    }
}

/// Placing a record whose hash is new keeps hashes distinct.
proof fn lemma_place_hashes(s: Seq<EntryView>, e: EntryView)
    requires
        hashes_distinct(s),
        forall|k: int| 0 <= k < s.len() ==> #[trigger] s[k].hash != e.hash,
    ensures
        hashes_distinct(place(s, e)),
{
    lemma_position(s, e);
    let p = position(s, e) as int;
    let t = place(s, e);
    assert forall|i: int, j: int| 0 <= i < t.len() && 0 <= j < t.len() && i != j implies #[trigger] t[i].hash != #[trigger] t[j].hash by {
        if i != p && j != p {
            let a = if i < p { i } else { i - 1 };
            let b = if j < p { j } else { j - 1 };
            assert(t[i] == s[a] && t[j] == s[b]);
        } else if i == p {
            let b = if j < p { j } else { j - 1 };
            assert(t[j] == s[b]);
        } else {
            let a = if i < p { i } else { i - 1 };
            assert(t[i] == s[a]);
        }
    }
}

/// The records staged by an insertion form a valid history.
proof fn lemma_staged_valid(v: HistoryView, mime: Seq<char>, data: Seq<u8>, hash: Seq<char>, now: i64)
    requires
        history_valid(v),
        !ignored_input(mime, data),
        !ids_exhausted(v, mime, data, hash),
    ensures
        history_valid(HistoryView { entries: staged(v, mime, data, hash, now), last_id: after_insert(v, mime, data, hash, now).last_id }),
        history_valid(after_insert(v, mime, data, hash, now)),
        newest_first(staged(v, mime, data, hash, now)),
{
    let s = v.entries;
    let st = staged(v, mime, data, hash, now);
    let last = after_insert(v, mime, data, hash, now).last_id;
    if has_hash(s, hash) {
        let i = hash_index(s, hash);
        lemma_remove(s, i);
        let e = retimed(s[i], now);
        lemma_place(s.remove(i), e);
        lemma_place_hashes(s.remove(i), e);
        assert forall|k: int| 0 <= k < st.len() implies #[trigger] st[k].id <= last by {
            if st[k] != e {
                let j = choose|j: int| 0 <= j < s.remove(i).len() && s.remove(i)[j] == st[k];
                assert(s.contains(s.remove(i)[j]));
            }
        }
    } else {
        let e = fresh_entry((v.last_id + 1) as i64, now, mime, data, hash);
        assert forall|k: int| 0 <= k < s.len() implies #[trigger] s[k].id != e.id by {
            assert(s[k].id <= v.last_id);
        }
        assert forall|k: int| 0 <= k < s.len() implies #[trigger] s[k].hash != e.hash by {
            if s[k].hash == e.hash {
                assert(has_hash(s, hash));
            }
        }
        lemma_place(s, e);
        lemma_place_hashes(s, e);
        assert forall|k: int| 0 <= k < st.len() implies #[trigger] st[k].id <= last by {
            if st[k] != e {
                let j = choose|j: int| 0 <= j < s.len() && s[j] == st[k];
                assert(s[j].id <= v.last_id);
            }
        }
    }
    lemma_kept_valid(st, last);
}

impl Entry {
    /// A copy of the record.
    pub fn duplicate(&self) -> (r: Entry)
        ensures
            r@ == self@,
    {
        let preview = match &self.preview {
            Some(p) => Some(p.clone()),
            None => None,
        };
        Entry {
            id: self.id,
            timestamp: self.timestamp,
            mime: self.mime.clone(),
            size: self.size,
            preview,
            inline: self.inline,
            hash: self.hash.clone(),
        }
    }
}

impl ClipboardHistory {
    /// The invariant of the history.
    pub open spec fn well_formed(&self) -> bool {
        history_valid(self@)
    }

    proof fn lemma_view_entry(&self, i: int)
        requires
            0 <= i < self.entries@.len(),
        ensures
            self@.entries[i] == self.entries@[i]@,
            self@.entries.len() == self.entries@.len(),
    {
    }

    /// An empty history.
    pub fn new() -> (h: ClipboardHistory)
        ensures
            h.well_formed(),
            h@.entries == Seq::<EntryView>::empty(),
            h@.last_id == 0,
    {
        let h = ClipboardHistory { entries: Vec::new(), last_id: 0 };
        assert(h@.entries =~= Seq::<EntryView>::empty());
        h
    }

    /// Number of records (`get_total_count`).
    pub fn get_total_count(&self) -> (n: usize)
        ensures
            n == self@.entries.len(),
    {
        self.entries.len()
    }

    /// The last identifier handed out.
    pub fn last_id(&self) -> (id: i64)
        ensures
            id == self@.last_id,
    {
        self.last_id
    }

    /// Index of the record with this hash.
    fn find_hash(&self, hash: &str) -> (r: Option<usize>)
        requires
            self.well_formed(),
        ensures
            match r {
                Some(i) => i < self@.entries.len() && has_hash(self@.entries, hash@)
                    && hash_index(self@.entries, hash@) == i,
                None => !has_hash(self@.entries, hash@),
            },
    {
        let mut i: usize = 0;
        while i < self.entries.len()
            invariant
                self.well_formed(),
                i <= self.entries@.len(),
                forall|k: int| 0 <= k < i ==> #[trigger] self@.entries[k].hash != hash@,
            decreases self.entries@.len() - i,
        {
            proof { self.lemma_view_entry(i as int); }
            if str_eq(self.entries[i].hash.as_str(), hash) {
                proof { lemma_hash_index(self@.entries, hash@, i as int); }
                return Some(i);
            }
            i = i + 1;
        }
        None
    }

    /// Index of the record with this identifier.
    fn find_id(&self, id: i64) -> (r: Option<usize>)
        requires
            self.well_formed(),
        ensures
            match r {
                Some(i) => i < self@.entries.len() && has_id(self@.entries, id)
                    && id_index(self@.entries, id) == i,
                None => !has_id(self@.entries, id),
            },
    {
        let mut i: usize = 0;
        while i < self.entries.len()
            invariant
                self.well_formed(),
                i <= self.entries@.len(),
                forall|k: int| 0 <= k < i ==> #[trigger] self@.entries[k].id != id,
            decreases self.entries@.len() - i,
        {
            proof { self.lemma_view_entry(i as int); }
            if self.entries[i].id == id {
                proof { lemma_id_index(self@.entries, id, i as int); }
                return Some(i);
            }
            i = i + 1;
        }
        None
    }

    /// Inserts `e` at its place.
    fn place_entry(&mut self, e: Entry)
        requires
            newest_first(old(self)@.entries),
            ids_distinct(old(self)@.entries),
            forall|k: int| 0 <= k < old(self)@.entries.len() ==> #[trigger] old(self)@.entries[k].id != e.id,
        ensures
            final(self)@.entries == place(old(self)@.entries, e@),
            final(self)@.last_id == old(self)@.last_id,
    {
        let ghost s = self@.entries;
        let mut p: usize = 0;
        while p < self.entries.len()
            invariant
                s == self@.entries,
                p <= self.entries@.len(),
                forall|k: int| 0 <= k < p ==> newer(#[trigger] s[k], e@),
            ensures
                s == self@.entries,
                p <= s.len(),
                forall|k: int| 0 <= k < p ==> newer(#[trigger] s[k], e@),
                p < s.len() ==> !newer(s[p as int], e@),
            decreases self.entries@.len() - p,
        {
            proof { self.lemma_view_entry(p as int); }
            let x = &self.entries[p];
            let is_newer = x.timestamp > e.timestamp || (x.timestamp == e.timestamp && x.id > e.id);
            if !is_newer {
                break;
            }
            p = p + 1;
        }
        proof {
            lemma_position_is(s, e@, p as int);
        }
        let ghost ev = e@;
        self.entries.insert(p, e);
        assert(self@.entries =~= place(s, ev));
    }

    /// Removes the records beyond the first `MAX_HISTORY` and returns them.
    fn evict_overflow(&mut self) -> (out: Vec<Entry>)
        ensures
            final(self)@.entries == kept(old(self)@.entries),
            final(self)@.last_id == old(self)@.last_id,
            view_seq(out@) == evicted(old(self)@.entries),
    {
        if self.entries.len() > MAX_HISTORY {
            let ghost s = self@.entries;
            let out = self.entries.split_off(MAX_HISTORY);
            assert(self@.entries =~= kept(s));
            assert(view_seq(out@) =~= evicted(s));
            out
        } else {
            let out = Vec::new();
            assert(view_seq(out@) =~= evicted(self@.entries));
            out
        }
    }
    /// Stores `data`, copied at time `now` under `mime`, whose content hash
    /// is `hash` (`insert_with_hash`).
    ///
    /// Empty or private content is ignored. Content whose hash is stored
    /// already moves its record to `now`; new content gets a fresh record
    /// with the next identifier, a preview when it is textual, and its bytes
    /// kept in the cache when it is an image. Afterwards only the
    /// `MAX_HISTORY` newest records stay; the others are returned.
    pub fn insert_with_hash(&mut self, mime: &str, data: &[u8], hash: &str, now: i64) -> (r: Result<InsertReport, HistoryError>)
        requires
            old(self).well_formed(),
        ensures
            final(self).well_formed(),
            match r {
                Ok(rep) => {
                    &&& !ids_exhausted(old(self)@, mime@, data@, hash@)
                    &&& final(self)@ == after_insert(old(self)@, mime@, data@, hash@, now)
                    &&& rep.outcome == insert_outcome(old(self)@, mime@, data@, hash@)
                    &&& rep.cache_content == (!ignored_input(mime@, data@) && cached_mime(mime@))
                    &&& view_seq(rep.evicted@) == evicted_by_insert(old(self)@, mime@, data@, hash@, now)
                },
                Err(HistoryError::IdsExhausted) => {
                    &&& ids_exhausted(old(self)@, mime@, data@, hash@)
                    &&& final(self)@ == old(self)@
                },
            },
    {
        if data.len() == 0 || is_sensitive_mime(mime) {
            let rep = InsertReport { outcome: InsertOutcome::Ignored, cache_content: false, evicted: Vec::new() };
            assert(view_seq(rep.evicted@) =~= Seq::<EntryView>::empty());
            return Ok(rep);
        }
        let cache_content = is_cached_mime(mime);
        let ghost v = self@;
        let outcome;
        match self.find_hash(hash) {
            Some(i) => {
                proof {
                    self.lemma_view_entry(i as int);
                    lemma_remove(v.entries, i as int);
                }
                let mut e = self.entries.remove(i);
                assert(self@.entries =~= v.entries.remove(i as int));
                e.timestamp = now;
                let id = e.id;
                assert(e@ == retimed(v.entries[i as int], now));
                self.place_entry(e);
                outcome = InsertOutcome::Refreshed { id };
            },
            None => {
                if self.last_id == i64::MAX {
                    return Err(HistoryError::IdsExhausted);
                }
                let id = self.last_id + 1;
                let preview = if is_previewed_mime(mime) {
                    Some(make_preview(data))
                } else {
                    None
                };
                let e = Entry {
                    id,
                    timestamp: now,
                    mime: mime.to_owned(),
                    size: data.len(),
                    preview,
                    inline: !cache_content,
                    hash: hash.to_owned(),
                };
                assert(e@ == fresh_entry(id, now, mime@, data@, hash@));
                proof {
                    assert forall|k: int| 0 <= k < v.entries.len() implies #[trigger] v.entries[k].id != id by {
                        assert(v.entries[k].id <= v.last_id);
                    }
                }
                self.place_entry(e);
                self.last_id = id;
                outcome = InsertOutcome::Added { id };
            },
        }
        proof { lemma_staged_valid(v, mime@, data@, hash@, now); }
        assert(self@.entries == staged(v, mime@, data@, hash@, now));
        let evicted = self.evict_overflow();
        Ok(InsertReport { outcome, cache_content, evicted })
    }
    /// The `limit` newest records (`fetch_metadata`), newest first.
    pub fn fetch_metadata(&self, limit: usize) -> (r: Vec<Entry>)
        ensures
            view_seq(r@) == first_entries(self@.entries, limit as nat),
    {
        let n = if self.entries.len() < limit { self.entries.len() } else { limit };
        let mut r: Vec<Entry> = Vec::new();
        let mut i: usize = 0;
        while i < n
            invariant
                n <= self.entries@.len(),
                n == first_entries(self@.entries, limit as nat).len(),
                i <= n,
                view_seq(r@) == self@.entries.take(i as int),
            decreases n - i,
        {
            proof { self.lemma_view_entry(i as int); }
            let d = self.entries[i].duplicate();
            assert(d@ == self@.entries[i as int]);
            let ghost before = r@;
            r.push(d);
            assert(r@ == before.push(d));
            assert(view_seq(r@) =~= view_seq(before).push(d@));
            assert(view_seq(r@) =~= self@.entries.take(i + 1));
            i = i + 1;
        }
        assert(view_seq(r@) =~= first_entries(self@.entries, limit as nat));
        r
    }

    /// The newest record.
    pub fn latest(&self) -> (r: Option<&Entry>)
        ensures
            match r {
                Some(e) => self@.entries.len() > 0 && e@ == self@.entries[0],
                None => self@.entries.len() == 0,
            },
    {
        if self.entries.len() == 0 {
            None
        } else {
            proof { self.lemma_view_entry(0); }
            Some(&self.entries[0])
        }
    }

    /// The record with this identifier.
    pub fn find_by_id(&self, id: i64) -> (r: Option<&Entry>)
        requires
            self.well_formed(),
        ensures
            match r {
                Some(e) => has_id(self@.entries, id) && e@ == self@.entries[id_index(self@.entries, id)],
                None => !has_id(self@.entries, id),
            },
    {
        match self.find_id(id) {
            Some(i) => {
                proof { self.lemma_view_entry(i as int); }
                Some(&self.entries[i])
            },
            None => None,
        }
    }

    /// Moves the record `id` to time `now` (`update_timestamp`); returns
    /// whether such a record exists.
    pub fn update_timestamp(&mut self, id: i64, now: i64) -> (found: bool)
        requires
            old(self).well_formed(),
        ensures
            final(self).well_formed(),
            found == has_id(old(self)@.entries, id),
            final(self)@ == after_refresh(old(self)@, id, now),
    {
        let ghost v = self@;
        match self.find_id(id) {
            Some(i) => {
                proof {
                    self.lemma_view_entry(i as int);
                    lemma_remove(v.entries, i as int);
                }
                let mut e = self.entries.remove(i);
                assert(self@.entries =~= v.entries.remove(i as int));
                e.timestamp = now;
                assert(e@ == retimed(v.entries[i as int], now));
                let ghost ev = e@;
                self.place_entry(e);
                proof {
                    let s = v.entries;
                    let t = self@.entries;
                    lemma_place(s.remove(i as int), ev);
                    lemma_place_hashes(s.remove(i as int), ev);
                    assert forall|k: int| 0 <= k < t.len() implies #[trigger] t[k].id <= v.last_id by {
                        if t[k] != ev {
                            let j = choose|j: int| 0 <= j < s.remove(i as int).len() && s.remove(i as int)[j] == t[k];
                            assert(s.contains(s.remove(i as int)[j]));
                        }
                    }
                }
                true
            },
            None => false,
        }
    }

    /// Deletes the record `id` (`delete_by_id`) and returns it.
    pub fn delete_by_id(&mut self, id: i64) -> (r: Option<Entry>)
        requires
            old(self).well_formed(),
        ensures
            final(self).well_formed(),
            final(self)@ == after_delete(old(self)@, id),
            match r {
                Some(e) => has_id(old(self)@.entries, id) && e@ == old(self)@.entries[id_index(old(self)@.entries, id)],
                None => !has_id(old(self)@.entries, id),
            },
    {
        let ghost v = self@;
        match self.find_id(id) {
            Some(i) => {
                proof {
                    self.lemma_view_entry(i as int);
                    lemma_remove(v.entries, i as int);
                }
                let e = self.entries.remove(i);
                assert(self@.entries =~= v.entries.remove(i as int));
                proof {
                    let t = self@.entries;
                    assert forall|k: int| 0 <= k < t.len() implies #[trigger] t[k].id <= v.last_id by {
                        assert(v.entries.contains(t[k]));
                    }
                }
                Some(e)
            },
            None => None,
        }
    }

    /// Removes every record (`wipe`). Identifiers are not reused afterwards.
    pub fn wipe(&mut self)
        ensures
            final(self).well_formed(),
            final(self)@.entries == Seq::<EntryView>::empty(),
            final(self)@.last_id == old(self)@.last_id,
    {
        self.entries.clear();
        assert(self@.entries =~= Seq::<EntryView>::empty());
    }

    /// Builds the history from stored records, in any order, and the last
    /// identifier the store handed out. Fails when two records share an
    /// identifier or a hash.
    pub fn from_rows(rows: Vec<Entry>, last_id: i64) -> (r: Option<ClipboardHistory>)
        ensures
            r is Some <==> ids_distinct(view_seq(rows@)) && hashes_distinct(view_seq(rows@)),
            match r {
                Some(h) => {
                    &&& h.well_formed()
                    &&& h@.entries.to_multiset() == view_seq(rows@).to_multiset()
                    &&& h@.last_id == max_id_from(view_seq(rows@), last_id)
                },
                None => true,
            },
    {
        broadcast use vstd::seq_lib::group_to_multiset_ensures;

        let ghost all = view_seq(rows@);
        let ghost mut done: Seq<EntryView> = Seq::empty();
        let mut pending = rows;
        let mut h = ClipboardHistory { entries: Vec::new(), last_id };
        assert(h@.entries =~= Seq::<EntryView>::empty());
        assert(all =~= done + view_seq(pending@));
        while pending.len() > 0
            invariant
                all == view_seq(rows@),
                all == done + view_seq(pending@),
                newest_first(h@.entries),
                ids_distinct(h@.entries),
                hashes_distinct(h@.entries),
                h@.entries.to_multiset() == done.to_multiset(),
                ids_distinct(done),
                hashes_distinct(done),
                h@.last_id == max_id_from(done, last_id),
                forall|k: int| 0 <= k < h@.entries.len() ==> #[trigger] h@.entries[k].id <= h@.last_id,
            decreases pending@.len(),
        {
            let ghost before = view_seq(pending@);
            let e = pending.remove(0);
            assert(before =~= seq![e@] + view_seq(pending@));
            assert(all[done.len() as int] == e@);
            let ghost k0 = done.len() as int;
            match h.find_id(e.id) {
                Some(j) => {
                    proof {
                        h.lemma_view_entry(j as int);
                        let x = h@.entries[j as int];
                        assert(h@.entries.contains(x));
                        vstd::seq_lib::to_multiset_contains(h@.entries, x);
                        vstd::seq_lib::to_multiset_contains(done, x);
                        assert(done.contains(x));
                        let a = choose|a: int| 0 <= a < done.len() && done[a] == x;
                        assert(all[a] == x);
                        assert(h@.entries[id_index(h@.entries, e.id)].id == e.id);
                        assert(all[a].id == all[k0].id);
                        assert(!ids_distinct(all));
                    }
                    return None;
                },
                None => {},
            }
            match h.find_hash(e.hash.as_str()) {
                Some(j) => {
                    proof {
                        h.lemma_view_entry(j as int);
                        let x = h@.entries[j as int];
                        assert(h@.entries.contains(x));
                        vstd::seq_lib::to_multiset_contains(h@.entries, x);
                        vstd::seq_lib::to_multiset_contains(done, x);
                        assert(done.contains(x));
                        let a = choose|a: int| 0 <= a < done.len() && done[a] == x;
                        assert(all[a] == x);
                        assert(h@.entries[hash_index(h@.entries, e.hash@)].hash == e.hash@);
                        assert(all[a].hash == all[k0].hash);
                        assert(!hashes_distinct(all));
                    }
                    return None;
                },
                None => {},
            }
            let ghost ev = e@;
            proof {
                assert forall|k: int| 0 <= k < h@.entries.len() implies #[trigger] h@.entries[k].id != ev.id by {
                    if h@.entries[k].id == ev.id {
                        assert(has_id(h@.entries, ev.id));
                    }
                }
                assert forall|k: int| 0 <= k < h@.entries.len() implies #[trigger] h@.entries[k].hash != ev.hash by {
                    if h@.entries[k].hash == ev.hash {
                        assert(has_hash(h@.entries, ev.hash));
                    }
                }
                assert forall|k: int| 0 <= k < done.len() implies #[trigger] done[k] != ev && done[k].id != ev.id && done[k].hash != ev.hash by {
                    let x = done[k];
                    assert(done.contains(x));
                    vstd::seq_lib::to_multiset_contains(h@.entries, x);
                    vstd::seq_lib::to_multiset_contains(done, x);
                    assert(h@.entries.contains(x));
                    let j = choose|j: int| 0 <= j < h@.entries.len() && h@.entries[j] == x;
                    assert(h@.entries[j].id != ev.id);
                    assert(h@.entries[j].hash != ev.hash);
                }
                lemma_place(h@.entries, ev);
                lemma_place_hashes(h@.entries, ev);
            }
            let ghost old_h = h@.entries;
            let ghost old_last = h@.last_id;
            let id = e.id;
            h.place_entry(e);
            if id > h.last_id {
                h.last_id = id;
            }
            proof {
                let nd = done.push(ev);
                assert(nd.drop_last() =~= done);
                assert forall|a: int, b: int| 0 <= a < nd.len() && 0 <= b < nd.len() && a != b implies #[trigger] nd[a].id != #[trigger] nd[b].id by {
                    if a < done.len() && b < done.len() {
                        assert(nd[a] == done[a] && nd[b] == done[b]);
                    } else if a < done.len() {
                        assert(nd[a] == done[a]);
                    } else {
                        assert(nd[b] == done[b]);
                    }
                }
                assert forall|a: int, b: int| 0 <= a < nd.len() && 0 <= b < nd.len() && a != b implies #[trigger] nd[a].hash != #[trigger] nd[b].hash by {
                    if a < done.len() && b < done.len() {
                        assert(nd[a] == done[a] && nd[b] == done[b]);
                    } else if a < done.len() {
                        assert(nd[a] == done[a]);
                    } else {
                        assert(nd[b] == done[b]);
                    }
                }
                lemma_position(old_h, ev);
                vstd::seq_lib::to_multiset_insert(old_h, position(old_h, ev) as int, ev);
                vstd::seq_lib::to_multiset_build(done, ev);
                assert forall|k: int| 0 <= k < h@.entries.len() implies #[trigger] h@.entries[k].id <= h@.last_id by {
                    if h@.entries[k] != ev {
                        let j = choose|j: int| 0 <= j < old_h.len() && old_h[j] == h@.entries[k];
                        assert(old_h[j].id <= old_last);
                    }
                }
                assert(all =~= nd + view_seq(pending@));
                done = nd;
            }
        }
        assert(done =~= all);
        Some(h)
    }

    /// Stores `data` copied at time `now` under `mime` (`insert_raw`): as
    /// `insert_with_hash` with the content's own hash.
    pub fn insert_raw(&mut self, mime: &str, data: &[u8], now: i64) -> (r: Result<InsertReport, HistoryError>)
        requires
            old(self).well_formed(),
        ensures
            final(self).well_formed(),
            match r {
                Ok(rep) => {
                    &&& !ids_exhausted(old(self)@, mime@, data@, content_hash_of(data@))
                    &&& final(self)@ == after_insert(old(self)@, mime@, data@, content_hash_of(data@), now)
                    &&& rep.outcome == insert_outcome(old(self)@, mime@, data@, content_hash_of(data@))
                    &&& rep.cache_content == (!ignored_input(mime@, data@) && cached_mime(mime@))
                    &&& view_seq(rep.evicted@) == evicted_by_insert(old(self)@, mime@, data@, content_hash_of(data@), now)
                },
                Err(HistoryError::IdsExhausted) => {
                    &&& ids_exhausted(old(self)@, mime@, data@, content_hash_of(data@))
                    &&& final(self)@ == old(self)@
                },
            },
    {
        let hash = content_hash(data);
        self.insert_with_hash(mime, data, hash.as_str(), now)
    }

    /// Where the content of record `id` is kept.
    pub fn locate_content(&self, id: i64) -> (r: Option<ContentLocation>)
        requires
            self.well_formed(),
        ensures
            match r {
                Some(ContentLocation::Inline) => has_id(self@.entries, id)
                    && self@.entries[id_index(self@.entries, id)].inline,
                Some(ContentLocation::CacheFile { name }) => has_id(self@.entries, id)
                    && !self@.entries[id_index(self@.entries, id)].inline
                    && name@ == self@.entries[id_index(self@.entries, id)].hash + ".cache"@,
                None => !has_id(self@.entries, id),
            },
    {
        match self.find_by_id(id) {
            Some(e) => {
                if e.inline {
                    Some(ContentLocation::Inline)
                } else {
                    Some(ContentLocation::CacheFile { name: cache_file_name(e.hash.as_str()) })
                }
            },
            None => None,
        }
    }
}

} // verus!

verus! {

// ---------------------------------------------------------------------------
// Laws of the history.

/// Storing content that is not ignored leaves at most `MAX_HISTORY` records:
/// as many as there were plus the new one, capped at `MAX_HISTORY`.
pub proof fn law_insert_bounds_size(v: HistoryView, mime: Seq<char>, data: Seq<u8>, hash: Seq<char>, now: i64)
    requires
        history_valid(v),
        !ignored_input(mime, data),
        !ids_exhausted(v, mime, data, hash),
    ensures
        after_insert(v, mime, data, hash, now).entries.len() <= MAX_HISTORY,
        ({
            let n = if has_hash(v.entries, hash) { v.entries.len() } else { v.entries.len() + 1 };
            after_insert(v, mime, data, hash, now).entries.len() == if n > MAX_HISTORY { MAX_HISTORY as nat } else { n }
        }),
{
    let s = v.entries;
    if has_hash(s, hash) {
        let i = hash_index(s, hash);
        lemma_remove(s, i);
        lemma_place(s.remove(i), retimed(s[i], now));
    } else {
        let e = fresh_entry((v.last_id + 1) as i64, now, mime, data, hash);
        assert forall|k: int| 0 <= k < s.len() implies #[trigger] s[k].id != e.id by {
            assert(s[k].id <= v.last_id);
        }
        lemma_place(s, e);
    }
}

/// Eviction drops the oldest records: every record that stays is newer than
/// every record that an insertion evicts.
pub proof fn law_eviction_drops_oldest(v: HistoryView, mime: Seq<char>, data: Seq<u8>, hash: Seq<char>, now: i64)
    requires
        history_valid(v),
        !ids_exhausted(v, mime, data, hash),
    ensures
        forall|a: int, b: int|
            0 <= a < after_insert(v, mime, data, hash, now).entries.len()
            && 0 <= b < evicted_by_insert(v, mime, data, hash, now).len()
            ==> newer(
                #[trigger] after_insert(v, mime, data, hash, now).entries[a],
                #[trigger] evicted_by_insert(v, mime, data, hash, now)[b],
            ),
{
    if !ignored_input(mime, data) {
        lemma_staged_valid(v, mime, data, hash, now);
        let st = staged(v, mime, data, hash, now);
        assert forall|a: int, b: int|
            0 <= a < kept(st).len() && 0 <= b < evicted(st).len()
            implies newer(#[trigger] kept(st)[a], #[trigger] evicted(st)[b]) by {
            assert(kept(st)[a] == st[a]);
            assert(evicted(st)[b] == st[b + MAX_HISTORY]);
        }
    }
}

/// An insertion loses no other record: each record with another hash either
/// stays unchanged or is among the evicted ones.
pub proof fn law_insert_keeps_other_records(v: HistoryView, mime: Seq<char>, data: Seq<u8>, hash: Seq<char>, now: i64, i: int)
    requires
        history_valid(v),
        !ids_exhausted(v, mime, data, hash),
        0 <= i < v.entries.len(),
        v.entries[i].hash != hash,
    ensures
        after_insert(v, mime, data, hash, now).entries.contains(v.entries[i])
            || evicted_by_insert(v, mime, data, hash, now).contains(v.entries[i]),
{
    if !ignored_input(mime, data) {
        let s = v.entries;
        let x = s[i];
        let st = staged(v, mime, data, hash, now);
        if has_hash(s, hash) {
            let j = hash_index(s, hash);
            lemma_remove(s, j);
            lemma_place(s.remove(j), retimed(s[j], now));
            let k = if i < j { i } else { i - 1 };
            assert(s.remove(j)[k] == x);
            assert(st.contains(x));
        } else {
            let e = fresh_entry((v.last_id + 1) as i64, now, mime, data, hash);
            assert forall|k: int| 0 <= k < s.len() implies #[trigger] s[k].id != e.id by {
                assert(s[k].id <= v.last_id);
            }
            lemma_place(s, e);
            assert(st.contains(x));
        }
        lemma_staged_valid(v, mime, data, hash, now);
        let n = choose|n: int| 0 <= n < st.len() && st[n] == x;
        if st.len() > MAX_HISTORY {
            if n < MAX_HISTORY {
                assert(kept(st)[n] == x);
            } else {
                assert(evicted(st)[n - MAX_HISTORY] == x);
            }
        } else {
            assert(kept(st)[n] == x);
        }
    }
}

/// A record that is older than `e` at the head of `s` puts `e` first.
proof fn lemma_place_first(s: Seq<EntryView>, e: EntryView)
    requires
        s.len() == 0 || !newer(s[0], e),
    ensures
        position(s, e) == 0,
        place(s, e) == seq![e] + s,
{
    assert(s.insert(0, e) =~= seq![e] + s);
}

/// When every other record is older than `now`, the stored content is the
/// newest record afterwards, with the identifier the insertion reports.
pub proof fn law_latest_after_insert(v: HistoryView, mime: Seq<char>, data: Seq<u8>, hash: Seq<char>, now: i64)
    requires
        history_valid(v),
        !ignored_input(mime, data),
        !ids_exhausted(v, mime, data, hash),
        forall|k: int| 0 <= k < v.entries.len() && #[trigger] v.entries[k].hash != hash ==> v.entries[k].timestamp < now,
    ensures
        after_insert(v, mime, data, hash, now).entries.len() > 0,
        after_insert(v, mime, data, hash, now).entries[0].hash == hash,
        after_insert(v, mime, data, hash, now).entries[0].timestamp == now,
        insert_outcome(v, mime, data, hash) == (if has_hash(v.entries, hash) {
            InsertOutcome::Refreshed { id: after_insert(v, mime, data, hash, now).entries[0].id }
        } else {
            InsertOutcome::Added { id: after_insert(v, mime, data, hash, now).entries[0].id }
        }),
{
    let s = v.entries;
    let st = staged(v, mime, data, hash, now);
    if has_hash(s, hash) {
        let i = hash_index(s, hash);
        lemma_remove(s, i);
        let r = s.remove(i);
        if r.len() > 0 {
            let k = if 0 < i { 0 } else { 1 };
            assert(r[0] == s[k]);
            assert(s[k].hash != hash);
        }
        lemma_place_first(r, retimed(s[i], now));
    } else {
        let e = fresh_entry((v.last_id + 1) as i64, now, mime, data, hash);
        if s.len() > 0 {
            assert(s[0].hash != hash);
        }
        lemma_place_first(s, e);
    }
    assert(st[0].hash == hash);
    if st.len() > MAX_HISTORY {
        assert(kept(st)[0] == st[0]);
    }
}

/// Storing the same content twice at the same time has the effect of storing
/// it once, when every other record is older: the second insertion refreshes
/// the record the first one left.
pub proof fn law_insert_twice_is_insert_once(v: HistoryView, mime: Seq<char>, data: Seq<u8>, hash: Seq<char>, now: i64)
    requires
        history_valid(v),
        !ignored_input(mime, data),
        !ids_exhausted(v, mime, data, hash),
        forall|k: int| 0 <= k < v.entries.len() && #[trigger] v.entries[k].hash != hash ==> v.entries[k].timestamp < now,
    ensures
        ({
            let w = after_insert(v, mime, data, hash, now);
            &&& !ids_exhausted(w, mime, data, hash)
            &&& after_insert(w, mime, data, hash, now) == w
            &&& evicted_by_insert(w, mime, data, hash, now).len() == 0
            &&& insert_outcome(w, mime, data, hash) == InsertOutcome::Refreshed { id: w.entries[0].id }
        }),
{
    let w = after_insert(v, mime, data, hash, now);
    law_latest_after_insert(v, mime, data, hash, now);
    law_insert_bounds_size(v, mime, data, hash, now);
    lemma_staged_valid(v, mime, data, hash, now);
    let t = w.entries;
    lemma_hash_index(t, hash, 0);
    // every record after the first keeps its old, earlier time
    assert forall|k: int| 1 <= k < t.len() implies #[trigger] t[k].timestamp < now by {
        assert(newer(t[0], t[k]));
        assert(t[k].hash != hash);
        let st = staged(v, mime, data, hash, now);
        assert(t[k] == st[k]);
        let s = v.entries;
        if has_hash(s, hash) {
            let i = hash_index(s, hash);
            lemma_remove(s, i);
            lemma_place(s.remove(i), retimed(s[i], now));
            assert(st[k] != retimed(s[i], now));
            assert(s.remove(i).contains(st[k]));
            let j = choose|j: int| 0 <= j < s.remove(i).len() && s.remove(i)[j] == st[k];
            assert(s.contains(s.remove(i)[j]));
            let m = choose|m: int| 0 <= m < s.len() && s[m] == st[k];
            assert(s[m].hash != hash);
        } else {
            let e = fresh_entry((v.last_id + 1) as i64, now, mime, data, hash);
            assert forall|q: int| 0 <= q < s.len() implies #[trigger] s[q].id != e.id by {
                assert(s[q].id <= v.last_id);
            }
            lemma_place(s, e);
            let m = choose|m: int| 0 <= m < s.len() && s[m] == st[k];
            assert(s[m].hash != hash);
        }
    }
    let r = t.remove(0);
    assert(retimed(t[0], now) == t[0]);
    if r.len() > 0 {
        assert(r[0] == t[1]);
    }
    lemma_place_first(r, t[0]);
    assert(seq![t[0]] + r =~= t);
}

/// Content that is empty or private changes nothing.
pub proof fn law_ignored_content_changes_nothing(v: HistoryView, mime: Seq<char>, data: Seq<u8>, hash: Seq<char>, now: i64)
    requires
        ignored_input(mime, data),
    ensures
        after_insert(v, mime, data, hash, now) == v,
        evicted_by_insert(v, mime, data, hash, now).len() == 0,
        insert_outcome(v, mime, data, hash) == InsertOutcome::Ignored,
{
}

/// After a deletion no record has the identifier, and every other record
/// stays.
pub proof fn law_delete_removes_only_that_record(v: HistoryView, id: i64)
    requires
        history_valid(v),
    ensures
        !has_id(after_delete(v, id).entries, id),
        after_delete(v, id).entries.len() == if has_id(v.entries, id) { v.entries.len() - 1 } else { v.entries.len() as int },
        forall|k: int| 0 <= k < v.entries.len() && #[trigger] v.entries[k].id != id
            ==> after_delete(v, id).entries.contains(v.entries[k]),
        history_valid(after_delete(v, id)),
{
    if has_id(v.entries, id) {
        let i = id_index(v.entries, id);
        lemma_remove(v.entries, i);
        let t = v.entries.remove(i);
        assert forall|k: int| 0 <= k < v.entries.len() && #[trigger] v.entries[k].id != id implies t.contains(v.entries[k]) by {
            let j = if k < i { k } else { k - 1 };
            assert(t[j] == v.entries[k]);
        }
        assert forall|k: int| 0 <= k < t.len() implies #[trigger] t[k].id <= v.last_id by {
            assert(v.entries.contains(t[k]));
        }
        if has_id(t, id) {
            let j = id_index(t, id);
            assert(t[j].id != v.entries[i].id);
        }
    } else {
        assert forall|k: int| 0 <= k < v.entries.len() && #[trigger] v.entries[k].id != id implies v.entries.contains(v.entries[k]) by {
        }
    }
}

/// Refreshing a record keeps the number of records and moves that record to
/// the new time.
pub proof fn law_refresh_keeps_records(v: HistoryView, id: i64, now: i64)
    requires
        history_valid(v),
    ensures
        after_refresh(v, id, now).entries.len() == v.entries.len(),
        has_id(v.entries, id) ==> has_id(after_refresh(v, id, now).entries, id)
            && after_refresh(v, id, now).entries[id_index(after_refresh(v, id, now).entries, id)].timestamp == now,
{
    if has_id(v.entries, id) {
        let i = id_index(v.entries, id);
        lemma_remove(v.entries, i);
        let e = retimed(v.entries[i], now);
        lemma_place(v.entries.remove(i), e);
        let t = place(v.entries.remove(i), e);
        lemma_position(v.entries.remove(i), e);
        lemma_id_index(t, id, position(v.entries.remove(i), e) as int);
    }
}

} // verus!

verus! {

/// The record that an insertion adds for new content holds that content as
/// copied: its type, hash, size and time, a preview exactly when the type
/// names text or a URI list, and its bytes in the database exactly when they
/// do not go to the cache file (an `image/` type or one naming `gif`).
pub proof fn law_added_record(v: HistoryView, mime: Seq<char>, data: Seq<u8>, hash: Seq<char>, now: i64, i: int)
    requires
        history_valid(v),
        !ignored_input(mime, data),
        !has_hash(v.entries, hash),
        v.last_id < i64::MAX,
        data.len() <= usize::MAX,
        0 <= i < after_insert(v, mime, data, hash, now).entries.len(),
        after_insert(v, mime, data, hash, now).entries[i].id == v.last_id + 1,
    ensures
        ({
            let e = after_insert(v, mime, data, hash, now).entries[i];
            &&& e.inline == !(starts_with_seq(mime, "image/"@) || contains_seq(mime, "gif"@))
            &&& e.hash == hash
            &&& e.mime == mime
            &&& e.timestamp == now
            &&& e.size == data.len()
            &&& e.preview == if contains_seq(mime, "text"@) || contains_seq(mime, "uri-list"@) {
                Some(preview_of(data))
            } else {
                None::<Seq<char>>
            }
        }),
{
    let s = v.entries;
    let e = fresh_entry((v.last_id + 1) as i64, now, mime, data, hash);
    assert forall|k: int| 0 <= k < s.len() implies #[trigger] s[k].id != e.id by {
        assert(s[k].id <= v.last_id);
    }
    lemma_place(s, e);
    let st = place(s, e);
    assert(after_insert(v, mime, data, hash, now).entries[i] == st[i]);
    if st[i] != e {
        let j = choose|j: int| 0 <= j < s.len() && s[j] == st[i];
        assert(s[j].id <= v.last_id);
    }
    assert(st[i] == e);
    assert(e.inline == !(starts_with_seq(mime, "image/"@) || contains_seq(mime, "gif"@)));
    assert(e.size == data.len());
}

} // verus!

//! Which log entries are shown.

use crate::collections::StringSet;
use crate::lines;
use crate::model::{EntryView, LevelMask, LogEntry};
use crate::split;
use crate::split::{copy_texts, nonempty_texts, split_fields};
use crate::text;
use crate::text::{chars_contain, chars_of, string_of, trim_chars};
use crate::utf8;
use std::collections::HashSet;
use vstd::prelude::*;
use vstd::std_specs::hash::*;
use vstd::utf8::*;

verus! {

broadcast use group_hash_axioms;

/// The lower case of a text, as `str::to_lowercase` gives it.
pub uninterp spec fn lowercased(s: Seq<char>) -> Seq<char>;

/// `str::to_lowercase`. The lower case of an ASCII text is that of its letters.
#[verifier::external_body]
pub(crate) fn lowercase(s: &str) -> (r: String)
    ensures
        r@ == lowercased(s@),
        is_ascii_chars(s@) ==> r@ == ascii_lowered(s@),
{
    s.to_lowercase()
}

/// The text with its ASCII letters in lower case.
pub open spec fn ascii_lowered(s: Seq<char>) -> Seq<char> {
    s.map_values(|c: char| text::ascii_lower(c))
}

/// The fields of a text between `|`, without white space at their ends.
pub open spec fn trimmed_fields(raw: Seq<char>) -> Seq<Seq<char>> {
    split::fields(raw, '|').map_values(|f: Seq<char>| text::trim(f))
}

/// The search terms of a filter text: its fields between `|`, trimmed and in
/// lower case, without the empty ones.
pub open spec fn token_texts(raw: Seq<char>) -> Seq<Seq<char>> {
    split::nonempty(trimmed_fields(raw).map_values(|f: Seq<char>| lowercased(f)))
}

/// The search terms of a filter text of ASCII characters.
pub open spec fn ascii_terms(raw: Seq<char>) -> Seq<Seq<char>> {
    split::nonempty(trimmed_fields(raw).map_values(|f: Seq<char>| ascii_lowered(f)))
}

/// Whether a text contains a term, which is in lower case already. A term of
/// ASCII characters is found whatever the case of the ASCII letters of the text;
/// for any other term the text is put into lower case.
pub open spec fn holds_term(hay: Seq<char>, term: Seq<char>) -> bool {
    if is_ascii_chars(term) {
        text::has_substring(ascii_lowered(hay), term)
    } else {
        text::has_substring(lowercased(hay), term)
    }
}

/// Whether a text contains one of the terms.
pub open spec fn holds_any(hay: Seq<char>, terms: Seq<Seq<char>>) -> bool {
    exists|i: int| 0 <= i < terms.len() && #[trigger] holds_term(hay, terms[i])
}

/// What a filter asks for.
#[verifier::ext_equal]
pub struct FilterView {
    pub allowed_levels: Option<LevelMask>,
    pub allowed_pids: Option<Set<Seq<char>>>,
    pub allowed_tids: Option<Set<Seq<char>>>,
    pub allowed_tags: Option<Set<Seq<char>>>,
    pub disallowed_tags: Set<Seq<char>>,
    pub find: Seq<Seq<char>>,
    pub remove: Seq<Seq<char>>,
    pub bookmarks_only: bool,
    pub errors_only: bool,
}

/// A value is in a set of allowed ones; without a set every value is.
pub open spec fn allows(allowed: Option<Set<Seq<char>>>, value: Seq<char>) -> bool {
    match allowed {
        Some(set) => set.contains(value),
        None => true,
    }
}

/// Whether an entry at position `idx` passes a filter.
pub open spec fn passes(f: FilterView, e: EntryView, idx: u32, bookmarks: Set<u32>) -> bool {
    &&& f.allowed_levels matches Some(mask) ==> mask.intersects(e.level)
    &&& allows(f.allowed_pids, e.pid)
    &&& allows(f.allowed_tids, e.tid)
    &&& allows(f.allowed_tags, e.tag)
    &&& !f.disallowed_tags.contains(e.tag)
    &&& f.bookmarks_only ==> bookmarks.contains(idx)
    &&& f.errors_only ==> e.level.is_error()
    &&& f.find.len() > 0 ==> holds_any(e.message, f.find)
    &&& !holds_any(e.message, f.remove)
}

/// The filter that asks for nothing.
pub open spec fn no_filter() -> FilterView {
    FilterView {
        allowed_levels: None,
        allowed_pids: None,
        allowed_tids: None,
        allowed_tags: None,
        disallowed_tags: Set::empty(),
        find: seq![],
        remove: seq![],
        bookmarks_only: false,
        errors_only: false,
    }
}

/// Which entries pass.
pub struct FilterSpec {
    /// The levels that pass; all if there is no set.
    pub allowed_levels: Option<LevelMask>,
    /// The process ids that pass; all if there is no set.
    pub allowed_pids: Option<StringSet>,
    pub allowed_tids: Option<StringSet>,
    pub allowed_tags: Option<StringSet>,
    /// Tags that do not pass, even where every tag is allowed: so that tags that
    /// come later are excluded too.
    pub disallowed_tags: StringSet,
    /// Terms of which the message must contain one, if there are any.
    pub find: Vec<String>,
    /// Terms of which the message must contain none.
    pub remove: Vec<String>,
    pub bookmarks_only: bool,
    pub errors_only: bool,
}

/// The contents of a set that may be absent.
pub open spec fn set_view(s: Option<StringSet>) -> Option<Set<Seq<char>>> {
    match s {
        Some(set) => Some(set@),
        None => None,
    }
}

impl View for FilterSpec {
    type V = FilterView;

    open spec fn view(&self) -> FilterView {
        FilterView {
            allowed_levels: self.allowed_levels,
            allowed_pids: set_view(self.allowed_pids),
            allowed_tids: set_view(self.allowed_tids),
            allowed_tags: set_view(self.allowed_tags),
            disallowed_tags: self.disallowed_tags@,
            find: split::texts(self.find@),
            remove: split::texts(self.remove@),
            bookmarks_only: self.bookmarks_only,
            errors_only: self.errors_only,
        }
    }
}

impl Default for FilterSpec {
    fn default() -> (r: Self)
        ensures
            r@ == no_filter(),
    {
        let r = FilterSpec {
            allowed_levels: None,
            allowed_pids: None,
            allowed_tids: None,
            allowed_tags: None,
            disallowed_tags: StringSet::new(),
            find: Vec::new(),
            remove: Vec::new(),
            bookmarks_only: false,
            errors_only: false,
        };
        assert(r@ =~= no_filter());
        r
    }
}

/// A copy of a set that may be absent.
pub fn copy_set(s: &Option<StringSet>) -> (r: Option<StringSet>)
    ensures
        set_view(r) == set_view(*s),
{
    match s {
        Some(set) => Some(set.clone()),
        None => None,
    }
}

impl Clone for FilterSpec {
    fn clone(&self) -> (r: Self)
        ensures
            r@ == self@,
    {
        FilterSpec {
            allowed_levels: self.allowed_levels,
            allowed_pids: copy_set(&self.allowed_pids),
            allowed_tids: copy_set(&self.allowed_tids),
            allowed_tags: copy_set(&self.allowed_tags),
            disallowed_tags: self.disallowed_tags.clone(),
            find: copy_texts(&self.find),
            remove: copy_texts(&self.remove),
            bookmarks_only: self.bookmarks_only,
            errors_only: self.errors_only,
        }
    }
}

/// Whether a value is in a set of allowed ones; without a set every value is.
fn is_allowed(allowed: &Option<StringSet>, value: &str) -> (r: bool)
    ensures
        r == allows(set_view(*allowed), value@),
{
    match allowed {
        Some(set) => set.contains(value),
        None => true,
    }
}

impl FilterSpec {
    /// The search terms of a filter text.
    pub fn tokens(raw: &str) -> (r: Vec<String>)
        ensures
            split::texts(r@) == token_texts(raw@),
            is_ascii_chars(raw@) ==> split::texts(r@) == ascii_terms(raw@),
    {
        let fields = trim_fields(raw);
        let mut lowered: Vec<String> = Vec::new();
        let n: usize = fields.len();
        for i in 0..n
            invariant
                n == fields@.len(),
                split::texts(fields@) == trimmed_fields(raw@),
                lowered@.len() == i,
                forall|j: int| 0 <= j < i ==> (#[trigger] lowered@[j])@ == lowercased(fields@[j]@),
                forall|j: int|
                    0 <= j < i && is_ascii_chars(fields@[j]@) ==> (#[trigger] lowered@[j])@
                        == ascii_lowered(fields@[j]@),
        {
            lowered.push(lowercase(fields[i].as_str()));
        }
        proof {
            let expected = trimmed_fields(raw@).map_values(|f: Seq<char>| lowercased(f));
            assert forall|j: int| 0 <= j < n implies split::texts(lowered@)[j] == expected[j] by {
                assert(lowered@[j]@ == lowercased(fields@[j]@));
                assert(split::texts(fields@)[j] == fields@[j]@);
            }
            assert(split::texts(lowered@) =~= expected);
            if is_ascii_chars(raw@) {
                lemma_fields_ascii(raw@, '|');
                let plain = trimmed_fields(raw@).map_values(|f: Seq<char>| ascii_lowered(f));
                assert forall|j: int| 0 <= j < n implies split::texts(lowered@)[j] == plain[j] by {
                    assert(split::texts(fields@)[j] == fields@[j]@);
                    lemma_trim_ascii_text(split::fields(raw@, '|')[j]);
                    assert(is_ascii_chars(fields@[j]@));
                    assert(lowered@[j]@ == ascii_lowered(fields@[j]@));
                }
                assert(split::texts(lowered@) =~= plain);
            }
        }
        nonempty_texts(&lowered)
    }

    /// Whether an entry at position `entry_idx` passes.
    pub fn matches(&self, entry: &LogEntry, entry_idx: u32, bookmarks: &HashSet<u32>) -> (r: bool)
        ensures
            r == passes(self@, entry@, entry_idx, bookmarks@),
            r ==> {
                &&& self.allowed_levels matches Some(m) ==> m.bits & entry.level.bits != 0
                &&& self.allowed_pids matches Some(set) ==> set@.contains(entry@.pid)
                &&& self.allowed_tids matches Some(set) ==> set@.contains(entry@.tid)
                &&& self.allowed_tags matches Some(set) ==> set@.contains(entry@.tag)
                &&& !self.disallowed_tags@.contains(entry@.tag)
                &&& self.bookmarks_only ==> bookmarks@.contains(entry_idx)
                &&& self.errors_only ==> entry.level.is_error()
            },
    {
        if let Some(mask) = self.allowed_levels {
            if !mask.intersects(entry.level) {
                return false;
            }
        }
        if !is_allowed(&self.allowed_pids, entry.pid()) {
            return false;
        }
        if !is_allowed(&self.allowed_tids, entry.tid()) {
            return false;
        }
        if !is_allowed(&self.allowed_tags, entry.tag()) {
            return false;
        }
        if self.disallowed_tags.contains(entry.tag()) {
            return false;
        }
        if self.bookmarks_only && !bookmarks.contains(&entry_idx) {
            return false;
        }
        if self.errors_only && !entry.level.is_error() {
            return false;
        }
        if self.find.len() > 0 && !any_contains(entry.message(), &self.find) {
            return false;
        }
        !any_contains(entry.message(), &self.remove)
    }
}

/// The fields of an ASCII text are ASCII.
proof fn lemma_fields_ascii(s: Seq<char>, sep: char)
    requires
        is_ascii_chars(s),
    ensures
        forall|i: int|
            0 <= i < split::fields(s, sep).len() ==> is_ascii_chars(
                #[trigger] split::fields(s, sep)[i],
            ),
    decreases s.len(),
{
    let k = split::find_char(s, sep) as int;
    if k < s.len() {
        lemma_fields_ascii(s.skip(k + 1), sep);
        let rest = split::fields(s.skip(k + 1), sep);
        assert forall|i: int| 0 <= i < split::fields(s, sep).len() implies is_ascii_chars(
            #[trigger] split::fields(s, sep)[i],
        ) by {
            if i > 0 {
                assert(split::fields(s, sep)[i] == rest[i - 1]);
            }
        }
    }
}

/// An ASCII text stays ASCII when it is trimmed.
proof fn lemma_trim_ascii_text(s: Seq<char>)
    requires
        is_ascii_chars(s),
    ensures
        is_ascii_chars(text::trim(s)),
{
    lemma_trim_start_ascii(s);
    lemma_trim_end_ascii(text::trim_start(s));
}

proof fn lemma_trim_start_ascii(s: Seq<char>)
    requires
        is_ascii_chars(s),
    ensures
        is_ascii_chars(text::trim_start(s)),
    decreases s.len(),
{
    if s.len() > 0 {
        lemma_trim_start_ascii(s.drop_first());
    }
}

proof fn lemma_trim_end_ascii(s: Seq<char>)
    requires
        is_ascii_chars(s),
    ensures
        is_ascii_chars(text::trim_end(s)),
    decreases s.len(),
{
    if s.len() > 0 {
        lemma_trim_end_ascii(s.drop_last());
    }
}

/// The fields of a text between `|`, without white space at their ends.
pub fn trim_fields(raw: &str) -> (r: Vec<String>)
    ensures
        split::texts(r@) == trimmed_fields(raw@),
{
    let fields = split_fields(chars_of(raw).as_slice(), '|');
    let mut out: Vec<String> = Vec::new();
    let n: usize = fields.len();
    for i in 0..n
        invariant
            n == fields@.len(),
            split::texts(fields@) == split::fields(raw@, '|'),
            out@.len() == i,
            forall|j: int| 0 <= j < i ==> (#[trigger] out@[j])@ == text::trim(fields@[j]@),
    {
        let field = chars_of(fields[i].as_str());
        out.push(string_of(trim_chars(field.as_slice())));
    }
    proof {
        assert forall|j: int| 0 <= j < n implies split::texts(out@)[j] == trimmed_fields(
            raw@,
        )[j] by {
            assert(out@[j]@ == text::trim(fields@[j]@));
            assert(split::texts(fields@)[j] == fields@[j]@);
        }
        assert(split::texts(out@) =~= trimmed_fields(raw@));
    }
    out
}

/// Whether a text contains one of the terms.
pub fn any_contains(hay: &str, needles: &Vec<String>) -> (r: bool)
    ensures
        r == holds_any(hay@, split::texts(needles@)),
{
    let n: usize = needles.len();
    let ghost terms = split::texts(needles@);
    for i in 0..n
        invariant
            n == needles@.len(),
            terms == split::texts(needles@),
            forall|j: int| 0 <= j < i ==> !holds_term(hay@, #[trigger] terms[j]),
    {
        assert(terms[i as int] == needles@[i as int]@);
        if contains_ci(hay, needles[i].as_str()) {
            assert(holds_term(hay@, terms[i as int]));
            return true;
        }
    }
    false
}

/// The lower case of an ASCII letter, and every other byte as it is.
pub open spec fn byte_lower(b: u8) -> u8 {
    if 65 <= b <= 90 {
        (b + 32) as u8
    } else {
        b
    }
}

/// The bytes of `needle` stand in `hay` at `at`, up to the case of ASCII letters.
pub open spec fn bytes_match(hay: Seq<u8>, needle: Seq<u8>, at: int) -> bool {
    &&& 0 <= at
    &&& at + needle.len() <= hay.len()
    &&& forall|j: int| 0 <= j < needle.len() ==> byte_lower(#[trigger] hay[at + j]) == needle[j]
}

/// The lower case of an ASCII character is that of its byte, and a character
/// outside ASCII is no ASCII character's lower or upper case.
proof fn lemma_byte_lower(c: char, n: char)
    requires
        (n as u32) < 0x80,
    ensures
        (c as u32) < 0x80 ==> (byte_lower(c as u8) == n as u8 <==> text::ascii_lower(c) == n),
        (c as u32) >= 0x80 ==> text::ascii_lower(c) != n,
        (n as u8) < 0x80,
{
}

/// Where the bytes match, the characters do.
proof fn lemma_bytes_to_chars(hay: Seq<char>, needle: Seq<char>, at: int) -> (i: int)
    requires
        is_ascii_chars(needle),
        needle.len() > 0,
        bytes_match(encode_utf8(hay), encode_utf8(needle), at),
    ensures
        text::occurs_at(ascii_lowered(hay), needle, i),
{
    let h = encode_utf8(hay);
    let n = encode_utf8(needle);
    is_ascii_chars_encode_utf8(needle);
    encode_utf8_valid_utf8(hay);
    assert(h[at + 0] < 0x80) by {
        assert(byte_lower(h[at + 0]) == n[0]);
        assert(needle[0] as u8 == n[0]);
        lemma_byte_lower(needle[0], needle[0]);
    }
    is_char_boundary_iff_not_is_continuation_byte(h, at);
    let i = utf8::lemma_boundary_index(hay, at);
    lemma_bytes_run(hay, needle, at, i, needle.len() as int);
    let part = ascii_lowered(hay).subrange(i, i + needle.len());
    assert forall|j: int| 0 <= j < needle.len() implies part[j] == needle[j] by {
        assert(text::ascii_lower(hay[i + j]) == needle[j]);
    }
    assert(part =~= needle);
    i
}

/// From a byte match that begins at the character `i`, the first `m` bytes are
/// the first `m` characters.
proof fn lemma_bytes_run(hay: Seq<char>, needle: Seq<char>, at: int, i: int, m: int)
    requires
        is_ascii_chars(needle),
        0 <= m <= needle.len(),
        bytes_match(encode_utf8(hay), encode_utf8(needle), at),
        encode_utf8(needle).len() == needle.len(),
        0 <= i <= hay.len(),
        utf8::byte_offset(hay, i) == at,
    ensures
        i + m <= hay.len(),
        utf8::byte_offset(hay, i + m) == at + m,
        forall|j: int|
            0 <= j < m ==> text::ascii_lower(#[trigger] hay[i + j]) == needle[j],
    decreases m,
{
    if m > 0 {
        lemma_bytes_run(hay, needle, at, i, m - 1);
        is_ascii_chars_encode_utf8(needle);
        let k = i + m - 1;
        let h = encode_utf8(hay);
        let n = encode_utf8(needle);
        assert(byte_lower(h[at + (m - 1)]) == n[m - 1]);
        assert(needle[m - 1] as u8 == n[m - 1]);
        if k == hay.len() {
            utf8::lemma_byte_offset_end(hay);
            assert(false);
        }
        utf8::lemma_char_bytes(hay, k);
        lemma_byte_lower(hay[k], needle[m - 1]);
        assert(text::ascii_lower(hay[k]) == needle[m - 1]);
    }
}

/// Where the characters match, the bytes do.
proof fn lemma_chars_to_bytes(hay: Seq<char>, needle: Seq<char>, i: int)
    requires
        is_ascii_chars(needle),
        text::occurs_at(ascii_lowered(hay), needle, i),
    ensures
        bytes_match(encode_utf8(hay), encode_utf8(needle), utf8::byte_offset(hay, i)),
{
    is_ascii_chars_encode_utf8(needle);
    lemma_chars_run(hay, needle, i, needle.len() as int);
    utf8::lemma_byte_offset_grows(hay, i + needle.len(), hay.len() as int);
    utf8::lemma_byte_offset_grows(hay, 0, i);
}

/// From a match that begins at the character `i`, the first `m` characters are
/// the first `m` bytes.
proof fn lemma_chars_run(hay: Seq<char>, needle: Seq<char>, i: int, m: int)
    requires
        is_ascii_chars(needle),
        text::occurs_at(ascii_lowered(hay), needle, i),
        0 <= m <= needle.len(),
    ensures
        utf8::byte_offset(hay, i + m) == utf8::byte_offset(hay, i) + m,
        utf8::byte_offset(hay, i + m) <= encode_utf8(hay).len(),
        forall|j: int|
            0 <= j < m ==> byte_lower(
                #[trigger] encode_utf8(hay)[utf8::byte_offset(hay, i) + j],
            ) == encode_utf8(needle)[j],
    decreases m,
{
    is_ascii_chars_encode_utf8(needle);
    utf8::lemma_byte_offset_grows(hay, i, hay.len() as int);
    if m > 0 {
        lemma_chars_run(hay, needle, i, m - 1);
        let k = i + m - 1;
        assert(ascii_lowered(hay).subrange(i, i + needle.len())[m - 1] == needle[m - 1]);
        assert(text::ascii_lower(hay[k]) == needle[m - 1]);
        lemma_byte_lower(hay[k], needle[m - 1]);
        utf8::lemma_char_bytes(hay, k);
        assert(needle[m - 1] as u8 == encode_utf8(needle)[m - 1]);
    }
}

/// The lower case of an ASCII letter, and every other byte as it is.
fn to_byte_lower(b: u8) -> (r: u8)
    ensures
        r == byte_lower(b),
{
    if 65 <= b && b <= 90 {
        b + 32
    } else {
        b
    }
}

/// Whether the bytes of `nee` stand in `hay` at `start`, up to the case of ASCII
/// letters.
fn bytes_match_at(hay: &[u8], nee: &[u8], start: usize) -> (r: bool)
    requires
        start + nee@.len() <= hay@.len(),
    ensures
        r == bytes_match(hay@, nee@, start as int),
{
    let n: usize = nee.len();
    let total: usize = hay.len();
    for j in 0..n
        invariant
            n == nee@.len(),
            total == hay@.len(),
            start + n <= total,
            forall|k: int| 0 <= k < j ==> byte_lower(#[trigger] hay@[start + k]) == nee@[k],
    {
        if to_byte_lower(hay[start + j]) != nee[j] {
            assert(byte_lower(hay@[start + (j as int)]) != nee@[j as int]);
            return false;
        }
    }
    true
}

/// Whether a text contains a term, which is in lower case already. A term of
/// ASCII characters is searched byte by byte, without copying the text.
pub fn contains_ci(hay: &str, needle: &str) -> (r: bool)
    ensures
        r == holds_term(hay@, needle@),
{
    if needle.is_empty() {
        assert(is_ascii_chars(needle@));
        assert(ascii_lowered(hay@).subrange(0, 0) =~= needle@);
        assert(text::occurs_at(ascii_lowered(hay@), needle@, 0));
        return true;
    }
    if !needle.is_ascii() {
        let lowered = lowercase(hay);
        return chars_contain(chars_of(lowered.as_str()).as_slice(), chars_of(needle).as_slice());
    }
    let h = hay.as_bytes();
    let nee = needle.as_bytes();
    proof {
        is_ascii_chars_encode_utf8(needle@);
    }
    if nee.len() <= h.len() {
        let total: usize = h.len();
        let last: usize = total - nee.len();
        let mut start: usize = 0;
        while start <= last
            invariant
                h@ == encode_utf8(hay@),
                nee@ == encode_utf8(needle@),
                nee@.len() > 0,
                is_ascii_chars(needle@),
                needle@.len() > 0,
                total == h@.len(),
                last + nee@.len() == total,
                start <= last + 1,
                forall|k: int| 0 <= k < start ==> !bytes_match(h@, nee@, k),
            decreases last + 1 - start,
        {
            if bytes_match_at(h, nee, start) {
                proof {
                    let i = lemma_bytes_to_chars(hay@, needle@, start as int);
                    assert(text::occurs_at(ascii_lowered(hay@), needle@, i));
                }
                return true;
            }
            start = start + 1;
        }
    }
    proof {
        if text::has_substring(ascii_lowered(hay@), needle@) {
            let i = choose|i: int| text::occurs_at(ascii_lowered(hay@), needle@, i);
            lemma_chars_to_bytes(hay@, needle@, i);
            assert(bytes_match(h@, nee@, utf8::byte_offset(hay@, i)));
        }
    }
    false
}

/// The filter that asks for nothing lets every entry pass.
pub proof fn no_filter_passes_all(e: EntryView, idx: u32, bookmarks: Set<u32>)
    ensures
        passes(no_filter(), e, idx, bookmarks),
{
}

/// An entry whose message contains a term to remove is hidden, whatever else the
/// filter says.
pub proof fn remove_wins(f: FilterView, e: EntryView, idx: u32, bookmarks: Set<u32>, i: int)
    requires
        0 <= i < f.remove.len(),
        holds_term(e.message, f.remove[i]),
    ensures
        !passes(f, e, idx, bookmarks),
{
    assert(holds_any(e.message, f.remove));
}

/// One of the terms to find is enough: where nothing else hides an entry, it is
/// shown as soon as its message contains one of them.
pub proof fn find_is_any(f: FilterView, e: EntryView, idx: u32, bookmarks: Set<u32>, i: int)
    requires
        0 <= i < f.find.len(),
        holds_term(e.message, f.find[i]),
        passes(FilterView { find: seq![], ..f }, e, idx, bookmarks),
    ensures
        passes(f, e, idx, bookmarks),
{
    assert(holds_any(e.message, f.find));
}

/// An excluded tag is hidden even where it is allowed.
pub proof fn disallowed_wins(f: FilterView, e: EntryView, idx: u32, bookmarks: Set<u32>)
    requires
        f.disallowed_tags.contains(e.tag),
    ensures
        !passes(f, e, idx, bookmarks),
{
}

/// A filter only narrows: what passes it also passes with its text, bookmark and
/// error conditions switched off.
pub proof fn conditions_only_narrow(f: FilterView, e: EntryView, idx: u32, bookmarks: Set<u32>)
    requires
        passes(f, e, idx, bookmarks),
    ensures
        passes(FilterView { find: seq![], ..f }, e, idx, bookmarks),
        passes(FilterView { remove: seq![], ..f }, e, idx, bookmarks),
        passes(FilterView { bookmarks_only: false, ..f }, e, idx, bookmarks),
        passes(FilterView { errors_only: false, ..f }, e, idx, bookmarks),
        passes(no_filter(), e, idx, bookmarks),
{
}

/// The case of a message does not matter: to an ASCII term that of its ASCII letters,
/// to any other term that of all its letters.
pub proof fn search_ignores_case(one: Seq<char>, other: Seq<char>, term: Seq<char>)
    requires
        is_ascii_chars(term) ==> ascii_lowered(one) == ascii_lowered(other),
        !is_ascii_chars(term) ==> lowercased(one) == lowercased(other),
    ensures
        holds_term(one, term) == holds_term(other, term),
{
}

/// The case of a filter text does not matter: texts of ASCII characters that differ in
/// case only have the same terms.
pub proof fn terms_ignore_case(one: Seq<char>, other: Seq<char>)
    requires
        is_ascii_chars(one),
        is_ascii_chars(other),
        ascii_lowered(one) == ascii_lowered(other),
    ensures
        ascii_terms(one) == ascii_terms(other),
{
    lemma_lowered_fields(one);
    lemma_lowered_fields(other);
}

/// A search term: it is not empty, has no white space at its ends and holds no `|`.
pub open spec fn is_term(t: Seq<char>) -> bool {
    &&& t.len() > 0
    &&& text::trim(t) == t
    &&& !t.contains('|')
}

/// Putting a text into lower case leaves something of it if there was anything, brings
/// in no `|` and no white space at its ends, and has nothing left to do a second time.
/// Of ASCII texts this is so; of others it is a matter of their characters.
pub open spec fn lowers_cleanly(f: Seq<char>) -> bool {
    is_clean(|t: Seq<char>| lowercased(t), f)
}

/// What [`lowers_cleanly`] asks, of any way to put texts into lower case.
pub open spec fn is_clean(lower: spec_fn(Seq<char>) -> Seq<char>, f: Seq<char>) -> bool {
    &&& f.len() == 0 <==> lower(f).len() == 0
    &&& !f.contains('|') ==> !lower(f).contains('|')
    &&& text::trim(f) == f ==> text::trim(lower(f)) == lower(f)
    &&& lower(lower(f)) == lower(f)
}

/// No term of a filter text is empty, whatever its characters: an empty one would be
/// found in every message.
pub proof fn no_term_is_empty(raw: Seq<char>)
    ensures
        forall|i: int| 0 <= i < token_texts(raw).len() ==> (#[trigger] token_texts(raw)[i]).len() > 0,
{
    lemma_nonempty_from(trimmed_fields(raw).map_values(|f: Seq<char>| lowercased(f)));
}

/// The fields of a filter text, whatever its characters, have no white space at their
/// ends and hold no `|`.
pub proof fn fields_are_trimmed(raw: Seq<char>)
    ensures
        forall|i: int|
            0 <= i < trimmed_fields(raw).len() ==> text::trim(#[trigger] trimmed_fields(raw)[i])
                == trimmed_fields(raw)[i] && !trimmed_fields(raw)[i].contains('|'),
{
    let fields = split::fields(raw, '|');
    lemma_fields_hold_no_bar(raw);
    assert forall|i: int| 0 <= i < fields.len() implies text::trim(
        #[trigger] trimmed_fields(raw)[i],
    ) == trimmed_fields(raw)[i] && !trimmed_fields(raw)[i].contains('|') by {
        assert(!fields[i].contains('|'));
        lemma_trim_twice(fields[i]);
    }
}

/// What a filter text is cut into are search terms in lower case.
pub proof fn terms_are_terms(raw: Seq<char>)
    requires
        forall|i: int|
            0 <= i < trimmed_fields(raw).len() ==> lowers_cleanly(#[trigger] trimmed_fields(raw)[i]),
    ensures
        forall|i: int|
            0 <= i < token_texts(raw).len() ==> is_term(#[trigger] token_texts(raw)[i])
                && lowercased(token_texts(raw)[i]) == token_texts(raw)[i],
{
    let lower = |f: Seq<char>| lowercased(f);
    assert forall|i: int| 0 <= i < trimmed_fields(raw).len() implies is_clean(
        lower,
        #[trigger] trimmed_fields(raw)[i],
    ) by {
        assert(lowers_cleanly(trimmed_fields(raw)[i]));
    }
    lemma_terms_by(lower, raw);
    assert(token_texts(raw) == terms_by(lower, raw));
}

/// The terms of a filter text, written with `|` between them, have the same terms again.
pub proof fn terms_of_joined_terms(raw: Seq<char>)
    requires
        forall|i: int|
            0 <= i < trimmed_fields(raw).len() ==> lowers_cleanly(#[trigger] trimmed_fields(raw)[i]),
    ensures
        token_texts(split::join(token_texts(raw), '|')) == token_texts(raw),
{
    let lower = |f: Seq<char>| lowercased(f);
    assert forall|i: int| 0 <= i < trimmed_fields(raw).len() implies is_clean(
        lower,
        #[trigger] trimmed_fields(raw)[i],
    ) by {
        assert(lowers_cleanly(trimmed_fields(raw)[i]));
    }
    lemma_joined_by(lower, raw);
    let joined = split::join(token_texts(raw), '|');
    assert(token_texts(raw) == terms_by(lower, raw));
    assert(token_texts(joined) == terms_by(lower, joined));
}

/// What a filter text of ASCII characters is cut into are search terms in lower case.
pub proof fn ascii_terms_are_terms(raw: Seq<char>)
    requires
        is_ascii_chars(raw),
    ensures
        forall|i: int|
            0 <= i < ascii_terms(raw).len() ==> is_term(#[trigger] ascii_terms(raw)[i])
                && ascii_lowered(ascii_terms(raw)[i]) == ascii_terms(raw)[i],
{
    let lower = |f: Seq<char>| ascii_lowered(f);
    lemma_ascii_lowers_cleanly(raw);
    lemma_terms_by(lower, raw);
    assert(ascii_terms(raw) == terms_by(lower, raw));
}

/// The terms of a filter text of ASCII characters, written with `|` between them, are
/// such a text again and have the same terms.
pub proof fn ascii_terms_of_joined_terms(raw: Seq<char>)
    requires
        is_ascii_chars(raw),
    ensures
        is_ascii_chars(split::join(ascii_terms(raw), '|')),
        ascii_terms(split::join(ascii_terms(raw), '|')) == ascii_terms(raw),
{
    let lower = |f: Seq<char>| ascii_lowered(f);
    lemma_terms_ascii(raw);
    lemma_join_ascii(ascii_terms(raw));
    lemma_ascii_lowers_cleanly(raw);
    lemma_joined_by(lower, raw);
    let joined = split::join(ascii_terms(raw), '|');
    assert(ascii_terms(raw) == terms_by(lower, raw));
    assert(ascii_terms(joined) == terms_by(lower, joined));
}

/// The terms of a text, for any way to put texts into lower case.
spec fn terms_by(lower: spec_fn(Seq<char>) -> Seq<char>, raw: Seq<char>) -> Seq<Seq<char>> {
    split::nonempty(trimmed_fields(raw).map_values(lower))
}

proof fn lemma_terms_by(lower: spec_fn(Seq<char>) -> Seq<char>, raw: Seq<char>)
    requires
        forall|i: int|
            0 <= i < trimmed_fields(raw).len() ==> is_clean(
                lower,
                #[trigger] trimmed_fields(raw)[i],
            ),
    ensures
        forall|i: int|
            0 <= i < terms_by(lower, raw).len() ==> is_term(#[trigger] terms_by(lower, raw)[i])
                && lower(terms_by(lower, raw)[i]) == terms_by(lower, raw)[i],
{
    let fields = trimmed_fields(raw);
    let lowered = fields.map_values(lower);
    fields_are_trimmed(raw);
    lemma_nonempty_from(lowered);
    assert forall|i: int| 0 <= i < terms_by(lower, raw).len() implies is_term(
        #[trigger] terms_by(lower, raw)[i],
    ) && lower(terms_by(lower, raw)[i]) == terms_by(lower, raw)[i] by {
        let t = split::nonempty(lowered)[i];
        assert(lowered.contains(t));
        let j = choose|j: int| 0 <= j < lowered.len() && lowered[j] == t;
        assert(is_clean(lower, fields[j]));
        assert(lowered[j] == lower(fields[j]));
    }
}

proof fn lemma_joined_by(lower: spec_fn(Seq<char>) -> Seq<char>, raw: Seq<char>)
    requires
        forall|i: int|
            0 <= i < trimmed_fields(raw).len() ==> is_clean(
                lower,
                #[trigger] trimmed_fields(raw)[i],
            ),
    ensures
        terms_by(lower, split::join(terms_by(lower, raw), '|')) == terms_by(lower, raw),
{
    let terms = terms_by(lower, raw);
    let joined = split::join(terms, '|');
    lemma_terms_by(lower, raw);
    if terms.len() == 0 {
        let fields = trimmed_fields(raw);
        let lowered = fields.map_values(lower);
        assert(fields.len() > 0);
        assert(is_clean(lower, fields[0]));
        if lowered[0].len() > 0 {
            lemma_nonempty_holds(lowered, 0);
        }
        assert(fields[0] =~= joined);
        assert(trimmed_fields(joined) =~= seq![joined]);
        let low = trimmed_fields(joined).map_values(lower);
        assert(low =~= seq![lower(joined)]);
        assert(low.drop_last() =~= Seq::<Seq<char>>::empty());
        assert(split::nonempty(low.drop_last()) =~= Seq::<Seq<char>>::empty());
    } else {
        lemma_fields_of_joined(terms);
        assert(trimmed_fields(joined) =~= terms);
        assert(trimmed_fields(joined).map_values(lower) =~= terms);
        lemma_nonempty_keeps(terms);
    }
}

/// A text that is not empty is left.
proof fn lemma_nonempty_holds(v: Seq<Seq<char>>, i: int)
    requires
        0 <= i < v.len(),
        v[i].len() > 0,
    ensures
        split::nonempty(v).len() > 0,
    decreases v.len(),
{
    if i < v.len() - 1 {
        lemma_nonempty_holds(v.drop_last(), i);
    }
}

/// ASCII letters are put into lower case cleanly.
proof fn lemma_ascii_lowers_cleanly(raw: Seq<char>)
    ensures
        forall|i: int|
            0 <= i < trimmed_fields(raw).len() ==> is_clean(
                |f: Seq<char>| ascii_lowered(f),
                #[trigger] trimmed_fields(raw)[i],
            ),
{
    assert forall|i: int| 0 <= i < trimmed_fields(raw).len() implies is_clean(
        |f: Seq<char>| ascii_lowered(f),
        #[trigger] trimmed_fields(raw)[i],
    ) by {
        let f = trimmed_fields(raw)[i];
        let low = ascii_lowered(f);
        lemma_lowered_trim(f);
        assert(ascii_lowered(low) =~= low);
        if low.contains('|') {
            let j = choose|j: int| 0 <= j < low.len() && low[j] == '|';
            assert(low[j] == text::ascii_lower(f[j]));
            assert(f[j] == '|');
            assert(f.contains('|'));
        }
    }
}

/// Trimming a text twice is trimming it once, and what is left of it was in it.
proof fn lemma_trim_twice(s: Seq<char>)
    ensures
        text::trim(text::trim(s)) == text::trim(s),
        forall|c: char| text::trim(s).contains(c) ==> s.contains(c),
{
    let y = text::trim_start(s);
    let z = text::trim_end(y);
    lemma_trim_start_shape(s);
    lemma_trim_end_shape(y);
    if z.len() > 0 {
        assert(z[0] == y[0]);
        assert(!text::white_space(z[0]));
    }
    assert(text::trim_start(z) == z);
    assert forall|c: char| z.contains(c) implies s.contains(c) by {
        let i = choose|i: int| 0 <= i < z.len() && z[i] == c;
        assert(y[i] == c);
        assert(s[s.len() - y.len() + i] == c);
    }
}

proof fn lemma_trim_start_shape(s: Seq<char>)
    ensures
        text::trim_start(s).len() <= s.len(),
        text::trim_start(s) == s.skip(s.len() - text::trim_start(s).len()),
        text::trim_start(s).len() > 0 ==> !text::white_space(text::trim_start(s)[0]),
    decreases s.len(),
{
    if s.len() > 0 && text::white_space(s[0]) {
        lemma_trim_start_shape(s.drop_first());
        let r = text::trim_start(s);
        assert(s.drop_first().skip(s.drop_first().len() - r.len()) =~= s.skip(s.len() - r.len()));
    } else {
        assert(s.skip(0) =~= s);
    }
}

proof fn lemma_trim_end_shape(s: Seq<char>)
    ensures
        text::trim_end(s).len() <= s.len(),
        text::trim_end(s) == s.take(text::trim_end(s).len() as int),
        text::trim_end(text::trim_end(s)) == text::trim_end(s),
    decreases s.len(),
{
    if s.len() > 0 && text::white_space(s.last()) {
        lemma_trim_end_shape(s.drop_last());
        let n = text::trim_end(s).len() as int;
        assert(s.drop_last().take(n) =~= s.take(n));
    } else {
        assert(s.take(s.len() as int) =~= s);
    }
}

/// No field of a text holds the character that parts them.
proof fn lemma_fields_hold_no_bar(s: Seq<char>)
    ensures
        forall|i: int|
            0 <= i < split::fields(s, '|').len() ==> !(#[trigger] split::fields(s, '|')[i]).contains(
                '|',
            ),
    decreases s.len(),
{
    let k = split::find_char(s, '|') as int;
    let all = split::fields(s, '|');
    lemma_no_bar_before(s);
    if k < s.len() {
        let rest = s.skip(k + 1);
        lemma_fields_hold_no_bar(rest);
        assert forall|i: int| 0 <= i < all.len() implies !(#[trigger] all[i]).contains('|') by {
            if i > 0 {
                assert(all[i] == split::fields(rest, '|')[i - 1]);
            }
        }
    } else {
        assert(s.take(k) =~= s);
    }
}

/// There is no bar before the first one.
proof fn lemma_no_bar_before(s: Seq<char>)
    ensures
        split::find_char(s, '|') <= s.len(),
        !s.take(split::find_char(s, '|') as int).contains('|'),
        !s.contains('|') ==> split::find_char(s, '|') == s.len(),
    decreases s.len(),
{
    if s.len() > 0 && s[0] != '|' {
        let rest = s.drop_first();
        lemma_no_bar_before(rest);
        let k = split::find_char(s, '|') as int;
        let head = s.take(k);
        if head.contains('|') {
            let i = choose|i: int| 0 <= i < head.len() && head[i] == '|';
            assert(rest.take(k - 1)[i - 1] == '|');
            assert(rest.take(k - 1).contains('|'));
        }
        if rest.contains('|') {
            let i = choose|i: int| 0 <= i < rest.len() && rest[i] == '|';
            assert(s[i + 1] == '|');
        }
    } else if s.len() > 0 {
        assert(s.contains(s[0]));
    }
}

/// Every text that is left is one of the texts, and not empty.
proof fn lemma_nonempty_from(v: Seq<Seq<char>>)
    ensures
        forall|i: int|
            0 <= i < split::nonempty(v).len() ==> (#[trigger] split::nonempty(v)[i]).len() > 0
                && v.contains(split::nonempty(v)[i]),
    decreases v.len(),
{
    if v.len() > 0 {
        let front = v.drop_last();
        let kept = split::nonempty(front);
        let all = split::nonempty(v);
        lemma_nonempty_from(front);
        assert forall|i: int| 0 <= i < all.len() implies (#[trigger] all[i]).len() > 0
            && v.contains(all[i]) by {
            if i < kept.len() {
                assert(all[i] == kept[i]);
                assert(front.contains(kept[i]));
                let j = choose|j: int| 0 <= j < front.len() && front[j] == kept[i];
                assert(v[j] == all[i]);
            } else {
                assert(all[i] == v[v.len() - 1]);
            }
        }
    }
}

/// Where no text is empty, all are left.
proof fn lemma_nonempty_keeps(v: Seq<Seq<char>>)
    requires
        forall|i: int| 0 <= i < v.len() ==> (#[trigger] v[i]).len() > 0,
    ensures
        split::nonempty(v) == v,
    decreases v.len(),
{
    if v.len() > 0 {
        lemma_nonempty_keeps(v.drop_last());
        assert(v[v.len() - 1].len() > 0);
        assert(v.drop_last().push(v.last()) =~= v);
    } else {
        assert(split::nonempty(v) =~= v);
    }
}

/// One more field at the end of a text.
proof fn lemma_fields_push(a: Seq<char>, b: Seq<char>)
    requires
        !b.contains('|'),
    ensures
        split::fields(a.push('|') + b, '|') == split::fields(a, '|').push(b),
    decreases a.len(),
{
    let bar = seq!['|'] + b;
    let all = a.push('|') + b;
    let k = split::find_char(a, '|') as int;
    assert(all =~= a + bar);
    lines::lemma_find_char_append(a, bar, '|');
    lemma_no_bar_before(b);
    if k < a.len() {
        let rest = a.skip(k + 1);
        lemma_fields_push(rest, b);
        assert(all.take(k) =~= a.take(k));
        assert(all.skip(k + 1) =~= rest.push('|') + b);
        assert(seq![a.take(k)] + split::fields(rest, '|').push(b) =~= (seq![a.take(k)]
            + split::fields(rest, '|')).push(b));
    } else {
        assert(split::find_char(bar, '|') == 0);
        assert(all.take(a.len() as int) =~= a);
        assert(all.skip((a.len() + 1) as int) =~= b);
        assert(split::fields(b, '|') =~= seq![b]);
        assert(seq![a] + seq![b] =~= seq![a].push(b));
    }
}

/// The fields of texts without bars that were joined are the texts.
proof fn lemma_fields_of_joined(v: Seq<Seq<char>>)
    requires
        v.len() > 0,
        forall|i: int| 0 <= i < v.len() ==> !(#[trigger] v[i]).contains('|'),
    ensures
        split::fields(split::join(v, '|'), '|') == v,
    decreases v.len(),
{
    assert(!v[v.len() - 1].contains('|'));
    if v.len() == 1 {
        lemma_no_bar_before(v[0]);
        assert(split::fields(v[0], '|') =~= v);
    } else {
        let front = v.drop_last();
        assert forall|i: int| 0 <= i < front.len() implies !(#[trigger] front[i]).contains('|') by {
            assert(front[i] == v[i]);
        }
        lemma_fields_of_joined(front);
        lemma_fields_push(split::join(front, '|'), v.last());
        assert(front.push(v.last()) =~= v);
    }
}

/// The terms of an ASCII text are ASCII texts.
proof fn lemma_terms_ascii(raw: Seq<char>)
    requires
        is_ascii_chars(raw),
    ensures
        forall|i: int|
            0 <= i < ascii_terms(raw).len() ==> is_ascii_chars(#[trigger] ascii_terms(raw)[i]),
{
    let lowered = trimmed_fields(raw).map_values(|f: Seq<char>| ascii_lowered(f));
    lemma_fields_ascii(raw, '|');
    assert forall|i: int| 0 <= i < lowered.len() implies is_ascii_chars(#[trigger] lowered[i]) by {
        let f = split::fields(raw, '|')[i];
        assert(is_ascii_chars(f));
        lemma_trim_ascii_text(f);
        assert(lowered[i] == ascii_lowered(text::trim(f)));
    }
    lemma_nonempty_from(lowered);
    assert forall|i: int| 0 <= i < ascii_terms(raw).len() implies is_ascii_chars(
        #[trigger] ascii_terms(raw)[i],
    ) by {
        let t = split::nonempty(lowered)[i];
        assert(lowered.contains(t));
        let j = choose|j: int| 0 <= j < lowered.len() && lowered[j] == t;
        assert(is_ascii_chars(lowered[j]));
    }
}

proof fn lemma_join_ascii(v: Seq<Seq<char>>)
    requires
        forall|i: int| 0 <= i < v.len() ==> is_ascii_chars(#[trigger] v[i]),
    ensures
        is_ascii_chars(split::join(v, '|')),
    decreases v.len(),
{
    if v.len() > 0 {
        let front = v.drop_last();
        assert forall|i: int| 0 <= i < front.len() implies is_ascii_chars(#[trigger] front[i]) by {
            assert(front[i] == v[i]);
        }
        lemma_join_ascii(front);
        assert(is_ascii_chars(v[v.len() - 1]));
    }
}

/// The fields of a lowered text are the lowered fields of the text.
proof fn lemma_lowered_fields(s: Seq<char>)
    ensures
        trimmed_fields(ascii_lowered(s)) == trimmed_fields(s).map_values(
            |f: Seq<char>| ascii_lowered(f),
        ),
    decreases s.len(),
{
    let low = ascii_lowered(s);
    let k = split::find_char(s, '|') as int;
    let lowered = |f: Seq<char>| ascii_lowered(f);
    lemma_lowered_find(s);
    if k >= s.len() {
        lemma_lowered_trim(s);
        assert(trimmed_fields(low) =~= seq![text::trim(low)]);
        assert(trimmed_fields(s) =~= seq![text::trim(s)]);
    } else {
        let rest = s.skip(k + 1);
        lemma_lowered_trim(s.take(k));
        lemma_lowered_fields(rest);
        assert(low.take(k) =~= ascii_lowered(s.take(k)));
        assert(low.skip(k + 1) =~= ascii_lowered(rest));
        assert(trimmed_fields(low) =~= seq![text::trim(low.take(k))] + trimmed_fields(
            ascii_lowered(rest),
        ));
        assert(trimmed_fields(s) =~= seq![text::trim(s.take(k))] + trimmed_fields(rest));
    }
    assert(trimmed_fields(low) =~= trimmed_fields(s).map_values(lowered));
}

/// A separator stands in a lowered text where it stands in the text.
proof fn lemma_lowered_find(s: Seq<char>)
    ensures
        split::find_char(ascii_lowered(s), '|') == split::find_char(s, '|'),
        split::find_char(s, '|') <= s.len(),
    decreases s.len(),
{
    if s.len() > 0 {
        lemma_lowered_find(s.drop_first());
        assert(ascii_lowered(s).drop_first() =~= ascii_lowered(s.drop_first()));
    }
}

/// Trimming and lowering a text can be done in either order.
proof fn lemma_lowered_trim(s: Seq<char>)
    ensures
        text::trim(ascii_lowered(s)) == ascii_lowered(text::trim(s)),
{
    lemma_lowered_trim_start(s);
    lemma_lowered_trim_end(text::trim_start(s));
}

proof fn lemma_lowered_trim_start(s: Seq<char>)
    ensures
        text::trim_start(ascii_lowered(s)) == ascii_lowered(text::trim_start(s)),
    decreases s.len(),
{
    if s.len() > 0 {
        lemma_lowered_trim_start(s.drop_first());
        assert(ascii_lowered(s).drop_first() =~= ascii_lowered(s.drop_first()));
    }
}

proof fn lemma_lowered_trim_end(s: Seq<char>)
    ensures
        text::trim_end(ascii_lowered(s)) == ascii_lowered(text::trim_end(s)),
    decreases s.len(),
{
    if s.len() > 0 {
        lemma_lowered_trim_end(s.drop_last());
        assert(ascii_lowered(s).drop_last() =~= ascii_lowered(s.drop_last()));
        assert(ascii_lowered(s).last() == text::ascii_lower(s.last()));
    }
}

/// Each condition of a filter hides by itself, whatever the others are: the level, the
/// process, the thread, the tag, the excluded tags, bookmarks only, errors only, the terms
/// to find and the terms to remove.
pub proof fn each_condition_hides(f: FilterView, e: EntryView, idx: u32, bookmarks: Set<u32>)
    ensures
        f.allowed_levels matches Some(m) && m.bits & e.level.bits == 0 ==> !passes(
            f,
            e,
            idx,
            bookmarks,
        ),
        f.allowed_pids matches Some(set) && !set.contains(e.pid) ==> !passes(f, e, idx, bookmarks),
        f.allowed_tids matches Some(set) && !set.contains(e.tid) ==> !passes(f, e, idx, bookmarks),
        f.allowed_tags matches Some(set) && !set.contains(e.tag) ==> !passes(f, e, idx, bookmarks),
        f.disallowed_tags.contains(e.tag) ==> !passes(f, e, idx, bookmarks),
        f.bookmarks_only && !bookmarks.contains(idx) ==> !passes(f, e, idx, bookmarks),
        f.errors_only && e.level.bits & 48 == 0 ==> !passes(f, e, idx, bookmarks),
        f.find.len() > 0 && (forall|i: int|
            0 <= i < f.find.len() ==> !#[trigger] holds_term(e.message, f.find[i])) ==> !passes(
            f,
            e,
            idx,
            bookmarks,
        ),
        forall|i: int|
            0 <= i < f.remove.len() && #[trigger] holds_term(e.message, f.remove[i]) ==> !passes(
                f,
                e,
                idx,
                bookmarks,
            ),
{
    let bits = e.level.bits;
    assert(bits & 48 == 0 ==> bits & 16 != 16 && bits & 32 != 32) by (bit_vector);
    assert forall|i: int|
        0 <= i < f.remove.len() && #[trigger] holds_term(e.message, f.remove[i]) implies !passes(
        f,
        e,
        idx,
        bookmarks,
    ) by {
        assert(holds_any(e.message, f.remove));
    }
}

/// An entry that meets each condition of a filter passes it.
pub proof fn what_meets_all_conditions_passes(
    f: FilterView,
    e: EntryView,
    idx: u32,
    bookmarks: Set<u32>,
    found: int,
)
    requires
        f.allowed_levels matches Some(m) ==> m.bits & e.level.bits != 0,
        f.allowed_pids matches Some(set) ==> set.contains(e.pid),
        f.allowed_tids matches Some(set) ==> set.contains(e.tid),
        f.allowed_tags matches Some(set) ==> set.contains(e.tag),
        !f.disallowed_tags.contains(e.tag),
        f.bookmarks_only ==> bookmarks.contains(idx),
        f.errors_only ==> e.level.bits & 48 != 0,
        f.find.len() > 0 ==> 0 <= found < f.find.len() && holds_term(e.message, f.find[found]),
        forall|i: int|
            0 <= i < f.remove.len() ==> !#[trigger] holds_term(e.message, f.remove[i]),
    ensures
        passes(f, e, idx, bookmarks),
{
    let bits = e.level.bits;
    assert(bits & 48 != 0 ==> bits & 16 == 16 || bits & 32 == 32) by (bit_vector);
    if f.find.len() > 0 {
        assert(holds_any(e.message, f.find));
    }
}

/// A term of ASCII characters is found where its characters stand in the text in a row,
/// upper case letters of ASCII in the text taken as lower case ones.
pub proof fn ascii_terms_are_searched(hay: Seq<char>, term: Seq<char>)
    requires
        is_ascii_chars(term),
    ensures
        holds_term(hay, term) <==> exists|at: int|
            0 <= at && at + term.len() <= hay.len() && #[trigger] stands_lowered(hay, term, at),
{
    let low = ascii_lowered(hay);
    assert forall|at: int| #[trigger] text::occurs_at(low, term, at) == (0 <= at && at + term.len()
        <= hay.len() && stands_lowered(hay, term, at)) by {
        if 0 <= at && at + term.len() <= hay.len() {
            if text::occurs_at(low, term, at) {
                assert forall|j: int| 0 <= j < term.len() implies is_lowered(
                    #[trigger] hay[at + j],
                    term[j],
                ) by {
                    assert(low.subrange(at, at + term.len())[j] == term[j]);
                }
            }
            if stands_lowered(hay, term, at) {
                assert forall|j: int| 0 <= j < term.len() implies low.subrange(
                    at,
                    at + term.len(),
                )[j] == term[j] by {
                    assert(is_lowered(hay[at + j], term[j]));
                }
                assert(low.subrange(at, at + term.len()) =~= term);
            }
        }
    }
    if holds_term(hay, term) {
        let at = choose|at: int| #[trigger] text::occurs_at(low, term, at);
        assert(stands_lowered(hay, term, at));
    }
    if exists|at: int|
        0 <= at && at + term.len() <= hay.len() && #[trigger] stands_lowered(hay, term, at) {
        let at = choose|at: int|
            0 <= at && at + term.len() <= hay.len() && #[trigger] stands_lowered(hay, term, at);
        assert(text::occurs_at(low, term, at));
    }
}

/// A character is the same as another, or its lower case where it is an upper case letter
/// of ASCII.
pub open spec fn is_lowered(c: char, low: char) -> bool {
    low as u32 == if 65 <= c as u32 <= 90 {
        (c as u32 + 32) as u32
    } else {
        c as u32
    }
}

/// A term stands in a text at `at`, the text taken in lower case.
pub open spec fn stands_lowered(hay: Seq<char>, term: Seq<char>, at: int) -> bool {
    forall|j: int| 0 <= j < term.len() ==> is_lowered(#[trigger] hay[at + j], term[j])
}

/// The terms of two filter texts with a `|` between them are those of the first and then
/// those of the second.
pub proof fn terms_of_two_texts(a: Seq<char>, b: Seq<char>)
    ensures
        token_texts(a.push('|') + b) == token_texts(a) + token_texts(b),
{
    let lower = |f: Seq<char>| lowercased(f);
    lemma_fields_of_two(a, b);
    let first = trimmed_fields(a).map_values(lower);
    let second = trimmed_fields(b).map_values(lower);
    assert(trimmed_fields(a.push('|') + b).map_values(lower) =~= first + second);
    lemma_nonempty_of_two(first, second);
}

/// A filter text without `|` is one term, in lower case and without white space at its
/// ends, or none if nothing is left.
pub proof fn one_field_is_one_term(raw: Seq<char>)
    requires
        !raw.contains('|'),
    ensures
        token_texts(raw) == if lowercased(text::trim(raw)).len() == 0 {
            seq![]
        } else {
            seq![lowercased(text::trim(raw))]
        },
{
    lemma_no_bar_before(raw);
    let low = trimmed_fields(raw).map_values(|f: Seq<char>| lowercased(f));
    assert(low =~= seq![lowercased(text::trim(raw))]);
    assert(low.drop_last() =~= Seq::<Seq<char>>::empty());
    assert(split::nonempty(low.drop_last()) =~= Seq::<Seq<char>>::empty());
    if low.last().len() > 0 {
        assert(split::nonempty(low) =~= seq![low.last()]);
    }
}

proof fn lemma_fields_of_two(a: Seq<char>, b: Seq<char>)
    ensures
        split::fields(a.push('|') + b, '|') == split::fields(a, '|') + split::fields(b, '|'),
    decreases a.len(),
{
    let bar = seq!['|'] + b;
    let all = a.push('|') + b;
    let k = split::find_char(a, '|') as int;
    assert(all =~= a + bar);
    lines::lemma_find_char_append(a, bar, '|');
    let second = split::fields(b, '|');
    if k < a.len() {
        let rest = a.skip(k + 1);
        lemma_fields_of_two(rest, b);
        assert(all.take(k) =~= a.take(k));
        assert(all.skip(k + 1) =~= rest.push('|') + b);
        assert(seq![a.take(k)] + (split::fields(rest, '|') + second) =~= (seq![a.take(k)]
            + split::fields(rest, '|')) + second);
    } else {
        assert(split::find_char(bar, '|') == 0);
        assert(all.take(a.len() as int) =~= a);
        assert(all.skip((a.len() + 1) as int) =~= b);
    }
}

proof fn lemma_nonempty_of_two(a: Seq<Seq<char>>, b: Seq<Seq<char>>)
    ensures
        split::nonempty(a + b) == split::nonempty(a) + split::nonempty(b),
    decreases b.len(),
{
    if b.len() == 0 {
        assert(a + b =~= a);
        assert(split::nonempty(b) =~= Seq::<Seq<char>>::empty());
        assert(split::nonempty(a) + Seq::<Seq<char>>::empty() =~= split::nonempty(a));
    } else {
        lemma_nonempty_of_two(a, b.drop_last());
        assert((a + b).drop_last() =~= a + b.drop_last());
        let first = split::nonempty(a);
        let rest = split::nonempty(b.drop_last());
        assert((first + rest).push(b.last()) =~= first + rest.push(b.last()));
    }
}

} // verus!

//! Reading log files: which encoding a file is in, how its bytes become lines,
//! and how to pick up what was appended to it since.

use crate::bytes;
use crate::bytes::{chunk_end, decode_lossy, ended_length, looks_like_utf8};
use crate::filter;
use crate::filter::lowercase;
use crate::lines;
use crate::lines::{flush_lines, line_text};
use crate::model::EncodingChoice;
use crate::split;
use crate::text;
use crate::text::{chars_of, chars_start_with};
use encoding_rs::Decoder;
use vstd::prelude::*;
use vstd::slice::slice_subrange;
use vstd::utf8::*;

verus! {

/// An encoding that a log file can be in.
#[derive(Debug, Clone, Copy, PartialEq, Eq, Structural)]
pub enum Codec {
    Utf8,
    Utf16Le,
    Utf16Be,
    Gbk,
    ShiftJis,
    EucKr,
    Windows1252,
}

impl Codec {
    /// The name of the encoding in the Encoding Standard.
    pub open spec fn standard_name(self) -> Seq<char> {
        match self {
            Codec::Utf8 => "UTF-8"@,
            Codec::Utf16Le => "UTF-16LE"@,
            Codec::Utf16Be => "UTF-16BE"@,
            Codec::Gbk => "GBK"@,
            Codec::ShiftJis => "Shift_JIS"@,
            Codec::EucKr => "EUC-KR"@,
            Codec::Windows1252 => "windows-1252"@,
        }
    }

    /// The name of the encoding in the Encoding Standard.
    pub fn name(self) -> (r: &'static str)
        ensures
            r@ == self.standard_name(),
    {
        match self {
            Codec::Utf8 => "UTF-8",
            Codec::Utf16Le => "UTF-16LE",
            Codec::Utf16Be => "UTF-16BE",
            Codec::Gbk => "GBK",
            Codec::ShiftJis => "Shift_JIS",
            Codec::EucKr => "EUC-KR",
            Codec::Windows1252 => "windows-1252",
        }
    }

    /// The encoding is made of units of two bytes.
    pub open spec fn is_utf16(self) -> bool {
        self == Codec::Utf16Le || self == Codec::Utf16Be
    }

    /// Whether the encoding is made of units of two bytes.
    pub fn has_wide_units(self) -> (r: bool)
        ensures
            r == self.is_utf16(),
    {
        match self {
            Codec::Utf16Le | Codec::Utf16Be => true,
            _ => false,
        }
    }
}

/// How to pick up what is appended to a file after it was loaded.
#[derive(Debug, Clone, Copy, PartialEq, Eq, Structural)]
pub enum Tail {
    /// Read on at byte `offset`, which is behind what was loaded, in the same
    /// encoding.
    Append { offset: u64, enc: Codec },
}

impl Tail {
    /// The name of the encoding that the file was loaded in.
    pub fn encoding_name(&self) -> (r: &'static str)
        ensures
            r@ == match *self {
                Tail::Append { offset, enc } => enc.standard_name(),
            },
    {
        match *self {
            Tail::Append { offset: _, enc } => enc.name(),
        }
    }
}

/// Where reading on has come to.
#[derive(Debug, Clone, Copy, PartialEq, Eq, Structural)]
pub struct Appended {
    /// Byte position behind the last line that was read.
    pub offset: u64,
    /// The file is shorter than what was read of it: it was replaced, and has to be
    /// loaded anew.
    pub truncated: bool,
}

/// How many bytes are handed to a decoder at once at most, so that the size of
/// what it writes can be computed.
pub open spec fn decodable(bytes: Seq<u8>) -> bool {
    bytes.len() <= usize::MAX / 16
}

/// The bytes without a UTF-8 byte order mark at their beginning.
pub open spec fn without_bom(bytes: Seq<u8>) -> Seq<u8> {
    if bytes.len() >= 3 && bytes[0] == 0xef && bytes[1] == 0xbb && bytes[2] == 0xbf {
        bytes.skip(3)
    } else {
        bytes
    }
}

/// The text that `Encoding::decode` makes of complete input.
pub uninterp spec fn decoded(codec: Codec, bytes: Seq<u8>) -> Seq<char>;

/// The text that a `Decoder` with BOM sniffing has written after it has read the
/// given beginning of its input, however that was cut into calls.
pub uninterp spec fn streamed(codec: Codec, bytes: Seq<u8>) -> Seq<char>;

/// Number of 16-bit units of a text in UTF-16.
pub open spec fn utf16_len(s: Seq<char>) -> nat
    decreases s.len(),
{
    if s.len() == 0 {
        0
    } else {
        utf16_len(s.drop_last()) + utf16_width(s.last())
    }
}

/// Number of 16-bit units of a character in UTF-16.
pub open spec fn utf16_width(c: char) -> nat {
    if c as u32 >= 0x10000 {
        2
    } else {
        1
    }
}

/// The 16-bit units that bytes are made of.
pub open spec fn utf16_units(codec: Codec, bytes: Seq<u8>) -> Seq<int> {
    Seq::new(
        bytes.len() / 2,
        |i: int|
            if codec == Codec::Utf16Be {
                256 * bytes[2 * i] + bytes[2 * i + 1]
            } else {
                bytes[2 * i] + 256 * bytes[2 * i + 1]
            },
    )
}

/// A unit that begins a pair.
pub open spec fn is_high(unit: int) -> bool {
    0xd800 <= unit < 0xdc00
}

/// A unit that ends a pair.
pub open spec fn is_low(unit: int) -> bool {
    0xdc00 <= unit < 0xe000
}

/// The text that units of UTF-16 hold. A unit of a pair that stands alone is
/// replaced by the replacement character.
pub open spec fn utf16_text(units: Seq<int>) -> Seq<char>
    decreases units.len(),
{
    if units.len() == 0 {
        seq![]
    } else if units.len() >= 2 && is_high(units[0]) && is_low(units[1]) {
        seq![(0x10000 + 0x400 * (units[0] - 0xd800) + (units[1] - 0xdc00)) as char] + utf16_text(
            units.skip(2),
        )
    } else if is_high(units[0]) || is_low(units[0]) {
        seq!['\u{fffd}'] + utf16_text(units.skip(1))
    } else {
        seq![units[0] as char] + utf16_text(units.skip(1))
    }
}

/// `Encoding::decode`: the text of complete input. A byte order mark at its
/// beginning is taken off and, whatever the encoding, decides. UTF-8 that is valid
/// is decoded as it is.
#[verifier::external_body]
fn decode(codec: Codec, bytes: &[u8]) -> (r: String)
    requires
        decodable(bytes@),
    ensures
        r@ == decoded(codec, bytes@),
        codec == Codec::Utf8 && valid_utf8(bytes@) ==> r@ == decode_utf8(without_bom(bytes@)),
{
    let encoding = match codec {
        Codec::Utf8 => encoding_rs::UTF_8,
        Codec::Utf16Le => encoding_rs::UTF_16LE,
        Codec::Utf16Be => encoding_rs::UTF_16BE,
        Codec::Gbk => encoding_rs::GBK,
        Codec::ShiftJis => encoding_rs::SHIFT_JIS,
        Codec::EucKr => encoding_rs::EUC_KR,
        Codec::Windows1252 => encoding_rs::WINDOWS_1252,
    };
    encoding.decode(bytes).0.into_owned()
}

/// `Encoding::decode_without_bom_handling` on whole units of UTF-16: the text that
/// they hold, in which a byte order mark is a character like any other.
#[verifier::external_body]
fn decode_utf16(big_endian: bool, bytes: &[u8]) -> (r: String)
    requires
        decodable(bytes@),
        bytes@.len() % 2 == 0,
    ensures
        big_endian ==> r@ == utf16_text(utf16_units(Codec::Utf16Be, bytes@)),
        !big_endian ==> r@ == utf16_text(utf16_units(Codec::Utf16Le, bytes@)),
{
    let encoding = match big_endian {
        true => encoding_rs::UTF_16BE,
        false => encoding_rs::UTF_16LE,
    };
    encoding.decode_without_bom_handling(bytes).0.into_owned()
}

/// The streaming decoder of `encoding_rs`.
#[verifier::external_type_specification]
#[verifier::external_body]
pub struct ExDecoder(Decoder);

/// What a streaming decoder has done.
#[verifier::ext_equal]
pub struct Progress {
    /// The encoding that it was made for.
    pub codec: Codec,
    /// The bytes that it has read.
    pub read: Seq<u8>,
    /// The text that it has written.
    pub written: Seq<char>,
    /// It was told that its input ends, and has read it all.
    pub ended: bool,
}

/// What a `Decoder` has done since `Encoding::new_decoder` made it.
pub uninterp spec fn progress(decoder: Decoder) -> Progress;

/// `Encoding::new_decoder`: a decoder that has read and written nothing yet.
#[verifier::external_body]
fn new_decoder(codec: Codec) -> (r: Decoder)
    ensures
        progress(r) == (Progress { codec, read: seq![], written: seq![], ended: false }),
{
    let encoding = match codec {
        Codec::Utf8 => encoding_rs::UTF_8,
        Codec::Utf16Le => encoding_rs::UTF_16LE,
        Codec::Utf16Be => encoding_rs::UTF_16BE,
        Codec::Gbk => encoding_rs::GBK,
        Codec::ShiftJis => encoding_rs::SHIFT_JIS,
        Codec::EucKr => encoding_rs::EUC_KR,
        Codec::Windows1252 => encoding_rs::WINDOWS_1252,
    };
    encoding.new_decoder()
}

/// `Decoder::decode_to_string`, with room for as much as
/// `Decoder::max_utf8_buffer_length` says can be written, and for the four bytes
/// that there must be at least, so that all of `input` is read. What it has written
/// by then depends on what it has read, not on how that was cut into calls; at the
/// end of the input it is what `Encoding::decode` makes of the whole.
#[verifier::external_body]
fn decode_more(decoder: &mut Decoder, input: &[u8], last: bool) -> (r: String)
    requires
        !progress(*old(decoder)).ended,
        decodable(input@),
    ensures
        progress(*final(decoder)).codec == progress(*old(decoder)).codec,
        progress(*final(decoder)).read == progress(*old(decoder)).read + input@,
        progress(*final(decoder)).written == progress(*old(decoder)).written + r@,
        progress(*final(decoder)).ended == last,
        !last ==> progress(*final(decoder)).written == streamed(
            progress(*final(decoder)).codec,
            progress(*final(decoder)).read,
        ),
        last ==> progress(*final(decoder)).written == decoded(
            progress(*final(decoder)).codec,
            progress(*final(decoder)).read,
        ),
        last && progress(*final(decoder)).codec == Codec::Utf8 && valid_utf8(
            progress(*final(decoder)).read,
        ) ==> progress(*final(decoder)).written == decode_utf8(
            without_bom(progress(*final(decoder)).read),
        ),
{
    let room = decoder.max_utf8_buffer_length(input.len()).unwrap();
    let mut text = String::with_capacity(room.max(4));
    let _ = decoder.decode_to_string(input, &mut text, last);
    text
}

/// Cuts a file that arrives in pieces into lines while decoding it.
pub struct LineDecoder {
    /// The decoder of the bytes.
    decoder: Decoder,
    /// The text behind the last ended line.
    pending: Vec<char>,
}

impl LineDecoder {
    /// The encoding of the file.
    pub closed spec fn codec(self) -> Codec {
        progress(self.decoder).codec
    }

    /// The bytes so far.
    pub closed spec fn bytes(self) -> Seq<u8> {
        progress(self.decoder).read
    }

    /// The text so far.
    pub closed spec fn text(self) -> Seq<char> {
        progress(self.decoder).written
    }

    /// More can be read, and the text held back is what stands behind the last line.
    pub closed spec fn wf(self) -> bool {
        !progress(self.decoder).ended && self.pending@ == lines::unended(self.text())
    }

    /// A decoder at the beginning of a file.
    pub fn new(codec: Codec) -> (r: Self)
        ensures
            r.wf(),
            r.codec() == codec,
            r.bytes().len() == 0,
            r.text().len() == 0,
    {
        LineDecoder { decoder: new_decoder(codec), pending: Vec::new() }
    }

    /// The lines that are ended by the next piece of the file. The lines of all
    /// pieces so far are those of the text so far.
    pub fn decode_chunk(&mut self, input: &[u8]) -> (r: Vec<String>)
        requires
            old(self).wf(),
            decodable(input@),
        ensures
            final(self).wf(),
            final(self).codec() == old(self).codec(),
            final(self).bytes() == old(self).bytes() + input@,
            final(self).text() == streamed(final(self).codec(), final(self).bytes()),
            lines::ended_lines(final(self).text()) == lines::ended_lines(old(self).text())
                + split::texts(r@),
    {
        let ghost before = self.text();
        let more = decode_more(&mut self.decoder, input, false);
        proof {
            lines::pieces_give_the_same_lines(before, more@);
        }
        self.take_ended(more)
    }

    /// The remaining lines, when the file has ended. With them, the lines of all
    /// pieces are those of the text of the whole file: also the one behind the last
    /// line ending, unless nothing stands there.
    pub fn finish(self) -> (r: Vec<String>)
        requires
            self.wf(),
        ensures
            lines::ended_lines(self.text()) + split::texts(r@) == lines::all_lines(
                decoded(self.codec(), self.bytes()),
            ),
            self.codec() == Codec::Utf8 && valid_utf8(self.bytes()) ==> lines::ended_lines(
                self.text(),
            ) + split::texts(r@) == lines::all_lines(decode_utf8(without_bom(self.bytes()))),
    {
        let ghost before = self.text();
        let ghost read = self.bytes();
        let mut state = self;
        let nothing: Vec<u8> = Vec::new();
        let more = decode_more(&mut state.decoder, nothing.as_slice(), true);
        proof {
            assert(read + nothing@ == read);
            lines::pieces_give_the_same_lines(before, more@);
        }
        let ghost text = progress(state.decoder).written;
        let mut out = state.take_ended(more);
        if state.pending.len() > 0 {
            let last = line_text(state.pending.as_slice());
            let ghost sofar = split::texts(out@);
            out.push(last);
            assert(split::texts(out@) == sofar.push(last@));
            assert(lines::ended_lines(before) + sofar.push(last@) == (lines::ended_lines(before)
                + sofar).push(last@));
        }
        out
    }

    /// Takes the ended lines out of the text held back and the text behind it.
    fn take_ended(&mut self, more: String) -> (r: Vec<String>)
        ensures
            split::texts(r@) == lines::ended_lines(old(self).pending@ + more@),
            final(self).pending@ == lines::unended(old(self).pending@ + more@),
            final(self).decoder == old(self).decoder,
    {
        let mut chars = chars_of(more.as_str());
        self.pending.append(&mut chars);
        let (out, consumed) = flush_lines(self.pending.as_slice());
        let rest = self.pending.split_off(consumed);
        self.pending = rest;
        out
    }
}

/// The encoding that a byte order mark of UTF-16 at the beginning of a file
/// announces.
pub open spec fn bom_codec(start: Seq<u8>) -> Option<Codec> {
    if start.len() < 2 {
        None
    } else if start[0] == 0xff && start[1] == 0xfe {
        Some(Codec::Utf16Le)
    } else if start[0] == 0xfe && start[1] == 0xff {
        Some(Codec::Utf16Be)
    } else {
        None
    }
}

/// The encoding that a byte order mark of UTF-16 at the beginning of a file
/// announces.
pub fn utf16_bom(start: &[u8]) -> (r: Option<Codec>)
    ensures
        r == bom_codec(start@),
{
    if start.len() < 2 {
        None
    } else if start[0] == 0xff && start[1] == 0xfe {
        Some(Codec::Utf16Le)
    } else if start[0] == 0xfe && start[1] == 0xff {
        Some(Codec::Utf16Be)
    } else {
        None
    }
}

/// A line of a UTF-8 file without its line ending, and the first line without a
/// byte order mark.
pub open spec fn utf8_line(decoded: Seq<char>, first: bool) -> Seq<char> {
    if first && decoded.len() > 0 && decoded[0] == '\u{feff}' {
        text::trim_line_end(decoded.skip(1))
    } else {
        text::trim_line_end(decoded)
    }
}

/// Reads a UTF-8 file line by line.
#[derive(Debug, Clone, Copy, PartialEq, Eq, Structural)]
pub struct Utf8Reader {
    /// Number of bytes read.
    pub read: u64,
    /// No line was read yet.
    pub first: bool,
}

impl Utf8Reader {
    /// A reader at the beginning of a file.
    pub fn new() -> (r: Self)
        ensures
            r == (Utf8Reader { read: 0, first: true }),
    {
        Utf8Reader { read: 0, first: true }
    }

    /// The next line, given its bytes up to and with the line feed: none at the end
    /// of the file, where there are no bytes, nor if the file is no longer the
    /// `current` source, though its bytes then count as read.
    pub fn next_line(&mut self, chunk: &[u8], current: bool) -> (r: Option<String>)
        requires
            old(self).read + chunk@.len() <= u64::MAX,
        ensures
            final(self).read == old(self).read + chunk@.len(),
            r is Some <==> chunk@.len() > 0 && current,
            r is Some ==> !final(self).first && r->0@ == utf8_line(
                bytes::lossy(chunk@),
                old(self).first,
            ),
            r is Some && valid_utf8(chunk@) ==> r->0@ == utf8_line(
                decode_utf8(chunk@),
                old(self).first,
            ),
            r is None ==> final(self).first == old(self).first,
    {
        self.read = self.read + chunk.len() as u64;
        if chunk.len() == 0 || !current {
            return None;
        }
        let decoded = decode_lossy(chunk);
        let chars = chars_of(decoded.as_str());
        let skip_mark = self.first && chars.len() > 0 && chars[0] == '\u{feff}';
        self.first = false;
        if skip_mark {
            let rest = slice_subrange(chars.as_slice(), 1, chars.len());
            assert(rest@ == chars@.skip(1));
            Some(line_text(rest))
        } else {
            Some(line_text(chars.as_slice()))
        }
    }

    /// How to read on behind what was read.
    pub fn tail(&self) -> (r: Tail)
        ensures
            r == (Tail::Append { offset: self.read, enc: Codec::Utf8 }),
    {
        Tail::Append { offset: self.read, enc: Codec::Utf8 }
    }
}

/// How to read on behind the first `read` bytes of a file. UTF-16 is read on in
/// whole units.
pub fn tail_for(codec: Codec, read: u64) -> (r: Tail)
    ensures
        r == (Tail::Append {
            offset: if codec.is_utf16() {
                (read - read % 2) as u64
            } else {
                read
            },
            enc: codec,
        }),
{
    let offset: u64 = if codec.has_wide_units() {
        read - read % 2
    } else {
        read
    };
    Tail::Append { offset, enc: codec }
}

/// The encoding that files had in a locale before UTF-8, by the locale's name in
/// lower case.
pub open spec fn locale_codec(low: Seq<char>) -> Codec {
    if text::starts_with(low, "zh"@) {
        Codec::Gbk
    } else if text::starts_with(low, "ja"@) {
        Codec::ShiftJis
    } else if text::starts_with(low, "ko"@) {
        Codec::EucKr
    } else {
        Codec::Windows1252
    }
}

/// The encoding that files had in a locale before UTF-8, by the locale's name in
/// lower case.
pub fn codec_of_locale(low: &str) -> (r: Codec)
    ensures
        r == locale_codec(low@),
{
    let chars = chars_of(low);
    if chars_start_with(chars.as_slice(), chars_of("zh").as_slice()) {
        Codec::Gbk
    } else if chars_start_with(chars.as_slice(), chars_of("ja").as_slice()) {
        Codec::ShiftJis
    } else if chars_start_with(chars.as_slice(), chars_of("ko").as_slice()) {
        Codec::EucKr
    } else {
        Codec::Windows1252
    }
}

/// The encoding that files had in a locale before UTF-8.
pub fn pick_local_encoding(locale: &str) -> (r: Codec)
    ensures
        r == locale_codec(filter::lowercased(locale@)),
        is_ascii_chars(locale@) ==> r == locale_codec(filter::ascii_lowered(locale@)),
{
    codec_of_locale(lowercase(locale).as_str())
}

/// The encoding to load a file in, given how it begins and the name of the
/// locale: the user's choice, where `Local` stands for UTF-8 if the file looks like
/// it, and otherwise for the encoding of the locale, by default that of `en-US`.
pub fn choose_codec(choice: EncodingChoice, head: &[u8], locale: Option<&str>) -> (r: Codec)
    ensures
        r == match choice {
            EncodingChoice::Utf8 => Codec::Utf8,
            EncodingChoice::Local => if bytes::like_utf8(head@) {
                Codec::Utf8
            } else {
                match locale {
                    Some(name) => locale_codec(filter::lowercased(name@)),
                    None => Codec::Windows1252,
                }
            },
        },
        choice == EncodingChoice::Local && !bytes::like_utf8(head@) && locale is Some
            && is_ascii_chars(locale->0@) ==> r == locale_codec(
            filter::ascii_lowered(locale->0@),
        ),
{
    match choice {
        EncodingChoice::Utf8 => Codec::Utf8,
        EncodingChoice::Local => if looks_like_utf8(head) {
            Codec::Utf8
        } else {
            match locale {
                Some(name) => pick_local_encoding(name),
                None => Codec::Windows1252,
            }
        },
    }
}

/// What reading on makes of the bytes behind the last read line: the lines that
/// are ended, and how many bytes they take up. Bytes that end no line are left for
/// later.
pub open spec fn appended_lines(codec: Codec, raw: Seq<u8>) -> (Seq<Seq<char>>, nat) {
    if codec.is_utf16() {
        let text = utf16_text(utf16_units(codec, raw));
        let ended = text.take(text.len() - lines::unended(text).len());
        (lines::ended_lines(text), 2 * utf16_len(ended))
    } else {
        (decoded_lines(codec, raw.take(bytes::ended_len(raw) as int)), bytes::ended_len(raw))
    }
}

/// The lines of bytes, each decoded by itself.
pub open spec fn decoded_lines(codec: Codec, raw: Seq<u8>) -> Seq<Seq<char>> {
    bytes::chunks(raw).map_values(|c: Seq<u8>| text::trim_line_end(decoded(codec, c)))
}

/// A part of a text has no more units than the text.
proof fn lemma_utf16_len_take(s: Seq<char>, n: int)
    requires
        0 <= n <= s.len(),
    ensures
        utf16_len(s.take(n)) <= utf16_len(s),
        utf16_len(s) <= 2 * s.len(),
    decreases s.len(),
{
    if n == s.len() {
        assert(s.take(n) == s);
        if s.len() > 0 {
            lemma_utf16_len_take(s.drop_last(), n - 1);
        }
    } else {
        assert(s.drop_last().take(n) == s.take(n));
        lemma_utf16_len_take(s.drop_last(), n);
    }
}

/// Number of 16-bit units of a text in UTF-16.
fn count_utf16_units(s: &[char]) -> (n: u64)
    requires
        2 * utf16_len(s@) <= usize::MAX,
    ensures
        n == utf16_len(s@),
{
    let mut n: u64 = 0;
    let total: usize = s.len();
    assert(s@.take(0) == Seq::<char>::empty());
    for i in 0..total
        invariant
            total == s@.len(),
            2 * utf16_len(s@) <= usize::MAX,
            n == utf16_len(s@.take(i as int)),
    {
        proof {
            lemma_utf16_len_take(s@, i + 1);
            assert(s@.take(i + 1).drop_last() == s@.take(i as int));
        }
        if s[i] as u32 >= 0x10000 {
            n = n + 2;
        } else {
            n = n + 1;
        }
    }
    assert(s@.take(total as int) == s@);
    n
}

/// Reads on in a file in UTF-16: the lines that are ended, and how many bytes they
/// take up.
fn read_wide(raw: &[u8], codec: Codec) -> (r: (Vec<String>, u64))
    requires
        decodable(raw@),
        codec.is_utf16(),
    ensures
        split::texts(r.0@) == appended_lines(codec, raw@).0,
        r.1 == appended_lines(codec, raw@).1,
        r.1 <= raw@.len(),
{
    let usable: usize = raw.len() - raw.len() % 2;
    let whole = slice_subrange(raw, 0, usable);
    let text = decode_utf16(codec == Codec::Utf16Be, whole);
    assert(utf16_units(codec, whole@) == utf16_units(codec, raw@));
    let chars = chars_of(text.as_str());
    let (out, consumed) = flush_lines(chars.as_slice());
    let ended = slice_subrange(chars.as_slice(), 0, consumed);
    proof {
        lines::unended_is_last(chars@);
        assert(chars@.skip(consumed as int).len() == chars@.len() - consumed);
        assert(ended@ == chars@.take(consumed as int));
        lemma_utf16_len_take(chars@, consumed as int);
        lemma_text_has_all_units(codec, raw@);
    }
    let units = count_utf16_units(ended);
    (out, units * 2)
}

/// Reads on in a file: `raw` are its bytes from `offset` on, if its length `len` is
/// more than that. A line is read when its line feed has arrived, and the offset
/// stays before a line that has none yet.
pub fn read_appended(offset: u64, len: u64, raw: &[u8], codec: Codec) -> (r: (
    Appended,
    Vec<String>,
))
    requires
        offset + raw@.len() <= u64::MAX,
        decodable(raw@),
    ensures
        r.0.truncated == (len < offset),
        len <= offset ==> r.0.offset == offset && r.1@.len() == 0,
        len > offset ==> r.0.offset == offset + appended_lines(codec, raw@).1 && split::texts(
            r.1@,
        ) == appended_lines(codec, raw@).0,
        offset <= r.0.offset <= offset + raw@.len(),
        len > offset && codec == Codec::Utf8 ==> ({
            let ended = bytes::chunks(raw@.take(bytes::ended_len(raw@) as int));
            forall|i: int|
                0 <= i < ended.len() && valid_utf8(#[trigger] ended[i]) ==> split::texts(r.1@)[i]
                    == text::trim_line_end(decode_utf8(without_bom(ended[i])))
        }),
{
    if len <= offset {
        return (Appended { offset, truncated: len < offset }, Vec::new());
    }
    if codec.has_wide_units() {
        let (out, taken) = read_wide(raw, codec);
        return (Appended { offset: offset + taken, truncated: false }, out);
    }
    let end = ended_length(raw);
    let complete = slice_subrange(raw, 0, end);
    assert(complete@ == raw@.take(end as int));
    let out = decode_lines(codec, complete);
    assert(out@.len() == split::texts(out@).len());
    (Appended { offset: offset + end as u64, truncated: false }, out)
}

/// What following a file does next.
#[derive(Debug, Clone, Copy, PartialEq, Eq, Structural)]
pub enum Follow {
    /// End: another source has taken the place of the file.
    Stop,
    /// End, and load the file anew.
    Reload,
    /// Look at the file again later, from this offset on; tells whether there was
    /// anything new.
    Wait { offset: u64, grew: bool },
}

/// What following a file does next, given whether it is still the current source and
/// what reading on has come to, or nothing if the file could not be read: it may be
/// gone for a moment only, while it is being replaced.
pub fn follow_step(offset: u64, current: bool, read: Option<Appended>) -> (r: Follow)
    ensures
        r == if !current {
            Follow::Stop
        } else {
            match read {
                None => Follow::Wait { offset, grew: false },
                Some(a) => if a.truncated {
                    Follow::Reload
                } else {
                    Follow::Wait { offset: a.offset, grew: a.offset != offset }
                },
            }
        },
{
    if !current {
        return Follow::Stop;
    }
    match read {
        None => Follow::Wait { offset, grew: false },
        Some(a) => if a.truncated {
            Follow::Reload
        } else {
            Follow::Wait { offset: a.offset, grew: a.offset != offset }
        },
    }
}

/// The lines of bytes, each decoded by itself.
fn decode_lines(codec: Codec, raw: &[u8]) -> (r: Vec<String>)
    requires
        decodable(raw@),
    ensures
        split::texts(r@) == decoded_lines(codec, raw@),
        codec == Codec::Utf8 ==> forall|i: int|
            0 <= i < r@.len() && valid_utf8(#[trigger] bytes::chunks(raw@)[i]) ==> split::texts(
                r@,
            )[i] == text::trim_line_end(decode_utf8(without_bom(bytes::chunks(raw@)[i]))),
{
    let mut out: Vec<String> = Vec::new();
    let mut from: usize = 0;
    let ghost mut done: Seq<Seq<u8>> = seq![];
    assert(raw@.skip(0) == raw@);
    assert(split::texts(out@) + decoded_lines(codec, raw@) == decoded_lines(codec, raw@));
    assert(done + bytes::chunks(raw@) == bytes::chunks(raw@));
    while from < raw.len()
        invariant
            from <= raw@.len(),
            decodable(raw@),
            done + bytes::chunks(raw@.skip(from as int)) == bytes::chunks(raw@),
            done.len() == out@.len(),
            codec == Codec::Utf8 ==> forall|i: int|
                0 <= i < out@.len() && valid_utf8(#[trigger] bytes::chunks(raw@)[i])
                    ==> split::texts(out@)[i] == text::trim_line_end(
                    decode_utf8(without_bom(bytes::chunks(raw@)[i])),
                ),
            split::texts(out@) + decoded_lines(codec, raw@.skip(from as int)) == decoded_lines(
                codec,
                raw@,
            ),
        decreases raw@.len() - from,
    {
        let end = chunk_end(raw, from);
        let line = decode(codec, slice_subrange(raw, from, end));
        let line = line_text(chars_of(line.as_str()).as_slice());
        let ghost before = split::texts(out@);
        proof {
            let piece = raw@.subrange(from as int, end as int);
            let rest = bytes::chunks(raw@.skip(end as int));
            assert(done + (seq![piece] + rest) == done.push(piece) + rest);
            assert(bytes::chunks(raw@)[done.len() as int] == piece);
            done = done.push(piece);
        }
        out.push(line);
        assert(split::texts(out@) == before.push(line@));
        assert(before + decoded_lines(codec, raw@.skip(from as int)) == before.push(line@)
            + decoded_lines(codec, raw@.skip(end as int)));
        from = end;
    }
    assert(raw@.skip(from as int).len() == 0);
    assert(decoded_lines(codec, raw@.skip(from as int)).len() == 0);
    assert(split::texts(out@) + decoded_lines(codec, raw@.skip(from as int)) == split::texts(out@));
    out
}

/// A unit is not negative and has 16 bits.
proof fn lemma_unit_range(codec: Codec, raw: Seq<u8>, i: int)
    requires
        0 <= i < raw.len() / 2,
    ensures
        0 <= utf16_units(codec, raw)[i] < 0x10000,
{
}

/// The number of units of a text that begins with the given character.
proof fn lemma_utf16_len_first(c: char, s: Seq<char>)
    ensures
        utf16_len(seq![c] + s) == utf16_width(c) + utf16_len(s),
    decreases s.len(),
{
    let all = seq![c] + s;
    if s.len() == 0 {
        assert(all.drop_last() == Seq::<char>::empty());
        assert(utf16_len(all.drop_last()) == 0);
        assert(all.last() == c);
    } else {
        assert(all.last() == s.last());
        assert(all.drop_last() == seq![c] + s.drop_last());
        lemma_utf16_len_first(c, s.drop_last());
    }
}

/// All units are in the range of 16 bits.
spec fn are_units(units: Seq<int>) -> bool {
    forall|i: int| 0 <= i < units.len() ==> 0 <= #[trigger] units[i] < 0x10000
}

/// How many units the first character of a text stands for.
spec fn first_width(units: Seq<int>) -> int {
    if units.len() >= 2 && is_high(units[0]) && is_low(units[1]) {
        2
    } else {
        1
    }
}

/// The first character of the text of units, and the text of the units behind it.
proof fn lemma_first_char(units: Seq<int>)
    requires
        are_units(units),
        units.len() > 0,
    ensures
        utf16_text(units).len() > 0,
        utf16_text(units).drop_first() == utf16_text(units.skip(first_width(units))),
        utf16_width(utf16_text(units)[0]) == first_width(units),
        first_width(units) <= units.len(),
        are_units(units.skip(first_width(units))),
{
    let rest = utf16_text(units.skip(first_width(units)));
    let c = utf16_text(units)[0];
    assert(utf16_text(units) == seq![c] + rest);
    assert(utf16_text(units).drop_first() == rest);
    assert(0 <= units[0] < 0x10000);
    assert forall|i: int| 0 <= i < units.skip(first_width(units)).len() implies 0
        <= #[trigger] units.skip(first_width(units))[i] < 0x10000 by {
        assert(units.skip(first_width(units))[i] == units[i + first_width(units)]);
    }
}

/// Text has as many units as it was decoded from.
proof fn lemma_text_units(units: Seq<int>)
    requires
        are_units(units),
    ensures
        utf16_len(utf16_text(units)) == units.len(),
    decreases units.len(),
{
    if units.len() > 0 {
        let w = first_width(units);
        lemma_first_char(units);
        lemma_text_units(units.skip(w));
        let text = utf16_text(units);
        assert(text == seq![text[0]] + text.drop_first());
        lemma_utf16_len_first(text[0], text.drop_first());
    }
}

/// The text of bytes has a unit for every two bytes.
proof fn lemma_text_has_all_units(codec: Codec, raw: Seq<u8>)
    ensures
        are_units(utf16_units(codec, raw)),
        utf16_len(utf16_text(utf16_units(codec, raw))) == raw.len() / 2,
{
    let units = utf16_units(codec, raw);
    assert forall|i: int| 0 <= i < units.len() implies 0 <= #[trigger] units[i] < 0x10000 by {
        lemma_unit_range(codec, raw, i);
    }
    lemma_text_units(units);
}

/// Text up to a line feed does not depend on the units that follow, and these are
/// decoded as if they stood alone.
proof fn lemma_text_behind_newline(units: Seq<int>, more: Seq<int>, j: int)
    requires
        are_units(units),
        are_units(more),
        0 <= j <= utf16_text(units).len(),
        j > 0 ==> utf16_text(units)[j - 1] == '\n',
    ensures
        utf16_len(utf16_text(units).take(j)) <= units.len(),
        utf16_text(units + more) == utf16_text(units).take(j) + utf16_text(
            (units + more).skip(utf16_len(utf16_text(units).take(j)) as int),
        ),
    decreases units.len(),
{
    let text = utf16_text(units);
    let all = units + more;
    if j == 0 {
        assert(text.take(0) == Seq::<char>::empty());
        assert(all.skip(0) == all);
        assert(Seq::<char>::empty() + utf16_text(all) == utf16_text(all));
    } else {
        let w = first_width(units);
        let rest = units.skip(w);
        assert(units.len() > 0);
        lemma_first_char(units);
        assert(are_units(all)) by {
            assert forall|i: int| 0 <= i < all.len() implies 0 <= #[trigger] all[i] < 0x10000 by {
                if i < units.len() {
                    assert(all[i] == units[i]);
                } else {
                    assert(all[i] == more[i - units.len()]);
                }
            }
        }
        lemma_first_char(all);
        assert(all[0] == units[0]);
        if units.len() == 1 {
            assert(rest.len() == 0);
            assert(utf16_text(rest).len() == 0);
            assert(text.len() == 1);
            assert(text[0] == '\n');
            assert(!is_high(units[0]));
        } else {
            assert(all[1] == units[1]);
        }
        assert(first_width(all) == w);
        assert(all.skip(w) == rest + more);
        assert(utf16_text(all)[0] == text[0]);
        assert(utf16_text(rest) == text.drop_first());
        if j > 1 {
            assert(utf16_text(rest)[j - 2] == text[j - 1]);
        }
        lemma_text_behind_newline(rest, more, j - 1);
        let head = utf16_text(rest).take(j - 1);
        assert(text.take(j) == seq![text[0]] + head);
        lemma_utf16_len_first(text[0], head);
        let n = utf16_len(head) as int;
        assert((rest + more).skip(n) == all.skip(w + n));
        assert(utf16_text(all) == seq![text[0]] + utf16_text(rest + more));
        assert(seq![text[0]] + (head + utf16_text(all.skip(w + n))) == (seq![text[0]] + head)
            + utf16_text(all.skip(w + n)));
    }
}

/// A line that has no line feed yet is not read: text without one gives no line
/// and does not move the offset.
pub proof fn unended_line_is_withheld(codec: Codec, raw: Seq<u8>)
    requires
        if codec.is_utf16() {
            !utf16_text(utf16_units(codec, raw)).contains('\n')
        } else {
            !raw.contains(bytes::NEWLINE)
        },
    ensures
        appended_lines(codec, raw).0.len() == 0,
        appended_lines(codec, raw).1 == 0,
{
    if codec.is_utf16() {
        let text = utf16_text(utf16_units(codec, raw));
        lines::unended_is_last(text);
        if lines::unended(text).len() < text.len() {
            assert(text.contains(text[text.len() - lines::unended(text).len() - 1]));
        }
        assert(text.skip(0) == text);
        assert(text.take(0) == Seq::<char>::empty());
    } else {
        bytes::lemma_ended_len(raw);
        let n = bytes::ended_len(raw) as int;
        if n > 0 {
            assert(raw.contains(raw[n - 1]));
        }
        assert(raw.take(0).len() == 0);
        assert(bytes::chunks(raw.take(0)).len() == 0);
    }
}

/// It does not matter when a file is looked at: reading on twice, the second time
/// from where the first stopped, gives the same lines and comes to the same offset
/// as reading on once at the end.
pub proof fn polling_loses_nothing(codec: Codec, raw: Seq<u8>, more: Seq<u8>)
    ensures
        ({
            let first = appended_lines(codec, raw);
            let second = appended_lines(codec, (raw + more).skip(first.1 as int));
            let once = appended_lines(codec, raw + more);
            once.0 == first.0 + second.0 && once.1 == first.1 + second.1
        }),
{
    if codec.is_utf16() {
        lemma_polling_utf16(codec, raw, more);
    } else {
        let n = bytes::ended_len(raw) as int;
        let all = raw + more;
        let rest = all.skip(n);
        let m = bytes::ended_len(rest) as int;
        bytes::lemma_ended_len(raw);
        bytes::lemma_ended_len(all);
        bytes::lemma_ended_len(rest);
        assert(all.take(n) == raw.take(n));
        bytes::lemma_ended_len_split(all, n);
        assert(all.take(n + m) == raw.take(n) + rest.take(m));
        bytes::lemma_chunks_append(raw.take(n), rest.take(m));
        assert(decoded_lines(codec, all.take(n + m)) == decoded_lines(codec, raw.take(n))
            + decoded_lines(codec, rest.take(m)));
    }
}

/// The units of bytes that grow: those that were there stay.
proof fn lemma_units_grow(codec: Codec, raw: Seq<u8>, more: Seq<u8>)
    ensures
        ({
            let units = utf16_units(codec, raw);
            let all_units = utf16_units(codec, raw + more);
            let more_units = all_units.skip(units.len() as int);
            are_units(units) && are_units(more_units) && all_units == units + more_units
        }),
{
    let all = raw + more;
    let units = utf16_units(codec, raw);
    let all_units = utf16_units(codec, all);
    let more_units = all_units.skip(units.len() as int);
    lemma_text_has_all_units(codec, raw);
    lemma_text_has_all_units(codec, all);
    assert forall|i: int| 0 <= i < units.len() implies all_units[i] == units[i] by {
        assert(all[2 * i] == raw[2 * i]);
        assert(all[2 * i + 1] == raw[2 * i + 1]);
    }
    assert(all_units == units + more_units);
    assert forall|i: int| 0 <= i < more_units.len() implies 0 <= #[trigger] more_units[i]
        < 0x10000 by {
        assert(more_units[i] == all_units[units.len() + i]);
    }
}

/// The units of bytes behind whole units.
proof fn lemma_units_skip(codec: Codec, raw: Seq<u8>, n: int)
    requires
        0 <= 2 * n <= raw.len(),
    ensures
        utf16_units(codec, raw.skip(2 * n)) == utf16_units(codec, raw).skip(n),
{
    let rest = raw.skip(2 * n);
    assert forall|i: int| 0 <= i < rest.len() / 2 implies utf16_units(codec, rest)[i]
        == utf16_units(codec, raw).skip(n)[i] by {
        assert(rest[2 * i] == raw[2 * (i + n)]);
        assert(rest[2 * i + 1] == raw[2 * (i + n) + 1]);
    }
    assert(utf16_units(codec, rest) =~= utf16_units(codec, raw).skip(n));
}

/// The part of a text that its ended lines take up.
spec fn ended_part(text: Seq<char>) -> Seq<char> {
    text.take(text.len() - lines::unended(text).len())
}

/// The lines of a text whose ended lines are those of another one, and then more.
proof fn lemma_lines_behind(text: Seq<char>, tail: Seq<char>)
    ensures
        lines::ended_lines(ended_part(text) + tail) == lines::ended_lines(text)
            + lines::ended_lines(tail),
        ended_part(ended_part(text) + tail) == ended_part(text) + ended_part(tail),
{
    let head = ended_part(text);
    let rest = lines::unended(text);
    let whole = head + tail;
    lines::unended_is_last(text);
    lines::unended_is_last(tail);
    lemma_newline_ends_lines(head);
    assert(lines::unended(head) == Seq::<char>::empty());
    assert(Seq::<char>::empty() + tail == tail);
    assert(Seq::<char>::empty() + rest == rest);
    assert(head + rest == text);
    lines::pieces_give_the_same_lines(head, tail);
    lines::pieces_give_the_same_lines(head, rest);
    assert(lines::ended_lines(rest).len() == 0);
    assert(lines::ended_lines(text) == lines::ended_lines(head));
    assert(ended_part(whole) =~= head + ended_part(tail));
}

/// Reading on twice in UTF-16.
proof fn lemma_polling_utf16(codec: Codec, raw: Seq<u8>, more: Seq<u8>)
    requires
        codec.is_utf16(),
    ensures
        ({
            let first = appended_lines(codec, raw);
            let second = appended_lines(codec, (raw + more).skip(first.1 as int));
            let once = appended_lines(codec, raw + more);
            once.0 == first.0 + second.0 && once.1 == first.1 + second.1
        }),
{
    let all = raw + more;
    let units = utf16_units(codec, raw);
    let all_units = utf16_units(codec, all);
    let text = utf16_text(units);
    let head = ended_part(text);
    let n = utf16_len(head) as int;
    lines::unended_is_last(text);
    lemma_units_grow(codec, raw, more);
    lemma_text_behind_newline(
        units,
        all_units.skip(units.len() as int),
        text.len() - lines::unended(text).len(),
    );
    lemma_units_skip(codec, all, n);
    let tail = utf16_text(utf16_units(codec, all.skip(2 * n)));
    assert(utf16_text(all_units) == head + tail);
    lemma_lines_behind(text, tail);
    lemma_utf16_len_append(head, ended_part(tail));
}

/// Nothing stands behind the last line of a text that ends in a line feed.
proof fn lemma_newline_ends_lines(s: Seq<char>)
    requires
        s.len() == 0 || s.last() == '\n',
    ensures
        lines::unended(s).len() == 0,
{
    lines::unended_is_last(s);
    let rest = lines::unended(s);
    if rest.len() > 0 {
        assert(rest[rest.len() - 1] == s.skip(s.len() - rest.len())[rest.len() - 1]);
        assert(rest[rest.len() - 1] == s.last());
    }
}

/// The units of two texts in a row.
proof fn lemma_utf16_len_append(a: Seq<char>, b: Seq<char>)
    ensures
        utf16_len(a + b) == utf16_len(a) + utf16_len(b),
    decreases b.len(),
{
    if b.len() == 0 {
        assert(a + b == a);
    } else {
        assert((a + b).drop_last() == a + b.drop_last());
        lemma_utf16_len_append(a, b.drop_last());
    }
}

/// A line of a UTF-8 file is its text up to the line breaks at its end, and on the first
/// line behind a byte order mark: nothing else is taken off.
pub proof fn utf8_lines_are_whole(decoded: Seq<char>, first: bool)
    ensures
        ({
            let line = utf8_line(decoded, first);
            let from: int = if first && decoded.len() > 0 && decoded[0] == '\u{feff}' {
                1
            } else {
                0
            };
            &&& from + line.len() <= decoded.len()
            &&& decoded.subrange(from, from + line.len()) == line
            &&& forall|j: int|
                from + line.len() <= j < decoded.len() ==> #[trigger] decoded[j] == '\n'
                    || decoded[j] == '\r'
            &&& line.len() > 0 ==> line.last() != '\n' && line.last() != '\r'
        }),
{
    let from: int = if first && decoded.len() > 0 && decoded[0] == '\u{feff}' {
        1
    } else {
        0
    };
    let rest = decoded.skip(from);
    assert(decoded.skip(0) =~= decoded);
    text::only_line_breaks_are_taken_off(rest);
    let n = utf8_line(decoded, first).len();
    assert(decoded.subrange(from, from + n) =~= rest.take(n as int));
    assert forall|j: int| from + n <= j < decoded.len() implies #[trigger] decoded[j] == '\n'
        || decoded[j] == '\r' by {
        assert(rest[j - from] == decoded[j]);
    }
}

/// Reading a UTF-8 file line by line gives the lines of its text, all of them and in
/// order.
pub proof fn reading_gives_all_lines(data: Seq<u8>)
    requires
        valid_utf8(data),
        decode_utf8(data).len() > 0 ==> decode_utf8(data)[0] != '\u{feff}',
    ensures
        Seq::new(
            bytes::chunks(data).len(),
            |i: int| utf8_line(decode_utf8(bytes::chunks(data)[i]), i == 0),
        ) == lines::all_lines(decode_utf8(data)),
{
    let chunks = bytes::chunks(data);
    let read = Seq::new(chunks.len(), |i: int| utf8_line(decode_utf8(chunks[i]), i == 0));
    bytes::lines_can_be_decoded_alone(data);
    bytes::chunks_make_up_the_bytes(data);
    assert forall|i: int| 0 <= i < chunks.len() implies read[i] == bytes::utf8_lines(data)[i] by {
        if i == 0 && decode_utf8(chunks[0]).len() > 0 {
            lemma_first_char_of_first(data);
        }
    }
    assert(read =~= bytes::utf8_lines(data));
}

/// The first character of the first line is that of the text.
proof fn lemma_first_char_of_first(data: Seq<u8>)
    requires
        valid_utf8(data),
        bytes::chunks(data).len() > 0,
        decode_utf8(bytes::chunks(data)[0]).len() > 0,
        valid_utf8(bytes::chunks(data)[0]),
    ensures
        decode_utf8(data).len() > 0,
        decode_utf8(data)[0] == decode_utf8(bytes::chunks(data)[0])[0],
{
    let head = bytes::chunks(data)[0];
    let n = head.len() as int;
    assert(head =~= data.take(n)) by {
        bytes::chunks_make_up_the_bytes(data);
        let rest = bytes::in_a_row(bytes::chunks(data).drop_first());
        assert(data == head + rest);
    }
    assert(n > 0) by {
        if n == 0 {
            assert(decode_utf8(head).len() == 0);
        }
    }
    assert(forall|i: int| 0 <= i < n ==> head[i] == data[i]);
    assert(valid_first_scalar(head));
    assert(head[0] == data[0]);
    assert(n > 1 ==> head[1] == data[1]);
    assert(n > 2 ==> head[2] == data[2]);
    assert(n > 3 ==> head[3] == data[3]);
    assert(decode_first_scalar(head) == decode_first_scalar(data));
}

/// A line that is read on in a file is the text of its bytes up to the line breaks at its
/// end: nothing else of it is lost. The lines are those of the bytes up to the last line
/// feed, and the bytes behind it are left.
pub proof fn appended_lines_are_whole(codec: Codec, raw: Seq<u8>, i: int)
    requires
        !codec.is_utf16(),
    ensures
        ({
            let (read, taken) = appended_lines(codec, raw);
            let ended = bytes::chunks(raw.take(taken as int));
            &&& taken <= raw.len()
            &&& taken > 0 ==> raw[taken - 1] == 10
            &&& forall|j: int| taken <= j < raw.len() ==> #[trigger] raw[j] != 10
            &&& read.len() == ended.len()
            &&& 0 <= i < read.len() ==> {
                let said = decoded(codec, ended[i]);
                &&& read[i].len() <= said.len()
                &&& said.take(read[i].len() as int) == read[i]
                &&& forall|j: int|
                    read[i].len() <= j < said.len() ==> #[trigger] said[j] == '\n' || said[j]
                        == '\r'
            }
        }),
{
    bytes::lemma_ended_len(raw);
    let ended = bytes::chunks(raw.take(bytes::ended_len(raw) as int));
    if 0 <= i < ended.len() {
        text::only_line_breaks_are_taken_off(decoded(codec, ended[i]));
    }
}

/// Reading on in a file in UTF-16 gives the lines of its text that have a line feed, and
/// comes to the end of the last of them.
pub proof fn appended_wide_lines_are_whole(codec: Codec, raw: Seq<u8>)
    requires
        codec.is_utf16(),
    ensures
        ({
            let (read, taken) = appended_lines(codec, raw);
            let text = utf16_text(utf16_units(codec, raw));
            let parts = split::fields(text, '\n');
            &&& read.len() == parts.len() - 1
            &&& forall|i: int|
                0 <= i < read.len() ==> #[trigger] read[i] == text::trim_line_end(parts[i])
            &&& taken == 2 * utf16_len(text.take(text.len() - parts.last().len()))
        }),
{
    lines::lines_are_the_fields(utf16_text(utf16_units(codec, raw)));
}

/// A file in UTF-16 is told by the two bytes that it begins with, whatever follows.
pub proof fn byte_order_marks_are_told(a: u8, b: u8, rest: Seq<u8>)
    ensures
        a == 0xff && b == 0xfe ==> bom_codec(seq![a, b] + rest) == Some(Codec::Utf16Le),
        a == 0xfe && b == 0xff ==> bom_codec(seq![a, b] + rest) == Some(Codec::Utf16Be),
        !(a == 0xff && b == 0xfe) && !(a == 0xfe && b == 0xff) ==> bom_codec(seq![a, b] + rest)
            is None,
        bom_codec(seq![a]) is None,
        bom_codec(Seq::<u8>::empty()) is None,
{
}

/// The first two letters of a locale tell the encoding that files had there, whatever
/// follows them.
pub proof fn locales_have_their_encodings(low: Seq<char>)
    ensures
        ({
            let two = |a: char, b: char| low.len() >= 2 && low[0] == a && low[1] == b;
            &&& two('z', 'h') ==> locale_codec(low) == Codec::Gbk
            &&& two('j', 'a') ==> locale_codec(low) == Codec::ShiftJis
            &&& two('k', 'o') ==> locale_codec(low) == Codec::EucKr
            &&& !two('z', 'h') && !two('j', 'a') && !two('k', 'o') ==> locale_codec(low)
                == Codec::Windows1252
        }),
{
    reveal_strlit("zh");
    reveal_strlit("ja");
    reveal_strlit("ko");
    if low.len() >= 2 {
        let head = low.take(2);
        assert(head[0] == low[0] && head[1] == low[1]);
        if low[0] == 'z' && low[1] == 'h' {
            assert(head =~= "zh"@);
        }
        if low[0] == 'j' && low[1] == 'a' {
            assert(head =~= "ja"@);
        }
        if low[0] == 'k' && low[1] == 'o' {
            assert(head =~= "ko"@);
        }
        assert("zh"@[0] == 'z' && "zh"@[1] == 'h');
        assert("ja"@[0] == 'j' && "ja"@[1] == 'a');
        assert("ko"@[0] == 'k' && "ko"@[1] == 'o');
    }
}

} // verus!

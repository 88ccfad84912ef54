use logfilter::bytes::{looks_like_utf8, stream_lossy_lines};
use logfilter::io::{
    choose_codec, follow_step, pick_local_encoding, read_appended, tail_for, utf16_bom, Appended,
    Codec, Follow, LineDecoder, Tail, Utf8Reader,
};
use logfilter::model::EncodingChoice;

/// The lines that the UTF-8 reader makes of a file, and how to read on.
fn utf8_lines(data: &[u8]) -> (Vec<String>, Tail) {
    let mut reader = Utf8Reader::new();
    let mut lines = Vec::new();
    for chunk in data.split_inclusive(|&b| b == b'\n') {
        lines.extend(reader.next_line(chunk, true));
    }
    (lines, reader.tail())
}

/// The lines that the decoding reader makes of a file that comes in pieces.
fn decoded_lines(data: &[u8], codec: Codec, piece: usize) -> Vec<String> {
    let mut decoder = LineDecoder::new(codec);
    let mut lines = Vec::new();
    for chunk in data.chunks(piece) {
        lines.extend(decoder.decode_chunk(chunk));
    }
    lines.extend(decoder.finish());
    lines
}

/// The lines of a file that is opened as `Local`.
fn decode_via_local(data: &[u8], locale: Option<&str>) -> Vec<String> {
    decoded_lines(data, choose_codec(EncodingChoice::Local, data, locale), 64)
}

#[test]
fn send_utf8_lines_replaces_invalid_bytes_and_continues() {
    let data = [
        &[0xEF, 0xBB, 0xBF, b'f', b'i', b'r', b's', b't', b'\r', b'\n'][..],
        &[b'b', b'a', b'd', b' ', 0xFF, b'\r', b'\n'][..],
        b"last",
    ]
    .concat();
    let (lines, _) = utf8_lines(&data);
    assert_eq!(lines, vec!["first", "bad \u{fffd}", "last"]);
}

#[test]
fn pick_local_encoding_maps_locales() {
    assert_eq!(pick_local_encoding("zh-CN").name(), "GBK");
    assert_eq!(pick_local_encoding("zh_TW.UTF-8").name(), "GBK");
    assert_eq!(pick_local_encoding("ja_JP").name(), "Shift_JIS");
    assert_eq!(pick_local_encoding("ko_KR").name(), "EUC-KR");
    assert_eq!(pick_local_encoding("en-US").name(), "windows-1252");
    assert_eq!(pick_local_encoding("fr_FR").name(), "windows-1252");
    assert_eq!(pick_local_encoding("ZH-cn").name(), "GBK");
}

#[test]
fn names_are_those_of_the_encodings() {
    assert_eq!(Codec::Utf8.name(), encoding_rs::UTF_8.name());
    assert_eq!(Codec::Utf16Le.name(), encoding_rs::UTF_16LE.name());
    assert_eq!(Codec::Utf16Be.name(), encoding_rs::UTF_16BE.name());
    assert_eq!(Codec::Gbk.name(), encoding_rs::GBK.name());
    assert_eq!(Codec::ShiftJis.name(), encoding_rs::SHIFT_JIS.name());
    assert_eq!(Codec::EucKr.name(), encoding_rs::EUC_KR.name());
    assert_eq!(Codec::Windows1252.name(), encoding_rs::WINDOWS_1252.name());
}

#[test]
fn utf16le_file_detected_and_delegated() {
    let mut data = vec![0xFF, 0xFE];
    data.extend("hello\nworld".encode_utf16().flat_map(|u| u.to_le_bytes()));
    let codec = utf16_bom(&data).unwrap();
    assert_eq!(
        decoded_lines(&data, codec, 5),
        vec!["hello".to_string(), "world".to_string()],
        "UTF-16 content must be decoded from the start, not skipped"
    );
    assert_eq!(tail_for(codec, data.len() as u64).encoding_name(), "UTF-16LE");
    let mut data = vec![0xFE, 0xFF];
    data.extend("hi".encode_utf16().flat_map(|u| u.to_be_bytes()));
    assert_eq!(utf16_bom(&data), Some(Codec::Utf16Be));
    assert_eq!(decoded_lines(&data, Codec::Utf16Be, 3), vec!["hi"]);
    assert_eq!(utf16_bom(b"hello"), None);
    assert_eq!(utf16_bom(b"\xFF"), None);
}

#[test]
fn epoch_cancels_mid_read() {
    // A file with many lines, of a source that is replaced at once.
    let data: String = (0..1000).map(|i| format!("line {i}\n")).collect();
    let mut reader = Utf8Reader::new();
    let mut lines: Vec<String> = Vec::new();
    for chunk in data.as_bytes().split_inclusive(|&b| b == b'\n') {
        match reader.next_line(chunk, false) {
            Some(line) => lines.push(line),
            None => break,
        }
    }
    assert!(lines.len() <= 1, "expected <=1 lines, got {}", lines.len());

    let mut reader = Utf8Reader::new();
    assert_eq!(reader.next_line(b"line 0\n", true), Some("line 0".into()));
    assert_eq!(reader.next_line(b"line 1\n", false), None);
    assert_eq!(
        reader.tail(),
        Tail::Append { offset: 14, enc: Codec::Utf8 }
    );
    assert_eq!(reader.next_line(b"", true), None);
}

#[test]
fn decoded_reader_preserves_empty_final_line_like_utf8_reader() {
    let data = b"first\n\r";
    let (utf8, _) = utf8_lines(data);
    let decoded = decoded_lines(data, Codec::Utf8, 3);
    assert_eq!(utf8, vec!["first", ""]);
    assert_eq!(decoded, utf8);
}

#[test]
fn decoded_reader_preserves_long_line_larger_than_initial_buffer() {
    let line = "日志".repeat(16 * 1024);
    let (encoded, _, _) = encoding_rs::GBK.encode(&line);
    let lines = decoded_lines(encoded.as_ref(), Codec::Gbk, 8191);
    assert_eq!(lines, vec![line]);
}

#[test]
fn pieces_do_not_change_the_lines() {
    let data = "eins\r\nzwei ü\n\n日志\nend".as_bytes();
    let whole = decoded_lines(data, Codec::Utf8, data.len());
    assert_eq!(whole, vec!["eins", "zwei ü", "", "日志", "end"]);
    for piece in 1..data.len() {
        assert_eq!(decoded_lines(data, Codec::Utf8, piece), whole);
    }
    let (line_by_line, _) = utf8_lines(data);
    assert_eq!(line_by_line, whole);
    assert_eq!(stream_lossy_lines(data), whole);
}

#[test]
fn every_encoding_is_decoded() {
    let text = "テスト\n第二";
    let (bytes, _, _) = encoding_rs::SHIFT_JIS.encode(text);
    assert_eq!(
        decoded_lines(&bytes, Codec::ShiftJis, 2),
        vec!["テスト", "第二"]
    );
    let (bytes, _, _) = encoding_rs::EUC_KR.encode("한국어");
    assert_eq!(decoded_lines(&bytes, Codec::EucKr, 1), vec!["한국어"]);
    assert_eq!(
        decoded_lines(b"caf\xE9", Codec::Windows1252, 2),
        vec!["café"]
    );
}

#[test]
fn local_sniffs_utf8_and_does_not_mojibake() {
    let line = "中文日志 テスト 한국어 abc";
    let lines = decode_via_local(line.as_bytes(), Some("zh-CN"));
    assert_eq!(lines, vec![line.to_string()]);
}

#[test]
fn local_falls_back_to_legacy_for_non_utf8() {
    let line = "中文日志 abc";
    let (gbk, _, _) = encoding_rs::GBK.encode(line);
    let lines = decode_via_local(gbk.as_ref(), Some("zh-CN"));
    assert_eq!(lines, vec![line.to_string()]);
    let lines = decode_via_local(gbk.as_ref(), None);
    assert_eq!(lines.len(), 1);
    assert_eq!(
        choose_codec(EncodingChoice::Local, gbk.as_ref(), None),
        Codec::Windows1252
    );
    assert_eq!(
        choose_codec(EncodingChoice::Utf8, gbk.as_ref(), Some("zh")),
        Codec::Utf8
    );
}

#[test]
fn looks_like_utf8_true_for_ascii_and_utf8() {
    assert!(looks_like_utf8("plain ascii\nsecond".as_bytes()));
    assert!(looks_like_utf8("多字节 UTF-8 内容".as_bytes()));
    // GBK bytes → not valid UTF-8.
    let (gbk, _, _) = encoding_rs::GBK.encode("中文");
    assert!(!looks_like_utf8(gbk.as_ref()));
    assert!(looks_like_utf8(b""));
}

#[test]
fn looks_like_utf8_tolerates_truncated_tail() {
    let mut bytes = "ok ".as_bytes().to_vec();
    let full = "中".as_bytes(); // 3 bytes: E4 B8 AD
    bytes.extend_from_slice(&full[..2]); // drop the last continuation byte
    assert!(looks_like_utf8(&bytes));
    // Only a cut off character, with nothing before it, does not count.
    assert!(!looks_like_utf8(&full[..2]));
    // A surrogate is no beginning of a character.
    assert!(!looks_like_utf8(b"ok \xED\xA0"));
}

#[test]
fn read_appended_streams_only_complete_lines() {
    let file = b"one\ntwo\n".to_vec();
    let (a, got) = read_appended(0, 8, &file, Codec::Utf8);
    assert!(!a.truncated);
    assert_eq!(a.offset, 8);
    assert_eq!(got, vec!["one".to_string(), "two".to_string()]);

    // Append a complete line plus a partial one.
    let file = b"one\ntwo\nthree\npar".to_vec();
    let (a2, got2) = read_appended(
        a.offset,
        file.len() as u64,
        &file[a.offset as usize..],
        Codec::Utf8,
    );
    assert_eq!(got2, vec!["three".to_string()], "partial 'par' withheld");
    assert_eq!(a2.offset, 8 + 6, "offset stops before the partial line");

    // Completing the partial line emits it.
    let file = b"one\ntwo\nthree\npartial\n".to_vec();
    let (a3, got3) = read_appended(
        a2.offset,
        file.len() as u64,
        &file[a2.offset as usize..],
        Codec::Utf8,
    );
    assert_eq!(got3, vec!["partial".to_string()]);
    assert!(!a3.truncated);
}

#[test]
fn read_appended_tails_utf16le_incrementally() {
    let enc16 = |s: &str| -> Vec<u8> { s.encode_utf16().flat_map(|u| u.to_le_bytes()).collect() };
    let mut file = enc16("one\ntwo\n"); // 16 bytes
    let off0 = file.len() as u64;

    // Append a complete line plus a partial one (no newline yet).
    file.extend(enc16("three\npar"));
    let (a, got) = read_appended(off0, file.len() as u64, &file[off0 as usize..], Codec::Utf16Le);
    assert_eq!(got, vec!["three".to_string()], "partial 'par' withheld");
    assert_eq!(
        a.offset,
        off0 + enc16("three\n").len() as u64,
        "offset stops before the partial line"
    );
    assert!(!a.truncated);

    // Completing the partial line emits it whole (not split).
    file.extend(enc16("tial\n"));
    let (a2, got2) = read_appended(
        a.offset,
        file.len() as u64,
        &file[a.offset as usize..],
        Codec::Utf16Le,
    );
    assert_eq!(got2, vec!["partial".to_string()]);
    assert!(!a2.truncated);
}

#[test]
fn utf16_offsets_count_pairs_and_lone_surrogates() {
    // A pair, a lone high unit, a lone low unit, a byte order mark and a line feed.
    let units: [u16; 6] = [0xD83D, 0xDCA9, 0xD800, 0xDC00 + 1, 0xFEFF, 0x000A];
    let units_lone: [u16; 4] = [0xD800, 0x0041, 0xDC00, 0x000A];
    let be = |u: &[u16]| -> Vec<u8> { u.iter().flat_map(|u| u.to_be_bytes()).collect() };
    let mut raw = be(&units);
    raw.extend(be(&units_lone));
    raw.push(0x00); // half a unit
    let (a, got) = read_appended(4, 4 + raw.len() as u64, &raw, Codec::Utf16Be);
    assert_eq!(
        got,
        vec!["\u{1F4A9}\u{10001}\u{FEFF}", "\u{FFFD}A\u{FFFD}"]
    );
    assert_eq!(a.offset, 4 + 20);
}

#[test]
fn read_appended_reports_truncation() {
    let (a, got) = read_appended(10, 2, b"", Codec::Utf8);
    assert!(a.truncated, "file shorter than offset ⇒ truncated");
    assert_eq!(a.offset, 10, "offset unchanged on truncation");
    assert!(got.is_empty());
}

#[test]
fn read_appended_no_growth_is_noop() {
    let (a, got) = read_appended(4, 4, b"", Codec::Utf8);
    assert!(!a.truncated);
    assert_eq!(a.offset, 4);
    assert!(got.is_empty(), "no lines when unchanged");
}

#[test]
fn read_appended_decodes_gbk_lines() {
    let (gbk, _, _) = encoding_rs::GBK.encode("日志\n");
    let (a, got) = read_appended(0, gbk.len() as u64, gbk.as_ref(), Codec::Gbk);
    assert!(!a.truncated);
    assert_eq!(got, vec!["日志".to_string()]);
}

#[test]
fn polling_at_any_time_gives_the_same_lines() {
    let file = "a\r\nbb\n\n日志\nrest".as_bytes();
    let (once, all) = read_appended(0, file.len() as u64, file, Codec::Utf8);
    for cut in 0..file.len() {
        let (first, mut lines) = read_appended(0, cut as u64, &file[..cut], Codec::Utf8);
        let from = first.offset as usize;
        let (second, more) = read_appended(
            first.offset,
            file.len() as u64,
            &file[from..],
            Codec::Utf8,
        );
        lines.extend(more);
        assert_eq!(lines, all);
        assert_eq!(second.offset, once.offset);
    }
}

#[test]
fn send_utf8_lines_returns_append_tail_with_byte_offset() {
    let (lines, tail) = utf8_lines(b"hello\nworld\n"); // 12 bytes
    assert_eq!(lines, vec!["hello", "world"]);
    match tail {
        Tail::Append { offset, enc } => {
            assert_eq!(offset, 12);
            assert_eq!(enc.name(), "UTF-8");
        }
    }
}

#[test]
fn tail_encoding_name_reports_actual_encoding() {
    assert_eq!(
        Tail::Append {
            offset: 0,
            enc: Codec::Gbk
        }
        .encoding_name(),
        "GBK"
    );
    assert_eq!(
        Tail::Append {
            offset: 0,
            enc: Codec::Utf16Le
        }
        .encoding_name(),
        "UTF-16LE"
    );
}

#[test]
fn tails_of_utf16_begin_at_whole_units() {
    assert_eq!(
        tail_for(Codec::Utf16Le, 7),
        Tail::Append { offset: 6, enc: Codec::Utf16Le }
    );
    assert_eq!(
        tail_for(Codec::Gbk, 7),
        Tail::Append { offset: 7, enc: Codec::Gbk }
    );
}

#[test]
fn local_load_reports_utf8_when_sniffed() {
    let data = "中文 abc\n".as_bytes();
    let codec = choose_codec(EncodingChoice::Local, data, Some("zh-CN"));
    assert_eq!(tail_for(codec, data.len() as u64).encoding_name(), "UTF-8");
}

#[test]
fn a_replaced_file_is_loaded_anew() {
    let same = Some(Appended { offset: 5, truncated: false });
    let more = Some(Appended { offset: 9, truncated: false });
    let less = Some(Appended { offset: 5, truncated: true });
    assert_eq!(follow_step(5, false, more), Follow::Stop);
    assert_eq!(follow_step(5, true, None), Follow::Wait { offset: 5, grew: false });
    assert_eq!(follow_step(5, true, same), Follow::Wait { offset: 5, grew: false });
    assert_eq!(follow_step(5, true, more), Follow::Wait { offset: 9, grew: true });
    assert_eq!(follow_step(5, true, less), Follow::Reload);
}

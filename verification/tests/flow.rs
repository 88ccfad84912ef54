use logfilter::adb::command_args;
use logfilter::app::App;
use logfilter::config::Config;
use logfilter::filter::{contains_ci, FilterSpec};
use logfilter::ingest::Ingest;
use logfilter::io::{
    choose_codec, follow_step, read_appended, tail_for, utf16_bom, Appended, Follow, LineDecoder,
    Tail, Utf8Reader,
};
use logfilter::model::{EncodingChoice, LevelMask, LogEntry, Model};
use logfilter::refilter::FilterProgress;
use logfilter::status::hides_everything;
use logfilter::transport::Transport;
use std::collections::HashSet;

/// A viewer whose file is a byte string and whose steps are made one by one.
struct Viewer {
    app: App,
    model: Model,
    ingest: Ingest,
    progress: FilterProgress,
    path: String,
    epoch: u64,
    tail: Option<Tail>,
}

impl Viewer {
    fn new() -> Self {
        Self {
            app: App::from_config(Config::default()),
            model: Model::default(),
            ingest: Ingest::new(),
            progress: FilterProgress::new(),
            path: String::new(),
            epoch: 0,
            tail: None,
        }
    }

    fn take(&mut self, lines: Vec<String>) {
        let tagged = lines.into_iter().map(|l| (self.epoch, l)).collect();
        let (epoch, hint) = (self.app.source.epoch, self.app.source.hint);
        self.ingest.batch(&mut self.model, tagged, epoch, hint);
    }

    /// Opens the file and reads all of it.
    fn open(&mut self, path: &str, data: &[u8]) {
        let load = self.app.open_file(&mut self.model, path);
        self.path = path.to_string();
        self.epoch = load.epoch;
        let codec = match (load.choice, utf16_bom(data)) {
            (EncodingChoice::Utf8, None) => None,
            (EncodingChoice::Utf8, bom) => bom,
            (EncodingChoice::Local, _) => Some(choose_codec(load.choice, data, None)),
        };
        let mut lines = Vec::new();
        self.tail = Some(match codec {
            None => {
                let mut reader = Utf8Reader::new();
                for chunk in data.split_inclusive(|&b| b == b'\n') {
                    lines.extend(reader.next_line(chunk, true));
                }
                reader.tail()
            }
            Some(codec) => {
                let mut decoder = LineDecoder::new(codec);
                lines.extend(decoder.decode_chunk(data));
                lines.extend(decoder.finish());
                tail_for(codec, data.len() as u64)
            }
        });
        self.take(lines);
        self.filter();
    }

    /// Looks at the file once more, which holds `data` by now.
    fn poll(&mut self, data: &[u8]) {
        let Some(Tail::Append { offset, enc }) = self.tail else {
            unreachable!();
        };
        let raw: &[u8] = data.get(offset as usize..).unwrap_or(&[]);
        let (read, lines): (Appended, Vec<String>) =
            read_appended(offset, data.len() as u64, raw, enc);
        self.take(lines);
        let current = self.epoch == self.app.source.epoch;
        match follow_step(offset, current, Some(read)) {
            Follow::Stop => self.tail = None,
            Follow::Reload => {
                let path = self.path.clone();
                self.open(&path, data);
            }
            Follow::Wait { offset, .. } => self.tail = Some(Tail::Append { offset, enc }),
        }
        self.filter();
    }

    fn filter(&mut self) {
        let gen = self.app.source.gen;
        let spec = self.app.source.filter.clone();
        let mut pass = self.progress.begin(gen, self.model.entries.len());
        while !pass.is_done() {
            assert!(pass.step(&spec, &self.model, gen));
        }
        assert!(self.progress.commit(pass, &mut self.model, gen));
    }
}

#[test]
fn open_file_loads_entries_into_model() {
    let mut v = Viewer::new();
    v.open(
        "/tmp/lf_open.log",
        b"01-01 10:00:00.000  100  200 I Tag1: first line\n\
01-01 10:00:01.000  100  200 W Tag2: second line\n\
01-01 10:00:02.000  100  200 E Tag1: third line\n",
    );
    assert_eq!(v.model.entries.len(), 3);
    assert_eq!(v.model.file_path.as_deref(), Some("/tmp/lf_open.log"));
    assert_eq!(v.model.entries[0].tag(), "Tag1");
    assert_eq!(v.model.entries[1].tag(), "Tag2");
    assert!(v.model.entries[2].level == LevelMask::error());
    assert_eq!(v.model.filtered, vec![0, 1, 2]);
}

#[test]
fn open_file_populates_detected_encoding() {
    let mut v = Viewer::new();
    v.open(
        "/tmp/lf_enc_disp.log",
        "01-01 10:00:00.000  1  2 I T: 中文 abc\n".as_bytes(),
    );
    let enc = v.tail.as_ref().map(|t| t.encoding_name());
    assert_eq!(enc, Some("UTF-8"));
    assert_eq!(v.model.entries[0].message(), "中文 abc");
}

#[test]
fn open_file_tails_appended_lines_without_moving_scroll() {
    let mut v = Viewer::new();
    let mut data = b"01-01 10:00:00.000  100  200 I Tag1: first\n\
01-01 10:00:01.000  100  200 W Tag2: second\n"
        .to_vec();
    v.open("/tmp/lf_tail.log", &data);
    assert_eq!(v.model.entries.len(), 2);
    assert_eq!(v.app.selection.pending_scroll, None);

    data.extend_from_slice(b"01-01 10:00:02.000  100  200 E Tag1: third\n");
    data.extend_from_slice(b"01-01 10:00:03.000  100  200 I Tag3: fourth\n");
    v.poll(&data);
    assert_eq!(v.model.entries.len(), 4);
    assert_eq!(v.model.entries[3].tag(), "Tag3");
    assert_eq!(v.model.filtered, vec![0, 1, 2, 3]);
    assert_eq!(v.app.selection.pending_scroll, None);

    // Nothing new: nothing changes.
    v.poll(&data);
    assert_eq!(v.model.entries.len(), 4);
}

#[test]
fn open_file_reloads_on_truncation() {
    let mut v = Viewer::new();
    v.open(
        "/tmp/lf_tail_rot.log",
        b"01-01 10:00:00.000  100  200 I Tag1: alpha\n\
01-01 10:00:01.000  100  200 I Tag1: beta\n\
01-01 10:00:02.000  100  200 I Tag1: gamma\n",
    );
    assert_eq!(v.model.entries.len(), 3);

    v.poll(b"01-01 10:10:00.000  100  200 W Tag9: rotated\n");
    assert_eq!(v.model.entries.len(), 1);
    assert_eq!(v.model.entries[0].tag(), "Tag9");
    assert_eq!(v.model.filtered, vec![0]);
}

#[test]
fn all_rows_filtered_out_renders_no_matches_hint_without_panic() {
    let mut v = Viewer::new();
    let mut data = Vec::new();
    for i in 0..20 {
        let line = format!("07-20 12:00:00.000  100  200 I Tag{}: msg {i}\n", i % 3);
        data.extend_from_slice(line.as_bytes());
    }
    v.open("/tmp/lf_hidden.log", &data);
    assert!(!hides_everything(&v.model));
    v.app.ui.find = "zzz_no_such_token_zzz".into();
    v.app.ui.find_on = true;
    v.app.notify_filter();
    v.filter();
    assert!(!v.model.entries.is_empty());
    assert!(v.model.filtered.is_empty());
    assert!(hides_everything(&v.model));
}

#[test]
fn lines_of_a_closed_file_do_not_show_up() {
    let mut v = Viewer::new();
    v.open("/tmp/a.log", b"01-01 10:00:00.000  1  2 I A: one\n");
    let old = v.epoch;
    v.open("/tmp/b.log", b"01-01 10:00:00.000  1  2 I B: two\n");
    assert_ne!(v.epoch, old);
    let late = vec![(old, "01-01 10:00:00.000  1  2 I A: late".to_string())];
    let hint = v.app.source.hint;
    assert!(!v.ingest.batch(&mut v.model, late, v.epoch, hint));
    assert_eq!(v.model.entries.len(), 1);
    assert_eq!(v.model.entries[0].tag(), "B");
}

#[test]
fn letters_of_either_case_are_the_same_to_a_search() {
    assert!(contains_ci("AbC dEf", "c d"));
    assert!(contains_ci("abc def", "c d"));
    let upper = FilterSpec::tokens("Error|FATAL");
    assert_eq!(upper, FilterSpec::tokens("eRROR|fatal"));
    let spec = FilterSpec {
        find: upper,
        ..FilterSpec::default()
    };
    let hit = |message: &str| {
        let e = LogEntry::from_fields("", "", LevelMask::info(), "1", "2", "T", message);
        spec.matches(&e, 0, &HashSet::new())
    };
    assert!(hit("an ERROR here"));
    assert!(hit("an error here"));
    assert!(!hit("an err here"));
}

#[test]
fn terms_that_are_joined_are_the_terms_again() {
    for raw in ["", "|", " Foo | bar||BAZ qux |foo", "a|b", "  one  ", " ÄÖ | ΣΑΣ |İ|\u{3000}中文\u{a0}"] {
        let terms = FilterSpec::tokens(raw);
        for t in &terms {
            assert!(!t.is_empty() && !t.contains('|') && t.trim() == t);
        }
        assert_eq!(FilterSpec::tokens(&terms.join("|")), terms);
    }
    assert_eq!(
        FilterSpec::tokens(" Foo | bar||BAZ qux |foo"),
        vec!["foo", "bar", "baz qux", "foo"]
    );
}

#[test]
fn tools_list_their_devices_in_their_own_ways() {
    assert_eq!(Transport::Adb.list_args(), vec!["devices"]);
    assert_eq!(Transport::Hdc.list_args(), vec!["list", "targets"]);
}

#[test]
fn plain_commands_are_split_at_the_blanks() {
    assert_eq!(
        command_args(Transport::Adb, Some("S1"), "logcat  -v   threadtime"),
        vec!["-s", "S1", "logcat", "-v", "threadtime"]
    );
}

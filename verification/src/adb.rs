//! Talking to device tools: the devices that they list, the arguments that they
//! are given, and the lines that they stream.

use crate::bytes;
use crate::bytes::decode_lossy;
use crate::split;
use crate::split::{find_white_space_from, split_lines, split_words};
use crate::text;
use crate::text::{chars_of, chars_start_with, same_text, string_of, trim_chars};
use crate::transport::Transport;
use std::collections::VecDeque;
use vstd::prelude::*;
use vstd::slice::slice_subrange;
use vstd::utf8::*;

verus! {

/// The serial of the device that a line of `adb devices` lists. Entries look like
/// `SERIAL<tab>device`; notices and devices that cannot be used list none.
pub open spec fn listed_device(line: Seq<char>) -> Option<Seq<char>> {
    let entry = text::trim(line);
    let k = split::find_white_space(entry) as int;
    if text::starts_with(entry, "List of devices"@) || text::starts_with(entry, "*"@) || k
        >= entry.len() {
        None
    } else {
        let state = text::trim(entry.skip(k + 1));
        if k == 0 || state == "unauthorized"@ || state == "no permissions"@ {
            None
        } else {
            Some(entry.take(k))
        }
    }
}

/// The target that a line of `hdc list targets` lists: the line, unless it says
/// that there is none.
pub open spec fn listed_target(line: Seq<char>) -> Option<Seq<char>> {
    let entry = text::trim(line);
    if entry.len() == 0 || entry == "[Empty]"@ {
        None
    } else {
        Some(entry)
    }
}

/// The device that a line of a tool's device list lists.
pub open spec fn listed(transport: Transport, line: Seq<char>) -> Option<Seq<char>> {
    match transport {
        Transport::Adb => listed_device(line),
        Transport::Hdc => listed_target(line),
    }
}

/// The devices that the lines of a device list list, in their order.
pub open spec fn listed_devices(transport: Transport, lines: Seq<Seq<char>>) -> Seq<Seq<char>>
    decreases lines.len(),
{
    if lines.len() == 0 {
        seq![]
    } else {
        let before = listed_devices(transport, lines.drop_last());
        match listed(transport, lines.last()) {
            Some(device) => before.push(device),
            None => before,
        }
    }
}

/// The serial of the device that a line of `adb devices` lists.
fn parse_device(line: &str) -> (r: Option<String>)
    ensures
        match r {
            Some(serial) => listed_device(line@) == Some(serial@),
            None => listed_device(line@) is None,
        },
{
    let chars = chars_of(line);
    let entry = trim_chars(chars.as_slice());
    if chars_start_with(entry, chars_of("List of devices").as_slice()) || chars_start_with(
        entry,
        chars_of("*").as_slice(),
    ) {
        return None;
    }
    assert(entry@.skip(0) == entry@);
    let k = find_white_space_from(entry, 0);
    if k >= entry.len() {
        return None;
    }
    let behind = slice_subrange(entry, k + 1, entry.len());
    assert(behind@ == entry@.skip(k + 1));
    let state = string_of(trim_chars(behind));
    if k == 0 || same_text(state.as_str(), "unauthorized") || same_text(
        state.as_str(),
        "no permissions",
    ) {
        return None;
    }
    let serial = slice_subrange(entry, 0, k);
    assert(serial@ == entry@.take(k as int));
    Some(string_of(serial))
}

/// The target that a line of `hdc list targets` lists.
fn parse_target(line: &str) -> (r: Option<String>)
    ensures
        match r {
            Some(target) => listed_target(line@) == Some(target@),
            None => listed_target(line@) is None,
        },
{
    let chars = chars_of(line);
    let entry = string_of(trim_chars(chars.as_slice()));
    proof {
        reveal_strlit("");
        assert(entry@.len() == 0 ==> entry@ == ""@);
    }
    if same_text(entry.as_str(), "") || same_text(entry.as_str(), "[Empty]") {
        None
    } else {
        Some(entry)
    }
}

/// The devices that a tool's device list lists.
pub fn parse_devices(transport: Transport, listing: &str) -> (r: Vec<String>)
    ensures
        split::texts(r@) == listed_devices(transport, split::lines(listing@)),
{
    let lines = split_lines(chars_of(listing).as_slice());
    let ghost all = split::lines(listing@);
    let mut out: Vec<String> = Vec::new();
    let n: usize = lines.len();
    assert(split::texts(out@) == listed_devices(transport, all.take(0)));
    for i in 0..n
        invariant
            n == lines@.len(),
            split::texts(lines@) == all,
            split::texts(out@) == listed_devices(transport, all.take(i as int)),
    {
        let device = match transport {
            Transport::Adb => parse_device(lines[i].as_str()),
            Transport::Hdc => parse_target(lines[i].as_str()),
        };
        proof {
            assert(all[i as int] == lines@[i as int]@);
            assert(all.take(i + 1).drop_last() == all.take(i as int));
        }
        let ghost before = split::texts(out@);
        if let Some(device) = device {
            out.push(device);
            assert(split::texts(out@) == before.push(device@));
        }
    }
    assert(all.take(n as int) == all);
    out
}

/// The path of a tool: the one in the settings, whatever stands there. If none is set,
/// or an empty one, the place where it is usually installed, if it is there, or else
/// its name, which is then searched for.
pub fn adb_binary(transport: Transport, configured: Option<&str>, installed: Option<&str>) -> (r:
    String)
    ensures
        r@ == match configured {
            Some(path) if path@.len() > 0 => path@,
            _ => match installed {
                Some(path) => path@,
                None => transport.binary_name(),
            },
        },
{
    if let Some(path) = configured {
        if !path.is_empty() {
            return path.to_string();
        }
    }
    match installed {
        Some(path) => path.to_string(),
        None => transport.binary().to_string(),
    }
}

/// Why no devices were listed: the tool ended with the given exit code, if it ended
/// by itself, and said why.
#[derive(Debug)]
pub struct ListError {
    pub code: Option<i32>,
    pub message: String,
}

/// The devices that a tool lists, given how it ended and what it printed.
pub fn list_devices(
    transport: Transport,
    success: bool,
    code: Option<i32>,
    stdout: &[u8],
    stderr: &[u8],
) -> (r: Result<Vec<String>, ListError>)
    ensures
        match r {
            Ok(devices) => success && split::texts(devices@) == listed_devices(
                transport,
                split::lines(bytes::lossy(stdout@)),
            ),
            Err(e) => !success && e.code == code && e.message@ == text::trim(
                bytes::lossy(stderr@),
            ),
        },
        r matches Ok(devices) ==> (valid_utf8(stdout@) ==> split::texts(devices@)
            == listed_devices(transport, split::lines(decode_utf8(stdout@)))),
        r matches Err(e) ==> (valid_utf8(stderr@) ==> e.message@ == text::trim(
            decode_utf8(stderr@),
        )),
{
    if !success {
        let said = chars_of(decode_lossy(stderr).as_str());
        let message = string_of(trim_chars(said.as_slice()));
        return Err(ListError { code, message });
    }
    Ok(parse_devices(transport, decode_lossy(stdout).as_str()))
}

/// The words of a command, as `shlex::split` finds them by the rules of the POSIX
/// shell, or nothing if it breaks these rules.
pub uninterp spec fn shell_words(cmd: Seq<char>) -> Option<Seq<Seq<char>>>;

/// A character that the shell takes as it is: it neither quotes nor begins a comment,
/// and if it is white space, it is such that parts words.
pub open spec fn plain_char(c: char) -> bool {
    &&& c != '"' && c != '\'' && c != '\\' && c != '#'
    &&& text::white_space(c) ==> c == ' ' || c == '\t' || c == '\n'
}

/// A command without quotes, escapes and comments.
pub open spec fn plain_command(cmd: Seq<char>) -> bool {
    forall|i: int| 0 <= i < cmd.len() ==> plain_char(#[trigger] cmd[i])
}

/// `shlex::split`: the words of a command in the syntax of the POSIX shell, or
/// nothing if a quote is left open or the command ends in a backslash. The words of a
/// plain command are those between its white space.
#[verifier::external_body]
fn split_shell(cmd: &str) -> (r: Option<Vec<String>>)
    ensures
        match r {
            Some(words) => shell_words(cmd@) == Some(split::texts(words@)),
            None => shell_words(cmd@) is None,
        },
        plain_command(cmd@) ==> (match r {
            Some(words) => split::texts(words@) == split::words(cmd@),
            None => false,
        }),
{
    shlex::split(cmd)
}

/// The arguments of a tool: the device, if one is chosen, and then the words of the
/// command as the shell would find them, or else its words between white space.
pub open spec fn tool_args(
    flag: Seq<char>,
    device: Option<Seq<char>>,
    cmd: Seq<char>,
    shell: Option<Seq<Seq<char>>>,
) -> Seq<Seq<char>> {
    let words = match shell {
        Some(words) => words,
        None => split::words(cmd),
    };
    match device {
        Some(serial) => seq![flag, serial] + words,
        None => words,
    }
}

/// The arguments of a tool, given the words that the shell would find.
pub fn args_from(
    transport: Transport,
    device: Option<&str>,
    cmd: &str,
    shell: Option<Vec<String>>,
) -> (r: Vec<String>)
    ensures
        split::texts(r@) == tool_args(
            match transport {
                Transport::Adb => "-s"@,
                Transport::Hdc => "-t"@,
            },
            match device {
                Some(serial) => Some(serial@),
                None => None,
            },
            cmd@,
            match shell {
                Some(words) => Some(split::texts(words@)),
                None => None,
            },
        ),
{
    let mut words = match shell {
        Some(words) => words,
        None => split_words(chars_of(cmd).as_slice()),
    };
    match device {
        Some(serial) => {
            let ghost tail = split::texts(words@);
            let mut out: Vec<String> = Vec::new();
            let flag = string_of(chars_of(transport.device_flag()).as_slice());
            let serial = string_of(chars_of(serial).as_slice());
            out.push(flag);
            out.push(serial);
            out.append(&mut words);
            assert(split::texts(out@) == seq![flag@, serial@] + tail);
            out
        },
        None => words,
    }
}

/// The arguments of a tool that runs a command on a device.
pub fn command_args(transport: Transport, device: Option<&str>, cmd: &str) -> (r: Vec<String>)
    ensures
        split::texts(r@) == tool_args(
            match transport {
                Transport::Adb => "-s"@,
                Transport::Hdc => "-t"@,
            },
            match device {
                Some(serial) => Some(serial@),
                None => None,
            },
            cmd@,
            shell_words(cmd@),
        ),
        plain_command(cmd@) ==> split::texts(r@) == tool_args(
            match transport {
                Transport::Adb => "-s"@,
                Transport::Hdc => "-t"@,
            },
            match device {
                Some(serial) => Some(serial@),
                None => None,
            },
            cmd@,
            Some(split::words(cmd@)),
        ),
{
    args_from(transport, device, cmd, split_shell(cmd))
}

/// How many lines are held at most while a stream is paused.
pub const PAUSE_BUFFER_CAP: usize = 100_000;

/// The lines that are held after another one has come in: the newest ones, as many
/// as allowed.
pub open spec fn held(buffer: Seq<Seq<char>>, line: Seq<char>, cap: nat) -> Seq<Seq<char>> {
    let all = buffer.push(line);
    if all.len() <= cap {
        all
    } else {
        all.skip(all.len() - cap)
    }
}

/// Lines that are being passed on: those that are held, the line behind them, if it is
/// still to come, and whether one was refused.
#[verifier::ext_equal]
pub struct PassingView {
    pub held: Seq<Seq<char>>,
    pub line: Option<Seq<char>>,
    pub refused: bool,
}

/// One step of passing lines on, after the answer to the line before: the lines and
/// their state afterwards, and the line that is passed on next, the oldest one. Once a
/// line was refused, none is, and those that are held stay.
pub open spec fn pass_next(p: PassingView, accepted: bool) -> (PassingView, Option<Seq<char>>) {
    if p.refused || !accepted {
        ((PassingView { refused: true, ..p }), None)
    } else if p.held.len() > 0 {
        ((PassingView { held: p.held.drop_first(), ..p }), Some(p.held[0]))
    } else {
        ((PassingView { line: None, ..p }), p.line)
    }
}

/// Passing on the lines that are held and the one behind them.
pub struct Passing {
    line: Option<String>,
    refused: bool,
}

impl Passing {
    /// What is being passed on, with the lines that are held.
    pub closed spec fn with(self, buffer: Seq<String>) -> PassingView {
        PassingView {
            held: split::texts(buffer),
            line: match self.line {
                Some(line) => Some(line@),
                None => None,
            },
            refused: self.refused,
        }
    }

    /// The line that is passed on next, if there is one. `accepted` is the answer to the
    /// line before, or true for the first.
    pub fn next_line(&mut self, buffer: &mut VecDeque<String>, accepted: bool) -> (r: Option<String>)
        ensures
            ({
                let (after, next) = pass_next(old(self).with(old(buffer)@), accepted);
                &&& final(self).with(final(buffer)@) == after
                &&& match r {
                    Some(line) => next == Some(line@),
                    None => next is None,
                }
            }),
    {
        if self.refused || !accepted {
            self.refused = true;
            return None;
        }
        let ghost start = split::texts(buffer@);
        match buffer.pop_front() {
            Some(oldest) => {
                assert(split::texts(buffer@) =~= start.drop_first());
                assert(start[0] == oldest@);
                Some(oldest)
            },
            None => {
                assert(split::texts(buffer@) =~= start);
                self.line.take()
            },
        }
    }

    /// Whether no line was refused.
    pub fn went_through(&self) -> (r: bool)
        ensures
            forall|buffer: Seq<String>| r == !(#[trigger] self.with(buffer)).refused,
    {
        !self.refused
    }
}

/// Takes in one streamed line. While the stream is paused, the line is held, and there
/// is nothing to pass on. Otherwise the lines that are held are to be passed on, the
/// oldest first, and then the line.
pub fn route_line(paused: bool, line: String, buffer: &mut VecDeque<String>, cap: usize) -> (r:
    Option<Passing>)
    ensures
        match r {
            None => paused && split::texts(final(buffer)@) == held(
                split::texts(old(buffer)@),
                line@,
                cap as nat,
            ),
            Some(passing) => !paused && final(buffer)@ == old(buffer)@ && passing.with(
                final(buffer)@,
            ) == (PassingView {
                held: split::texts(old(buffer)@),
                line: Some(line@),
                refused: false,
            }),
        },
{
    if !paused {
        return Some(Passing { line: Some(line), refused: false });
    }
    let ghost start = split::texts(buffer@);
    buffer.push_back(line);
    let ghost all = split::texts(buffer@);
    assert(all == start.push(line@));
    assert(all.skip(0) == all);
    while buffer.len() > cap
        invariant
            buffer@.len() <= all.len(),
            split::texts(buffer@) == all.skip(all.len() - buffer@.len()),
            all.len() <= cap ==> buffer@.len() == all.len(),
            all.len() > cap ==> buffer@.len() >= cap,
        decreases buffer@.len(),
    {
        let ghost rest = split::texts(buffer@);
        let _ = buffer.pop_front();
        assert(split::texts(buffer@) == rest.skip(1));
        assert(rest.skip(1) == all.skip(all.len() - buffer@.len()));
    }
    None
}

/// Passing lines on to the end, with the answers that they get in turn: what is left,
/// and the lines that were passed on. `accepted` is the answer to the line before.
pub open spec fn pass_all(p: PassingView, accepted: bool, answers: Seq<bool>) -> (
    PassingView,
    Seq<Seq<char>>,
)
    decreases answers.len(),
{
    let (after, next) = pass_next(p, accepted);
    match next {
        None => (after, seq![]),
        Some(line) => if answers.len() == 0 {
            (after, seq![line])
        } else {
            let (end, more) = pass_all(after, answers[0], answers.drop_first());
            (end, seq![line] + more)
        },
    }
}

/// When a stream goes on, the lines that were held are passed on, the oldest first, and
/// then the line that came in, each once, as long as they are accepted.
pub proof fn backlog_is_passed_on(held: Seq<Seq<char>>, line: Seq<char>, answers: Seq<bool>)
    requires
        answers.len() > held.len(),
        forall|i: int| 0 <= i <= held.len() ==> #[trigger] answers[i],
    ensures
        ({
            let start = PassingView { held, line: Some(line), refused: false };
            let (end, passed) = pass_all(start, true, answers);
            &&& passed == held.push(line)
            &&& end.held.len() == 0
            &&& !end.refused
        }),
    decreases held.len(),
{
    let start = PassingView { held, line: Some(line), refused: false };
    let more = answers.drop_first();
    assert(answers[0]);
    if held.len() == 0 {
        let last = PassingView { held, line: None, refused: false };
        assert(pass_next(start, true).0 =~= last);
        assert(pass_all(last, true, more).1 =~= Seq::<Seq<char>>::empty());
        assert(seq![line] + Seq::<Seq<char>>::empty() =~= held.push(line));
    } else {
        let rest = held.drop_first();
        assert forall|i: int| 0 <= i <= rest.len() implies #[trigger] more[i] by {
            assert(answers[i + 1]);
        }
        backlog_is_passed_on(rest, line, more);
        assert(seq![held[0]] + rest.push(line) =~= held.push(line));
    }
}

/// When a line is refused, no later one is passed on, and the lines behind it that were
/// held stay held.
pub proof fn refusal_ends_passing(
    held: Seq<Seq<char>>,
    line: Seq<char>,
    answers: Seq<bool>,
    k: int,
)
    requires
        0 <= k <= held.len(),
        k < answers.len(),
        forall|i: int| 0 <= i < k ==> #[trigger] answers[i],
        !answers[k],
    ensures
        ({
            let start = PassingView { held, line: Some(line), refused: false };
            let (end, passed) = pass_all(start, true, answers);
            &&& passed == held.push(line).take(k + 1)
            &&& end.held == if k < held.len() {
                held.skip(k + 1)
            } else {
                seq![]
            }
            &&& end.refused
        }),
    decreases held.len(),
{
    let start = PassingView { held, line: Some(line), refused: false };
    let more = answers.drop_first();
    let after = pass_next(start, true).0;
    if k == 0 {
        assert(pass_all(after, false, more).1 =~= Seq::<Seq<char>>::empty());
        assert(seq![held.push(line)[0]] + Seq::<Seq<char>>::empty() =~= held.push(line).take(1));
        if held.len() > 0 {
            assert(held.drop_first() =~= held.skip(1));
        } else {
            assert(held =~= Seq::<Seq<char>>::empty());
        }
    } else {
        let rest = held.drop_first();
        assert(answers[0]);
        assert forall|i: int| 0 <= i < k - 1 implies #[trigger] more[i] by {
            assert(answers[i + 1]);
        }
        refusal_ends_passing(rest, line, more, k - 1);
        assert(seq![held[0]] + rest.push(line).take(k) =~= held.push(line).take(k + 1));
        if k < held.len() {
            assert(rest.skip(k) =~= held.skip(k + 1));
        }
    }
}

/// The lines that are held after lines have come in during a pause.
pub open spec fn held_all(
    buffer: Seq<Seq<char>>,
    lines: Seq<Seq<char>>,
    cap: nat,
) -> Seq<Seq<char>>
    decreases lines.len(),
{
    if lines.len() == 0 {
        buffer
    } else {
        held(held_all(buffer, lines.drop_last(), cap), lines.last(), cap)
    }
}

/// A pause loses the oldest lines only, and none as long as the lines that came in
/// fit: what is held is the newest of them, in order.
pub proof fn pause_keeps_the_newest(lines: Seq<Seq<char>>, cap: nat)
    ensures
        held_all(seq![], lines, cap) == if lines.len() <= cap {
            lines
        } else {
            lines.skip(lines.len() - cap)
        },
    decreases lines.len(),
{
    if lines.len() > 0 {
        let front = lines.drop_last();
        pause_keeps_the_newest(front, cap);
        let kept = held_all(seq![], front, cap);
        let all = kept.push(lines.last());
        if front.len() <= cap {
            assert(all == lines);
        } else {
            assert(all.skip(1) == lines.skip(lines.len() - cap));
        }
    }
}

/// What is held during a pause is never more than what is allowed.
pub proof fn pause_is_bounded(buffer: Seq<Seq<char>>, lines: Seq<Seq<char>>, cap: nat)
    requires
        buffer.len() <= cap,
    ensures
        held_all(buffer, lines, cap).len() <= cap,
{
}

/// A device that `adb` lists is found by its serial, whatever state it is in, unless it
/// cannot be used.
pub proof fn usable_devices_are_listed(serial: Seq<char>, state: Seq<char>)
    requires
        serial.len() > 0,
        serial[0] != '*',
        forall|i: int| 0 <= i < serial.len() ==> !text::white_space(#[trigger] serial[i]),
        state.len() > 0,
        !text::white_space(state[0]) && !text::white_space(state.last()),
    ensures
        ({
            let line = serial.push('\t') + state;
            &&& state == "unauthorized"@ || state == "no permissions"@ ==> listed(
                Transport::Adb,
                line,
            ) is None
            &&& state != "unauthorized"@ && state != "no permissions"@ ==> listed(
                Transport::Adb,
                line,
            ) == Some(serial)
        }),
        listed(Transport::Adb, serial) is None,
{
    let line = serial.push('\t') + state;
    let n = serial.len() as int;
    reveal_strlit("List of devices");
    reveal_strlit("*");
    assert(!text::white_space(serial[0]));
    assert(line[0] == serial[0]);
    assert(line.last() == state.last());
    assert(text::trim(line) == line);
    assert(text::trim(state) == state);
    split::white_space_is_found(line);
    let k = split::find_white_space(line) as int;
    assert(line[n] == '\t');
    if k < n {
        assert(line[k] == serial[k]);
    }
    assert(k == n);
    assert(line.take(k) =~= serial);
    assert(line.skip(k + 1) =~= state);
    if text::starts_with(line, "List of devices"@) {
        assert(line.take(15)[4] == ' ');
        if n > 4 {
            assert(!text::white_space(serial[4]));
        } else if n == 4 {
            assert(line[4] == '\t');
        } else {
            assert(line.take(15)[n] == "List of devices"@[n]);
        }
        assert(false);
    }
    if text::starts_with(line, "*"@) {
        assert(line.take(1)[0] == '*');
    }
    assert(!text::white_space(serial[n - 1]));
    assert(text::trim(serial) == serial);
    split::white_space_is_found(serial);
    if split::find_white_space(serial) < n {
        assert(text::white_space(serial[split::find_white_space(serial) as int]));
    }
}

/// A target that `hdc` lists is its line, unless that says that there is none.
pub proof fn targets_are_listed(line: Seq<char>)
    requires
        line.len() > 0,
        !text::white_space(line[0]) && !text::white_space(line.last()),
    ensures
        line != "[Empty]"@ ==> listed(Transport::Hdc, line) == Some(line),
        line == "[Empty]"@ ==> listed(Transport::Hdc, line) is None,
        listed(Transport::Hdc, Seq::<char>::empty()) is None,
{
    assert(text::trim(line) == line);
    assert(text::trim(Seq::<char>::empty()).len() == 0);
}

/// The devices of a list are those that its lines list, in their order.
pub proof fn devices_keep_their_order(
    transport: Transport,
    a: Seq<Seq<char>>,
    b: Seq<Seq<char>>,
    line: Seq<char>,
)
    ensures
        listed_devices(transport, a + b) == listed_devices(transport, a) + listed_devices(
            transport,
            b,
        ),
        match listed(transport, line) {
            Some(device) => listed_devices(transport, seq![line]) == seq![device],
            None => listed_devices(transport, seq![line]).len() == 0,
        },
    decreases b.len(),
{
    let none = Seq::<Seq<char>>::empty();
    assert(seq![line].drop_last() =~= none);
    assert(listed_devices(transport, none) =~= none);
    if let Some(device) = listed(transport, line) {
        assert(none.push(device) =~= seq![device]);
    }
    if b.len() == 0 {
        assert(a + b =~= a);
        assert(listed_devices(transport, b) =~= none);
        assert(listed_devices(transport, a) + none =~= listed_devices(transport, a));
    } else {
        let front = b.drop_last();
        devices_keep_their_order(transport, a, front, line);
        assert((a + b).drop_last() =~= a + front);
        assert((a + b).last() == b.last());
        if let Some(device) = listed(transport, b.last()) {
            assert(listed_devices(transport, a) + listed_devices(transport, front).push(device)
                =~= (listed_devices(transport, a) + listed_devices(transport, front)).push(device));
        }
    }
}

/// The tool is told the device before anything else, if one is chosen, and then all words
/// of the command in their order.
pub proof fn device_is_told_first(
    flag: Seq<char>,
    device: Option<Seq<char>>,
    cmd: Seq<char>,
    shell: Option<Seq<Seq<char>>>,
    i: int,
)
    requires
        0 <= i,
    ensures
        ({
            let args = tool_args(flag, device, cmd, shell);
            let first: int = if device is Some {
                2
            } else {
                0
            };
            &&& device is Some ==> args.len() >= 2 && args[0] == flag && args[1] == device->0
            &&& shell is Some ==> args.len() == first + shell->0.len()
            &&& shell is Some && i < shell->0.len() ==> args[first + i] == shell->0[i]
            &&& shell is None ==> args.len() == first + split::words(cmd).len()
            &&& shell is None && i < split::words(cmd).len() ==> args[first + i] == split::words(
                cmd,
            )[i]
        }),
{
}

} // verus!

//! The tools that connect to devices, and the commands that they run.

use crate::model::LogFormat;
use crate::split;
use crate::split::{find_white_space_from, split_words};
use crate::text;
use crate::text::{chars_contain, chars_of, same_text, string_of};
use vstd::prelude::*;
use vstd::slice::slice_subrange;

verus! {

/// The tool that connects to a device.
#[derive(Debug, Clone, Copy, PartialEq, Eq, Structural)]
pub enum Transport {
    /// `adb`, for Android.
    Adb,
    /// `hdc`, for HarmonyOS.
    Hdc,
}

impl Default for Transport {
    fn default() -> (r: Self)
        ensures
            r == Transport::Adb,
    {
        Transport::Adb
    }
}

impl Transport {
    /// Name of the program.
    pub open spec fn binary_name(self) -> Seq<char> {
        match self {
            Transport::Adb => "adb"@,
            Transport::Hdc => "hdc"@,
        }
    }

    /// Name of the program.
    pub fn binary(self) -> (r: &'static str)
        ensures
            r@ == self.binary_name(),
    {
        match self {
            Transport::Adb => "adb",
            Transport::Hdc => "hdc",
        }
    }

    /// What the tool is called in the toolbar.
    pub fn label(self) -> (r: &'static str)
        ensures
            r@ == match self {
                Transport::Adb => "adb (Android)"@,
                Transport::Hdc => "hdc (HarmonyOS)"@,
            },
    {
        match self {
            Transport::Adb => "adb (Android)",
            Transport::Hdc => "hdc (HarmonyOS)",
        }
    }

    /// The option that names the device to the tool.
    pub fn device_flag(self) -> (r: &'static str)
        ensures
            r@ == match self {
                Transport::Adb => "-s"@,
                Transport::Hdc => "-t"@,
            },
    {
        match self {
            Transport::Adb => "-s",
            Transport::Hdc => "-t",
        }
    }

    /// The arguments with which the tool lists the devices.
    pub fn list_args(self) -> (r: Vec<String>)
        ensures
            split::texts(r@) == match self {
                Transport::Adb => seq!["devices"@],
                Transport::Hdc => seq!["list"@, "targets"@],
            },
    {
        let mut args: Vec<String> = Vec::new();
        match self {
            Transport::Adb => {
                args.push("devices".to_string());
            },
            Transport::Hdc => {
                args.push("list".to_string());
                args.push("targets".to_string());
            },
        }
        args
    }
}

/// The format of the lines of a command that comes with the program.
pub open spec fn builtin_format(cmd: Seq<char>) -> Option<LogFormat> {
    if cmd == "logcat -v threadtime"@ {
        Some(LogFormat::ThreadTime)
    } else if cmd == "logcat -v time"@ || cmd == "logcat -b radio -v time"@ || cmd
        == "logcat -b events -v time"@ {
        Some(LogFormat::Time)
    } else if cmd == "hilog -v threadtime -r"@ || cmd == "hilog -v time -r"@ || cmd
        == "hilog -D 0x2F00 -v time"@ || cmd == "hilog -D 0x2D00 -v time"@ {
        Some(LogFormat::HiLog)
    } else if cmd == "shell cat /proc/kmsg"@ {
        Some(LogFormat::Kernel)
    } else {
        None
    }
}

/// The format of the lines of a command that comes with the program.
pub fn builtin_command(cmd: &str) -> (r: Option<LogFormat>)
    ensures
        r == builtin_format(cmd@),
{
    if same_text(cmd, "logcat -v threadtime") {
        Some(LogFormat::ThreadTime)
    } else if same_text(cmd, "logcat -v time") || same_text(cmd, "logcat -b radio -v time")
        || same_text(cmd, "logcat -b events -v time") {
        Some(LogFormat::Time)
    } else if same_text(cmd, "hilog -v threadtime -r") || same_text(cmd, "hilog -v time -r")
        || same_text(cmd, "hilog -D 0x2F00 -v time") || same_text(cmd, "hilog -D 0x2D00 -v time") {
        Some(LogFormat::HiLog)
    } else if same_text(cmd, "shell cat /proc/kmsg") {
        Some(LogFormat::Kernel)
    } else {
        None
    }
}

/// The format that the value of the option `-v` asks for.
pub open spec fn verbosity_format(value: Seq<char>) -> LogFormat {
    if value == "threadtime"@ || value == "long"@ {
        LogFormat::ThreadTime
    } else if value == "time"@ {
        LogFormat::Time
    } else if value == "brief"@ || value == "process"@ || value == "tag"@ {
        LogFormat::Brief
    } else {
        LogFormat::Unknown
    }
}

/// The format that the first `-v` with a value, at or behind word `i`, asks for.
pub open spec fn flag_format(words: Seq<Seq<char>>, i: int) -> LogFormat
    decreases words.len() - i,
{
    if i + 1 >= words.len() {
        LogFormat::Unknown
    } else if words[i] == "-v"@ {
        verbosity_format(words[i + 1])
    } else {
        flag_format(words, i + 1)
    }
}

/// The format of the lines of a command.
pub open spec fn command_format(cmd: Seq<char>) -> LogFormat {
    match builtin_format(cmd) {
        Some(format) => format,
        None => if text::has_substring(cmd, "/kmsg"@) {
            LogFormat::Kernel
        } else {
            flag_format(split::words(cmd), 0)
        },
    }
}

/// The format that the value of the option `-v` asks for.
fn format_of_verbosity(value: &str) -> (r: LogFormat)
    ensures
        r == verbosity_format(value@),
{
    if same_text(value, "threadtime") || same_text(value, "long") {
        LogFormat::ThreadTime
    } else if same_text(value, "time") {
        LogFormat::Time
    } else if same_text(value, "brief") || same_text(value, "process") || same_text(value, "tag") {
        LogFormat::Brief
    } else {
        LogFormat::Unknown
    }
}

/// The format that the first `-v` with a value asks for.
fn format_of_flag(words: &Vec<String>) -> (r: LogFormat)
    ensures
        r == flag_format(split::texts(words@), 0),
{
    let ghost all = split::texts(words@);
    let n: usize = words.len();
    let mut i: usize = 0;
    while i < n && n - i > 1
        invariant
            n == words@.len(),
            i <= n,
            all == split::texts(words@),
            flag_format(all, i as int) == flag_format(all, 0),
        decreases n - i,
    {
        assert(all[i as int] == words@[i as int]@);
        assert(all[i + 1] == words@[i + 1]@);
        if same_text(words[i].as_str(), "-v") {
            return format_of_verbosity(words[i + 1].as_str());
        }
        i = i + 1;
    }
    LogFormat::Unknown
}

/// The format of the lines of a command: a command that comes with the program
/// has its own; otherwise the option `-v` tells, and the kernel's message file has
/// the kernel's.
pub fn detect_format_from_cmd(cmd: &str) -> (r: LogFormat)
    ensures
        r == command_format(cmd@),
{
    if let Some(format) = builtin_command(cmd) {
        return format;
    }
    let chars = chars_of(cmd);
    if chars_contain(chars.as_slice(), chars_of("/kmsg").as_slice()) {
        return LogFormat::Kernel;
    }
    format_of_flag(&split_words(chars.as_slice()))
}

/// The serial of a device as the device list names it: its first word. The list
/// may say more of a device behind it.
pub open spec fn serial_of(label: Seq<char>) -> Seq<char> {
    label.take(split::find_white_space(label) as int)
}

/// The serial of a device as the device list names it.
pub fn device_serial(label: &str) -> (r: String)
    ensures
        r@ == serial_of(label@),
{
    let chars = chars_of(label);
    assert(chars@.skip(0) == chars@);
    let end = find_white_space_from(chars.as_slice(), 0);
    string_of(slice_subrange(chars.as_slice(), 0, end))
}

/// Whether the tool can run a command: `logcat` is Android's, `hilog` is
/// HarmonyOS's, and other commands run on both.
pub open spec fn can_run(transport: Transport, cmd: Seq<char>) -> bool {
    let words = split::words(cmd);
    match transport {
        Transport::Adb => words.len() == 0 || words[0] != "hilog"@,
        Transport::Hdc => words.len() == 0 || words[0] != "logcat"@,
    }
}

/// Whether the tool can run a command.
pub fn runs_command(transport: Transport, cmd: &str) -> (r: bool)
    ensures
        r == can_run(transport, cmd@),
{
    let words = split_words(chars_of(cmd).as_slice());
    assert(split::texts(words@).len() == words@.len());
    if words.len() == 0 {
        return true;
    }
    assert(split::texts(words@)[0] == words@[0]@);
    match transport {
        Transport::Adb => !same_text(words[0].as_str(), "hilog"),
        Transport::Hdc => !same_text(words[0].as_str(), "logcat"),
    }
}

/// A command that begins with `logcat` runs on Android only, one that begins with `hilog`
/// on HarmonyOS only, and any other one on both.
pub proof fn tools_run_their_commands(cmd: Seq<char>)
    ensures
        ({
            let words = split::words(cmd);
            let first = words[0];
            &&& words.len() > 0 && first == "logcat"@ ==> can_run(Transport::Adb, cmd) && !can_run(
                Transport::Hdc,
                cmd,
            )
            &&& words.len() > 0 && first == "hilog"@ ==> !can_run(Transport::Adb, cmd) && can_run(
                Transport::Hdc,
                cmd,
            )
            &&& words.len() == 0 || (first != "logcat"@ && first != "hilog"@) ==> can_run(
                Transport::Adb,
                cmd,
            ) && can_run(Transport::Hdc, cmd)
        }),
{
    reveal_strlit("logcat");
    reveal_strlit("hilog");
    assert("logcat"@.len() == 6 && "hilog"@.len() == 5);
}

/// The option `-v` tells the format of the lines, wherever it stands, and the first one
/// does if there are several. Without one the format is not known.
pub proof fn verbosity_option_tells_the_format(
    before: Seq<Seq<char>>,
    value: Seq<char>,
    behind: Seq<Seq<char>>,
)
    requires
        !before.contains("-v"@),
    ensures
        ({
            let f = flag_format(before + seq!["-v"@, value] + behind, 0);
            &&& value == "threadtime"@ || value == "long"@ ==> f == LogFormat::ThreadTime
            &&& value == "time"@ ==> f == LogFormat::Time
            &&& value == "brief"@ || value == "process"@ || value == "tag"@ ==> f
                == LogFormat::Brief
        }),
        flag_format(before, 0) == LogFormat::Unknown,
{
    let words = before + seq!["-v"@, value] + behind;
    lemma_flag_from(words, before.len() as int, 0);
    assert(words[before.len() as int] == "-v"@);
    assert(words[before.len() + 1 as int] == value);
    lemma_no_flag(before, 0);
    reveal_strlit("threadtime");
    reveal_strlit("long");
    reveal_strlit("time");
    reveal_strlit("brief");
    reveal_strlit("process");
    reveal_strlit("tag");
    assert("time"@.len() == 4 && "long"@.len() == 4 && "time"@[0] == 't' && "long"@[0] == 'l');
    assert("threadtime"@.len() == 10 && "brief"@.len() == 5 && "process"@.len() == 7);
    assert("tag"@.len() == 3);
}

proof fn lemma_flag_from(words: Seq<Seq<char>>, k: int, i: int)
    requires
        0 <= i <= k,
        k + 1 < words.len(),
        forall|j: int| 0 <= j < k ==> #[trigger] words[j] != "-v"@,
    ensures
        flag_format(words, i) == flag_format(words, k),
    decreases k - i,
{
    if i < k {
        assert(words[i] != "-v"@);
        lemma_flag_from(words, k, i + 1);
    }
}

proof fn lemma_no_flag(words: Seq<Seq<char>>, i: int)
    requires
        0 <= i,
        !words.contains("-v"@),
    ensures
        flag_format(words, i) == LogFormat::Unknown,
    decreases words.len() - i,
{
    if i + 1 < words.len() {
        assert(words.contains(words[i]));
        lemma_no_flag(words, i + 1);
    }
}

/// The serial of a device is what stands before the first white space of its label.
pub proof fn serial_is_the_first_word(serial: Seq<char>, rest: Seq<char>)
    requires
        forall|i: int| 0 <= i < serial.len() ==> !text::white_space(#[trigger] serial[i]),
        rest.len() > 0 ==> text::white_space(rest[0]),
    ensures
        serial_of(serial + rest) == serial,
{
    let label = serial + rest;
    split::white_space_is_found(label);
    let k = split::find_white_space(label) as int;
    if k < serial.len() {
        assert(label[k] == serial[k]);
    } else if k > serial.len() {
        assert(label[serial.len() as int] == rest[0]);
    }
    assert(label.take(k) =~= serial);
}

/// A command of the user's own that reads the kernel's messages has the kernel's format,
/// and another one that which its option `-v` asks for.
pub proof fn own_commands_tell_their_format(before: Seq<char>, behind: Seq<char>, cmd: Seq<char>)
    ensures
        builtin_format(before + "/kmsg"@ + behind) is None ==> command_format(
            before + "/kmsg"@ + behind,
        ) == LogFormat::Kernel,
        builtin_format(cmd) is None && !text::has_substring(cmd, "/kmsg"@) ==> command_format(cmd)
            == flag_format(split::words(cmd), 0),
        builtin_format(cmd) is Some ==> command_format(cmd) == builtin_format(cmd)->0,
{
    let kernel = before + "/kmsg"@ + behind;
    let at = before.len() as int;
    assert(kernel.subrange(at, at + "/kmsg"@.len()) =~= "/kmsg"@);
    assert(text::occurs_at(kernel, "/kmsg"@, at));
}

} // verus!

//! What the status bar says.

use crate::model::Model;
use crate::text::same_text;
use crate::transport::Transport;
use vstd::prelude::*;

verus! {

/// How long a message stays, in milliseconds.
pub const STATUS_TTL_MS: u64 = 5000;

/// A message for the user.
#[derive(Debug)]
pub enum Notice {
    /// A command was started on a device.
    DeviceStarted { tool: Transport, cmd: String },
    /// A command could not be started.
    DeviceStartFailed { tool: Transport, reason: String },
    /// The command was stopped.
    DeviceStopped { tool: Transport },
    /// The command goes on, but its lines are held back.
    DevicePaused { tool: Transport },
    /// The lines come through again.
    DeviceResumed { tool: Transport },
    /// The command has ended by itself.
    DeviceEnded { tool: Transport },
    /// The command has ended by itself and said why.
    DeviceEndedWith { tool: Transport, reason: String },
    /// So many devices were found.
    Devices { tool: Transport, count: usize },
    /// No device was found.
    NoDevices,
    /// The devices could not be listed.
    DevicesFailed { tool: Transport, reason: String },
    /// There is no such line.
    GotoOutOfRange { line: usize, total: usize },
    /// The line is hidden by the filter.
    GotoFiltered { line: usize },
    /// So many rows are selected after a click with the control key.
    CtrlClick { count: usize },
    /// So many rows are selected after a click with shift.
    ShiftClick { count: usize },
    /// So many rows were copied.
    CopiedRows { count: usize },
    /// A row was copied.
    CopiedRow,
    /// The clipboard could not be used.
    ClipboardFailed { reason: String },
    /// There is nothing to save.
    NothingToSave,
    /// So many rows were saved.
    Saved { count: usize, path: String },
    /// The rows could not be saved.
    SaveFailed { reason: String },
}

/// What is shown of a message, and since when.
#[verifier::ext_equal]
pub struct StatusView {
    pub text: Seq<char>,
    pub seen: Seq<char>,
    pub shown_at: u64,
}

/// The message in the status bar.
#[derive(Debug)]
pub struct Status {
    /// The message; empty if there is none.
    pub text: String,
    /// The message as it was when the clock was looked at last.
    pub seen: String,
    /// When that message appeared.
    pub shown_at: u64,
}

impl View for Status {
    type V = StatusView;

    open spec fn view(&self) -> StatusView {
        StatusView { text: self.text@, seen: self.seen@, shown_at: self.shown_at }
    }
}

/// The message at a time: a new one is shown from now on, and one that was shown
/// for longer than messages stay is taken away.
pub open spec fn ticked(s: StatusView, now: u64) -> StatusView {
    let shown_at = if s.text == s.seen {
        s.shown_at
    } else {
        now
    };
    if s.text.len() > 0 && now - shown_at > STATUS_TTL_MS {
        StatusView { text: seq![], seen: seq![], shown_at }
    } else {
        StatusView { text: s.text, seen: s.text, shown_at }
    }
}

impl Status {
    /// No message.
    pub fn new() -> (r: Self)
        ensures
            r@ == (StatusView { text: seq![], seen: seq![], shown_at: 0 }),
    {
        Status { text: String::new(), seen: String::new(), shown_at: 0 }
    }

    /// Looks at the clock, which shows milliseconds.
    pub fn tick_status(&mut self, now: u64)
        ensures
            final(self)@ == ticked(old(self)@, now),
    {
        if !same_text(self.text.as_str(), self.seen.as_str()) {
            self.seen = self.text.clone();
            self.shown_at = now;
        }
        if !self.text.as_str().is_empty() && now > self.shown_at && now - self.shown_at
            > STATUS_TTL_MS {
            self.text = String::new();
            self.seen = String::new();
        }
    }
}

/// A new message does not inherit the time of the one before it: it is shown, and
/// stays until it was shown for as long as messages stay.
pub proof fn message_stays_its_time(s: StatusView, first: u64, later: u64)
    requires
        s.text != s.seen,
        first <= later <= first + STATUS_TTL_MS,
    ensures
        ticked(s, first).text == s.text,
        ticked(ticked(s, first), later).text == s.text,
{
}

/// A message is taken away when it was shown for longer than messages stay.
pub proof fn message_goes_away(s: StatusView, first: u64, later: u64)
    requires
        s.text != s.seen,
        later > first + STATUS_TTL_MS,
    ensures
        ticked(ticked(s, first), later).text.len() == 0,
{
}

/// What the status bar says at its end.
#[derive(Debug, Clone, Copy, PartialEq, Eq, Structural)]
pub enum Readout {
    /// The message.
    Message,
    /// How many rows are selected.
    Selected(usize),
    Nothing,
}

/// What the status bar says at its end: the message, and without one how many rows
/// are selected, if any are.
pub fn readout(status: &Status, selected: usize) -> (r: Readout)
    ensures
        r == if status@.text.len() > 0 {
            Readout::Message
        } else if selected > 0 {
            Readout::Selected(selected)
        } else {
            Readout::Nothing
        },
{
    if !status.text.as_str().is_empty() {
        Readout::Message
    } else if selected > 0 {
        Readout::Selected(selected)
    } else {
        Readout::Nothing
    }
}

/// Whether the filters hide every entry that there is, which the bar points out.
pub fn hides_everything(model: &Model) -> (r: bool)
    ensures
        r == (model.entries@.len() > 0 && model.filtered@.len() == 0),
{
    model.entries.len() > 0 && model.filtered.len() == 0
}

/// The message after `count` rows were put on the clipboard, or were not.
pub fn copy_notice(count: usize, error: Option<String>) -> (r: Notice)
    ensures
        match error {
            Some(reason) => r == (Notice::ClipboardFailed { reason }),
            None => r == if count > 1 {
                Notice::CopiedRows { count }
            } else {
                Notice::CopiedRow
            },
        },
{
    match error {
        Some(reason) => Notice::ClipboardFailed { reason },
        None => if count > 1 {
            Notice::CopiedRows { count }
        } else {
            Notice::CopiedRow
        },
    }
}

/// What has become of saving the filtered rows.
pub enum SaveEvent {
    /// It goes on.
    Pending,
    /// So many rows were written to the file.
    Done { count: usize, path: String },
    /// It failed.
    Failed(String),
    /// The worker is gone without a word.
    Lost,
}

/// Whether saving is over, and the message then. A worker that is gone counts as a
/// failure, so that saving does not seem to go on forever.
pub fn save_notice(event: SaveEvent) -> (r: Option<Notice>)
    ensures
        match event {
            SaveEvent::Pending => r is None,
            SaveEvent::Done { count, path } => r == Some(Notice::Saved { count, path }),
            SaveEvent::Failed(reason) => r == Some(Notice::SaveFailed { reason }),
            SaveEvent::Lost => r matches Some(Notice::SaveFailed { reason }) && reason@
                == "save thread terminated unexpectedly"@,
        },
{
    match event {
        SaveEvent::Pending => None,
        SaveEvent::Done { count, path } => Some(Notice::Saved { count, path }),
        SaveEvent::Failed(reason) => Some(Notice::SaveFailed { reason }),
        SaveEvent::Lost => Some(
            Notice::SaveFailed { reason: "save thread terminated unexpectedly".to_string() },
        ),
    }
}

/// A message that is shown already stays until five seconds have gone by since it
/// appeared, and is taken away then; looking at the clock does not make it stay longer.
pub proof fn shown_message_stays_five_seconds(s: StatusView, now: u64)
    requires
        s.text == s.seen,
    ensures
        now <= s.shown_at + 5000 ==> ticked(s, now).text == s.text,
        now > s.shown_at + 5000 ==> ticked(s, now).text.len() == 0,
        ticked(s, now).shown_at == s.shown_at,
        ticked(s, now).seen == ticked(s, now).text,
{
}

/// A message that was not shown yet is shown from now on.
pub proof fn new_message_is_shown(s: StatusView, now: u64)
    requires
        s.text != s.seen,
    ensures
        ticked(s, now).text == s.text,
        ticked(s, now).seen == s.text,
        ticked(s, now).shown_at == now,
{
}

} // verus!

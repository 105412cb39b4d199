//! Clipboard access results and the change monitor.

use vstd::prelude::*;

verus! {

/// Why a clipboard call did not succeed.
#[derive(Debug)]
pub enum ClipboardError {
    AccessDenied,
    UnsupportedFormat,
    Unknown(String),
}

/// What the platform's clipboard routine reported for one call.
#[derive(Debug)]
pub enum Access<T> {
    /// The call went through and produced this value.
    Done(T),
    /// The call failed; the text is the platform's own description.
    Failed(String),
    /// This platform has no clipboard routine.
    Unsupported,
}

/// The sentence for `AccessDenied`.
pub open spec fn access_denied_text() -> Seq<char> {
    "Clipboard access denied"@
}

/// The sentence for `UnsupportedFormat`.
pub open spec fn unsupported_format_text() -> Seq<char> {
    "Unsupported clipboard format"@
}

/// What the sentence for `Unknown` starts with.
pub open spec fn unknown_prefix() -> Seq<char> {
    "Clipboard error: "@
}

/// What the reason of a failed read starts with.
pub open spec fn read_failure_prefix() -> Seq<char> {
    "Failed to read clipboard: "@
}

/// What the reason of a failed write starts with.
pub open spec fn write_failure_prefix() -> Seq<char> {
    "Failed to write clipboard: "@
}

/// The reason given on a platform without a clipboard routine.
pub open spec fn unsupported_platform_text() -> Seq<char> {
    "Platform not supported"@
}

impl ClipboardError {
    /// The sentence shown to a person for this error.
    pub open spec fn text(self) -> Seq<char> {
        match self {
            ClipboardError::AccessDenied => access_denied_text(),
            ClipboardError::UnsupportedFormat => unsupported_format_text(),
            ClipboardError::Unknown(msg) => unknown_prefix() + msg@,
        }
    }

    /// Renders the error as a sentence.
    pub fn message(&self) -> (out: String)
        ensures
            out@ == self.text(),
    {
        match self {
            ClipboardError::AccessDenied => String::from_str("Clipboard access denied"),
            ClipboardError::UnsupportedFormat => String::from_str("Unsupported clipboard format"),
            ClipboardError::Unknown(msg) => String::from_str("Clipboard error: ").concat(
                msg.as_str(),
            ),
        }
    }
}

/// The error that a failed or missing platform call turns into, given the
/// sentence that introduces the platform's description.
pub open spec fn failure_of<T>(access: Access<T>, prefix: Seq<char>) -> Seq<char> {
    match access {
        Access::Failed(reason) => prefix + reason@,
        _ => unsupported_platform_text(),
    }
}

/// Turns the outcome of a platform read into the result a caller sees: the
/// text that was read, or `Unknown` with the reason.
pub fn get_text(access: Access<String>) -> (result: Result<String, ClipboardError>)
    ensures
        match access {
            Access::Done(text) => result matches Ok(got) && got@ == text@,
            _ => result matches Err(ClipboardError::Unknown(msg)) && msg@ == failure_of(
                access,
                read_failure_prefix(),
            ),
        },
{
    match access {
        Access::Done(text) => Ok(text),
        Access::Failed(reason) => Err(
            ClipboardError::Unknown(
                String::from_str("Failed to read clipboard: ").concat(reason.as_str()),
            ),
        ),
        Access::Unsupported => Err(
            ClipboardError::Unknown(String::from_str("Platform not supported")),
        ),
    }
}

/// Turns the outcome of a platform write into the result a caller sees.
pub fn set_text(access: Access<()>) -> (result: Result<(), ClipboardError>)
    ensures
        match access {
            Access::Done(_) => result is Ok,
            _ => result matches Err(ClipboardError::Unknown(msg)) && msg@ == failure_of(
                access,
                write_failure_prefix(),
            ),
        },
{
    match access {
        Access::Done(_) => Ok(()),
        Access::Failed(reason) => Err(
            ClipboardError::Unknown(
                String::from_str("Failed to write clipboard: ").concat(reason.as_str()),
            ),
        ),
        Access::Unsupported => Err(
            ClipboardError::Unknown(String::from_str("Platform not supported")),
        ),
    }
}

/// Milliseconds between two readings of the clipboard.
pub const POLL_INTERVAL_MILLIS: u64 = 500;

/// Whether a reading is a change that has to be reported: it is not empty and
/// differs from the last reading that was reported.
pub open spec fn is_change(last: Seq<char>, reading: Seq<char>) -> bool {
    reading.len() > 0 && reading != last
}

/// The last reported content after a reading.
pub open spec fn remembered(last: Seq<char>, reading: Seq<char>) -> Seq<char> {
    if is_change(last, reading) {
        reading
    } else {
        last
    }
}

/// Watches the clipboard for changes. The monitor remembers the last content
/// it reported; whoever polls the clipboard hands each reading to
/// [`ClipboardMonitor::observe`] and passes on what comes back.
pub struct ClipboardMonitor {
    last_content: String,
    is_running: bool,
}

impl ClipboardMonitor {
    /// The content that was last reported, empty before the first report.
    pub closed spec fn last(&self) -> Seq<char> {
        self.last_content@
    }

    /// Whether the monitor has been started and not stopped since.
    pub closed spec fn running(&self) -> bool {
        self.is_running
    }

    /// A stopped monitor that has reported nothing yet.
    pub fn new() -> (monitor: Self)
        ensures
            monitor.last() == Seq::<char>::empty(),
            !monitor.running(),
    {
        ClipboardMonitor { last_content: String::new(), is_running: false }
    }

    /// Marks the monitor as running. Returns whether it was stopped before,
    /// that is whether a polling worker has to be set going; starting a
    /// running monitor changes nothing.
    pub fn start(&mut self) -> (launch: bool)
        ensures
            final(self).running(),
            launch == !old(self).running(),
            final(self).last() == old(self).last(),
    {
        let launch = !self.is_running;
        self.is_running = true;
        launch
    }

    /// Marks the monitor as stopped; the worker ends when it next looks.
    pub fn stop(&mut self)
        ensures
            !final(self).running(),
            final(self).last() == old(self).last(),
    {
        self.is_running = false;
    }

    /// Whether the monitor is running.
    pub fn is_running(&self) -> (running: bool)
        ensures
            running == self.running(),
    {
        self.is_running
    }

    /// Takes in one reading of the clipboard. A reading that is not empty and
    /// differs from the last reported content is remembered and returned, to
    /// be reported once; a failed reading, an empty one and a repeated one
    /// return `None` and change nothing.
    pub fn observe(&mut self, reading: Result<String, ClipboardError>) -> (report: Option<String>)
        ensures
            final(self).running() == old(self).running(),
            match reading {
                Ok(text) => {
                    &&& final(self).last() == remembered(old(self).last(), text@)
                    &&& match report {
                        Some(content) => is_change(old(self).last(), text@) && content@ == text@,
                        None => !is_change(old(self).last(), text@),
                    }
                },
                Err(_) => report is None && final(self).last() == old(self).last(),
            },
    {
        match reading {
            Ok(text) => {
                if text != self.last_content && !text.as_str().is_empty() {
                    self.last_content = text.clone();
                    Some(text)
                } else {
                    None
                }
            },
            Err(_) => None,
        }
    }
}

impl Default for ClipboardMonitor {
    fn default() -> (monitor: Self)
        ensures
            monitor.last() == Seq::<char>::empty(),
            !monitor.running(),
    {
        ClipboardMonitor::new()
    }
}

/// Two equal readings in a row are reported at most once: whatever the first
/// did, the second is no change.
pub proof fn lemma_repeated_reading_is_not_reported(last: Seq<char>, reading: Seq<char>)
    ensures
        !is_change(remembered(last, reading), reading),
        reading.len() > 0 ==> remembered(last, reading) == reading,
{
}

/// An empty reading is never reported and leaves the remembered content as it
/// was, whatever that content is.
pub proof fn lemma_empty_reading_is_not_reported(last: Seq<char>)
    ensures
        !is_change(last, Seq::<char>::empty()),
        remembered(last, Seq::<char>::empty()) == last,
{
}

} // verus!

use std::time::Duration;
use vstd::prelude::*;

verus! {

/// The identifier that the datapack's `test_block` writes before each log.
pub const LOG_IDENTIFIER: &'static str = "Test log";

/// The name of the game directory that holds `logs/latest.log`.
pub const MINECRAFT_DIR: &'static str = ".minecraft";

/// The `Duration` that `Duration::from_millis` gives for `ms` milliseconds.
/// `Duration` is `Copy`: its `clone` gives back the same duration.
pub assume_specification[ <Duration as Clone>::clone ](d: &Duration) -> (r: Duration)
    ensures
        r == *d,
;

pub uninterp spec fn spec_duration_from_millis(ms: u64) -> Duration;

/// Calls `std::time::Duration::from_millis`; the duration it gives for `ms`
/// is named by `spec_duration_from_millis`.
#[verifier::external_body]
fn duration_from_millis(ms: u64) -> (d: Duration)
    ensures
        d == spec_duration_from_millis(ms),
{
    Duration::from_millis(ms)
}

/// How the log file is watched: the identifier a log line carries and how
/// long to wait between looks at the file.
#[derive(Debug, Clone)]
pub struct WatchConfig {
    pub identifier: String,
    pub interval: Duration,
}

impl Default for WatchConfig {
    /// The datapack's identifier, looked for every 50 milliseconds.
    fn default() -> (r: Self)
        ensures
            r.identifier@ == LOG_IDENTIFIER@,
            r.interval == spec_duration_from_millis(50),
    {
        WatchConfig { identifier: String::from_str(LOG_IDENTIFIER), interval: duration_from_millis(50) }
    }
}

/// What the watcher learns from the file system.
pub enum WatchEvent {
    /// The log file could not be opened.
    FileMissing,
    /// The log file was opened; it was last modified this many nanoseconds
    /// after the Unix epoch (0 for any earlier time).
    Opened { modified: u128 },
    /// A line of this many bytes, its `\n` not counted, was read.
    LineRead { len: u64 },
    /// Every line there was has been read.
    EndOfFile,
}

/// What the watcher does next.
#[derive(Debug, PartialEq, Eq, Structural)]
pub enum WatchAction {
    /// Wait this many intervals, then open the file again.
    Sleep(u32),
    /// Read the lines that start at this byte offset.
    ReadFrom(u64),
    /// Go on reading.
    Continue,
}

/// Where the watcher stands: how far into the file it has read, and when
/// the file it last read was modified.
#[derive(Debug, Clone, Copy, PartialEq, Eq, Structural)]
pub struct WatchState {
    pub byte_offset: u64,
    pub latest_modified: u128,
}

/// What an event does to the state, and the action that follows it.
pub open spec fn spec_step(s: WatchState, e: WatchEvent) -> (WatchState, WatchAction) {
    match e {
        WatchEvent::FileMissing => (s, WatchAction::Sleep(5)),
        WatchEvent::Opened { modified } => if modified <= s.latest_modified {
            (s, WatchAction::Sleep(1))
        } else {
            (WatchState { latest_modified: modified, ..s }, WatchAction::ReadFrom(s.byte_offset))
        },
        WatchEvent::LineRead { len } => (
            WatchState { byte_offset: (s.byte_offset + len) as u64, ..s },
            WatchAction::Continue,
        ),
        WatchEvent::EndOfFile => (s, WatchAction::Sleep(1)),
    }
}

/// The event can be taken: a line does not carry the offset past `u64::MAX`.
pub open spec fn step_fits(s: WatchState, e: WatchEvent) -> bool {
    match e {
        WatchEvent::LineRead { len } => s.byte_offset + len <= u64::MAX,
        _ => true,
    }
}

impl WatchState {
    /// Nothing read yet, and no modification seen after the Unix epoch.
    pub fn new() -> (s: Self)
        ensures
            s.byte_offset == 0,
            s.latest_modified == 0,
    {
        WatchState { byte_offset: 0, latest_modified: 0 }
    }

    /// Takes one event: a missing file waits five intervals; a file not
    /// modified since the last read waits one; a newer file is read from the
    /// offset reached so far; each line read moves the offset on by its
    /// length; the end of the file waits one interval.
    pub fn step(&mut self, event: WatchEvent) -> (action: WatchAction)
        requires
            step_fits(*old(self), event),
        ensures
            (*final(self), action) == spec_step(*old(self), event),
    {
        match event {
            WatchEvent::FileMissing => WatchAction::Sleep(5),
            WatchEvent::Opened { modified } => {
                if modified <= self.latest_modified {
                    WatchAction::Sleep(1)
                } else {
                    self.latest_modified = modified;
                    WatchAction::ReadFrom(self.byte_offset)
                }
            },
            WatchEvent::LineRead { len } => {
                self.byte_offset = self.byte_offset + len;
                WatchAction::Continue
            },
            WatchEvent::EndOfFile => WatchAction::Sleep(1),
        }
    }
}

/// The watcher never goes back: no event lowers the byte offset or the
/// modification time it has seen, and a read starts where the last one ended.
pub proof fn law_step_moves_forward(s: WatchState, e: WatchEvent)
    requires
        step_fits(s, e),
    ensures
        spec_step(s, e).0.byte_offset >= s.byte_offset,
        spec_step(s, e).0.latest_modified >= s.latest_modified,
        spec_step(s, e).1 matches WatchAction::ReadFrom(o) ==> o == s.byte_offset,
{
}

/// `n` components make the nearest directory named `.minecraft` on the path:
/// the `n`-th is so named and none after it is.
pub open spec fn is_nearest_minecraft(components: Seq<String>, n: int) -> bool {
    &&& 1 <= n <= components.len()
    &&& components[n - 1]@ == MINECRAFT_DIR@
    &&& forall|k: int| n <= k < components.len() ==> #[trigger] components[k]@ != MINECRAFT_DIR@
}

/// Walks up from a directory, given by its components, to the nearest one
/// named `.minecraft`: gives how many leading components make it, or `None`
/// when no component is so named.
pub fn minecraft_ancestor(components: &Vec<String>) -> (r: Option<usize>)
    ensures
        match r {
            Some(n) => is_nearest_minecraft(components@, n as int),
            None => forall|k: int| 0 <= k < components@.len() ==> #[trigger] components@[k]@ != MINECRAFT_DIR@,
        },
{
    let target = String::from_str(MINECRAFT_DIR);
    let mut n = components.len();
    while n > 0
        invariant
            n <= components@.len(),
            target@ == MINECRAFT_DIR@,
            forall|k: int| n <= k < components@.len() ==> #[trigger] components@[k]@ != MINECRAFT_DIR@,
        decreases n,
    {
        if components[n - 1] == target {
            return Some(n);
        }
        n -= 1;
    }
    None
}

} // verus!

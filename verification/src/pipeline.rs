//! The collection pipeline's decisions: judging idleness, assembling a
//! sample from one probe reading, and choosing what to do with the open
//! day file when a sample arrives.  The probe itself and the queue that
//! carries samples to the store are I/O and live outside this crate,
//! behind the [`WindowManager`] capability.

use vstd::prelude::*;

use crate::interval::Sample;

verus! {

/// What the window probe reports for one tick.
pub struct ActiveWindowData {
    /// Title of the focused window.
    pub window_title: String,
    /// Full path to the executable owning it.
    pub process_name: String,
}

/// An error reported by the window probe; the tick is skipped and logged,
/// never fatal.
pub struct ProbeError {
    pub message: String,
}

/// The capability the collector needs from the platform: the focused
/// window and the user's idle time.  Platform backends implement this
/// outside the crate; a test double returns scripted values.
pub trait WindowManager {
    /// The focused window's title and owning executable path.
    fn get_active_window_data(&mut self) -> Result<ActiveWindowData, ProbeError>;

    /// Milliseconds of user input idle time.
    fn get_idle_time(&mut self) -> Result<u32, ProbeError>;
}

/// Decides whether an idle time means the user is away from keyboard.
pub struct AfkEvaluator {
    threshold_ms: u32,
}

impl AfkEvaluator {
    /// The idle threshold in milliseconds.
    pub closed spec fn spec_threshold_ms(self) -> u32 {
        self.threshold_ms
    }

    /// An evaluator with the threshold given in seconds.
    pub fn from_seconds(threshold_s: u32) -> (r: Self)
        requires
            threshold_s <= u32::MAX / 1000,
        ensures
            r.spec_threshold_ms() == threshold_s * 1000,
    {
        Self { threshold_ms: threshold_s * 1000 }
    }

    /// Away from keyboard exactly when the idle time strictly exceeds the
    /// threshold.
    pub fn is_afk(&self, idle_time: u32) -> (r: bool)
        ensures
            r == (self.spec_threshold_ms() < idle_time),
    {
        self.threshold_ms < idle_time
    }
}

/// Assembles the sample for one collection tick from the probe's reading,
/// the idle time and the clock's timestamp.
pub fn make_sample(
    window: ActiveWindowData,
    evaluator: &AfkEvaluator,
    idle_ms: u32,
    timestamp: i64,
) -> (r: Sample)
    ensures
        r@.window_name == window.window_title@,
        r@.process_name == window.process_name@,
        r@.afk == (evaluator.spec_threshold_ms() < idle_ms),
        r@.timestamp == timestamp as int,
{
    let afk = evaluator.is_afk(idle_ms);
    Sample { window_name: window.window_title, process_name: window.process_name, afk, timestamp }
}

/// What the pipeline does with its open day file when a sample arrives.
#[derive(Debug, Clone, Copy, PartialEq, Eq, Structural)]
pub enum RolloverAction {
    /// The open file is for today: keep appending to it.
    Reuse,
    /// The open file belongs to another day: flush it, then open today's.
    FlushThenOpen,
    /// No file is open yet: open today's.
    Open,
}

/// Chooses the day-rollover action from the day of the currently open
/// file and today's day number.
pub fn rollover_decision(current_day: Option<i64>, today: i64) -> (r: RolloverAction)
    ensures
        r == match current_day {
            Some(d) => if d == today {
                RolloverAction::Reuse
            } else {
                RolloverAction::FlushThenOpen
            },
            None => RolloverAction::Open,
        },
{
    match current_day {
        Some(d) => {
            if d == today {
                RolloverAction::Reuse
            } else {
                RolloverAction::FlushThenOpen
            }
        },
        None => RolloverAction::Open,
    }
}

} // verus!

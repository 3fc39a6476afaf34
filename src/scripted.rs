//! A simulated line that plays back recorded levels, for running the driver
//! without hardware.
use crate::driver::{Event, Line};
use vstd::prelude::*;

verus! {

/// A line that answers samples with the recorded levels in order, then with
/// `idle` once they run out; pulling, releasing and delays only go to the log.
pub struct ScriptedLine {
    script: Vec<bool>,
    next: usize,
    idle: bool,
    events: Ghost<Seq<Event>>,
}

impl ScriptedLine {
    /// A line that will play back `script`, then stay at `idle`.
    pub fn new(script: Vec<bool>, idle: bool) -> (r: ScriptedLine)
        ensures
            r.log() == Seq::<Event>::empty(),
    {
        ScriptedLine { script, next: 0, idle, events: Ghost(Seq::empty()) }
    }

    /// How many times the line has been sampled (saturating at `usize::MAX`).
    pub fn samples_taken(&self) -> usize {
        self.next
    }
}

impl Line for ScriptedLine {
    closed spec fn log(&self) -> Seq<Event> {
        self.events@
    }

    fn set_high(&mut self) {
        self.events = Ghost(self.events@.push(Event::Release));
    }

    fn set_low(&mut self) {
        self.events = Ghost(self.events@.push(Event::PullLow));
    }

    fn is_high(&mut self) -> (r: bool) {
        let level = if self.next < self.script.len() {
            self.script[self.next]
        } else {
            self.idle
        };
        if self.next < usize::MAX {
            self.next = self.next + 1;
        }
        self.events = Ghost(self.events@.push(Event::Sample(level)));
        level
    }

    fn delay_ms(&mut self, ms: u32) {
        self.events = Ghost(self.events@.push(Event::DelayMs(ms)));
    }

    fn delay_us(&mut self, us: u32) {
        self.events = Ghost(self.events@.push(Event::DelayUs(us)));
    }
}

} // verus!

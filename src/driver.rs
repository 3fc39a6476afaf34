//! The sensor handle: wakes the sensor and times its pulses on the line.
use crate::frame::{Error, Humidity, Temperature};
use crate::reader::{
    lemma_replay_push, next, replay, replay_from, start, step_of, Progress, Reader, Step, PULSES,
    TIMEOUT,
};
use vstd::prelude::*;

verus! {

/// How long the line is held low to wake the sensor, in milliseconds.
pub const WAKE_MS: u32 = 20;

/// How long the released line is left to the sensor before sampling, in
/// microseconds.
pub const RELEASE_US: u32 = 40;

/// Time between two samples of a phase, in microseconds.
pub const POLL_US: u32 = 1;

/// One action on a line, as recorded in its log.
#[derive(Clone, Copy, Debug, PartialEq, Eq, Structural)]
pub enum Event {
    /// The line was pulled low.
    PullLow,
    /// The line was released.
    Release,
    /// The line was sampled and read at this level.
    Sample(bool),
    /// A delay of this many milliseconds.
    DelayMs(u32),
    /// A delay of this many microseconds.
    DelayUs(u32),
}

/// An open-drain data line of the platform, with its blocking delays.
///
/// `log` is the record of what has been done on the line so far; each
/// method adds its own action at the end, and a sample records the level it
/// returned.
pub trait Line {
    spec fn log(&self) -> Seq<Event>;

    /// Releases the line, which the pull-up then holds high.
    fn set_high(&mut self)
        ensures
            final(self).log() == old(self).log().push(Event::Release),
    ;

    /// Pulls the line low.
    fn set_low(&mut self)
        ensures
            final(self).log() == old(self).log().push(Event::PullLow),
    ;

    /// Samples the line's level.
    fn is_high(&mut self) -> (r: bool)
        ensures
            final(self).log() == old(self).log().push(Event::Sample(r)),
    ;

    /// Blocks for `ms` milliseconds.
    fn delay_ms(&mut self, ms: u32)
        ensures
            final(self).log() == old(self).log().push(Event::DelayMs(ms)),
    ;

    /// Blocks for `us` microseconds.
    fn delay_us(&mut self, us: u32)
        ensures
            final(self).log() == old(self).log().push(Event::DelayUs(us)),
    ;
}

/// The wake-up: the line held low for `WAKE_MS`, then released for
/// `RELEASE_US` before the first sample.
pub open spec fn wake_up() -> Seq<Event> {
    seq![Event::PullLow, Event::DelayMs(WAKE_MS), Event::Release, Event::DelayUs(RELEASE_US)]
}

/// The actions for one sample at `level` in state `p`: the sample, then a
/// wait of `POLL_US` when the phase goes on.
pub open spec fn poll_step(p: Progress, level: bool) -> Seq<Event> {
    if step_of(p, level) is Wait {
        seq![Event::Sample(level), Event::DelayUs(POLL_US)]
    } else {
        seq![Event::Sample(level)]
    }
}

/// The actions of the polling from state `p` on the samples `levels`.
pub open spec fn polls_from(p: Progress, levels: Seq<bool>) -> Seq<Event>
    decreases levels.len(),
{
    if levels.len() == 0 {
        Seq::empty()
    } else {
        poll_step(p, levels[0]) + polls_from(next(p, levels[0]), levels.drop_first())
    }
}

/// The actions of a measurement's polling on the samples `levels`.
pub open spec fn poll_events(levels: Seq<bool>) -> Seq<Event> {
    polls_from(start(), levels)
}

/// Polling one more sample adds that sample's actions at the end.
pub proof fn lemma_polls_push(p: Progress, levels: Seq<bool>, level: bool)
    ensures
        polls_from(p, levels.push(level)) == polls_from(p, levels) + poll_step(
            replay_from(p, levels),
            level,
        ),
    decreases levels.len(),
{
    if levels.len() == 0 {
        assert(levels.push(level).drop_first() =~= Seq::<bool>::empty());
        assert(polls_from(next(p, level), Seq::<bool>::empty()) == Seq::<Event>::empty());
        assert(polls_from(p, levels.push(level)) =~= poll_step(p, level));
        assert(polls_from(p, levels) + poll_step(p, level) =~= poll_step(p, level));
    } else {
        assert(levels.push(level)[0] == levels[0]);
        assert(levels.push(level).drop_first() =~= levels.drop_first().push(level));
        lemma_polls_push(next(p, levels[0]), levels.drop_first(), level);
        assert(polls_from(p, levels.push(level)) =~= polls_from(p, levels) + poll_step(
            replay_from(p, levels),
            level,
        ));
    }
}

/// After the wake-up a measurement only samples the line and waits between
/// samples: it neither pulls the line low nor releases it again.
pub proof fn lemma_polling_only(p: Progress, levels: Seq<bool>)
    ensures
        forall|i: int|
            0 <= i < polls_from(p, levels).len() ==> (polls_from(p, levels)[i] is Sample
                || polls_from(p, levels)[i] == Event::DelayUs(POLL_US)),
    decreases levels.len(),
{
    if levels.len() > 0 {
        lemma_polling_only(next(p, levels[0]), levels.drop_first());
        let head = poll_step(p, levels[0]);
        let tail = polls_from(next(p, levels[0]), levels.drop_first());
        assert forall|i: int| 0 <= i < polls_from(p, levels).len() implies (polls_from(
            p,
            levels,
        )[i] is Sample || polls_from(p, levels)[i] == Event::DelayUs(POLL_US)) by {
            if i >= head.len() {
                assert(polls_from(p, levels)[i] == tail[i - head.len()]);
            }
        }
    }
}

/// The levels read by the samples in `events`, in order.
pub open spec fn samples_of(events: Seq<Event>) -> Seq<bool>
    decreases events.len(),
{
    if events.len() == 0 {
        Seq::empty()
    } else {
        let head = match events[0] {
            Event::Sample(level) => seq![level],
            _ => Seq::empty(),
        };
        head + samples_of(events.drop_first())
    }
}

proof fn lemma_samples_of_concat(a: Seq<Event>, b: Seq<Event>)
    ensures
        samples_of(a + b) == samples_of(a) + samples_of(b),
    decreases a.len(),
{
    if a.len() == 0 {
        assert(a + b =~= b);
        assert(samples_of(a) + samples_of(b) =~= samples_of(b));
    } else {
        assert((a + b)[0] == a[0]);
        assert((a + b).drop_first() =~= a.drop_first() + b);
        lemma_samples_of_concat(a.drop_first(), b);
        assert(samples_of(a + b) =~= samples_of(a) + samples_of(b));
    }
}

/// The samples in the polling's actions are the samples it was run on: the
/// log of a measurement shows every level the reader was handed, in order.
pub proof fn lemma_poll_samples(p: Progress, levels: Seq<bool>)
    ensures
        samples_of(polls_from(p, levels)) == levels,
    decreases levels.len(),
{
    if levels.len() == 0 {
        assert(samples_of(polls_from(p, levels)) =~= levels);
    } else {
        let head = poll_step(p, levels[0]);
        let rest = polls_from(next(p, levels[0]), levels.drop_first());
        lemma_poll_samples(next(p, levels[0]), levels.drop_first());
        lemma_samples_of_concat(head, rest);
        let tail = head.drop_first();
        assert(head[0] == Event::Sample(levels[0]));
        if step_of(p, levels[0]) is Wait {
            assert(tail =~= seq![Event::DelayUs(POLL_US)]);
            assert(tail[0] == Event::DelayUs(POLL_US));
            assert(tail.drop_first() =~= Seq::<Event>::empty());
            assert(samples_of(tail.drop_first()) == Seq::<bool>::empty());
            assert(samples_of(tail) =~= Seq::<bool>::empty());
        } else {
            assert(tail =~= Seq::<Event>::empty());
            assert(samples_of(tail) == Seq::<bool>::empty());
        }
        assert(samples_of(head) =~= seq![levels[0]] + samples_of(tail));
        assert(samples_of(head) =~= seq![levels[0]]);
        assert(seq![levels[0]] + levels.drop_first() =~= levels);
    }
}

/// A DHT11 sensor on the line it owns.
pub struct Dht11<L> {
    line: L,
    samples: Ghost<Seq<bool>>,
}

impl<L: Line> Dht11<L> {
    /// The line the sensor is on.
    pub closed spec fn line(&self) -> L {
        self.line
    }

    /// The samples of the line taken during the last measurement, in order.
    pub closed spec fn samples(&self) -> Seq<bool> {
        self.samples@
    }

    /// Takes the line over; nothing is done on it yet.
    pub fn new(line: L) -> (r: Self)
        ensures
            r.line() == line,
            r.line().log() == line.log(),
            r.samples() == Seq::<bool>::empty(),
    {
        Dht11 { line, samples: Ghost(Seq::empty()) }
    }

    /// Gives the line back.
    pub fn release(self) -> (r: L)
        ensures
            r == self.line(),
    {
        self.line
    }

    /// Wakes the sensor and reads one measurement from it.
    ///
    /// The line sees the wake-up, then for each sample the sample and, while
    /// a phase goes on, a wait of `POLL_US`; nothing else. The result is the
    /// one those samples decide, and the line is sampled no further than
    /// needed to decide it.
    pub fn measure(&mut self) -> (r: Result<(Temperature, Humidity), Error>)
        ensures
            final(self).line().log() == old(self).line().log() + wake_up() + poll_events(
                final(self).samples(),
            ),
            replay(final(self).samples()).outcome == Some(r),
            final(self).samples().len() > 0,
            replay(final(self).samples().drop_last()).outcome is None,
    {
        let ghost log0 = self.line.log();
        self.line.set_low();
        self.line.delay_ms(WAKE_MS);
        self.line.set_high();
        self.line.delay_us(RELEASE_US);
        proof {
            assert(self.line.log() =~= log0 + wake_up() + poll_events(Seq::<bool>::empty()));
        }

        let mut reader = Reader::new();
        let ghost mut seen: Seq<bool> = Seq::empty();
        loop
            invariant
                reader.wf(),
                reader@ == replay(seen),
                reader@.outcome is None,
                log0 == old(self).line().log(),
                self.line.log() == log0 + wake_up() + poll_events(seen),
            decreases PULSES - reader@.counts.len(), TIMEOUT - reader@.polls,
        {
            proof {
                reader.lemma_bounds();
            }
            let level = self.line.is_high();
            let ghost before = seen;
            let ghost state = reader@;
            proof {
                lemma_replay_push(start(), seen, level);
                lemma_polls_push(start(), seen, level);
                seen = seen.push(level);
                assert(seen.drop_last() =~= before);
            }
            let step = reader.step(level);
            match step {
                Step::Poll => {},
                Step::Wait => self.line.delay_us(POLL_US),
                Step::Done(_) => {},
            }
            proof {
                assert(self.line.log() =~= log0 + wake_up() + poll_events(seen));
            }
            if let Step::Done(out) = step {
                self.samples = Ghost(seen);
                return out;
            }
            proof {
                reader.lemma_bounds();
            }
        }
    }
}

} // verus!

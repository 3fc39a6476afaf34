//! The polling decisions of one measurement, as a state machine fed with
//! line samples.
//!
//! After the wake-up pulse the sensor sends 82 pulses: two that acknowledge
//! the wake-up, then a low and a high phase for each of the 40 bits. Each
//! phase is timed by sampling the line once per microsecond until it reaches
//! the level that ends the phase; a bit is set when its high phase lasted
//! longer than the low phase before it.
use crate::frame::{decode, decoded, Error, Humidity, Temperature, FRAME_LEN};
use vstd::prelude::*;

verus! {

/// Samples a phase may take before the measurement gives up.
pub const TIMEOUT: u32 = 1000;

/// Phases of one measurement: two of acknowledgement, two per bit.
pub const PULSES: usize = 82;

/// The level that ends phase `k`: even phases are low and end when the line
/// goes high, odd ones are high and end when it goes low.
pub open spec fn awaited(k: int) -> bool {
    k % 2 == 0
}

/// Bit `j` of the frame, from the measured phase lengths `c`.
pub open spec fn bit_of(c: Seq<nat>, j: int) -> bool {
    c[2 * j + 3] > c[2 * j + 2]
}

/// The value of the first `n` bits of byte `i`, most significant first.
pub open spec fn byte_bits(c: Seq<nat>, i: int, n: int) -> nat
    decreases n,
{
    if n <= 0 {
        0
    } else {
        2 * byte_bits(c, i, n - 1) + if bit_of(c, 8 * i + n - 1) {
            1nat
        } else {
            0nat
        }
    }
}

/// The frame carried by a complete list of phase lengths.
pub open spec fn frame_of(c: Seq<nat>) -> Seq<u8> {
    Seq::new(FRAME_LEN as nat, |i: int| byte_bits(c, i, 8) as u8)
}

/// How many bits of byte `i` are known once `nb` bits have arrived.
pub open spec fn filled(nb: int, i: int) -> int {
    if nb <= 8 * i {
        0
    } else if nb >= 8 * i + 8 {
        8
    } else {
        nb - 8 * i
    }
}

/// Bits fully received after `k` completed phases.
pub open spec fn bits_after(k: int) -> int {
    if k < 2 {
        0
    } else {
        (k - 2) / 2
    }
}

/// The state of a measurement: the lengths of the phases completed so far,
/// the samples taken in the current phase, and the result once there is one.
pub struct Progress {
    pub counts: Seq<nat>,
    pub polls: nat,
    pub outcome: Option<Result<(Temperature, Humidity), Error>>,
}

/// The state before the first sample.
pub open spec fn start() -> Progress {
    Progress { counts: Seq::empty(), polls: 0, outcome: None }
}

/// The state after one more sample of the line at `level`.
pub open spec fn next(p: Progress, level: bool) -> Progress {
    if p.outcome is Some {
        p
    } else if level != awaited(p.counts.len() as int) {
        Progress {
            counts: p.counts,
            polls: p.polls + 1,
            outcome: if p.polls + 1 >= TIMEOUT {
                Some(Err(Error::Timeout))
            } else {
                None
            },
        }
    } else {
        let counts = p.counts.push(p.polls);
        Progress {
            counts,
            polls: 0,
            outcome: if counts.len() == PULSES {
                Some(decoded(frame_of(counts)))
            } else {
                None
            },
        }
    }
}

/// The state reached from `p` after the samples `levels`, first to last.
pub open spec fn replay_from(p: Progress, levels: Seq<bool>) -> Progress
    decreases levels.len(),
{
    if levels.len() == 0 {
        p
    } else {
        replay_from(next(p, levels[0]), levels.drop_first())
    }
}

/// The state of a measurement that has seen the samples `levels`.
pub open spec fn replay(levels: Seq<bool>) -> Progress {
    replay_from(start(), levels)
}

/// What the driver does after handing a sample to the reader.
#[derive(Clone, Copy, Debug)]
pub enum Step {
    /// A phase ended: sample the line again at once.
    Poll,
    /// The phase goes on: wait one microsecond, then sample the line.
    Wait,
    /// The measurement is over, with this result.
    Done(Result<(Temperature, Humidity), Error>),
}

/// The step that follows a sample at `level` in state `p`.
pub open spec fn step_of(p: Progress, level: bool) -> Step {
    let q = next(p, level);
    if q.outcome is Some {
        Step::Done(q.outcome->0)
    } else if level != awaited(p.counts.len() as int) {
        Step::Wait
    } else {
        Step::Poll
    }
}

/// One measurement in progress.
pub struct Reader {
    pulse: usize,
    polls: u32,
    low: u32,
    data: [u8; FRAME_LEN],
    outcome: Option<Result<(Temperature, Humidity), Error>>,
    counts: Ghost<Seq<nat>>,
}

impl View for Reader {
    type V = Progress;

    closed spec fn view(&self) -> Progress {
        Progress { counts: self.counts@, polls: self.polls as nat, outcome: self.outcome }
    }
}

impl Reader {
    /// The reader's fields agree with the state they stand for.
    pub closed spec fn wf(&self) -> bool {
        let c = self.counts@;
        &&& c.len() == self.pulse
        &&& self.pulse <= PULSES
        &&& self.polls <= TIMEOUT
        &&& (self.outcome is None ==> self.pulse < PULSES && self.polls < TIMEOUT)
        &&& forall|k: int| 0 <= k < c.len() ==> c[k] < TIMEOUT
        &&& (self.pulse % 2 == 1 ==> self.low == c[self.pulse - 1])
        &&& forall|i: int|
            0 <= i < FRAME_LEN ==> self.data[i] == byte_bits(
                c,
                i,
                filled(bits_after(self.pulse as int), i),
            )
    }

    /// A reader before the first sample.
    pub fn new() -> (r: Reader)
        ensures
            r.wf(),
            r@ == start(),
    {
        Reader {
            pulse: 0,
            polls: 0,
            low: 0,
            data: [0u8; FRAME_LEN],
            outcome: None,
            counts: Ghost(Seq::empty()),
        }
    }

    /// Hands the reader one sample of the line and says what to do next.
    pub fn step(&mut self, level: bool) -> (r: Step)
        requires
            old(self).wf(),
        ensures
            final(self).wf(),
            final(self)@ == next(old(self)@, level),
            r == step_of(old(self)@, level),
    {
        if let Some(out) = self.outcome {
            return Step::Done(out);
        }
        let awaited_level = self.pulse % 2 == 0;
        if level != awaited_level {
            self.polls = self.polls + 1;
            if self.polls >= TIMEOUT {
                self.outcome = Some(Err(Error::Timeout));
                return Step::Done(Err(Error::Timeout));
            }
            return Step::Wait;
        }
        self.end_phase();
        match self.outcome {
            Some(out) => Step::Done(out),
            None => Step::Poll,
        }
    }

    /// Records the end of the current phase, whose length is `polls`.
    fn end_phase(&mut self)
        requires
            old(self).wf(),
            old(self).outcome is None,
        ensures
            final(self).wf(),
            final(self)@ == ({
                let counts = old(self)@.counts.push(old(self).polls as nat);
                Progress {
                    counts,
                    polls: 0,
                    outcome: if counts.len() == PULSES {
                        Some(decoded(frame_of(counts)))
                    } else {
                        None
                    },
                }
            }),
    {
        let count = self.polls;
        let ghost c0 = self.counts@;
        let ghost k = self.pulse as int;
        let ghost c1 = c0.push(count as nat);
        if self.pulse % 2 == 1 && self.pulse >= 3 {
            let j: usize = (self.pulse - 3) / 2;
            let i: usize = j / 8;
            let old_byte = self.data[i];
            proof {
                lemma_push_sets_bit(c0, count as nat, k);
                lemma_byte_bits_bound(c0, i as int, (j % 8) as int);
            }
            let bit: u8 = if count > self.low {
                1
            } else {
                0
            };
            let ghost d0 = self.data;
            self.data[i] = old_byte * 2 + bit;
            proof {
                assert forall|b: int| 0 <= b < FRAME_LEN implies self.data[b] == byte_bits(
                    c1,
                    b,
                    filled(bits_after(k + 1), b),
                ) by {
                    if b != i {
                        assert(self.data[b] == d0[b]);
                    }
                }
            }
        } else {
            if self.pulse % 2 == 0 {
                self.low = count;
            }
            proof {
                lemma_push_keeps_frame(c0, count as nat, k);
            }
        }
        self.counts = Ghost(c1);
        self.pulse = self.pulse + 1;
        self.polls = 0;
        if self.pulse == PULSES {
            proof {
                assert(self.data@ =~= frame_of(c1)) by {
                    assert forall|i: int| 0 <= i < FRAME_LEN implies self.data@[i] == frame_of(
                        c1,
                    )[i] by {
                        lemma_byte_bits_bound(c1, i, 8);
                    }
                }
            }
            self.outcome = Some(decode(&self.data));
        }
    }

    /// What a well-formed reader's state tells about its bounds.
    pub proof fn lemma_bounds(&self)
        requires
            self.wf(),
        ensures
            self@.counts.len() <= PULSES,
            self@.polls <= TIMEOUT,
            self@.outcome is None ==> self@.counts.len() < PULSES && self@.polls < TIMEOUT,
    {
    }

    /// The frame bytes as far as they have been received; bytes and bits not
    /// yet received are zero.
    pub fn frame(&self) -> (r: [u8; FRAME_LEN])
        requires
            self.wf(),
        ensures
            forall|i: int|
                0 <= i < FRAME_LEN ==> r@[i] == byte_bits(
                    self@.counts,
                    i,
                    filled(bits_after(self@.counts.len() as int), i),
                ),
    {
        self.data
    }
}

/// Replaying one more sample is one more step.
pub proof fn lemma_replay_push(p: Progress, levels: Seq<bool>, level: bool)
    ensures
        replay_from(p, levels.push(level)) == next(replay_from(p, levels), level),
    decreases levels.len(),
{
    if levels.len() == 0 {
        assert(levels.push(level).drop_first() =~= Seq::<bool>::empty());
        assert(replay_from(next(p, level), Seq::<bool>::empty()) == next(p, level));
    } else {
        assert(levels.push(level)[0] == levels[0]);
        assert(levels.push(level).drop_first() =~= levels.drop_first().push(level));
        lemma_replay_push(next(p, levels[0]), levels.drop_first(), level);
    }
}

/// `byte_bits` reads only the phases of the bits it covers.
proof fn lemma_byte_bits_prefix(c: Seq<nat>, x: nat, i: int, n: int)
    requires
        0 <= i,
        0 <= n,
        2 * (8 * i + n - 1) + 3 < c.len() || n == 0,
    ensures
        byte_bits(c.push(x), i, n) == byte_bits(c, i, n),
    decreases n,
{
    if n > 0 {
        lemma_byte_bits_prefix(c, x, i, n - 1);
        assert(c.push(x)[2 * (8 * i + n - 1) + 3] == c[2 * (8 * i + n - 1) + 3]);
        assert(c.push(x)[2 * (8 * i + n - 1) + 2] == c[2 * (8 * i + n - 1) + 2]);
    }
}

/// The first `n` bits of a byte hold less than `2^n`.
proof fn lemma_byte_bits_bound(c: Seq<nat>, i: int, n: int)
    requires
        0 <= n <= 8,
    ensures
        byte_bits(c, i, n) < pow2_small(n),
        n < 8 ==> byte_bits(c, i, n) < 128,
        byte_bits(c, i, n) < 256,
    decreases n,
{
    reveal_with_fuel(pow2_small, 9);
    if n > 0 {
        lemma_byte_bits_bound(c, i, n - 1);
    }
}

/// `2^n` for the few `n` a byte needs.
pub open spec fn pow2_small(n: int) -> nat
    decreases n,
{
    if n <= 0 {
        1
    } else {
        2 * pow2_small(n - 1)
    }
}

/// Ending a phase that completes no bit leaves every byte as it was.
proof fn lemma_push_keeps_frame(c: Seq<nat>, x: nat, k: int)
    requires
        c.len() == k,
        k % 2 == 0 || k < 3,
        0 <= k < PULSES,
    ensures
        forall|i: int|
            0 <= i < FRAME_LEN ==> byte_bits(c.push(x), i, filled(bits_after(k + 1), i))
                == byte_bits(c, i, filled(bits_after(k), i)),
{
    assert(bits_after(k + 1) == bits_after(k));
    assert forall|i: int| 0 <= i < FRAME_LEN implies byte_bits(
        c.push(x),
        i,
        filled(bits_after(k + 1), i),
    ) == byte_bits(c, i, filled(bits_after(k), i)) by {
        lemma_byte_bits_prefix(c, x, i, filled(bits_after(k), i));
    }
}

/// Ending the high phase of bit `j` adds that bit to its byte and leaves the
/// other bytes as they were.
proof fn lemma_push_sets_bit(c: Seq<nat>, x: nat, k: int)
    requires
        c.len() == k,
        k % 2 == 1,
        3 <= k < PULSES,
    ensures
        ({
            let j = (k - 3) / 2;
            &&& bits_after(k) == j
            &&& bits_after(k + 1) == j + 1
            &&& forall|i: int|
                0 <= i < FRAME_LEN && i != j / 8 ==> byte_bits(
                    c.push(x),
                    i,
                    filled(j + 1, i),
                ) == byte_bits(c, i, filled(j, i))
            &&& filled(j, j / 8) == j % 8
            &&& byte_bits(c.push(x), j / 8, filled(j + 1, j / 8)) == 2 * byte_bits(
                c,
                j / 8,
                j % 8,
            ) + if x > c[k - 1] {
                1nat
            } else {
                0nat
            }
        }),
{
    let j = (k - 3) / 2;
    assert forall|i: int| 0 <= i < FRAME_LEN && i != j / 8 implies byte_bits(
        c.push(x),
        i,
        filled(j + 1, i),
    ) == byte_bits(c, i, filled(j, i)) by {
        assert(filled(j + 1, i) == filled(j, i));
        lemma_byte_bits_prefix(c, x, i, filled(j, i));
    }
    let b = j / 8;
    let n = j % 8;
    assert(filled(j + 1, b) == n + 1);
    lemma_byte_bits_prefix(c, x, b, n);
    assert(2 * (8 * b + n) + 3 == k);
}

} // verus!

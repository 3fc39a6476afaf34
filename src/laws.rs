//! General facts about decoding and about measurements on any line.
use crate::frame::{
    checksum_of, decoded, humidity_tenths, temperature_tenths, Error, Humidity, Temperature,
    FRAME_LEN,
};
use crate::reader::{
    awaited, bit_of, byte_bits, frame_of, next, pow2_small, replay, replay_from, start, Progress,
    PULSES, TIMEOUT,
};
use vstd::arithmetic::div_mod::{lemma_div_denominator, lemma_fundamental_div_mod};
use vstd::prelude::*;

verus! {

/// A frame passes validation exactly when its last byte is the wrapping sum
/// of the four before it; otherwise it fails with a checksum error.
pub proof fn lemma_checksum_decides(f: Seq<u8>)
    requires
        f.len() == FRAME_LEN,
    ensures
        decoded(f) is Ok <==> f[4] == checksum_of(f),
        f[4] != checksum_of(f) ==> decoded(f) == Err::<(Temperature, Humidity), Error>(Error::Crc),
{
}

/// Bit `j` of a frame, most significant bit of byte 0 first.
pub open spec fn frame_bit(f: Seq<u8>, j: int) -> bool {
    (f[j / 8] as nat / pow2_small(7 - j % 8)) % 2 == 1
}

/// The phase lengths `c` carry the frame `f`: there is one length per phase,
/// and each bit's high phase is longer than its low phase exactly where `f`
/// has a one.
pub open spec fn carries(c: Seq<nat>, f: Seq<u8>) -> bool {
    &&& c.len() == PULSES
    &&& forall|j: int| 0 <= j < 8 * FRAME_LEN ==> bit_of(c, j) == frame_bit(f, j)
}

proof fn lemma_byte_bits_carried(c: Seq<nat>, f: Seq<u8>, i: int, n: int)
    requires
        f.len() == FRAME_LEN,
        carries(c, f),
        0 <= i < FRAME_LEN,
        0 <= n <= 8,
    ensures
        byte_bits(c, i, n) == f[i] as nat / pow2_small(8 - n),
    decreases n,
{
    reveal_with_fuel(pow2_small, 9);
    let x = f[i] as nat;
    if n == 0 {
        assert(x / 256 == 0);
    } else {
        lemma_byte_bits_carried(c, f, i, n - 1);
        let j = 8 * i + n - 1;
        assert(j / 8 == i && j % 8 == n - 1);
        let y = pow2_small(8 - n);
        assert(pow2_small(9 - n) == y * 2);
        assert(y > 0);
        lemma_div_denominator(x as int, y as int, 2);
        let q = x / y;
        lemma_fundamental_div_mod(q as int, 2);
        assert(bit_of(c, j) == frame_bit(f, j));
    }
}

/// Round trip: whatever the lengths of the phases, as long as they carry a
/// frame, that frame is read back, so the checksum derived again from the
/// bytes read agrees with the one sent whenever the sender computed it
/// correctly.
pub proof fn lemma_round_trip(c: Seq<nat>, f: Seq<u8>)
    requires
        f.len() == FRAME_LEN,
        carries(c, f),
    ensures
        frame_of(c) == f,
        f[4] == checksum_of(f) ==> checksum_of(frame_of(c)) == frame_of(c)[4],
{
    assert forall|i: int| 0 <= i < FRAME_LEN implies frame_of(c)[i] == f[i] by {
        lemma_byte_bits_carried(c, f, i, 8);
        assert(pow2_small(0) == 1);
        assert(f[i] as nat / 1 == f[i] as nat);
        assert(frame_of(c)[i] == byte_bits(c, i, 8) as u8);
    }
    assert(frame_of(c) =~= f);
}

/// What holds of every state a measurement reaches: the polling count stays
/// within the budget, and once every phase is in the frame they carry decides
/// the result.
spec fn in_budget(p: Progress) -> bool {
    &&& p.outcome is None ==> p.polls < TIMEOUT && p.counts.len() < PULSES
    &&& p.counts.len() <= PULSES
    &&& p.counts.len() == PULSES ==> p.outcome == Some(decoded(frame_of(p.counts)))
}

proof fn lemma_in_budget(p: Progress, s: Seq<bool>)
    requires
        in_budget(p),
    ensures
        in_budget(replay_from(p, s)),
    decreases s.len(),
{
    if s.len() > 0 {
        lemma_in_budget(next(p, s[0]), s.drop_first());
    }
}

proof fn lemma_done_stays(p: Progress, s: Seq<bool>)
    requires
        p.outcome is Some,
    ensures
        replay_from(p, s) == p,
    decreases s.len(),
{
    if s.len() > 0 {
        lemma_done_stays(p, s.drop_first());
    }
}

proof fn lemma_replay_concat(p: Progress, s: Seq<bool>, t: Seq<bool>)
    ensures
        replay_from(p, s + t) == replay_from(replay_from(p, s), t),
    decreases s.len(),
{
    if s.len() == 0 {
        assert(s + t =~= t);
    } else {
        assert((s + t)[0] == s[0]);
        assert((s + t).drop_first() =~= s.drop_first() + t);
        lemma_replay_concat(next(p, s[0]), s.drop_first(), t);
    }
}

proof fn lemma_stuck_from(p: Progress, rest: Seq<bool>)
    requires
        p.outcome is None,
        p.polls < TIMEOUT,
        rest.len() >= TIMEOUT - p.polls,
        forall|i: int| 0 <= i < TIMEOUT - p.polls ==> rest[i] != awaited(p.counts.len() as int),
    ensures
        replay_from(p, rest).outcome == Some(Err::<(Temperature, Humidity), Error>(Error::Timeout)),
        replay_from(p, rest).counts == p.counts,
    decreases TIMEOUT - p.polls,
{
    let q = next(p, rest[0]);
    if p.polls + 1 >= TIMEOUT {
        lemma_done_stays(q, rest.drop_first());
    } else {
        lemma_stuck_from(q, rest.drop_first());
    }
}

/// Once all phases of a measurement have been timed, its result is the
/// validation of the frame they carry: the readings when the checksum byte
/// matches, a checksum error when it does not.
pub proof fn lemma_complete_measurement(levels: Seq<bool>)
    requires
        replay(levels).counts.len() == PULSES,
    ensures
        replay(levels).outcome == Some(decoded(frame_of(replay(levels).counts))),
        replay(levels).outcome is Some && (replay(levels).outcome->0 is Ok) <==> checksum_of(
            frame_of(replay(levels).counts),
        ) == frame_of(replay(levels).counts)[4],
{
    lemma_in_budget(start(), levels);
}

/// A measurement whose phases, of any lengths within the budget, carry a
/// frame with a correct checksum succeeds with that frame's readings.
pub proof fn lemma_measurement_round_trip(levels: Seq<bool>, f: Seq<u8>)
    requires
        f.len() == FRAME_LEN,
        f[4] == checksum_of(f),
        carries(replay(levels).counts, f),
    ensures
        replay(levels).outcome == Some(decoded(f)),
        decoded(f) == Ok::<(Temperature, Humidity), Error>(
            (
                Temperature(temperature_tenths(f[2], f[3]) as i16),
                Humidity(humidity_tenths(f[0], f[1]) as u16),
            ),
        ),
{
    lemma_complete_measurement(levels);
    lemma_round_trip(replay(levels).counts, f);
}

/// A phase that never ends within the polling budget fails the measurement
/// with a timeout, whatever came before it and whatever the line does later,
/// and no phase after it is read.
pub proof fn lemma_stuck_phase_times_out(prefix: Seq<bool>, rest: Seq<bool>)
    requires
        replay(prefix).outcome is None,
        rest.len() >= TIMEOUT - replay(prefix).polls,
        forall|i: int|
            0 <= i < TIMEOUT - replay(prefix).polls ==> rest[i] != awaited(
                replay(prefix).counts.len() as int,
            ),
    ensures
        replay(prefix + rest).outcome == Some(Err::<(Temperature, Humidity), Error>(Error::Timeout)),
        replay(prefix + rest).counts == replay(prefix).counts,
{
    lemma_in_budget(start(), prefix);
    lemma_replay_concat(start(), prefix, rest);
    lemma_stuck_from(replay(prefix), rest);
}

/// A sensor that never acknowledges the wake-up, leaving the line at one
/// level through an acknowledgement phase, fails the measurement with a
/// timeout before any bit is read.
pub proof fn lemma_no_acknowledgement(prefix: Seq<bool>, rest: Seq<bool>)
    requires
        replay(prefix).outcome is None,
        replay(prefix).counts.len() < 2,
        rest.len() >= TIMEOUT - replay(prefix).polls,
        forall|i: int|
            0 <= i < TIMEOUT - replay(prefix).polls ==> rest[i] != awaited(
                replay(prefix).counts.len() as int,
            ),
    ensures
        replay(prefix + rest).outcome == Some(Err::<(Temperature, Humidity), Error>(Error::Timeout)),
        replay(prefix + rest).counts.len() < 2,
{
    lemma_stuck_phase_times_out(prefix, rest);
}

/// Samples a measurement takes on a line stuck at `level`: a low line fails
/// the first acknowledgement phase after one budget of samples; a high one
/// ends that phase at once and fails the next.
pub open spec fn stuck_samples(level: bool) -> nat {
    if level {
        TIMEOUT as nat + 1
    } else {
        TIMEOUT as nat
    }
}

proof fn lemma_stuck_partial(p: Progress, rest: Seq<bool>, k: nat)
    requires
        p.outcome is None,
        p.polls + k < TIMEOUT,
        rest.len() >= k,
        forall|i: int| 0 <= i < k ==> rest[i] != awaited(p.counts.len() as int),
    ensures
        replay_from(p, rest.take(k as int)).outcome is None,
    decreases k,
{
    if k > 0 {
        assert(rest.take(k as int)[0] == rest[0]);
        assert(rest.take(k as int).drop_first() =~= rest.drop_first().take(k - 1));
        lemma_stuck_partial(next(p, rest[0]), rest.drop_first(), (k - 1) as nat);
    } else {
        assert(rest.take(0) =~= Seq::<bool>::empty());
    }
}

/// Splits a constant sample record after the samples that end no phase
/// (none for a low line, one for a high one), stating what replaying that
/// first part gives.
proof fn lemma_constant_head(level: bool, n: nat) -> (cut: int)
    requires
        n >= 1,
    ensures
        cut == (if level {
            1int
        } else {
            0int
        }),
        (replay(Seq::new(n, |i: int| level).take(cut)).outcome is None),
        replay(Seq::new(n, |i: int| level).take(cut)).polls == 0,
        replay(Seq::new(n, |i: int| level).take(cut)).counts.len() == cut,
{
    let s = Seq::new(n, |i: int| level);
    let cut: int = if level {
        1
    } else {
        0
    };
    let prefix = s.take(cut);
    if level {
        assert(prefix =~= seq![true]);
        assert(prefix.drop_first() =~= Seq::<bool>::empty());
        assert(replay_from(next(start(), true), Seq::<bool>::empty()) == next(start(), true));
    } else {
        assert(prefix =~= Seq::<bool>::empty());
    }
    cut
}

/// A line that stays at one level, as a disconnected one does, fails every
/// measurement with a timeout once it has been sampled `stuck_samples(level)`
/// times, and not before.
pub proof fn lemma_disconnected_line(level: bool, n: nat)
    ensures
        n >= stuck_samples(level) ==> replay(Seq::new(n, |i: int| level)).outcome == Some(
            Err::<(Temperature, Humidity), Error>(Error::Timeout),
        ),
        n < stuck_samples(level) ==> (replay(Seq::new(n, |i: int| level)).outcome is None),
{
    let s = Seq::new(n, |i: int| level);
    if n == 0 {
        assert(replay(s) == start());
    } else {
        let cut = lemma_constant_head(level, n);
        let prefix = s.take(cut);
        let rest = s.skip(cut);
        assert(prefix + rest =~= s);
        if n >= stuck_samples(level) {
            lemma_stuck_phase_times_out(prefix, rest);
        } else {
            lemma_replay_concat(start(), prefix, rest);
            lemma_stuck_partial(replay(prefix), rest, rest.len());
            assert(rest.take(rest.len() as int) =~= rest);
        }
    }
}

/// On a line stuck at one level, a measurement that samples no further than
/// needed takes exactly `stuck_samples(level)` samples and times out; so
/// every call, on a fresh or a used handle, does the same.
pub proof fn lemma_disconnected_measurement(level: bool, samples: Seq<bool>)
    requires
        samples.len() > 0,
        forall|i: int| 0 <= i < samples.len() ==> samples[i] == level,
        replay(samples).outcome is Some,
        replay(samples.drop_last()).outcome is None,
    ensures
        samples.len() == stuck_samples(level),
        replay(samples).outcome == Some(Err::<(Temperature, Humidity), Error>(Error::Timeout)),
{
    let n = samples.len();
    assert(samples =~= Seq::new(n, |i: int| level));
    assert(samples.drop_last() =~= Seq::new((n - 1) as nat, |i: int| level));
    lemma_disconnected_line(level, n);
    lemma_disconnected_line(level, (n - 1) as nat);
}

} // verus!

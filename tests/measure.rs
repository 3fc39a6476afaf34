use dht11::{checksum, decode, Dht11, Error, Humidity, Line, Reader, ScriptedLine, Step, Temperature};
use dht11::{PULSES, TIMEOUT};

/// Phase lengths of a sensor: a low phase, and the high phase of a zero bit
/// and of a one bit.
const LOW_PHASE: u32 = 50;
const SHORT_PHASE: u32 = 26;
const LONG_PHASE: u32 = 70;

/// Samples for phases of the given lengths: each phase is `len` samples away
/// from the level that ends it, then one sample at that level.
fn samples_for(phases: &[u32]) -> Vec<bool> {
    let mut out = Vec::new();
    for (k, &len) in phases.iter().enumerate() {
        let ends_on = k % 2 == 0;
        for _ in 0..len {
            out.push(!ends_on);
        }
        out.push(ends_on);
    }
    out
}

fn phases_for_bits(bit: impl Fn(usize) -> bool) -> Vec<u32> {
    let mut phases = vec![LOW_PHASE, LOW_PHASE];
    for j in 0..40 {
        phases.push(LOW_PHASE);
        phases.push(if bit(j) { LONG_PHASE } else { SHORT_PHASE });
    }
    phases
}

fn phases_for_frame(frame: [u8; 5]) -> Vec<u32> {
    phases_for_bits(|j| (frame[j / 8] >> (7 - j % 8)) & 1 == 1)
}

fn with_checksum(b: [u8; 4]) -> [u8; 5] {
    let sum = b[0].wrapping_add(b[1]).wrapping_add(b[2]).wrapping_add(b[3]);
    [b[0], b[1], b[2], b[3], sum]
}

fn measure_frame(frame: [u8; 5]) -> Result<(Temperature, Humidity), Error> {
    let line = ScriptedLine::new(samples_for(&phases_for_frame(frame)), true);
    let mut sensor = Dht11::new(line);
    sensor.measure()
}

#[test]
fn checksum_wraps() {
    assert_eq!(checksum(&[200, 100, 0, 0, 0]), 44);
    assert_eq!(checksum(&[0x30, 0x02, 0x17, 0x05, 0]), 0x4e);
    assert_eq!(checksum(&[255, 255, 255, 255, 0]), 252);
}

#[test]
fn decode_positive_temperature_and_humidity() {
    let r = decode(&[0x30, 0x02, 0x17, 0x05, 0x4e]);
    assert_eq!(r, Ok((Temperature(235), Humidity(482))));
}

#[test]
fn decode_negative_temperature() {
    let frame = with_checksum([0x30, 0x02, 0x97, 0x05]);
    assert_eq!(decode(&frame), Ok((Temperature(-235), Humidity(482))));
}

#[test]
fn decode_rejects_bad_checksum() {
    assert_eq!(decode(&[0x30, 0x02, 0x17, 0x05, 0x4f]), Err(Error::Crc));
    assert_eq!(decode(&[0, 0, 0, 0, 1]), Err(Error::Crc));
}

#[test]
fn decode_largest_bytes() {
    let frame = with_checksum([255, 255, 255, 255]);
    assert_eq!(decode(&frame), Ok((Temperature(-1525), Humidity(2805))));
}

#[test]
fn temperature_text() {
    assert_eq!(Temperature(235).to_string(), "23.5\u{b0}C");
    assert_eq!(Temperature(-235).to_string(), "-23.5\u{b0}C");
    assert_eq!(Temperature(-5).to_string(), "-0.5\u{b0}C");
    assert_eq!(Temperature(0).to_string(), "0.0\u{b0}C");
    assert_eq!(Temperature(1525).to_string(), "152.5\u{b0}C");
}

#[test]
fn humidity_text() {
    assert_eq!(Humidity(482).to_string(), "48.2%");
    assert_eq!(Humidity(0).to_string(), "0.0%");
    assert_eq!(Humidity(2805).to_string(), "280.5%");
}

#[test]
fn measure_reads_frame() {
    let r = measure_frame(with_checksum([0x30, 0x02, 0x17, 0x05]));
    let (t, h) = r.unwrap();
    assert_eq!(t, Temperature(235));
    assert_eq!(h, Humidity(482));
    assert_eq!(t.to_string(), "23.5\u{b0}C");
    assert_eq!(h.to_string(), "48.2%");
}

#[test]
fn measure_reads_negative_temperature() {
    let (t, _) = measure_frame(with_checksum([0x30, 0x02, 0x97, 0x05])).unwrap();
    assert_eq!(t, Temperature(-235));
    assert_eq!(t.to_string(), "-23.5\u{b0}C");
}

#[test]
fn measure_reports_checksum_mismatch() {
    assert_eq!(measure_frame([0x30, 0x02, 0x17, 0x05, 0x4f]), Err(Error::Crc));
}

#[test]
fn measure_round_trips_frames() {
    for b in [[0u8, 0, 0, 0], [1, 2, 3, 4], [0xff, 0x80, 0x7f, 0x09], [0x5a, 0xa5, 0x81, 0x18]] {
        let frame = with_checksum(b);
        assert_eq!(measure_frame(frame), decode(&frame));
        assert!(measure_frame(frame).is_ok());
    }
}

#[test]
fn no_acknowledgement_times_out() {
    // the line stays low: the first phase never ends
    let mut sensor = Dht11::new(ScriptedLine::new(Vec::new(), false));
    assert_eq!(sensor.measure(), Err(Error::Timeout));
    // the line goes high but never comes back low
    let mut sensor = Dht11::new(ScriptedLine::new(Vec::new(), true));
    assert_eq!(sensor.measure(), Err(Error::Timeout));
}

#[test]
fn no_acknowledgement_reads_no_bit() {
    let mut line = ScriptedLine::new(Vec::new(), false);
    let mut reader = Reader::new();
    let mut steps = 0;
    let out = loop {
        steps += 1;
        match reader.step(line.is_high()) {
            Step::Done(r) => break r,
            _ => {}
        }
    };
    assert_eq!(out, Err(Error::Timeout));
    assert_eq!(steps, TIMEOUT as usize);
    assert_eq!(reader.frame(), [0, 0, 0, 0, 0]);
}

#[test]
fn stuck_bit_phase_times_out() {
    let mut phases = phases_for_frame(with_checksum([0x30, 0x02, 0x17, 0x05]));
    phases.truncate(2 + 2 * 10 + 1);
    let line = ScriptedLine::new(samples_for(&phases), true);
    let mut sensor = Dht11::new(line);
    assert_eq!(sensor.measure(), Err(Error::Timeout));
}

#[test]
fn phase_at_budget_edge() {
    let frame = with_checksum([0x30, 0x02, 0x17, 0x05]);
    let mut phases = phases_for_frame(frame);
    // bit 1 of 0x30 is clear: its high phase stays shorter than its low one
    phases[4] = TIMEOUT - 1;
    phases[5] = TIMEOUT - 2;
    let mut sensor = Dht11::new(ScriptedLine::new(samples_for(&phases), true));
    assert_eq!(sensor.measure(), Ok((Temperature(235), Humidity(482))));
    phases[4] = TIMEOUT;
    let mut sensor = Dht11::new(ScriptedLine::new(samples_for(&phases), true));
    assert_eq!(sensor.measure(), Err(Error::Timeout));
}

#[test]
fn disconnected_line_fails_every_time() {
    for idle in [false, true] {
        let mut sensor = Dht11::new(ScriptedLine::new(Vec::new(), idle));
        for _ in 0..3 {
            assert_eq!(sensor.measure(), Err(Error::Timeout));
        }
        // a low line fails each call after one budget of samples; a high one
        // ends the first acknowledgement phase on its first sample
        let per_call = if idle { TIMEOUT as usize + 1 } else { TIMEOUT as usize };
        assert_eq!(sensor.release().samples_taken(), 3 * per_call);
    }
}

#[test]
fn stuck_bit_stops_sampling() {
    let mut phases = phases_for_frame(with_checksum([0x30, 0x02, 0x17, 0x05]));
    phases.truncate(2 + 2 * 10);
    let samples = samples_for(&phases);
    let before = samples.len();
    // the line then stays high: the low phase of bit 10 ends on its first
    // sample and its high phase never ends
    let mut sensor = Dht11::new(ScriptedLine::new(samples, true));
    assert_eq!(sensor.measure(), Err(Error::Timeout));
    assert_eq!(sensor.release().samples_taken(), before + 1 + TIMEOUT as usize);
}

#[test]
fn failure_leaves_no_state_behind() {
    let mut samples = vec![false; TIMEOUT as usize];
    samples.extend(samples_for(&phases_for_frame(with_checksum([0x30, 0x02, 0x17, 0x05]))));
    let mut sensor = Dht11::new(ScriptedLine::new(samples, true));
    assert_eq!(sensor.measure(), Err(Error::Timeout));
    assert_eq!(sensor.measure(), Ok((Temperature(235), Humidity(482))));
}

#[test]
fn bit_order_most_significant_first() {
    let phases = phases_for_bits(|j| j == 0 || j == 7 || j == 39);
    assert_eq!(phases.len(), PULSES);
    let samples = samples_for(&phases);
    let mut reader = Reader::new();
    let mut out = None;
    for level in samples {
        if let Step::Done(r) = reader.step(level) {
            out = Some(r);
            break;
        }
    }
    assert_eq!(reader.frame(), [0x81, 0, 0, 0, 0x01]);
    assert_eq!(out, Some(Err(Error::Crc)));
}

#[test]
fn measure_reads_small_values() {
    let line = ScriptedLine::new(samples_for(&phases_for_frame(with_checksum([1, 0, 20, 0]))), true);
    let mut sensor = Dht11::new(line);
    assert_eq!(sensor.measure(), Ok((Temperature(200), Humidity(10))));
}

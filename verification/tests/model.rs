//! Tests for the step model, the pattern aggregate, binding, tempo timing
//! and the mixing schedule.

use stepmix::audio::{Tempo, Tracks};
use stepmix::instrumentation::{Instrumentation, SampleFile};
use stepmix::pattern::{Amplitude, Error, Instrument, Pattern};
use stepmix::steps::Steps;

fn gate_steps(gates: &[bool]) -> Steps {
    let mut s = Steps::new();
    for &g in gates {
        if g {
            s.push(255, 44_000);
        } else {
            s.push(0, 0);
        }
    }
    s
}

#[test]
fn test_union_idempotent() {
    let a = gate_steps(&[true, false, true, true]);
    let b = gate_steps(&[true, false, true, true]);
    assert_eq!(a.union(&b), a);
}

#[test]
fn test_union_velocity_maximum() {
    let mut a = Steps::new();
    a.push(10, 100);
    let mut b = Steps::new();
    b.push(20, 200);
    // The higher velocity wins regardless of the operand order.
    let ab = a.union(&b).get(0);
    let ba = b.union(&a).get(0);
    assert_eq!(ab.velocity, 20);
    assert_eq!(ab.freq_centihz, 200);
    assert_eq!(ab, ba);
}

#[test]
fn test_union_tie_keeps_right_operand() {
    let mut a = Steps::new();
    a.push(100, 111);
    let mut b = Steps::new();
    b.push(100, 222);
    // Velocities tie, so the right operand's step is kept.
    assert_eq!(a.union(&b).get(0).freq_centihz, 222);
    assert_eq!(b.union(&a).get(0).freq_centihz, 111);
}

#[test]
fn test_union_truncates_to_shorter() {
    let a = gate_steps(&[true, true, true]);
    let b = gate_steps(&[false, false, false, false, false]);
    assert_eq!(a.union(&b).len(), 3);
    assert_eq!(b.union(&a).len(), 3);
}

#[test]
fn test_zeros_is_all_silent() {
    let z = Steps::zeros(4);
    assert_eq!(z.len(), 4);
    for i in 0..4 {
        let s = z.get(i);
        assert_eq!(s.velocity, 0);
        assert_eq!(s.freq_centihz, 0);
        assert!(!s.active());
    }
}

#[test]
fn test_pattern_parse_and_get() {
    let lines = vec![b"kick |x---|".to_vec(), b"snare |--x-| 0.75".to_vec()];
    let p = Pattern::parse(&lines).unwrap();
    assert_eq!(p.len(), 4);
    let kick = p.get(&Instrument::from("kick")).unwrap();
    assert_eq!(kick.0, gate_steps(&[true, false, false, false]));
    assert_eq!(kick.1.value(), 1_000_000);
    let snare = p.get(&Instrument::from("snare")).unwrap();
    assert_eq!(snare.1.value(), 750_000);
    assert!(p.get(&Instrument::from("tom")).is_none());
}

#[test]
fn test_pattern_len_heterogeneous() {
    let lines = vec![b"a |x---|".to_vec(), b"b |x---|x---|".to_vec()];
    let p = Pattern::parse(&lines).unwrap();
    assert_eq!(p.len(), 8);
}

#[test]
fn test_empty_file_is_empty_pattern() {
    let lines: Vec<Vec<u8>> = Vec::new();
    let p = Pattern::parse(&lines).unwrap();
    assert_eq!(p.len(), 0);
}

#[test]
fn test_duplicate_instrument_fails() {
    let lines = vec![b"kick |x---|".to_vec(), b"kick |--x-|".to_vec()];
    match Pattern::parse(&lines) {
        Err(Error::DuplicatePatternError(l)) => assert_eq!(l, b"kick |--x-|".to_vec()),
        _ => panic!("expected a duplicate-instrument error"),
    }
}

#[test]
fn test_parse_error_names_line() {
    let lines = vec![b"kick |x---|".to_vec(), b"snare zz".to_vec()];
    match Pattern::parse(&lines) {
        Err(Error::ParseError(l)) => assert_eq!(l, b"snare zz".to_vec()),
        _ => panic!("expected a parse error"),
    }
}

#[test]
fn test_bind_shared_sample() {
    let lines = vec![b"hihat1 x-x- 1.0".to_vec(), b"hihat2 -x-x 0.5".to_vec()];
    let p = Pattern::parse(&lines).unwrap();
    let mut inst = Instrumentation::new();
    inst.push(
        SampleFile::from("hat.wav"),
        vec![Instrument::from("hihat1"), Instrument::from("hihat2")],
    );
    let tracks = p.bind(inst);
    let entries = tracks.entries();
    assert_eq!(entries.len(), 1);
    assert_eq!(entries[0].0.name().as_slice(), b"hat.wav");
    let steps = &entries[0].1 .0;
    assert_eq!(steps.len(), 4);
    for i in 0..4 {
        assert_eq!(steps.get(i).velocity, 255);
    }
    assert_eq!(entries[0].1 .1.value(), 500_000);
}

#[test]
fn test_bind_skips_unknown_instrument() {
    let lines = vec![b"kick |x---|".to_vec()];
    let p = Pattern::parse(&lines).unwrap();
    let mut inst = Instrumentation::new();
    inst.push(SampleFile::from("tom.wav"), vec![Instrument::from("tom")]);
    let tracks = p.bind(inst);
    let entries = tracks.entries();
    assert_eq!(entries.len(), 1);
    let steps = &entries[0].1 .0;
    assert_eq!(steps.len(), 4);
    for i in 0..4 {
        assert!(!steps.get(i).active());
    }
    assert_eq!(entries[0].1 .1.value(), 1_000_000);
}

#[test]
fn test_step_duration() {
    let t120 = Tempo::new(120).unwrap();
    assert_eq!(t120.step_duration(1), 125_000_000);
    let t60 = Tempo::new(60).unwrap();
    assert_eq!(t60.step_duration(16), 4_000_000_000);
}

#[test]
fn test_delay_factor() {
    let t120 = Tempo::new(120).unwrap();
    // The factor is the returned numerator over 120: exactly 1 at 120 BPM.
    assert_eq!(t120.delay_factor(), 120);
    assert_eq!(t120.delay_factor() as f64 / 120.0, 1.0);
    // Zero beats per minute is not a valid tempo.
    assert!(Tempo::new(0).is_none());
}

#[test]
fn test_delay_pad_duration() {
    let t120 = Tempo::new(120).unwrap();
    // One step's duration times a factor of exactly 1.
    assert_eq!(t120.delay_pad_duration(), 125_000_000);
    let t240 = Tempo::new(240).unwrap();
    assert_eq!(t240.delay_pad_duration(), 0);
}

#[test]
fn test_mix_single_active_step() {
    let mut steps = Steps::new();
    steps.push(0, 0);
    steps.push(0, 0);
    steps.push(0, 0);
    steps.push(255, 44_000);
    let tracks = Tracks::from(vec![(SampleFile::from("s.wav"), (steps, Amplitude::max()))]);
    let sources = tracks.sources();
    let t120 = Tempo::new(120).unwrap();
    let schedule = sources.mix(&t120);
    assert_eq!(schedule.len(), 1);
    assert_eq!(schedule[0].source, 0);
    assert_eq!(schedule[0].delay_ns, 375_000_000);
    assert_eq!(schedule[0].amplitude.value(), 1_000_000);
}

#[test]
fn test_mix_skips_inactive_steps() {
    let steps = gate_steps(&[true, false, true]);
    let half = {
        let lines = vec![b"a x 0.5".to_vec()];
        let p = Pattern::parse(&lines).unwrap();
        p.get(&Instrument::from("a")).unwrap().1
    };
    let tracks = Tracks::from(vec![(SampleFile::from("s.wav"), (steps, half))]);
    let sources = tracks.sources();
    let t120 = Tempo::new(120).unwrap();
    let schedule = sources.mix(&t120);
    assert_eq!(schedule.len(), 2);
    assert_eq!(schedule[0].delay_ns, 0);
    assert_eq!(schedule[1].delay_ns, 250_000_000);
    assert_eq!(schedule[0].amplitude.value(), 500_000);
}

#[test]
fn test_amplitude_min() {
    let lines = vec![b"a x 0.25".to_vec()];
    let p = Pattern::parse(&lines).unwrap();
    let quiet = p.get(&Instrument::from("a")).unwrap().1;
    let loud = Amplitude::max();
    assert_eq!(loud.min(&quiet).value(), 250_000);
    assert_eq!(quiet.min(&loud).value(), 250_000);
}

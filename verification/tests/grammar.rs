//! Tests for the track-line grammar.

use stepmix::pattern::{parse_amplitude, parse_instrument, parse_steps, parse_track, Instrument};
use stepmix::steps::Steps;

/// A sequence of `n` silent steps.
fn silent_steps(n: usize) -> Steps {
    let mut s = Steps::new();
    for _ in 0..n {
        s.push(0, 0);
    }
    s
}

/// A sequence with an `x` step for every `true` and a `-` step otherwise.
fn gate_steps(gates: &[bool]) -> Steps {
    let mut s = Steps::new();
    for &g in gates {
        if g {
            s.push(255, 44_000);
        } else {
            s.push(0, 0);
        }
    }
    s
}

#[test]
fn test_parse_track() {
    let s = b"a |----|----|----|----|";
    let p = parse_track(s).unwrap();
    let r = p.0;
    let l = p.1;

    assert_eq!(r, b"" as &[u8]);
    assert_eq!(l.0, Instrument::from("a"));
    assert_eq!(l.1, silent_steps(16));
}

#[test]
fn test_parse_instrument() {
    let s1 = b"";
    let s2 = b"a";
    let s3 = b"a ";
    let s4 = b"a  ";
    let s5 = b"a\t";
    let s6 = b"a \t";

    assert!(parse_instrument(s1).is_none());
    assert_eq!(parse_instrument(s2).unwrap(), (b"" as &[u8], b"a" as &[u8]));
    assert_eq!(parse_instrument(s3).unwrap(), (b" " as &[u8], b"a" as &[u8]));
    assert_eq!(parse_instrument(s4).unwrap(), (b"  " as &[u8], b"a" as &[u8]));
    assert_eq!(parse_instrument(s5).unwrap(), (b"\t" as &[u8], b"a" as &[u8]));
    assert_eq!(parse_instrument(s6).unwrap(), (b" \t" as &[u8], b"a" as &[u8]));
}

#[test]
fn test_parse_steps() {
    let s1 = b"";
    let s2 = b"|----|";
    let s3 = b"|----|----|----|----|-";
    let s4 = b"|----|----|----|----|";
    let s5 = b"|xxxx|xxxx|xxxx|xxxx|";
    let s6 = b"|x-x-|x-x-|x-x-|x-x-|";

    assert!(parse_steps(s1).is_none());
    assert_eq!(parse_steps(s2).unwrap(), (b"" as &[u8], silent_steps(4)));
    assert_eq!(parse_steps(s3).unwrap(), (b"" as &[u8], silent_steps(17)));
    assert_eq!(parse_steps(s4).unwrap(), (b"" as &[u8], silent_steps(16)));
    assert_eq!(parse_steps(s5).unwrap(), (b"" as &[u8], gate_steps(&[true; 16])));
    assert_eq!(
        parse_steps(s6).unwrap(),
        (
            b"" as &[u8],
            gate_steps(&[
                true, false, true, false, true, false, true, false, true, false, true, false,
                true, false, true, false
            ])
        )
    );
}

#[test]
fn test_parse_amplitude() {
    let s1 = b"";
    let s2 = b"abc";
    let s3 = b"0.0";
    let s4 = b"0.5";
    let s5 = b"1.0";
    let s6 = b"-1.0";
    let s7 = b"1.1";

    assert_eq!(parse_amplitude(s1).unwrap(), (b"" as &[u8], None));
    assert_eq!(parse_amplitude(s2).unwrap(), (b"abc" as &[u8], None));
    let (r3, a3) = parse_amplitude(s3).unwrap();
    assert_eq!(r3, b"" as &[u8]);
    assert_eq!(a3.unwrap().value(), 0);
    let (r4, a4) = parse_amplitude(s4).unwrap();
    assert_eq!(r4, b"" as &[u8]);
    assert_eq!(a4.unwrap().value(), 500_000);
    let (r5, a5) = parse_amplitude(s5).unwrap();
    assert_eq!(r5, b"" as &[u8]);
    assert_eq!(a5.unwrap().value(), 1_000_000);
    assert!(parse_amplitude(s6).is_none());
    assert!(parse_amplitude(s7).is_none());
}

#[test]
fn test_parse_amplitude_shapes() {
    // A bare fraction, a trailing dot, an explicit plus sign, and a signed
    // zero are all numbers in range.
    assert_eq!(parse_amplitude(b".5").unwrap().1.unwrap().value(), 500_000);
    assert_eq!(parse_amplitude(b"1.").unwrap().1.unwrap().value(), 1_000_000);
    assert_eq!(parse_amplitude(b"+0.25").unwrap().1.unwrap().value(), 250_000);
    assert_eq!(parse_amplitude(b"-0.0").unwrap().1.unwrap().value(), 0);
    // A value just over full scale is rejected even when the excess sits
    // past the six kept digits.
    assert!(parse_amplitude(b"1.0000001").is_none());
    // A lone sign or dot is no number at all.
    assert_eq!(parse_amplitude(b"-").unwrap(), (b"-" as &[u8], None));
    assert_eq!(parse_amplitude(b".").unwrap(), (b"." as &[u8], None));
}

#[test]
fn test_note_tokens() {
    let (rest, st) = parse_steps(b"ABCD").unwrap();
    assert_eq!(rest, b"" as &[u8]);
    let mut expected = Steps::new();
    expected.push(255, 44_000);
    expected.push(255, 49_388);
    expected.push(255, 52_325);
    expected.push(63, 58_733);
    assert_eq!(st, expected);
}

#[test]
fn test_separators_only_fail() {
    // Tokens are consumed but no step is denoted, so the rule fails.
    assert!(parse_steps(b"||||").is_none());
}

#[test]
fn test_track_with_amplitude() {
    let p = parse_track(b"hi-hat |x-x-| 0.5").unwrap().1;
    assert_eq!(p.0, Instrument::from("hi-hat"));
    assert_eq!(p.1, gate_steps(&[true, false, true, false]));
    assert_eq!(p.2.value(), 500_000);
}

#[test]
fn test_track_rejections() {
    // An unsupported note token leaves unconsumed input.
    assert!(parse_track(b"a xE").is_none());
    // A line of whitespace has no instrument.
    assert!(parse_track(b" \t").is_none());
    // Trailing content after the amplitude is rejected.
    assert!(parse_track(b"a |x| 0.5 zz").is_none());
    // An out-of-range amplitude rejects the line.
    assert!(parse_track(b"a |x| 1.5").is_none());
    // An instrument alone has no steps.
    assert!(parse_track(b"abc").is_none());
}

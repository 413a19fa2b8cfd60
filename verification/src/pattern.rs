//! The pattern grammar and the pattern model.
//!
//! A pattern file is line oriented; each line declares one track:
//!
//! ```text
//! <instrument> <step-token>+ [<amplitude>]
//! ```
//!
//! The instrument is a maximal run of non-whitespace bytes. Each step token
//! is one byte: `x` (active step), `-` (silent step), `|` (beat separator,
//! producing no step), or one of the notes `A`, `B`, `C`, `D` (active step
//! at that note's pitch). The optional amplitude is a decimal number in
//! [0, 1]; it defaults to full scale. Spaces and tabs may surround every
//! part, and the line must be consumed completely.

use vstd::prelude::*;
use vstd::slice::slice_subrange;
use vstd::slice::slice_to_vec;
use vstd::string::StringSliceAdditionalSpecFns;

use crate::audio::{tracks_entries_view, Tracks};
use crate::instrumentation::{Instrumentation, SampleFile};
use crate::steps::{Step, Steps, union_seq};

verus! {

/// Amplitudes are carried as integer millionths of full scale; this is the
/// value of full scale itself.
pub const AMPLITUDE_SCALE: u32 = 1_000_000;

/// Whitespace inside a track line: space or tab.
pub open spec fn is_space(b: u8) -> bool {
    b == 32 || b == 9
}

/// The step a token byte contributes: `x` and the wired notes are active
/// steps, `-` is the silent step; any other byte is no step token.
pub open spec fn spec_step_of(b: u8) -> Option<Step> {
    if b == 120 {  // 'x': reference pitch A4
        Some(Step { velocity: 255, freq_centihz: 44_000 })
    } else if b == 45 {  // '-'
        Some(Step { velocity: 0, freq_centihz: 0 })
    } else if b == 65 {  // 'A': A4
        Some(Step { velocity: 255, freq_centihz: 44_000 })
    } else if b == 66 {  // 'B': B4
        Some(Step { velocity: 255, freq_centihz: 49_388 })
    } else if b == 67 {  // 'C': C5
        Some(Step { velocity: 255, freq_centihz: 52_325 })
    } else if b == 68 {  // 'D': D5, played at a reduced velocity
        Some(Step { velocity: 63, freq_centihz: 58_733 })
    } else {
        None
    }
}

/// The beat separator `|`: consumed as a token, contributes no step.
pub open spec fn is_separator(b: u8) -> bool {
    b == 124
}

/// Any byte the step grammar consumes.
pub open spec fn is_step_token(b: u8) -> bool {
    is_separator(b) || spec_step_of(b) is Some
}

/// An ASCII decimal digit.
pub open spec fn is_digit(b: u8) -> bool {
    48 <= b <= 57
}

/// Length of the longest all-space prefix of `s`.
pub open spec fn space_len(s: Seq<u8>) -> nat
    decreases s.len(),
{
    if s.len() > 0 && is_space(s[0]) {
        (1 + space_len(s.drop_first())) as nat
    } else {
        0
    }
}

/// Length of the longest all-non-space prefix of `s`.
pub open spec fn nonspace_len(s: Seq<u8>) -> nat
    decreases s.len(),
{
    if s.len() > 0 && !is_space(s[0]) {
        (1 + nonspace_len(s.drop_first())) as nat
    } else {
        0
    }
}

/// Length of the longest prefix of `s` made of step tokens.
pub open spec fn token_len(s: Seq<u8>) -> nat
    decreases s.len(),
{
    if s.len() > 0 && is_step_token(s[0]) {
        (1 + token_len(s.drop_first())) as nat
    } else {
        0
    }
}

/// Length of the longest all-digit prefix of `s`.
pub open spec fn digit_len(s: Seq<u8>) -> nat
    decreases s.len(),
{
    if s.len() > 0 && is_digit(s[0]) {
        (1 + digit_len(s.drop_first())) as nat
    } else {
        0
    }
}

proof fn lemma_space_len_is(s: Seq<u8>, k: int)
    requires
        0 <= k <= s.len(),
        forall|j: int| 0 <= j < k ==> is_space(s[j]),
        k == s.len() || !is_space(s[k]),
    ensures
        space_len(s) == k,
    decreases s.len(),
{
    if k > 0 {
        assert(forall|j: int| 0 <= j < k - 1 ==> is_space(s.drop_first()[j]));
        lemma_space_len_is(s.drop_first(), k - 1);
    }
}

proof fn lemma_nonspace_len_is(s: Seq<u8>, k: int)
    requires
        0 <= k <= s.len(),
        forall|j: int| 0 <= j < k ==> !is_space(s[j]),
        k == s.len() || is_space(s[k]),
    ensures
        nonspace_len(s) == k,
    decreases s.len(),
{
    if k > 0 {
        assert(forall|j: int| 0 <= j < k - 1 ==> !is_space(s.drop_first()[j]));
        lemma_nonspace_len_is(s.drop_first(), k - 1);
    }
}

proof fn lemma_token_len_is(s: Seq<u8>, k: int)
    requires
        0 <= k <= s.len(),
        forall|j: int| 0 <= j < k ==> is_step_token(s[j]),
        k == s.len() || !is_step_token(s[k]),
    ensures
        token_len(s) == k,
    decreases s.len(),
{
    if k > 0 {
        assert(forall|j: int| 0 <= j < k - 1 ==> is_step_token(s.drop_first()[j]));
        lemma_token_len_is(s.drop_first(), k - 1);
    }
}

proof fn lemma_digit_len_is(s: Seq<u8>, k: int)
    requires
        0 <= k <= s.len(),
        forall|j: int| 0 <= j < k ==> is_digit(s[j]),
        k == s.len() || !is_digit(s[k]),
    ensures
        digit_len(s) == k,
    decreases s.len(),
{
    if k > 0 {
        assert(forall|j: int| 0 <= j < k - 1 ==> is_digit(s.drop_first()[j]));
        lemma_digit_len_is(s.drop_first(), k - 1);
    }
}

/// What is left of `s` once leading spaces and tabs are dropped.
pub open spec fn spec_space0(s: Seq<u8>) -> Seq<u8> {
    s.skip(space_len(s) as int)
}

/// The instrument rule: the longest non-empty run of non-space bytes.
/// Returns `(rest, name)`; fails when the run is empty.
pub open spec fn spec_parse_instrument(s: Seq<u8>) -> Option<(Seq<u8>, Seq<u8>)> {
    let n = nonspace_len(s) as int;
    if n == 0 {
        None
    } else {
        Some((s.skip(n), s.take(n)))
    }
}

/// The steps that a run of token bytes denotes, in order: every token that
/// stands for a step contributes it, separators contribute nothing.
pub open spec fn steps_of(s: Seq<u8>) -> Seq<Step>
    decreases s.len(),
{
    if s.len() == 0 {
        Seq::empty()
    } else {
        steps_of(s.drop_last()) + match spec_step_of(s.last()) {
            Some(st) => seq![st],
            None => Seq::empty(),
        }
    }
}

/// How many bytes of `s` stand for a step (every token except separators).
pub open spec fn emitting_count(s: Seq<u8>) -> nat
    decreases s.len(),
{
    if s.len() == 0 {
        0
    } else {
        (emitting_count(s.drop_last()) + if spec_step_of(s.last()) is Some {
            1 as nat
        } else {
            0 as nat
        }) as nat
    }
}

/// The step rule: the longest prefix of step tokens, which must denote at
/// least one step. Returns `(rest, steps)`; fails when no token is present
/// or all tokens are separators.
pub open spec fn spec_parse_steps(s: Seq<u8>) -> Option<(Seq<u8>, Seq<Step>)> {
    let n = token_len(s) as int;
    let st = steps_of(s.take(n));
    if st.len() == 0 {
        None
    } else {
        Some((s.skip(n), st))
    }
}

/// Ten to the `n`th power.
pub open spec fn pow10(n: nat) -> int
    decreases n,
{
    if n == 0 {
        1
    } else {
        10 * pow10((n - 1) as nat)
    }
}

/// The value of a run of decimal digit bytes, most significant first.
pub open spec fn digits_value(ds: Seq<u8>) -> int
    decreases ds.len(),
{
    if ds.len() == 0 {
        0
    } else {
        digits_value(ds.drop_last()) * 10 + (ds.last() - 48)
    }
}

/// The value of a fraction-digit run in millionths: the first six digits,
/// scaled so that six digits are always accounted for. Digits past the
/// sixth are truncated away.
pub open spec fn frac_millionths(ds: Seq<u8>) -> int {
    if ds.len() >= 6 {
        digits_value(ds.take(6))
    } else {
        digits_value(ds) * pow10((6 - ds.len()) as nat)
    }
}

/// Whether any truncated fraction digit (past the sixth) is non-zero.
pub open spec fn frac_tail_nonzero(ds: Seq<u8>) -> bool {
    exists|i: int| 6 <= i < ds.len() && ds[i] != 48
}

/// The number rule: an optional sign, then either at least one integer
/// digit with an optional `.` and fraction digits, or a `.` with at least
/// one fraction digit. Returns `(negative, integer digits, fraction digits,
/// rest)`; `None` when no number starts the input.
pub open spec fn spec_parse_number(s: Seq<u8>) -> Option<(bool, Seq<u8>, Seq<u8>, Seq<u8>)> {
    let neg = s.len() > 0 && s[0] == 45;
    let s1 = if s.len() > 0 && (s[0] == 45 || s[0] == 43) {
        s.drop_first()
    } else {
        s
    };
    let ni = digit_len(s1) as int;
    let ip = s1.take(ni);
    let s2 = s1.skip(ni);
    if ni > 0 {
        if s2.len() > 0 && s2[0] == 46 {
            let s3 = s2.drop_first();
            let nf = digit_len(s3) as int;
            Some((neg, ip, s3.take(nf), s3.skip(nf)))
        } else {
            Some((neg, ip, Seq::empty(), s2))
        }
    } else {
        if s1.len() > 0 && s1[0] == 46 {
            let s3 = s1.drop_first();
            let nf = digit_len(s3) as int;
            if nf > 0 {
                Some((neg, ip, s3.take(nf), s3.skip(nf)))
            } else {
                None
            }
        } else {
            None
        }
    }
}

/// Whether a parsed number lies in [0, 1]. `v` is the number's magnitude in
/// millionths as far as six fraction digits carry it, and `tail_nonzero`
/// says whether any further digit was non-zero.
pub open spec fn amp_in_range(neg: bool, v: int, tail_nonzero: bool) -> bool {
    if neg {
        v == 0 && !tail_nonzero
    } else {
        v < 1_000_000 || (v == 1_000_000 && !tail_nonzero)
    }
}

/// The amplitude rule: optional; when a number is present it must lie in
/// [0, 1], else the whole line is rejected. Returns `(rest, value in
/// millionths)`; `None` means an out-of-range number.
pub open spec fn spec_parse_amplitude(s: Seq<u8>) -> Option<(Seq<u8>, Option<int>)> {
    match spec_parse_number(s) {
        None => Some((s, None)),
        Some((neg, ip, fp, rest)) => {
            let v = digits_value(ip) * 1_000_000 + frac_millionths(fp);
            if amp_in_range(neg, v, frac_tail_nonzero(fp)) {
                Some((rest, Some(v)))
            } else {
                None
            }
        },
    }
}

/// A parsed step sequence has exactly one step for each token other than a
/// beat separator; an `x` token always denotes velocity 255 at A4
/// (44_000 centihertz), a `-` token always denotes the silent step, and a
/// separator never appears in the result.
pub proof fn lemma_steps_token_semantics(s: Seq<u8>)
    ensures
        steps_of(s).len() == emitting_count(s),
        spec_step_of(120) == Some(Step { velocity: 255, freq_centihz: 44_000 }),
        spec_step_of(45) == Some(Step { velocity: 0, freq_centihz: 0 }),
        spec_step_of(124) is None,
    decreases s.len(),
{
    if s.len() > 0 {
        lemma_steps_token_semantics(s.drop_last());
    }
}

fn byte_is_space(b: u8) -> (r: bool)
    ensures
        r == is_space(b),
{
    b == 32 || b == 9
}

/// Drops leading spaces and tabs.
fn skip_spaces(s: &[u8]) -> (r: &[u8])
    ensures
        r@ == spec_space0(s@),
{
    let mut i: usize = 0;
    while i < s.len() && byte_is_space(s[i])
        invariant
            i <= s@.len(),
            forall|j: int| 0 <= j < i ==> is_space(s@[j]),
        decreases s@.len() - i,
    {
        i = i + 1;
    }
    proof {
        lemma_space_len_is(s@, i as int);
    }
    slice_subrange(s, i, s.len())
}

/// Parses the instrument from a track line: the longest non-empty run of
/// bytes other than space and tab. Returns the remaining input and the
/// instrument name; fails when the line starts with whitespace or is empty.
pub fn parse_instrument(s: &[u8]) -> (r: Option<(&[u8], &[u8])>)
    ensures
        match r {
            Some((rest, name)) => spec_parse_instrument(s@) == Some((rest@, name@)),
            None => spec_parse_instrument(s@) is None,
        },
{
    let mut i: usize = 0;
    while i < s.len() && !byte_is_space(s[i])
        invariant
            i <= s@.len(),
            forall|j: int| 0 <= j < i ==> !is_space(s@[j]),
        decreases s@.len() - i,
    {
        i = i + 1;
    }
    proof {
        lemma_nonspace_len_is(s@, i as int);
    }
    if i == 0 {
        None
    } else {
        Some((slice_subrange(s, i, s.len()), slice_subrange(s, 0, i)))
    }
}

fn step_of(b: u8) -> (r: Option<Step>)
    ensures
        r == spec_step_of(b),
{
    if b == 120 {
        Some(Step { velocity: 255, freq_centihz: 44_000 })
    } else if b == 45 {
        Some(Step { velocity: 0, freq_centihz: 0 })
    } else if b == 65 {
        Some(Step { velocity: 255, freq_centihz: 44_000 })
    } else if b == 66 {
        Some(Step { velocity: 255, freq_centihz: 49_388 })
    } else if b == 67 {
        Some(Step { velocity: 255, freq_centihz: 52_325 })
    } else if b == 68 {
        Some(Step { velocity: 63, freq_centihz: 58_733 })
    } else {
        None
    }
}

fn byte_is_token(b: u8) -> (r: bool)
    ensures
        r == is_step_token(b),
{
    b == 124 || b == 120 || b == 45 || (65 <= b && b <= 68)
}

/// Parses the steps from a track line: the longest run of step tokens,
/// which must denote at least one step. Returns the remaining input and
/// the parsed sequence; fails when no step is denoted (zero tokens, or
/// separators only).
pub fn parse_steps(s: &[u8]) -> (r: Option<(&[u8], Steps)>)
    ensures
        match r {
            Some((rest, st)) => spec_parse_steps(s@) == Some((rest@, st@)),
            None => spec_parse_steps(s@) is None,
        },
{
    let mut acc = Steps::new();
    let mut i: usize = 0;
    while i < s.len() && byte_is_token(s[i])
        invariant
            i <= s@.len(),
            forall|j: int| 0 <= j < i ==> is_step_token(s@[j]),
            acc@ == steps_of(s@.take(i as int)),
        decreases s@.len() - i,
    {
        proof {
            let t1 = s@.take((i + 1) as int);
            assert(t1.drop_last() =~= s@.take(i as int));
            assert(t1.last() == s@[i as int]);
        }
        match step_of(s[i]) {
            Some(st) => {
                acc.push(st.velocity, st.freq_centihz);
                proof {
                    assert(acc@ =~= steps_of(s@.take((i + 1) as int)));
                }
            },
            None => {
                proof {
                    assert(acc@ =~= steps_of(s@.take((i + 1) as int)));
                }
            },
        }
        i = i + 1;
    }
    proof {
        lemma_token_len_is(s@, i as int);
    }
    if acc.len() == 0 {
        None
    } else {
        Some((slice_subrange(s, i, s.len()), acc))
    }
}

/// A track's playback amplitude in [0, 1] inclusive, carried as integer
/// millionths of full scale. Its view is that count of millionths.
#[derive(Clone, Copy, Debug, PartialEq, Eq, Structural)]
pub struct Amplitude {
    millionths: u32,
}

impl View for Amplitude {
    type V = int;

    closed spec fn view(&self) -> int {
        self.millionths as int
    }
}

impl Amplitude {
    /// The amplitude stays within full scale.
    pub open spec fn wf(self) -> bool {
        0 <= self@ <= AMPLITUDE_SCALE as int
    }

    /// Returns an amplitude of the maximum value: full scale.
    pub fn max() -> (r: Amplitude)
        ensures
            r@ == AMPLITUDE_SCALE as int,
            r.wf(),
    {
        Amplitude { millionths: AMPLITUDE_SCALE }
    }

    /// Compares the amplitude to another and returns the minimum.
    pub fn min(&self, other: &Amplitude) -> (r: Amplitude)
        ensures
            r@ == if self@ <= other@ {
                self@
            } else {
                other@
            },
            self.wf() && other.wf() ==> r.wf(),
    {
        if self.millionths <= other.millionths {
            Amplitude { millionths: self.millionths }
        } else {
            Amplitude { millionths: other.millionths }
        }
    }

    /// The amplitude's value in millionths of full scale.
    pub fn value(&self) -> (r: u32)
        ensures
            r as int == self@,
    {
        self.millionths
    }

    /// The amplitude a parsed option denotes: full scale when absent.
    fn defaulting(o: Option<Amplitude>) -> (r: Amplitude)
        ensures
            r@ == match o {
                Some(a) => a@,
                None => AMPLITUDE_SCALE as int,
            },
    {
        match o {
            Some(a) => a,
            None => Amplitude::max(),
        }
    }
}

fn byte_is_digit(b: u8) -> (r: bool)
    ensures
        r == is_digit(b),
{
    48 <= b && b <= 57
}

/// The value of a digit run is non-negative and below ten to its length.
proof fn lemma_digits_value_bound(ds: Seq<u8>)
    requires
        forall|j: int| 0 <= j < ds.len() ==> is_digit(ds[j]),
    ensures
        0 <= digits_value(ds) < pow10(ds.len()),
    decreases ds.len(),
{
    if ds.len() > 0 {
        lemma_digits_value_bound(ds.drop_last());
    }
}

/// Advances over the digit run that starts at `start`.
fn scan_digits(s: &[u8], start: usize) -> (end: usize)
    requires
        start <= s@.len(),
    ensures
        start <= end <= s@.len(),
        digit_len(s@.skip(start as int)) == end - start,
        forall|j: int| start <= j < end ==> is_digit(s@[j]),
{
    let mut i: usize = start;
    while i < s.len() && byte_is_digit(s[i])
        invariant
            start <= i <= s@.len(),
            forall|j: int| start <= j < i ==> is_digit(s@[j]),
        decreases s@.len() - i,
    {
        i = i + 1;
    }
    proof {
        let s1 = s@.skip(start as int);
        assert(forall|j: int| 0 <= j < i - start ==> is_digit(s1[j]));
        lemma_digit_len_is(s1, i - start);
    }
    i
}

/// Ten to a power is at least one.
proof fn lemma_pow10_pos(n: nat)
    ensures
        pow10(n) >= 1,
    decreases n,
{
    if n > 0 {
        lemma_pow10_pos((n - 1) as nat);
    }
}

/// Recognises the number grammar and returns the byte positions of its
/// parts: `(negative, integer digits start, integer digits end, fraction
/// digits start, fraction digits end)`. When no `.` is consumed, the
/// fraction is the empty range at the integer part's end, so the number
/// always ends where the fraction range does.
#[verifier::rlimit(60)]
fn parse_number(s: &[u8]) -> (r: Option<(bool, usize, usize, usize, usize)>)
    ensures
        match r {
            Some((neg, ip_start, ip_end, frac_start, frac_end)) => {
                &&& ip_start <= ip_end <= frac_start <= frac_end <= s@.len()
                &&& spec_parse_number(s@) == Some(
                    (
                        neg,
                        s@.subrange(ip_start as int, ip_end as int),
                        s@.subrange(frac_start as int, frac_end as int),
                        s@.skip(frac_end as int),
                    ),
                )
                &&& forall|j: int| ip_start <= j < ip_end ==> is_digit(s@[j])
                &&& forall|j: int| frac_start <= j < frac_end ==> is_digit(s@[j])
            },
            None => spec_parse_number(s@) is None,
        },
{
    let signed: bool = s.len() > 0 && (s[0] == 45 || s[0] == 43);
    let neg: bool = s.len() > 0 && s[0] == 45;
    let ip_start: usize = if signed {
        1
    } else {
        0
    };
    let ghost s1 = s@.skip(ip_start as int);
    proof {
        if signed {
            assert(s1 =~= s@.drop_first());
        }
    }
    let ip_end: usize = scan_digits(s, ip_start);
    let ip_len: usize = ip_end - ip_start;
    let has_dot: bool = ip_end < s.len() && s[ip_end] == 46;
    let frac_start: usize = if has_dot {
        ip_end + 1
    } else {
        ip_end
    };
    let frac_end: usize = if has_dot {
        scan_digits(s, frac_start)
    } else {
        ip_end
    };
    let frac_len: usize = frac_end - frac_start;
    proof {
        assert(s1.skip(ip_len as int) =~= s@.skip(ip_end as int));
        if ip_end < s@.len() {
            assert(s@.skip(ip_end as int)[0] == s@[ip_end as int]);
            assert(s@.skip(ip_end as int).drop_first() =~= s@.skip(ip_end + 1));
        }
    }
    proof {
        let sv = s@;
        let spec_s1 = if signed {
            sv.drop_first()
        } else {
            sv
        };
        assert(spec_s1 =~= s1);
        let s2 = s1.skip(ip_len as int);
        assert(s2 =~= sv.skip(ip_end as int));
        if has_dot {
            assert(s2.len() > 0 && s2[0] == 46);
            let s3 = sv.skip(frac_start as int);
            assert(s2.drop_first() =~= s3);
            assert(sv.subrange(frac_start as int, frac_end as int) =~= s3.take(frac_len as int));
            assert(s3.skip(frac_len as int) =~= sv.skip(frac_end as int));
        } else {
            assert(!(s2.len() > 0 && s2[0] == 46));
            assert(sv.subrange(frac_start as int, frac_end as int) =~= Seq::<u8>::empty());
        }
        assert(sv.subrange(ip_start as int, ip_end as int) =~= s1.take(ip_len as int));
    }
    if ip_len == 0 && (!has_dot || frac_len == 0) {
        proof {
            assert(spec_parse_number(s@) is None);
        }
        return None;
    }
    Some((neg, ip_start, ip_end, frac_start, frac_end))
}

/// Parses the optional trailing amplitude from a track line. A number that
/// is present must lie in [0, 1] inclusive; an absent number consumes
/// nothing and later defaults to full scale. Returns the remaining input
/// and the amplitude; fails when the number is out of range. The stored
/// value keeps six fraction digits; further digits only decide range
/// membership at the boundaries.
pub fn parse_amplitude(s: &[u8]) -> (r: Option<(&[u8], Option<Amplitude>)>)
    ensures
        match r {
            Some((rest, Some(a))) => spec_parse_amplitude(s@) == Some((rest@, Some(a@)))
                && a.wf(),
            Some((rest, None)) => spec_parse_amplitude(s@) == Some((rest@, Option::<int>::None))
                && rest@ == s@,
            None => spec_parse_amplitude(s@) is None,
        },
{
    let parts = parse_number(s);
    if parts.is_none() {
        return Some((s, None));
    }
    let (neg, ip_start, ip_end, frac_start, frac_end) = parts.unwrap();
    let ghost ip = s@.subrange(ip_start as int, ip_end as int);
    let ghost fp = s@.subrange(frac_start as int, frac_end as int);

    // Integer-part value, saturated at 2: any value of 2 or more is out of
    // range whatever the fraction says.
    let mut ip_cap: u32 = 0;
    let mut k: usize = ip_start;
    while k < ip_end
        invariant
            ip_start <= k <= ip_end <= s@.len(),
            forall|j: int| ip_start <= j < ip_end ==> is_digit(s@[j]),
            ip_cap as int == if digits_value(s@.subrange(ip_start as int, k as int)) >= 2 {
                2int
            } else {
                digits_value(s@.subrange(ip_start as int, k as int))
            },
        decreases ip_end - k,
    {
        let d: u8 = s[k] - 48;
        proof {
            let pref = s@.subrange(ip_start as int, k as int);
            let pref2 = s@.subrange(ip_start as int, (k + 1) as int);
            assert(pref2.drop_last() =~= pref);
            assert(forall|j: int| 0 <= j < pref.len() ==> is_digit(pref[j]));
            lemma_digits_value_bound(pref);
            assert(digits_value(pref2) == digits_value(pref) * 10 + d);
        }
        ip_cap = if ip_cap >= 1 {
            2
        } else if d >= 2 {
            2
        } else {
            d as u32
        };
        k = k + 1;
    }
    proof {
        assert(s@.subrange(ip_start as int, ip_end as int) == ip);
    }

    // Fraction value: the first six digits, and whether any later digit is
    // non-zero.
    let mut f6: u32 = 0;
    let mut cnt6: usize = 0;
    let mut tail: bool = false;
    let mut j: usize = frac_start;
    proof {
        assert(s@.subrange(frac_start as int, frac_start as int) =~= Seq::<u8>::empty());
    }
    while j < frac_end
        invariant
            frac_start <= j <= frac_end <= s@.len(),
            forall|jj: int| frac_start <= jj < frac_end ==> is_digit(s@[jj]),
            cnt6 == if j - frac_start <= 6 {
                (j - frac_start) as int
            } else {
                6int
            },
            f6 as int == digits_value(
                s@.subrange(frac_start as int, (frac_start + cnt6) as int),
            ),
            f6 < 1_000_000,
            tail == frac_tail_nonzero(s@.subrange(frac_start as int, j as int)),
        decreases frac_end - j,
    {
        let d: u8 = s[j] - 48;
        let ghost pref = s@.subrange(frac_start as int, j as int);
        let ghost pref2 = s@.subrange(frac_start as int, (j + 1) as int);
        proof {
            assert(pref2.drop_last() =~= pref);
        }
        if cnt6 < 6 {
            proof {
                let c = s@.subrange(frac_start as int, (frac_start + cnt6) as int);
                assert(c == pref);
                assert(forall|jj: int| 0 <= jj < c.len() ==> is_digit(c[jj]));
                lemma_digits_value_bound(c);
                lemma_pow10_mono(c.len(), 5);
                reveal_with_fuel(pow10, 7);
                assert(digits_value(pref2) == digits_value(pref) * 10 + d);
                assert(!frac_tail_nonzero(pref2));
            }
            f6 = f6 * 10 + (d as u32);
            cnt6 = cnt6 + 1;
        } else {
            proof {
                assert(s@.subrange(frac_start as int, (frac_start + cnt6) as int)
                    == pref2.take(6));
                if tail {
                    let i0 = choose|i0: int| 6 <= i0 < pref.len() && pref[i0] != 48;
                    assert(pref2[i0] != 48);
                    assert(frac_tail_nonzero(pref2));
                } else if d != 0 {
                    assert(pref2[j - frac_start] != 48);
                    assert(frac_tail_nonzero(pref2));
                } else {
                    assert(forall|ii: int| 6 <= ii < pref2.len() ==> pref2[ii] == 48);
                }
            }
            tail = tail || d != 0;
        }
        j = j + 1;
    }
    proof {
        assert(s@.subrange(frac_start as int, frac_end as int) == fp);
        assert(s@.subrange(frac_start as int, (frac_start + cnt6) as int) =~= fp.take(
            cnt6 as int,
        ));
    }

    // Scale the six kept digits to millionths.
    let frac_mill: u32 = if cnt6 >= 6 {
        proof {
            assert(fp.take(6) == fp.take(cnt6 as int));
        }
        f6
    } else {
        proof {
            assert(fp.take(cnt6 as int) =~= fp);
            lemma_digits_value_bound(fp);
            reveal_with_fuel(pow10, 7);
        }
        if cnt6 == 5 {
            f6 * 10
        } else if cnt6 == 4 {
            f6 * 100
        } else if cnt6 == 3 {
            f6 * 1_000
        } else if cnt6 == 2 {
            f6 * 10_000
        } else if cnt6 == 1 {
            f6 * 100_000
        } else {
            proof {
                assert(digits_value(fp) == 0);
            }
            f6 * 1_000_000
        }
    };
    proof {
        assert(frac_mill as int == frac_millionths(fp));
        assert(0 <= frac_millionths(fp) < 1_000_000 || (cnt6 >= 6 && frac_mill < 1_000_000));
    }

    if ip_cap >= 2 {
        // The integer part alone is at least 2, so the value is beyond full
        // scale (and not zero, so a negative sign cannot save it either).
        proof {
            let v = digits_value(ip) * 1_000_000 + frac_millionths(fp);
            assert(digits_value(ip) >= 2);
            assert(v >= 2_000_000);
        }
        return None;
    }
    let v: u32 = ip_cap * 1_000_000 + frac_mill;
    let in_range: bool = if neg {
        v == 0 && !tail
    } else {
        v < 1_000_000 || (v == 1_000_000 && !tail)
    };
    if in_range {
        Some((slice_subrange(s, frac_end, s.len()), Some(Amplitude { millionths: v })))
    } else {
        None
    }
}

/// A track's instrument name: a run of non-whitespace bytes, unique within
/// one pattern.
#[derive(Debug)]
pub struct Instrument(Vec<u8>);

impl View for Instrument {
    type V = Seq<u8>;

    closed spec fn view(&self) -> Seq<u8> {
        self.0@
    }
}

impl Instrument {
    /// Builds an instrument name from a string's bytes.
    pub fn from(s: &str) -> (r: Instrument)
        ensures
            r@ == s.spec_bytes(),
    {
        Instrument(slice_to_vec(s.as_bytes()))
    }

    /// The name's bytes.
    pub fn name(&self) -> (r: &Vec<u8>)
        ensures
            r@ == self@,
    {
        &self.0
    }
}

impl Clone for Instrument {
    /// The copy carries the same name.
    fn clone(&self) -> (r: Self)
        ensures
            r@ == self@,
    {
        Instrument(slice_to_vec(self.0.as_slice()))
    }
}

impl PartialEq for Instrument {
    fn eq(&self, other: &Instrument) -> (r: bool) {
        if self.0.len() != other.0.len() {
            return false;
        }
        let mut i: usize = 0;
        while i < self.0.len()
            invariant
                i <= self.0@.len(),
                self.0@.len() == other.0@.len(),
                forall|j: int| 0 <= j < i ==> self.0@[j] == other.0@[j],
            decreases self.0@.len() - i,
        {
            if self.0[i] != other.0[i] {
                return false;
            }
            i = i + 1;
        }
        proof {
            assert(self.0@ =~= other.0@);
        }
        true
    }
}

impl vstd::std_specs::cmp::PartialEqSpecImpl for Instrument {
    open spec fn obeys_eq_spec() -> bool {
        true
    }

    open spec fn eq_spec(&self, other: &Instrument) -> bool {
        self@ == other@
    }
}

/// The parts a well-formed track line denotes: the instrument name's bytes,
/// the denoted steps, and the amplitude in millionths of full scale.
pub struct SpecTrack {
    pub name: Seq<u8>,
    pub steps: Seq<Step>,
    pub amplitude: int,
}

/// The track rule: optional spaces, an instrument, spaces, one or more step
/// tokens, spaces, an optional amplitude, optional trailing spaces, and
/// nothing else.
pub open spec fn spec_parse_track(s: Seq<u8>) -> Option<SpecTrack> {
    let s1 = spec_space0(s);
    match spec_parse_instrument(s1) {
        None => None,
        Some((s2, name)) => {
            let s3 = spec_space0(s2);
            match spec_parse_steps(s3) {
                None => None,
                Some((s4, st)) => {
                    let s5 = spec_space0(s4);
                    match spec_parse_amplitude(s5) {
                        None => None,
                        Some((s6, amp)) => if spec_space0(s6).len() == 0 {
                            Some(
                                SpecTrack {
                                    name,
                                    steps: st,
                                    amplitude: match amp {
                                        Some(v) => v,
                                        None => AMPLITUDE_SCALE as int,
                                    },
                                },
                            )
                        } else {
                            None
                        },
                    }
                },
            }
        },
    }
}

/// Parses a track from a single line of a pattern file. Returns the
/// remaining input (empty, since the whole line must be consumed) and the
/// instrument, steps and amplitude the line declares.
pub fn parse_track(s: &[u8]) -> (r: Option<(&[u8], (Instrument, Steps, Amplitude))>)
    ensures
        match r {
            Some((rest, t)) => spec_parse_track(s@) == Some(
                SpecTrack { name: t.0@, steps: t.1@, amplitude: t.2@ },
            ) && rest@.len() == 0 && t.2.wf(),
            None => spec_parse_track(s@) is None,
        },
{
    let s1 = skip_spaces(s);
    match parse_instrument(s1) {
        None => None,
        Some((s2, name)) => {
            let s3 = skip_spaces(s2);
            match parse_steps(s3) {
                None => None,
                Some((s4, st)) => {
                    let s5 = skip_spaces(s4);
                    match parse_amplitude(s5) {
                        None => None,
                        Some((s6, amp)) => {
                            let s7 = skip_spaces(s6);
                            if s7.len() == 0 {
                                Some(
                                    (
                                        s7,
                                        (
                                            Instrument(slice_to_vec(name)),
                                            st,
                                            Amplitude::defaulting(amp),
                                        ),
                                    ),
                                )
                            } else {
                                None
                            }
                        },
                    }
                },
            }
        },
    }
}

/// An error found while loading a pattern: a line that does not match the
/// track grammar, or an instrument name that appears on more than one
/// line. Each carries the raw offending line.
#[derive(Debug)]
pub enum Error {
    ParseError(Vec<u8>),
    DuplicatePatternError(Vec<u8>),
}

/// What parsing a pattern file's lines yields: the entries in line order,
/// or the first offending line.
pub enum SpecParseOutcome {
    Parsed(Seq<(Seq<u8>, (Seq<Step>, int))>),
    BadLine(Seq<u8>),
    DuplicateLine(Seq<u8>),
}

/// The steps and amplitude of the first entry with the given instrument
/// name.
pub open spec fn spec_lookup(
    entries: Seq<(Seq<u8>, (Seq<Step>, int))>,
    name: Seq<u8>,
) -> Option<(Seq<Step>, int)>
    decreases entries.len(),
{
    if entries.len() == 0 {
        None
    } else if entries[0].0 == name {
        Some(entries[0].1)
    } else {
        spec_lookup(entries.drop_first(), name)
    }
}

/// A name that looks up to nothing occurs in no entry.
proof fn lemma_lookup_none(entries: Seq<(Seq<u8>, (Seq<Step>, int))>, name: Seq<u8>)
    requires
        spec_lookup(entries, name) is None,
    ensures
        forall|i: int| 0 <= i < entries.len() ==> entries[i].0 != name,
    decreases entries.len(),
{
    if entries.len() > 0 {
        lemma_lookup_none(entries.drop_first(), name);
        assert(forall|i: int|
            1 <= i < entries.len() ==> entries[i] == entries.drop_first()[i - 1]);
    }
}

/// Folding a pattern file line after line: each line must parse as exactly
/// one track, and an instrument declared on an earlier line makes the
/// later line a duplicate error.
pub open spec fn spec_parse_rec(
    lines: Seq<Seq<u8>>,
    acc: Seq<(Seq<u8>, (Seq<Step>, int))>,
) -> SpecParseOutcome
    decreases lines.len(),
{
    if lines.len() == 0 {
        SpecParseOutcome::Parsed(acc)
    } else {
        match spec_parse_track(lines[0]) {
            None => SpecParseOutcome::BadLine(lines[0]),
            Some(t) => if spec_lookup(acc, t.name) is Some {
                SpecParseOutcome::DuplicateLine(lines[0])
            } else {
                spec_parse_rec(lines.drop_first(), acc.push((t.name, (t.steps, t.amplitude))))
            },
        }
    }
}

/// What a pattern file's lines denote: the parsed entries, or the first
/// offending line.
pub open spec fn spec_parse_pattern(lines: Seq<Seq<u8>>) -> SpecParseOutcome {
    spec_parse_rec(lines, Seq::empty())
}

/// The view of a pattern's entries: each instrument name with its steps and
/// amplitude, in declaration order.
pub open spec fn pattern_entries_view(v: Seq<(Instrument, (Steps, Amplitude))>) -> Seq<
    (Seq<u8>, (Seq<Step>, int)),
> {
    v.map_values(|e: (Instrument, (Steps, Amplitude))| (e.0@, (e.1.0@, e.1.1@)))
}

/// The length of the longest step sequence among the entries.
pub open spec fn max_steps_len(entries: Seq<(Seq<u8>, (Seq<Step>, int))>) -> nat
    decreases entries.len(),
{
    if entries.len() == 0 {
        0
    } else {
        let m = max_steps_len(entries.drop_last());
        if entries.last().1.0.len() > m {
            entries.last().1.0.len()
        } else {
            m
        }
    }
}

/// The index of the first entry whose instrument carries the given name.
fn find_entry(entries: &Vec<(Instrument, (Steps, Amplitude))>, name: &Instrument) -> (r: Option<
    usize,
>)
    ensures
        match r {
            Some(idx) => idx < entries@.len() && spec_lookup(
                pattern_entries_view(entries@),
                name@,
            ) == Some((entries@[idx as int].1.0@, entries@[idx as int].1.1@)),
            None => spec_lookup(pattern_entries_view(entries@), name@) is None,
        },
{
    let ghost ev = pattern_entries_view(entries@);
    let mut k: usize = 0;
    proof {
        assert(ev.skip(0) =~= ev);
    }
    while k < entries.len()
        invariant
            k <= entries@.len(),
            ev == pattern_entries_view(entries@),
            spec_lookup(ev.skip(k as int), name@) == spec_lookup(ev, name@),
        decreases entries@.len() - k,
    {
        proof {
            assert(ev.skip(k as int)[0] == ev[k as int]);
            assert(ev[k as int] == (
                entries@[k as int].0@,
                (entries@[k as int].1.0@, entries@[k as int].1.1@),
            ));
        }
        if entries[k].0 == *name {
            return Some(k);
        }
        proof {
            assert(ev.skip(k as int).drop_first() =~= ev.skip((k + 1) as int));
        }
        k = k + 1;
    }
    proof {
        assert(ev.skip(k as int) =~= Seq::<(Seq<u8>, (Seq<Step>, int))>::empty());
    }
    None
}

/// Represents the contents of a pattern file.
///
/// Each line of a pattern file represents a track. There is no limit to the
/// number of tracks in a pattern. A track contains an instrument name, a
/// step sequence, and an optional amplitude. The instrument name is an
/// identifier and can only appear once per pattern. A sequence typically
/// represents a single measure in 4/4 time divided into 16th-note steps
/// (`x` for *play* and `-` for *silent*, with `|` as a visual beat
/// separator). A track may optionally include an amplitude in the range
/// [0, 1] inclusive; by default, a track plays at full volume.
pub struct Pattern(Vec<(Instrument, (Steps, Amplitude))>);

impl View for Pattern {
    type V = Seq<(Seq<u8>, (Seq<Step>, int))>;

    closed spec fn view(&self) -> Seq<(Seq<u8>, (Seq<Step>, int))> {
        pattern_entries_view(self.0@)
    }
}

impl Pattern {
    /// Instrument names are unique and amplitudes lie within full scale.
    pub open spec fn wf(self) -> bool {
        (forall|i: int, j: int| 0 <= i < j < self@.len() ==> self@[i].0 != self@[j].0)
            && (forall|i: int|
            0 <= i < self@.len() ==> 0 <= #[trigger] self@[i].1.1 <= AMPLITUDE_SCALE as int)
    }

    /// Parses a pattern file given as its lines. Every line must parse as
    /// exactly one track; a line that does not ends parsing with a parse
    /// error naming it, and a line that repeats an earlier instrument name
    /// ends parsing with a duplicate error naming it.
    pub fn parse(lines: &Vec<Vec<u8>>) -> (r: Result<Pattern, Error>)
        ensures
            match r {
                Ok(p) => spec_parse_pattern(lines.deep_view()) == SpecParseOutcome::Parsed(p@)
                    && p.wf(),
                Err(Error::ParseError(l)) => spec_parse_pattern(lines.deep_view())
                    == SpecParseOutcome::BadLine(l@),
                Err(Error::DuplicatePatternError(l)) => spec_parse_pattern(lines.deep_view())
                    == SpecParseOutcome::DuplicateLine(l@),
            },
    {
        let ghost lv = lines.deep_view();
        let mut entries: Vec<(Instrument, (Steps, Amplitude))> = Vec::new();
        let mut k: usize = 0;
        proof {
            assert(lv.skip(0) =~= lv);
            assert(pattern_entries_view(entries@) =~= Seq::<(Seq<u8>, (Seq<Step>, int))>::empty());
        }
        while k < lines.len()
            invariant
                k <= lines@.len(),
                lv == lines.deep_view(),
                lv.len() == lines@.len(),
                spec_parse_rec(lv.skip(k as int), pattern_entries_view(entries@))
                    == spec_parse_pattern(lv),
                forall|i: int, j: int|
                    0 <= i < j < entries@.len() ==> pattern_entries_view(entries@)[i].0
                        != pattern_entries_view(entries@)[j].0,
                forall|i: int|
                    0 <= i < entries@.len() ==> 0 <= #[trigger] pattern_entries_view(
                        entries@,
                    )[i].1.1 <= AMPLITUDE_SCALE as int,
            decreases lines@.len() - k,
        {
            let line: &Vec<u8> = &lines[k];
            proof {
                assert(lv[k as int] =~= line@);
                assert(lv.skip(k as int)[0] == lv[k as int]);
                assert(lv.skip(k as int).drop_first() =~= lv.skip((k + 1) as int));
            }
            match parse_track(line.as_slice()) {
                None => {
                    return Err(Error::ParseError(slice_to_vec(line.as_slice())));
                },
                Some((_rest, t)) => {
                    match find_entry(&entries, &t.0) {
                        Some(_idx) => {
                            return Err(Error::DuplicatePatternError(slice_to_vec(line.as_slice())));
                        },
                        None => {
                            let ghost pre = pattern_entries_view(entries@);
                            let ghost tname = t.0@;
                            let ghost tsteps = t.1@;
                            let ghost tamp = t.2@;
                            proof {
                                lemma_lookup_none(pre, tname);
                            }
                            entries.push((t.0, (t.1, t.2)));
                            proof {
                                assert(pattern_entries_view(entries@) =~= pre.push(
                                    (tname, (tsteps, tamp)),
                                ));
                            }
                        },
                    }
                },
            }
            k = k + 1;
        }
        proof {
            assert(lv.skip(k as int) =~= Seq::<Seq<u8>>::empty());
        }
        Ok(Pattern(entries))
    }

    /// Returns the step sequence and amplitude associated with the
    /// instrument given.
    pub fn get(&self, i: &Instrument) -> (r: Option<&(Steps, Amplitude)>)
        ensures
            match r {
                Some(p) => spec_lookup(self@, i@) == Some((p.0@, p.1@)),
                None => spec_lookup(self@, i@) is None,
            },
    {
        match find_entry(&self.0, i) {
            Some(k) => Some(&self.0[k].1),
            None => None,
        }
    }

    /// The number of steps in the pattern's longest step sequence.
    pub fn len(&self) -> (r: usize)
        ensures
            r == max_steps_len(self@),
    {
        let mut max_len: usize = 0;
        let mut k: usize = 0;
        proof {
            assert(self@.take(0) =~= Seq::<(Seq<u8>, (Seq<Step>, int))>::empty());
        }
        while k < self.0.len()
            invariant
                k <= self.0@.len(),
                max_len == max_steps_len(self@.take(k as int)),
            decreases self.0@.len() - k,
        {
            let l = self.0[k].1.0.len();
            proof {
                let t = self@.take((k + 1) as int);
                assert(t.drop_last() =~= self@.take(k as int));
                assert(t.last() == self@[k as int]);
                assert(self@[k as int] == (
                    self.0@[k as int].0@,
                    (self.0@[k as int].1.0@, self.0@[k as int].1.1@),
                ));
            }
            if l > max_len {
                max_len = l;
            }
            k = k + 1;
        }
        proof {
            assert(self@.take(self.0@.len() as int) =~= self@);
        }
        max_len
    }
}

/// One step of the binding fold: an instrument that exists in the pattern
/// contributes its steps by elementwise combination and its amplitude by
/// minimum; an instrument the pattern does not declare is skipped.
pub open spec fn spec_fold_track(
    p: Seq<(Seq<u8>, (Seq<Step>, int))>,
    instrs: Seq<Seq<u8>>,
    acc: (Seq<Step>, int),
) -> (Seq<Step>, int)
    decreases instrs.len(),
{
    if instrs.len() == 0 {
        acc
    } else {
        let acc2 = match spec_lookup(p, instrs[0]) {
            Some(sa) => (
                union_seq(acc.0, sa.0),
                if acc.1 <= sa.1 {
                    acc.1
                } else {
                    sa.1
                },
            ),
            None => acc,
        };
        spec_fold_track(p, instrs.drop_first(), acc2)
    }
}

/// The track a set of instrument names reduces to: starting from an
/// all-silent sequence of the pattern's length at full amplitude, combine
/// the steps of every named instrument the pattern declares, keeping the
/// smallest amplitude among them.
pub open spec fn spec_bind_track(
    p: Seq<(Seq<u8>, (Seq<Step>, int))>,
    instrs: Seq<Seq<u8>>,
) -> (Seq<Step>, int) {
    spec_fold_track(
        p,
        instrs,
        (Seq::new(max_steps_len(p), |i: int| Step::spec_silent()), AMPLITUDE_SCALE as int),
    )
}

impl Pattern {
    /// Binds the pattern's step sequences to audio files. The sequences of
    /// all instruments bound to the same audio file are combined
    /// elementwise, and the smallest amplitude among them is kept, so that
    /// the quietest instrument sharing a sample wins. Instruments named in
    /// the instrumentation but absent from the pattern are silently
    /// skipped: a sample may be declared but unused in a given pattern.
    pub fn bind(&self, instrumentation: Instrumentation) -> (r: Tracks)
        ensures
            r@.len() == instrumentation@.len(),
            forall|k: int|
                0 <= k < instrumentation@.len() ==> #[trigger] r@[k] == (
                    instrumentation@[k].0,
                    spec_bind_track(self@, instrumentation@[k].1),
                ),
    {
        let n = instrumentation.len();
        let mut out: Vec<(SampleFile, (Steps, Amplitude))> = Vec::new();
        let mut k: usize = 0;
        while k < n
            invariant
                k <= n,
                n == instrumentation@.len(),
                out@.len() == k,
                forall|t: int|
                    0 <= t < k ==> #[trigger] tracks_entries_view(out@)[t] == (
                        instrumentation@[t].0,
                        spec_bind_track(self@, instrumentation@[t].1),
                    ),
            decreases n - k,
        {
            let entry = instrumentation.get(k);
            let file = entry.0.clone();
            let ghost iv = instrumentation@[k as int].1;
            let mut acc_steps = Steps::zeros(self.len());
            let mut acc_amp = Amplitude::max();
            proof {
                assert(iv.skip(0) =~= iv);
            }
            let m = entry.1.len();
            let mut j: usize = 0;
            while j < m
                invariant
                    j <= m,
                    m == iv.len(),
                    entry.1@.map_values(|i: Instrument| i@) == iv,
                    spec_fold_track(self@, iv.skip(j as int), (acc_steps@, acc_amp@))
                        == spec_bind_track(self@, iv),
                decreases m - j,
            {
                proof {
                    assert(iv.skip(j as int)[0] == iv[j as int]);
                    assert(iv[j as int] == entry.1@[j as int]@);
                    assert(iv.skip(j as int).drop_first() =~= iv.skip((j + 1) as int));
                }
                let instr = &entry.1[j];
                match self.get(instr) {
                    Some(sa) => {
                        acc_steps = acc_steps.union(&sa.0);
                        acc_amp = acc_amp.min(&sa.1);
                    },
                    None => {},
                }
                j = j + 1;
            }
            proof {
                assert(iv.skip(m as int) =~= Seq::<Seq<u8>>::empty());
            }
            let ghost final_steps = acc_steps@;
            let ghost final_amp = acc_amp@;
            let ghost pre = out@;
            out.push((file, (acc_steps, acc_amp)));
            proof {
                assert(out@ == pre.push((file, (acc_steps, acc_amp))));
                assert(tracks_entries_view(out@)[k as int] == (
                    instrumentation@[k as int].0,
                    (final_steps, final_amp),
                ));
                assert(forall|t: int|
                    0 <= t < k ==> #[trigger] tracks_entries_view(out@)[t]
                        == tracks_entries_view(pre)[t]);
            }
            k = k + 1;
        }
        Tracks::from(out)
    }
}

/// Ten to a power never shrinks as the power grows.
proof fn lemma_pow10_mono(a: nat, b: nat)
    requires
        a <= b,
    ensures
        pow10(a) <= pow10(b),
    decreases b,
{
    lemma_pow10_pos(a);
    if a < b {
        lemma_pow10_mono(a, (b - 1) as nat);
        lemma_pow10_pos((b - 1) as nat);
        assert(pow10(b) == 10 * pow10((b - 1) as nat));
    }
}

} // verus!

//! The step model: one measure's subdivisions, each carrying a velocity
//! and a frequency, with an elementwise combination operation.

use vstd::prelude::*;

verus! {

/// One subdivision of a measure. A step is *active* when its velocity is
/// greater than zero. The frequency is a pitch hint carried as hundredths
/// of a hertz (centihertz), so that the standard note table is exact:
/// A4 = 44_000, B4 = 49_388, C5 = 52_325, D5 = 58_733.
#[derive(Clone, Copy, Debug, PartialEq, Eq, Structural)]
pub struct Step {
    /// Gate velocity, 0 (silent) to 255 (full).
    pub velocity: u8,
    /// Pitch hint in centihertz; 0 for a silent step.
    pub freq_centihz: u32,
}

impl Step {
    /// The inactive step: velocity 0, frequency 0.
    pub open spec fn spec_silent() -> Step {
        Step { velocity: 0, freq_centihz: 0 }
    }

    /// The inactive step: velocity 0, frequency 0.
    pub fn silent() -> (r: Step)
        ensures
            r == Step::spec_silent(),
    {
        Step { velocity: 0, freq_centihz: 0 }
    }

    /// Whether the step gates playback.
    pub open spec fn spec_active(self) -> bool {
        self.velocity > 0
    }

    /// Whether the step gates playback.
    pub fn active(&self) -> (r: bool)
        ensures
            r == self.spec_active(),
    {
        self.velocity > 0
    }
}

/// Elementwise combination of two step sequences: at each position keep the
/// step with the higher velocity; on an exact tie keep the step of `b`.
/// Positions past the shorter sequence are dropped.
pub open spec fn union_seq(a: Seq<Step>, b: Seq<Step>) -> Seq<Step> {
    Seq::new(
        if a.len() <= b.len() {
            a.len()
        } else {
            b.len()
        },
        |i: int| if a[i].velocity > b[i].velocity {
            a[i]
        } else {
            b[i]
        },
    )
}

/// An ordered sequence of steps making up one measure.
#[derive(Debug, PartialEq)]
pub struct Steps(Vec<Step>);

impl Clone for Steps {
    /// The copy carries the same steps.
    fn clone(&self) -> (r: Self)
        ensures
            r@ == self@,
    {
        Steps(vstd::slice::slice_to_vec(self.0.as_slice()))
    }
}

impl View for Steps {
    type V = Seq<Step>;

    closed spec fn view(&self) -> Seq<Step> {
        self.0@
    }
}

impl Steps {
    /// An empty step sequence.
    pub fn new() -> (r: Steps)
        ensures
            r@ == Seq::<Step>::empty(),
    {
        Steps(Vec::new())
    }

    /// Appends one step; used while parsing a step token list.
    pub fn push(&mut self, velocity: u8, freq_centihz: u32)
        ensures
            final(self)@ == old(self)@.push(Step { velocity, freq_centihz }),
    {
        self.0.push(Step { velocity, freq_centihz });
    }

    /// A sequence of `n` inactive steps.
    pub fn zeros(n: usize) -> (r: Steps)
        ensures
            r@ == Seq::new(n as nat, |i: int| Step::spec_silent()),
    {
        let mut v: Vec<Step> = Vec::new();
        let mut i: usize = 0;
        while i < n
            invariant
                i <= n,
                v@ == Seq::new(i as nat, |j: int| Step::spec_silent()),
            decreases n - i,
        {
            v.push(Step::silent());
            proof {
                assert(v@ =~= Seq::new((i + 1) as nat, |j: int| Step::spec_silent()));
            }
            i = i + 1;
        }
        Steps(v)
    }

    /// The number of steps.
    pub fn len(&self) -> (r: usize)
        ensures
            r == self@.len(),
    {
        self.0.len()
    }

    /// The step at position `i`.
    pub fn get(&self, i: usize) -> (r: Step)
        requires
            i < self@.len(),
        ensures
            r == self@[i as int],
    {
        self.0[i]
    }

    /// Read access to the underlying steps, in order.
    pub fn iter(&self) -> (r: &Vec<Step>)
        ensures
            r@ == self@,
    {
        &self.0
    }

    /// Combines two sequences elementwise, keeping at each position the
    /// step with the higher velocity; exact velocity ties keep the step of
    /// `other`. If the lengths differ, the result stops at the shorter one.
    pub fn union(&self, other: &Steps) -> (r: Steps)
        ensures
            r@ == union_seq(self@, other@),
    {
        let n: usize = if self.0.len() <= other.0.len() {
            self.0.len()
        } else {
            other.0.len()
        };
        let mut v: Vec<Step> = Vec::new();
        let mut i: usize = 0;
        while i < n
            invariant
                i <= n,
                n == union_seq(self@, other@).len(),
                n <= self@.len() && n <= other@.len(),
                v@ == union_seq(self@, other@).take(i as int),
            decreases n - i,
        {
            let a = self.0[i];
            let b = other.0[i];
            let w = if a.velocity > b.velocity {
                a
            } else {
                b
            };
            v.push(w);
            proof {
                assert(v@ =~= union_seq(self@, other@).take((i + 1) as int));
            }
            i = i + 1;
        }
        proof {
            assert(v@ =~= union_seq(self@, other@));
        }
        Steps(v)
    }
}

/// Combining a sequence with itself changes nothing.
pub proof fn lemma_union_idempotent(a: Seq<Step>)
    ensures
        union_seq(a, a) == a,
{
    assert(union_seq(a, a) =~= a);
}

/// For sequences of equal length, the combined velocity at each position is
/// the maximum of the two operands' velocities, so velocities do not depend
/// on the operand order; the full steps agree in both orders except on an
/// exact velocity tie, where the combination keeps the right operand's step.
pub proof fn lemma_union_velocity_commutes(a: Seq<Step>, b: Seq<Step>)
    requires
        a.len() == b.len(),
    ensures
        union_seq(a, b).len() == a.len(),
        forall|i: int|
            0 <= i < a.len() ==> union_seq(a, b)[i].velocity == if a[i].velocity > b[i].velocity {
                a[i].velocity
            } else {
                b[i].velocity
            },
        forall|i: int|
            0 <= i < a.len() ==> union_seq(a, b)[i].velocity == union_seq(b, a)[i].velocity,
        forall|i: int|
            0 <= i < a.len() && a[i].velocity != b[i].velocity ==> union_seq(a, b)[i] == union_seq(
                b,
                a,
            )[i],
        forall|i: int| 0 <= i < a.len() && a[i].velocity == b[i].velocity ==> union_seq(a, b)[i]
            == b[i],
{
}

} // verus!

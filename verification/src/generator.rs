//! Numeric generators: harmonics of a fundamental, the binary digits of a
//! number, and two self-referential integer sequences.

use vstd::prelude::*;

verus! {

/// The harmonic of the given grade: the fundamental times the grade.
pub fn harmonic(fundamental: u8, grade: u8) -> (r: u8)
    requires
        fundamental * grade <= u8::MAX,
    ensures
        r == fundamental * grade,
{
    proof {
        assert(fundamental * grade >= 0) by (nonlinear_arith)
            requires
                fundamental >= 0,
                grade >= 0,
        ;
    }
    fundamental * grade
}

/// The harmonics of a fundamental, one after the other.
pub struct Harmonic {
    fundamental: u32,
    grade: u32,
}

impl Harmonic {
    /// The fundamental of the series.
    pub closed spec fn fundamental(&self) -> nat {
        self.fundamental as nat
    }

    /// The grade of the harmonic given last; 0 before the first.
    pub closed spec fn grade(&self) -> nat {
        self.grade as nat
    }

    /// The harmonics of `fundamental`, before the first.
    pub fn new(fundamental: u32) -> (r: Harmonic)
        ensures
            r.fundamental() == fundamental,
            r.grade() == 0,
    {
        Harmonic { fundamental, grade: 0 }
    }

    /// The next harmonic: the fundamental times the next grade.
    pub fn next(&mut self) -> (r: Option<u32>)
        requires
            old(self).fundamental() * (old(self).grade() + 1) <= u32::MAX,
            old(self).grade() < u32::MAX,
        ensures
            final(self).fundamental() == old(self).fundamental(),
            final(self).grade() == old(self).grade() + 1,
            r == Some((old(self).fundamental() * (old(self).grade() + 1)) as u32),
    {
        self.grade = self.grade + 1;
        proof {
            assert(self.fundamental * self.grade >= 0) by (nonlinear_arith)
                requires
                    self.fundamental >= 0,
                    self.grade >= 0,
            ;
        }
        Some(self.fundamental * self.grade)
    }
}

/// The last `length` binary digits of `number`, the most significant
/// first.
pub open spec fn binary_digits(number: nat, length: nat) -> Seq<nat>
    decreases length,
{
    if length == 0 {
        Seq::empty()
    } else {
        binary_digits(number / 2, (length - 1) as nat).push(number % 2)
    }
}

/// A number and how many of its binary digits are asked for.
pub struct Binary {
    pub number: u32,
    pub length: u8,
}

fn digits_of(number: u32, length: u8) -> (r: Vec<u32>)
    ensures
        crate::utils::as_nats(r@) == binary_digits(number as nat, length as nat),
    decreases length,
{
    if length == 0 {
        let r: Vec<u32> = Vec::new();
        proof {
            assert(crate::utils::as_nats(r@) =~= Seq::<nat>::empty());
        }
        r
    } else {
        let mut r = digits_of(number / 2, length - 1);
        let ghost held = r@;
        r.push(number % 2);
        proof {
            assert(crate::utils::as_nats(r@) =~= crate::utils::as_nats(held).push((number % 2) as nat));
        }
        r
    }
}

impl Binary {
    /// The last `length` binary digits of `number`, the most significant
    /// first; a number has 32 of them.
    pub fn generate(&self) -> (r: Vec<u32>)
        requires
            self.length <= 32,
        ensures
            crate::utils::as_nats(r@) == binary_digits(self.number as nat, self.length as nat),
    {
        digits_of(self.number, self.length)
    }
}

/// The number that follows its own trail twice: `g(0)` is 0 and `g(n)`
/// is `n - g(g(n - 1))`.
pub open spec fn spec_g(n: nat) -> nat
    decreases n,
{
    if n == 0 {
        0
    } else {
        let a = spec_g((n - 1) as nat);
        let b = if a < n {
            spec_g(a)
        } else {
            0
        };
        (n - b) as nat
    }
}

/// The number that follows its own trail three times: `h(0)` is 0 and
/// `h(n)` is `n - h(h(h(n - 1)))`.
pub open spec fn spec_h(n: nat) -> nat
    decreases n,
{
    if n == 0 {
        0
    } else {
        let a = spec_h((n - 1) as nat);
        let b = if a < n {
            spec_h(a)
        } else {
            0
        };
        let c = if b < n {
            spec_h(b)
        } else {
            0
        };
        (n - c) as nat
    }
}

/// Neither sequence outgrows its argument.
pub proof fn lemma_trail_bounds(n: nat)
    ensures
        spec_g(n) <= n,
        spec_h(n) <= n,
    decreases n,
{
    if n > 0 {
        lemma_trail_bounds((n - 1) as nat);
        let a = spec_g((n - 1) as nat);
        lemma_trail_bounds(a);
        let x = spec_h((n - 1) as nat);
        lemma_trail_bounds(x);
        let y = spec_h(x);
        lemma_trail_bounds(y);
    }
}

/// `g(0)` is 0 and `g(n)` is `n - g(g(n - 1))`.
pub fn g(n: u8) -> (r: u8)
    ensures
        r as nat == spec_g(n as nat),
    decreases n,
{
    if n == 0 {
        0
    } else {
        proof {
            lemma_trail_bounds((n - 1) as nat);
        }
        let a = g(n - 1);
        proof {
            lemma_trail_bounds(a as nat);
        }
        n - g(a)
    }
}

/// `h(0)` is 0 and `h(n)` is `n - h(h(h(n - 1)))`.
pub fn h(n: u8) -> (r: u8)
    ensures
        r as nat == spec_h(n as nat),
    decreases n,
{
    if n == 0 {
        0
    } else {
        proof {
            lemma_trail_bounds((n - 1) as nat);
        }
        let a = h(n - 1);
        proof {
            lemma_trail_bounds(a as nat);
        }
        let b = h(a);
        proof {
            lemma_trail_bounds(b as nat);
        }
        n - h(b)
    }
}

} // verus!

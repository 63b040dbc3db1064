//! Generators for some integer sequences, behind one capability: a
//! generator yields its sequence one term per call, reports how many terms
//! it has yielded, and can be reset to the start. Each generator's state is
//! pinned by an invariant to the mathematical sequence it produces, so
//! `generate` returns exactly the term at the current index.

use vstd::prelude::*;

verus! {

pub open spec fn fib(n: nat) -> nat
    decreases n,
{
    if n == 0 {
        0
    } else if n == 1 {
        1
    } else {
        fib((n - 1) as nat) + fib((n - 2) as nat)
    }
}

pub open spec fn fac(n: nat) -> nat
    decreases n,
{
    if n == 0 {
        1
    } else {
        n * fac((n - 1) as nat)
    }
}

pub open spec fn pow2(n: nat) -> nat
    decreases n,
{
    if n == 0 {
        1
    } else {
        2 * pow2((n - 1) as nat)
    }
}

/// The triangular numbers: 0, 1, 3, 6, 10, ...
pub open spec fn tri(n: nat) -> nat
    decreases n,
{
    if n == 0 {
        0
    } else {
        tri((n - 1) as nat) + n
    }
}

/// A sequence generator. `term` is the mathematical sequence; `ready_at`
/// says at which indices the next term still fits the machine integers the
/// generator computes with, and is what `generate` asks of its caller.
pub trait Sequence: Sized {
    spec fn inv(&self) -> bool;

    spec fn idx(&self) -> nat;

    spec fn term(n: nat) -> nat;

    spec fn ready_at(n: nat) -> bool;

    fn new() -> (s: Self)
        ensures
            s.inv(),
            s.idx() == 0,
    ;

    fn n(&self) -> (r: u128)
        requires
            self.inv(),
        ensures
            r == self.idx(),
    ;

    fn generate(&mut self) -> (r: Option<u128>)
        requires
            old(self).inv(),
            Self::ready_at(old(self).idx()),
        ensures
            final(self).inv(),
            final(self).idx() == old(self).idx() + 1,
            r matches Some(v) && v == Self::term(old(self).idx()),
    ;

    fn reset(&mut self)
        ensures
            final(self).inv(),
            final(self).idx() == 0,
    ;
}

/// From the second term on, the sequence outgrows its index.
pub proof fn lemma_fib_ge(n: nat)
    ensures
        fib(n + 1) >= 1,
        fib(n + 2) >= n + 1,
    decreases n,
{
    reveal_with_fuel(fib, 3);
    if n >= 1 {
        lemma_fib_ge((n - 1) as nat);
    }
}

pub struct Fibonacci {
    n1: u128,
    n2: u128,
    index: u128,
}

impl Sequence for Fibonacci {
    closed spec fn inv(&self) -> bool {
        self.n1 == fib(self.index as nat) && self.n2 == fib(self.index as nat + 1)
    }

    closed spec fn idx(&self) -> nat {
        self.index as nat
    }

    closed spec fn term(n: nat) -> nat {
        fib(n)
    }

    closed spec fn ready_at(n: nat) -> bool {
        fib(n + 2) <= u128::MAX
    }

    fn new() -> (s: Self) {
        Fibonacci { n1: 0, n2: 1, index: 0 }
    }

    fn n(&self) -> (r: u128) {
        self.index
    }

    fn generate(&mut self) -> (r: Option<u128>) {
        proof {
            lemma_fib_ge(self.index as nat);
        }
        let res = self.n1;
        let next = self.n1 + self.n2;
        self.n1 = self.n2;
        self.n2 = next;
        self.index = self.index + 1;
        Some(res)
    }

    fn reset(&mut self) {
        *self = Fibonacci::new();
    }
}

pub struct Factorial {
    current: u128,
    num: u128,
    index: u128,
}

/// Factorials are at least one, and grow at least as fast as their index.
pub proof fn lemma_fac_ge(n: nat)
    ensures
        fac(n) >= 1,
        n >= 1 ==> fac(n) >= n,
    decreases n,
{
    if n > 0 {
        lemma_fac_ge((n - 1) as nat);
        assert(n * fac((n - 1) as nat) >= n * 1) by (nonlinear_arith)
            requires
                fac((n - 1) as nat) >= 1,
                n > 0,
        ;
    }
}

impl Sequence for Factorial {
    closed spec fn inv(&self) -> bool {
        self.current == fac(self.index as nat + 1) && self.num == self.index as nat + 1
    }

    closed spec fn idx(&self) -> nat {
        self.index as nat
    }

    /// 1, 2, 6, 24, ...: the factorial of one more than the index.
    closed spec fn term(n: nat) -> nat {
        fac(n + 1)
    }

    closed spec fn ready_at(n: nat) -> bool {
        fac(n + 2) <= u128::MAX
    }

    fn new() -> (s: Self) {
        proof {
            reveal_with_fuel(fac, 2);
        }
        Factorial { current: 1, num: 1, index: 0 }
    }

    fn n(&self) -> (r: u128) {
        self.index
    }

    fn generate(&mut self) -> (r: Option<u128>) {
        proof {
            lemma_fac_ge(self.index as nat + 2);
            assert(fac(self.index as nat + 2) == (self.index as nat + 2) * fac(
                self.index as nat + 1,
            ));
            assert(self.current * (self.num + 1) == fac(self.index as nat + 2))
                by (nonlinear_arith)
                requires
                    self.current == fac(self.index as nat + 1),
                    self.num == self.index as nat + 1,
                    fac(self.index as nat + 2) == (self.index as nat + 2) * fac(
                        self.index as nat + 1,
                    ),
            ;
        }
        let res = self.current;
        self.num = self.num + 1;
        self.current = self.current * self.num;
        self.index = self.index + 1;
        Some(res)
    }

    fn reset(&mut self) {
        *self = Factorial::new();
    }
}

pub struct PowersOfTwo {
    index: u128,
}

/// Powers of two grow with the exponent.
pub proof fn lemma_pow2_mono(a: nat, b: nat)
    requires
        a <= b,
    ensures
        pow2(a) <= pow2(b),
    decreases b,
{
    if a < b {
        lemma_pow2_mono(a, (b - 1) as nat);
    }
}

impl Sequence for PowersOfTwo {
    closed spec fn inv(&self) -> bool {
        true
    }

    closed spec fn idx(&self) -> nat {
        self.index as nat
    }

    closed spec fn term(n: nat) -> nat {
        pow2(n)
    }

    /// Only powers that fit a 32-bit signed integer are served: exponents
    /// up to 30.
    closed spec fn ready_at(n: nat) -> bool {
        n <= 30
    }

    fn new() -> (s: Self) {
        PowersOfTwo { index: 0 }
    }

    fn n(&self) -> (r: u128) {
        self.index
    }

    fn generate(&mut self) -> (r: Option<u128>) {
        proof {
            reveal_with_fuel(pow2, 32);
            assert(pow2(30) == 0x40000000);
        }
        let mut v: u128 = 1;
        let mut k: u128 = 0;
        while k < self.index
            invariant
                *self == *old(self),
                k <= self.index,
                self.index <= 30,
                v == pow2(k as nat),
            decreases self.index - k,
        {
            proof {
                lemma_pow2_mono(k as nat + 1, 30);
                reveal_with_fuel(pow2, 32);
            }
            v = v * 2;
            k = k + 1;
        }
        self.index = self.index + 1;
        Some(v)
    }

    fn reset(&mut self) {
        *self = PowersOfTwo::new();
    }
}

/// A triangular number is at least its index.
pub proof fn lemma_tri_ge(n: nat)
    ensures
        tri(n) >= n,
    decreases n,
{
    if n > 0 {
        lemma_tri_ge((n - 1) as nat);
    }
}

pub struct TriangularNums {
    current: u128,
    num: u128,
    index: u128,
}

impl Sequence for TriangularNums {
    closed spec fn inv(&self) -> bool {
        self.current == tri(self.index as nat + 1) && self.num == self.index as nat + 1
    }

    closed spec fn idx(&self) -> nat {
        self.index as nat
    }

    /// 1, 3, 6, 10, ...: the triangular number one past the index.
    closed spec fn term(n: nat) -> nat {
        tri(n + 1)
    }

    closed spec fn ready_at(n: nat) -> bool {
        tri(n + 2) <= u128::MAX
    }

    fn new() -> (s: Self) {
        proof {
            reveal_with_fuel(tri, 2);
        }
        TriangularNums { current: 1, num: 1, index: 0 }
    }

    fn n(&self) -> (r: u128) {
        self.index
    }

    fn generate(&mut self) -> (r: Option<u128>) {
        proof {
            lemma_tri_ge(self.index as nat + 2);
        }
        let res = self.current;
        self.index = self.index + 1;
        self.num = self.num + 1;
        self.current = self.current + self.num;
        Some(res)
    }

    fn reset(&mut self) {
        *self = TriangularNums::new();
    }
}

/// The first five terms of a freshly reset generator, in order.
pub fn first_five<S: Sequence>(s: &mut S) -> (r: (u128, u128, u128, u128, u128))
    requires
        old(s).inv(),
        old(s).idx() == 0,
        forall|k: nat| k < 5 ==> #[trigger] S::ready_at(k),
    ensures
        final(s).inv(),
        final(s).idx() == 5,
        r.0 == S::term(0),
        r.1 == S::term(1),
        r.2 == S::term(2),
        r.3 == S::term(3),
        r.4 == S::term(4),
{
    proof {
        assert(S::ready_at(0));
        assert(S::ready_at(1));
        assert(S::ready_at(2));
        assert(S::ready_at(3));
        assert(S::ready_at(4));
    }
    let a = match s.generate() {
        Some(v) => v,
        None => {
            proof {
                assert(false);
            }
            0
        },
    };
    let b = match s.generate() {
        Some(v) => v,
        None => {
            proof {
                assert(false);
            }
            0
        },
    };
    let c = match s.generate() {
        Some(v) => v,
        None => {
            proof {
                assert(false);
            }
            0
        },
    };
    let d = match s.generate() {
        Some(v) => v,
        None => {
            proof {
                assert(false);
            }
            0
        },
    };
    let e = match s.generate() {
        Some(v) => v,
        None => {
            proof {
                assert(false);
            }
            0
        },
    };
    (a, b, c, d, e)
}

} // verus!

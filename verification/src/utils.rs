use gcd::Gcd;
use vstd::prelude::*;

verus! {

/// The greatest common divisor, by Euclid's recursion; `spec_gcd(0, 0)` is 0.
pub open spec fn spec_gcd(a: nat, b: nat) -> nat
    decreases b,
{
    if b == 0 {
        a
    } else {
        spec_gcd(b, a % b)
    }
}

/// The least common multiple; 0 where either number is 0.
pub open spec fn spec_lcm(a: nat, b: nat) -> nat {
    if a == 0 || b == 0 {
        0
    } else {
        (a * b) / spec_gcd(a, b)
    }
}

/// The least common multiple of all the numbers of `s`; 1 for none.
pub open spec fn spec_lcm_seq(s: Seq<nat>) -> nat {
    s.fold_left(1nat, |acc: nat, x: nat| spec_lcm(acc, x))
}

/// The same numbers, as naturals.
pub open spec fn as_nats(s: Seq<u32>) -> Seq<nat> {
    Seq::new(s.len(), |i: int| s[i] as nat)
}

/// `gcd::Gcd::gcd` on `u32`: the greatest common divisor of the two
/// numbers, which is the other number where one of them is 0.
#[verifier::external_body]
fn gcd_u32(a: u32, b: u32) -> (r: u32)
    ensures
        r as nat == spec_gcd(a as nat, b as nat),
{
    a.gcd(b)
}

/// The greatest common divisor divides both numbers, and is positive
/// unless both are 0.
pub proof fn lemma_gcd_divides(a: nat, b: nat)
    ensures
        a > 0 || b > 0 ==> spec_gcd(a, b) > 0,
        spec_gcd(a, b) > 0 ==> a % spec_gcd(a, b) == 0 && b % spec_gcd(a, b) == 0,
    decreases b,
{
    if b != 0 {
        lemma_gcd_divides(b, a % b);
        let g = spec_gcd(a, b);
        assert(g == spec_gcd(b, a % b));
        if g > 0 {
            // b = g * x, a % b = g * y, a = b * (a / b) + a % b
            vstd::arithmetic::div_mod::lemma_fundamental_div_mod(a as int, b as int);
            let q = (a / b) as int;
            let x = (b / g) as int;
            let y = ((a % b) / g) as int;
            vstd::arithmetic::div_mod::lemma_fundamental_div_mod(b as int, g as int);
            vstd::arithmetic::div_mod::lemma_fundamental_div_mod((a % b) as int, g as int);
            assert(b == g * x);
            assert(a % b == g * y);
            assert(a == g * (x * q + y)) by (nonlinear_arith)
                requires
                    a == b * q + (a % b),
                    b == g * x,
                    a % b == g * y,
            ;
            vstd::arithmetic::div_mod::lemma_mod_multiples_basic(x * q + y, g as int);
            assert(g * (x * q + y) == (x * q + y) * g) by (nonlinear_arith);
        }
    }
}

/// The greatest common divisor is a sum of multiples of the two numbers.
pub proof fn lemma_gcd_combination(a: nat, b: nat) -> (r: (int, int))
    ensures
        a * r.0 + b * r.1 == spec_gcd(a, b),
    decreases b,
{
    if b == 0 {
        assert(a * 1 + b * 0 == a) by (nonlinear_arith)
            requires
                b == 0,
        ;
        (1, 0)
    } else {
        let (x, y) = lemma_gcd_combination(b, a % b);
        vstd::arithmetic::div_mod::lemma_fundamental_div_mod(a as int, b as int);
        let q = (a / b) as int;
        let m = (a % b) as int;
        assert(a * y + b * (x - q * y) == b * x + m * y) by (nonlinear_arith)
            requires
                a == b * q + m,
        ;
        (y, x - q * y)
    }
}

/// The least common multiple of two positive numbers is the least of
/// their common multiples: it divides every number that both divide.
pub proof fn lemma_lcm_least(a: nat, b: nat, c: nat)
    requires
        a > 0,
        b > 0,
        c % a == 0,
        c % b == 0,
    ensures
        c % spec_lcm(a, b) == 0,
        c > 0 ==> spec_lcm(a, b) <= c,
{
    lemma_gcd_divides(a, b);
    lemma_lcm_bounds(a, b);
    let g = spec_gcd(a, b);
    let l = spec_lcm(a, b);
    let (x, y) = lemma_gcd_combination(a, b);
    vstd::arithmetic::div_mod::lemma_fundamental_div_mod(c as int, a as int);
    vstd::arithmetic::div_mod::lemma_fundamental_div_mod(c as int, b as int);
    vstd::arithmetic::div_mod::lemma_fundamental_div_mod(a as int, g as int);
    vstd::arithmetic::div_mod::lemma_fundamental_div_mod(b as int, g as int);
    let u = (c / a) as int;
    let v = (c / b) as int;
    let p = (a / g) as int;
    let q = (b / g) as int;
    assert(c == a * u);
    assert(c == b * v);
    assert(a == g * p);
    assert(b == g * q);
    assert(a * b == (g * p * q) * g) by (nonlinear_arith)
        requires
            a == g * p,
            b == g * q,
    ;
    vstd::arithmetic::div_mod::lemma_div_multiples_vanish(g * p * q, g as int);
    assert(l == g * p * q);
    let w = v * x + u * y;
    assert(c * g == (a * b) * w) by (nonlinear_arith)
        requires
            c == a * u,
            c == b * v,
            a * x + b * y == g,
            w == v * x + u * y,
    ;
    assert(c * g == (l * w) * g) by (nonlinear_arith)
        requires
            c * g == (a * b) * w,
            a * b == l * g,
            l == g * p * q,
            a * b == (g * p * q) * g,
    ;
    assert(c == l * w) by (nonlinear_arith)
        requires
            c * g == (l * w) * g,
            g > 0,
    ;
    assert(l * w == w * l) by (nonlinear_arith);
    vstd::arithmetic::div_mod::lemma_mod_multiples_basic(w, l as int);
    if c > 0 {
        assert(w >= 1) by (nonlinear_arith)
            requires
                c == l * w,
                c > 0,
                l > 0,
        ;
        assert(l <= c) by (nonlinear_arith)
            requires
                c == l * w,
                w >= 1,
                l > 0,
        ;
    }
}

/// What a multiple of a number divides, the number divides.
pub proof fn lemma_divides_on(x: nat, y: nat, z: nat)
    requires
        y > 0,
        z > 0,
        x % y == 0,
        y % z == 0,
    ensures
        x % z == 0,
{
    vstd::arithmetic::div_mod::lemma_fundamental_div_mod(x as int, y as int);
    vstd::arithmetic::div_mod::lemma_fundamental_div_mod(y as int, z as int);
    let k = (x / y) as int;
    let j = (y / z) as int;
    assert(x == (j * k) * z) by (nonlinear_arith)
        requires
            x == y * k,
            y == z * j,
    ;
    vstd::arithmetic::div_mod::lemma_mod_multiples_basic(j * k, z as int);
}

/// Two positive numbers that divide each other are equal.
pub proof fn lemma_divide_each_other(x: nat, y: nat)
    requires
        x > 0,
        y > 0,
        x % y == 0,
        y % x == 0,
    ensures
        x == y,
{
    vstd::arithmetic::div_mod::lemma_fundamental_div_mod(x as int, y as int);
    vstd::arithmetic::div_mod::lemma_fundamental_div_mod(y as int, x as int);
    let k = (x / y) as int;
    let j = (y / x) as int;
    vstd::arithmetic::div_mod::lemma_div_pos_is_pos(x as int, y as int);
    vstd::arithmetic::div_mod::lemma_div_pos_is_pos(y as int, x as int);
    assert(x == y) by (nonlinear_arith)
        requires
            x == y * k,
            y == x * j,
            x > 0,
            y > 0,
            k >= 0,
            j >= 0,
    ;
}

/// The least common multiple does not depend on the order of the two
/// numbers.
pub proof fn lemma_lcm_commutes(a: nat, b: nat)
    requires
        a > 0,
        b > 0,
    ensures
        spec_lcm(a, b) == spec_lcm(b, a),
{
    lemma_lcm_bounds(a, b);
    lemma_lcm_bounds(b, a);
    lemma_lcm_least(a, b, spec_lcm(b, a));
    lemma_lcm_least(b, a, spec_lcm(a, b));
    lemma_divide_each_other(spec_lcm(a, b), spec_lcm(b, a));
}

/// The least common multiple of three numbers does not depend on which
/// two are taken first.
pub proof fn lemma_lcm_associates(a: nat, b: nat, c: nat)
    requires
        a > 0,
        b > 0,
        c > 0,
    ensures
        spec_lcm(spec_lcm(a, b), c) == spec_lcm(a, spec_lcm(b, c)),
{
    let ab = spec_lcm(a, b);
    let bc = spec_lcm(b, c);
    lemma_lcm_bounds(a, b);
    lemma_lcm_bounds(b, c);
    let left = spec_lcm(ab, c);
    let right = spec_lcm(a, bc);
    lemma_lcm_bounds(ab, c);
    lemma_lcm_bounds(a, bc);
    // the left one is a multiple of a, b and c
    lemma_divides_on(left, ab, a);
    lemma_divides_on(left, ab, b);
    lemma_lcm_least(b, c, left);
    lemma_lcm_least(a, bc, left);
    // so is the right one
    lemma_divides_on(right, bc, b);
    lemma_divides_on(right, bc, c);
    lemma_lcm_least(a, b, right);
    lemma_lcm_least(ab, c, right);
    lemma_divide_each_other(left, right);
}

/// The least common multiple of 1 and a positive number is that number.
pub proof fn lemma_lcm_one(n: nat)
    requires
        n > 0,
    ensures
        spec_lcm(1, n) == n,
{
    reveal_with_fuel(spec_gcd, 3);
    if n == 1 {
        assert(spec_gcd(1, 1) == 1);
    } else {
        vstd::arithmetic::div_mod::lemma_small_mod(1, n);
        assert(1nat % n == 1);
        assert(n % 1 == 0);
        assert(spec_gcd(1, n) == 1);
    }
    assert(1 * n == n) by (nonlinear_arith);
}

/// The least common multiple of two positive numbers is positive and no
/// greater than their product.
pub proof fn lemma_lcm_bounds(a: nat, b: nat)
    requires
        a > 0,
        b > 0,
    ensures
        0 < spec_lcm(a, b) <= a * b,
        spec_lcm(a, b) % a == 0,
        spec_lcm(a, b) % b == 0,
{
    lemma_gcd_divides(a, b);
    let g = spec_gcd(a, b);
    vstd::arithmetic::div_mod::lemma_fundamental_div_mod(a as int, g as int);
    vstd::arithmetic::div_mod::lemma_fundamental_div_mod(b as int, g as int);
    let x = (a / g) as int;
    let y = (b / g) as int;
    assert(a == g * x);
    assert(b == g * y);
    assert(x > 0 && y > 0) by (nonlinear_arith)
        requires
            a == g * x,
            b == g * y,
            a > 0,
            b > 0,
            g > 0,
            x >= 0,
            y >= 0,
    ;
    assert(a * b == (g * x * y) * g) by (nonlinear_arith)
        requires
            a == g * x,
            b == g * y,
    ;
    vstd::arithmetic::div_mod::lemma_div_multiples_vanish(g * x * y, g as int);
    assert(spec_lcm(a, b) == g * x * y);
    assert(0 < g * x * y <= a * b) by (nonlinear_arith)
        requires
            a * b == (g * x * y) * g,
            g > 0,
            x > 0,
            y > 0,
    ;
    assert(g * x * y == y * a) by (nonlinear_arith)
        requires
            a == g * x,
    ;
    assert(g * x * y == x * b) by (nonlinear_arith)
        requires
            b == g * y,
    ;
    vstd::arithmetic::div_mod::lemma_mod_multiples_basic(y, a as int);
    vstd::arithmetic::div_mod::lemma_mod_multiples_basic(x, b as int);
}

/// The least common multiple of `a` and `b`, or `None` where it does not
/// fit in 32 bits.
pub fn checked_lcm(a: u32, b: u32) -> (r: Option<u32>)
    ensures
        r.is_some() <==> spec_lcm(a as nat, b as nat) <= u32::MAX,
        r.is_some() ==> r.unwrap() as nat == spec_lcm(a as nat, b as nat),
{
    if a == 0 || b == 0 {
        return Some(0);
    }
    let g = gcd_u32(a, b) as u64;
    proof {
        lemma_gcd_divides(a as nat, b as nat);
        lemma_lcm_bounds(a as nat, b as nat);
        assert(a as nat * b as nat <= 0xffff_ffff * 0xffff_ffff) by (nonlinear_arith)
            requires
                a as nat <= 0xffff_ffff,
                b as nat <= 0xffff_ffff,
        ;
    }
    let p: u64 = (a as u64) * (b as u64);
    let l: u64 = p / g;
    if l <= 0xffff_ffff {
        Some(l as u32)
    } else {
        None
    }
}

/// The least common multiple of `a` and `b`.
pub fn lcm(a: u32, b: u32) -> (r: u32)
    requires
        spec_lcm(a as nat, b as nat) <= u32::MAX,
    ensures
        r as nat == spec_lcm(a as nat, b as nat),
{
    match checked_lcm(a, b) {
        Some(l) => l,
        None => 0,
    }
}

/// The least common multiple of all the numbers of `v`, or `None` where
/// it does not fit in 32 bits.
pub fn checked_lcm_vec(v: &Vec<u32>) -> (r: Option<u32>)
    ensures
        r.is_some() <==> spec_lcm_seq(as_nats(v@)) <= u32::MAX,
        r.is_some() ==> r.unwrap() as nat == spec_lcm_seq(as_nats(v@)),
{
    let mut k: usize = 0;
    while k < v.len()
        invariant
            k <= v.len(),
            forall|j: int| 0 <= j < k ==> v@[j] != 0,
        decreases v.len() - k,
    {
        if v[k] == 0 {
            proof {
                lemma_lcm_seq_step(as_nats(v@), k as int);
                lemma_lcm_seq_zero(as_nats(v@), k as int + 1);
            }
            return Some(0);
        }
        k += 1;
    }
    let mut acc: u32 = 1;
    let mut i: usize = 0;
    while i < v.len()
        invariant
            i <= v.len(),
            forall|j: int| 0 <= j < v.len() ==> v@[j] != 0,
            acc as nat == spec_lcm_seq(as_nats(v@).take(i as int)),
            acc > 0,
        decreases v.len() - i,
    {
        proof {
            lemma_lcm_seq_step(as_nats(v@), i as int);
            lemma_lcm_bounds(acc as nat, v@[i as int] as nat);
        }
        match checked_lcm(acc, v[i]) {
            Some(l) => {
                acc = l;
            },
            None => {
                proof {
                    lemma_lcm_seq_grows(as_nats(v@), i as int + 1);
                    lemma_lcm_seq_positive(as_nats(v@), v@.len() as int);
                    assert(as_nats(v@).take(v@.len() as int) =~= as_nats(v@));
                }
                return None;
            },
        }
        i += 1;
    }
    proof {
        assert(as_nats(v@).take(i as int) =~= as_nats(v@));
    }
    Some(acc)
}

/// The least common multiple of all the numbers of `v`; 1 for none.
pub fn lcm_vec(v: &Vec<u32>) -> (r: u32)
    requires
        spec_lcm_seq(as_nats(v@)) <= u32::MAX,
    ensures
        r as nat == spec_lcm_seq(as_nats(v@)),
{
    match checked_lcm_vec(v) {
        Some(l) => l,
        None => 0,
    }
}

/// Taking one more number into the least common multiple.
pub proof fn lemma_lcm_seq_step(s: Seq<nat>, i: int)
    requires
        0 <= i < s.len(),
    ensures
        spec_lcm_seq(s.take(i + 1)) == spec_lcm(spec_lcm_seq(s.take(i)), s[i]),
{
    assert(s.take(i + 1).drop_last() =~= s.take(i));
}

/// Once a prefix has least common multiple 0, so has the whole.
pub proof fn lemma_lcm_seq_zero(s: Seq<nat>, i: int)
    requires
        0 <= i <= s.len(),
        spec_lcm_seq(s.take(i)) == 0,
    ensures
        spec_lcm_seq(s) == 0,
    decreases s.len() - i,
{
    if i < s.len() {
        lemma_lcm_seq_step(s, i);
        lemma_lcm_seq_zero(s, i + 1);
    } else {
        assert(s.take(i) =~= s);
    }
}

/// The least common multiple of positive numbers is positive.
pub proof fn lemma_lcm_seq_positive(s: Seq<nat>, i: int)
    requires
        0 <= i <= s.len(),
        forall|j: int| 0 <= j < s.len() ==> s[j] > 0,
    ensures
        spec_lcm_seq(s.take(i)) > 0,
    decreases i,
{
    if i > 0 {
        lemma_lcm_seq_positive(s, i - 1);
        lemma_lcm_seq_step(s, i - 1);
        lemma_lcm_bounds(spec_lcm_seq(s.take(i - 1)), s[i - 1]);
    } else {
        assert(s.take(0) =~= Seq::<nat>::empty());
    }
}

/// Unless it is 0, the least common multiple of the whole is no less than
/// that of a prefix.
pub proof fn lemma_lcm_seq_grows(s: Seq<nat>, i: int)
    requires
        0 <= i <= s.len(),
    ensures
        spec_lcm_seq(s) == 0 || spec_lcm_seq(s) >= spec_lcm_seq(s.take(i)),
    decreases s.len() - i,
{
    if i < s.len() {
        lemma_lcm_seq_step(s, i);
        lemma_lcm_seq_grows(s, i + 1);
        let a = spec_lcm_seq(s.take(i));
        let b = s[i];
        if a > 0 && b > 0 {
            lemma_lcm_bounds(a, b);
            let l = spec_lcm(a, b);
            vstd::arithmetic::div_mod::lemma_fundamental_div_mod(l as int, a as int);
            assert(l >= a) by (nonlinear_arith)
                requires
                    l == a * (l / a),
                    l > 0,
                    a > 0,
            ;
        } else {
            if a == 0 {
                lemma_lcm_seq_zero(s, i);
            } else {
                lemma_lcm_seq_zero(s, i + 1);
            }
        }
    } else {
        assert(s.take(i) =~= s);
    }
}

} // verus!

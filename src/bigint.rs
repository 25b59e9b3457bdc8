//! Signed integers of any size: a sign and a magnitude held as little-endian
//! limbs in base 65536.
use vstd::prelude::*;

verus! {

/// The base of one limb.
pub const LIMB_BASE: u64 = 65536;

/// The value of the limbs of `s` from index `i` upward, least significant
/// first; indices past the end count as zero.
pub open spec fn limbs_from(s: Seq<u64>, i: int) -> nat
    decreases s.len() - i,
{
    if i < 0 || i >= s.len() {
        0
    } else {
        (s[i] + 65536 * limbs_from(s, i + 1)) as nat
    }
}

/// The value of a whole magnitude.
pub open spec fn magnitude(s: Seq<u64>) -> nat {
    limbs_from(s, 0)
}

/// Every limb is below the base.
pub open spec fn limbs_ok(s: Seq<u64>) -> bool {
    forall|i: int| 0 <= i < s.len() ==> #[trigger] s[i] < 65536
}

/// The limb at `i`, zero past the end.
pub open spec fn limb(s: Seq<u64>, i: int) -> u64 {
    if 0 <= i < s.len() {
        s[i]
    } else {
        0
    }
}

/// Putting a limb in front multiplies the rest by the base.
proof fn lemma_insert_front(s: Seq<u64>, x: u64, i: int)
    requires
        0 <= i,
    ensures
        limbs_from(s.insert(0, x), i + 1) == limbs_from(s, i),
    decreases s.len() - i,
{
    if i < s.len() {
        lemma_insert_front(s, x, i + 1);
    }
}

/// The whole value after a limb is put in front.
proof fn lemma_magnitude_front(s: Seq<u64>, x: u64)
    ensures
        magnitude(s.insert(0, x)) == x + 65536 * magnitude(s),
{
    lemma_insert_front(s, x, 0);
}

fn limb_at(a: &Vec<u64>, i: usize) -> (r: u64)
    ensures
        r == limb(a@, i as int),
{
    if i < a.len() {
        a[i]
    } else {
        0
    }
}

/// Sum of the parts of `a` and `b` from `i` upward, plus a carry.
fn add_from(a: &Vec<u64>, b: &Vec<u64>, i: usize, carry: u64) -> (r: Vec<u64>)
    requires
        limbs_ok(a@),
        limbs_ok(b@),
        carry <= 1,
    ensures
        limbs_ok(r@),
        magnitude(r@) == limbs_from(a@, i as int) + limbs_from(b@, i as int) + carry,
    decreases a@.len() + b@.len() - i,
{
    if i >= a.len() && i >= b.len() {
        let mut r: Vec<u64> = Vec::new();
        if carry > 0 {
            r.push(carry);
            assert(magnitude(r@) == limbs_from(r@, 1) + carry);
        }
        return r;
    }
    let x = limb_at(a, i) + limb_at(b, i) + carry;
    let low = x % LIMB_BASE;
    let high = x / LIMB_BASE;
    let mut r = add_from(a, b, i + 1, high);
    let ghost rest = r@;
    r.insert(0, low);
    proof {
        lemma_magnitude_front(rest, low);
    }
    r
}

/// Difference of the parts of `a` and `b` from `i` upward, minus a borrow;
/// the part of `a` is the larger.
fn sub_from(a: &Vec<u64>, b: &Vec<u64>, i: usize, borrow: u64) -> (r: Vec<u64>)
    requires
        limbs_ok(a@),
        limbs_ok(b@),
        borrow <= 1,
        limbs_from(a@, i as int) >= limbs_from(b@, i as int) + borrow,
    ensures
        limbs_ok(r@),
        magnitude(r@) == limbs_from(a@, i as int) - limbs_from(b@, i as int) - borrow,
    decreases a@.len() + b@.len() - i,
{
    if i >= a.len() && i >= b.len() {
        return Vec::new();
    }
    let x = limb_at(a, i);
    let y = limb_at(b, i) + borrow;
    let (low, next) = if x >= y {
        (x - y, 0u64)
    } else {
        (x + LIMB_BASE - y, 1u64)
    };
    let mut r = sub_from(a, b, i + 1, next);
    let ghost rest = r@;
    r.insert(0, low);
    proof {
        lemma_magnitude_front(rest, low);
    }
    r
}

/// The sign of the difference of the parts of `a` and `b` from `i` upward.
fn cmp_from(a: &Vec<u64>, b: &Vec<u64>, i: usize) -> (r: i8)
    requires
        limbs_ok(a@),
        limbs_ok(b@),
    ensures
        r == -1 <==> limbs_from(a@, i as int) < limbs_from(b@, i as int),
        r == 0 <==> limbs_from(a@, i as int) == limbs_from(b@, i as int),
        r == 1 <==> limbs_from(a@, i as int) > limbs_from(b@, i as int),
    decreases a@.len() + b@.len() - i,
{
    if i >= a.len() && i >= b.len() {
        return 0;
    }
    let c = cmp_from(a, b, i + 1);
    if c != 0 {
        return c;
    }
    let x = limb_at(a, i);
    let y = limb_at(b, i);
    if x < y {
        -1
    } else if x > y {
        1
    } else {
        0
    }
}

/// The part of `a` from `i` upward times a small factor, plus a small carry.
fn mul_small_from(a: &Vec<u64>, m: u64, i: usize, carry: u64) -> (r: Vec<u64>)
    requires
        limbs_ok(a@),
        m < 65536,
        carry < 65536,
    ensures
        limbs_ok(r@),
        magnitude(r@) == limbs_from(a@, i as int) * m + carry,
    decreases a@.len() - i,
{
    if i >= a.len() {
        let mut r: Vec<u64> = Vec::new();
        if carry > 0 {
            r.push(carry);
            assert(magnitude(r@) == limbs_from(r@, 1) + carry);
        }
        return r;
    }
    let la = a[i];
    assert(la * m + carry <= 65535 * 65535 + 65535) by (nonlinear_arith)
        requires
            la < 65536,
            m < 65536,
            carry < 65536,
    ;
    let x = la * m + carry;
    let low = x % LIMB_BASE;
    let high = x / LIMB_BASE;
    let mut r = mul_small_from(a, m, i + 1, high);
    let ghost rest = r@;
    r.insert(0, low);
    proof {
        lemma_magnitude_front(rest, low);
        let v = limbs_from(a@, i + 1);
        assert((la + 65536 * v) * m + carry == (la * m + carry) + 65536 * (v * m))
            by (nonlinear_arith);
    }
    r
}

/// Quotient and remainder of the part of `a` from `i` upward by a small
/// divisor.
fn divmod_small_from(a: &Vec<u64>, d: u64, i: usize) -> (r: (Vec<u64>, u64))
    requires
        limbs_ok(a@),
        0 < d < 65536,
    ensures
        limbs_ok(r.0@),
        r.1 < d,
        limbs_from(a@, i as int) == magnitude(r.0@) * d + r.1,
    decreases a@.len() - i,
{
    if i >= a.len() {
        let q: Vec<u64> = Vec::new();
        assert(magnitude(q@) == 0);
        assert(limbs_from(a@, i as int) == 0);
        return (q, 0);
    }
    let (mut q, rem) = divmod_small_from(a, d, i + 1);
    let la = a[i];
    assert(rem * 65536 + la < d * 65536) by (nonlinear_arith)
        requires
            rem < d,
            la < 65536,
    ;
    let cur = rem * LIMB_BASE + la;
    let digit = cur / d;
    let r = cur % d;
    assert(digit < 65536) by (nonlinear_arith)
        requires
            digit == cur / d,
            cur < d * 65536,
            d > 0,
    ;
    let ghost rest = q@;
    q.insert(0, digit);
    proof {
        lemma_magnitude_front(rest, digit);
        let mq = magnitude(rest);
        vstd::arithmetic::div_mod::lemma_fundamental_div_mod(cur as int, d as int);
        assert(cur == digit * d + r);
        assert(la + 65536 * (mq * d + rem) == (digit + 65536 * mq) * d + r) by (nonlinear_arith)
            requires
                cur == rem * 65536 + la,
                cur == digit * d + r,
        ;
    }
    (q, r)
}

/// Quotient and remainder of the part of `a` from `i` upward by `b`.
fn divmod_from(a: &Vec<u64>, b: &Vec<u64>, i: usize) -> (r: (Vec<u64>, Vec<u64>))
    requires
        limbs_ok(a@),
        limbs_ok(b@),
        magnitude(b@) > 0,
    ensures
        limbs_ok(r.0@),
        limbs_ok(r.1@),
        magnitude(r.1@) < magnitude(b@),
        limbs_from(a@, i as int) == magnitude(r.0@) * magnitude(b@) + magnitude(r.1@),
    decreases a@.len() - i,
{
    if i >= a.len() {
        return (Vec::new(), Vec::new());
    }
    let (mut q, mut rem) = divmod_from(a, b, i + 1);
    let la = a[i];
    let ghost old_rem = magnitude(rem@);
    let ghost rest = rem@;
    rem.insert(0, la);
    proof {
        lemma_magnitude_front(rest, la);
    }
    let ghost cur = magnitude(rem@);
    let ghost mb = magnitude(b@);
    proof {
        assert(cur < 65536 * mb);
    }
    let mut digit: u64 = 0;
    while cmp_from(&rem, b, 0) != -1
        invariant
            limbs_ok(rem@),
            limbs_ok(b@),
            mb == magnitude(b@),
            mb > 0,
            cur < 65536 * mb,
            magnitude(rem@) + digit * mb == cur,
        decreases magnitude(rem@),
    {
        rem = sub_from(&rem, b, 0, 0);
        proof {
            assert((digit + 1) * mb == digit * mb + mb) by (nonlinear_arith);
            assert(digit + 1 < 65536) by (nonlinear_arith)
                requires
                    (digit + 1) * mb <= cur,
                    cur < 65536 * mb,
            ;
        }
        digit = digit + 1;
    }
    proof {
        assert(digit < 65536) by (nonlinear_arith)
            requires
                digit * mb <= cur,
                cur < 65536 * mb,
        ;
    }
    let ghost qrest = q@;
    q.insert(0, digit);
    proof {
        lemma_magnitude_front(qrest, digit);
        let mq = magnitude(qrest);
        assert(la + 65536 * (mq * mb + old_rem) == (digit + 65536 * mq) * mb + magnitude(rem@))
            by (nonlinear_arith)
            requires
                cur == la + 65536 * old_rem,
                cur == magnitude(rem@) + digit * mb,
        ;
    }
    (q, rem)
}

/// `a` times the part of `b` from `i` upward.
fn mul_from(a: &Vec<u64>, b: &Vec<u64>, i: usize) -> (r: Vec<u64>)
    requires
        limbs_ok(a@),
        limbs_ok(b@),
    ensures
        limbs_ok(r@),
        magnitude(r@) == magnitude(a@) * limbs_from(b@, i as int),
    decreases b@.len() - i,
{
    if i >= b.len() {
        let r: Vec<u64> = Vec::new();
        assert(magnitude(a@) * limbs_from(b@, i as int) == 0) by (nonlinear_arith)
            requires
                limbs_from(b@, i as int) == 0,
        ;
        assert(magnitude(r@) == 0);
        return r;
    }
    let mut acc = mul_from(a, b, i + 1);
    let ghost rest = acc@;
    acc.insert(0, 0);
    proof {
        lemma_magnitude_front(rest, 0);
    }
    let p = mul_small_from(a, b[i], 0, 0);
    let r = add_from(&acc, &p, 0, 0);
    proof {
        let ma = magnitude(a@);
        let v = limbs_from(b@, i + 1);
        assert(ma * (b@[i as int] + 65536 * v) == ma * b@[i as int] + 65536 * (ma * v))
            by (nonlinear_arith);
    }
    r
}

/// The limbs of a machine integer.
fn limbs_of(n: u64) -> (r: Vec<u64>)
    ensures
        limbs_ok(r@),
        magnitude(r@) == n,
    decreases n,
{
    if n == 0 {
        return Vec::new();
    }
    let mut r = limbs_of(n / LIMB_BASE);
    let ghost rest = r@;
    r.insert(0, n % LIMB_BASE);
    proof {
        lemma_magnitude_front(rest, (n % 65536) as u64);
    }
    r
}

/// The part of `a` from `i` upward as a machine integer, when it is at most
/// `bound`.
fn small_from(a: &Vec<u64>, i: usize, bound: u64) -> (r: Option<u64>)
    requires
        limbs_ok(a@),
    ensures
        match r {
            Some(v) => v == limbs_from(a@, i as int) && v <= bound,
            None => limbs_from(a@, i as int) > bound,
        },
    decreases a@.len() - i,
{
    if i >= a.len() {
        return Some(0);
    }
    let high = match small_from(a, i + 1, bound) {
        Some(h) => h,
        None => {
            return None;
        },
    };
    match high.checked_mul(LIMB_BASE) {
        Some(s) => match s.checked_add(a[i]) {
            Some(v) if v <= bound => Some(v),
            _ => None,
        },
        None => None,
    }
}

/// A signed integer of any size.
#[derive(Debug)]
pub struct BigInt {
    negative: bool,
    limbs: Vec<u64>,
}

impl View for BigInt {
    type V = int;

    closed spec fn view(&self) -> int {
        if self.negative {
            -(magnitude(self.limbs@) as int)
        } else {
            magnitude(self.limbs@) as int
        }
    }
}

impl BigInt {
    #[verifier::type_invariant]
    spec fn well_formed(self) -> bool {
        limbs_ok(self.limbs@)
    }

    fn from_parts(negative: bool, limbs: Vec<u64>) -> (r: BigInt)
        requires
            limbs_ok(limbs@),
        ensures
            r@ == (if negative {
                -(magnitude(limbs@) as int)
            } else {
                magnitude(limbs@) as int
            }),
    {
        BigInt { negative, limbs }
    }

    /// Zero.
    pub fn zero() -> (r: BigInt)
        ensures
            r@ == 0,
    {
        BigInt::from_parts(false, Vec::new())
    }

    /// The value of a machine integer.
    pub fn from_u64(n: u64) -> (r: BigInt)
        ensures
            r@ == n,
    {
        BigInt::from_parts(false, limbs_of(n))
    }

    /// The value of a signed machine integer.
    pub fn from_i64(n: i64) -> (r: BigInt)
        ensures
            r@ == n,
    {
        if n >= 0 {
            BigInt::from_parts(false, limbs_of(n as u64))
        } else {
            let m = (-(n as i128)) as u64;
            BigInt::from_parts(true, limbs_of(m))
        }
    }

    /// A copy with the same value.
    pub fn copy(&self) -> (r: BigInt)
        ensures
            r@ == self@,
    {
        proof {
            use_type_invariant(self);
        }
        let limbs = self.limbs.clone();
        assert(limbs@ =~= self.limbs@);
        BigInt::from_parts(self.negative, limbs)
    }

    /// `self * m + d` for a non-negative `self` and small `m` and `d`.
    pub fn mul_small_add(&self, m: u64, d: u64) -> (r: BigInt)
        requires
            self@ >= 0,
            m < 65536,
            d < 65536,
        ensures
            r@ == self@ * m + d,
    {
        proof {
            use_type_invariant(self);
        }
        let limbs = mul_small_from(&self.limbs, m, 0, d);
        proof {
            assert(magnitude(self.limbs@) == self@ || magnitude(self.limbs@) == 0);
            if magnitude(self.limbs@) == 0 {
                assert(self@ == 0);
            }
        }
        BigInt::from_parts(false, limbs)
    }

    /// Quotient and remainder of a non-negative `self` by a small divisor.
    pub fn divmod_small(&self, d: u64) -> (r: (BigInt, u64))
        requires
            self@ >= 0,
            0 < d < 65536,
        ensures
            r.0@ == self@ / (d as int),
            r.1 == self@ % (d as int),
    {
        proof {
            use_type_invariant(self);
        }
        let (q, rem) = divmod_small_from(&self.limbs, d, 0);
        proof {
            if magnitude(self.limbs@) == 0 {
                assert(self@ == 0);
            }
            assert(self@ == magnitude(self.limbs@));
            vstd::arithmetic::div_mod::lemma_fundamental_div_mod_converse(
                self@,
                d as int,
                magnitude(q@) as int,
                rem as int,
            );
        }
        (BigInt::from_parts(false, q), rem)
    }

    /// Whether the value is zero.
    pub fn is_zero(&self) -> (r: bool)
        ensures
            r == (self@ == 0),
    {
        proof {
            use_type_invariant(self);
        }
        let empty: Vec<u64> = Vec::new();
        cmp_from(&self.limbs, &empty, 0) == 0
    }

    /// The negation.
    pub fn neg(&self) -> (r: BigInt)
        ensures
            r@ == -self@,
    {
        proof {
            use_type_invariant(self);
        }
        let limbs = self.limbs.clone();
        assert(limbs@ =~= self.limbs@);
        BigInt::from_parts(!self.negative, limbs)
    }

    /// The sum.
    pub fn add(&self, other: &BigInt) -> (r: BigInt)
        ensures
            r@ == self@ + other@,
    {
        proof {
            use_type_invariant(self);
            use_type_invariant(other);
        }
        if self.negative == other.negative {
            BigInt::from_parts(self.negative, add_from(&self.limbs, &other.limbs, 0, 0))
        } else if cmp_from(&self.limbs, &other.limbs, 0) != -1 {
            BigInt::from_parts(self.negative, sub_from(&self.limbs, &other.limbs, 0, 0))
        } else {
            BigInt::from_parts(other.negative, sub_from(&other.limbs, &self.limbs, 0, 0))
        }
    }

    /// The difference.
    pub fn sub(&self, other: &BigInt) -> (r: BigInt)
        ensures
            r@ == self@ - other@,
    {
        let n = other.neg();
        self.add(&n)
    }

    /// The product.
    pub fn mul(&self, other: &BigInt) -> (r: BigInt)
        ensures
            r@ == self@ * other@,
    {
        proof {
            use_type_invariant(self);
            use_type_invariant(other);
        }
        let limbs = mul_from(&self.limbs, &other.limbs, 0);
        let r = BigInt::from_parts(self.negative != other.negative, limbs);
        proof {
            let a = magnitude(self.limbs@) as int;
            let b = magnitude(other.limbs@) as int;
            assert((-a) * b == -(a * b)) by (nonlinear_arith);
            assert(a * (-b) == -(a * b)) by (nonlinear_arith);
            assert((-a) * (-b) == a * b) by (nonlinear_arith);
        }
        r
    }

    /// Quotient rounded toward zero, and the remainder, which takes the sign
    /// of `self`.
    pub fn div_rem(&self, other: &BigInt) -> (r: (BigInt, BigInt))
        requires
            other@ != 0,
        ensures
            r.0@ == (if (self@ < 0) != (other@ < 0) {
                -(abs(self@) / abs(other@))
            } else {
                abs(self@) / abs(other@)
            }),
            r.1@ == (if self@ < 0 {
                -(abs(self@) % abs(other@))
            } else {
                abs(self@) % abs(other@)
            }),
    {
        proof {
            use_type_invariant(self);
            use_type_invariant(other);
        }
        let (q, rem) = divmod_from(&self.limbs, &other.limbs, 0);
        let ghost a = magnitude(self.limbs@) as int;
        let ghost b = magnitude(other.limbs@) as int;
        proof {
            assert(abs(self@) == a);
            assert(abs(other@) == b);
            vstd::arithmetic::div_mod::lemma_fundamental_div_mod_converse(
                a,
                b,
                magnitude(q@) as int,
                magnitude(rem@) as int,
            );
        }
        let q_negative = self.negative != other.negative && magnitude_is_positive(&q);
        let r_negative = self.negative && magnitude_is_positive(&rem);
        (BigInt::from_parts(q_negative, q), BigInt::from_parts(r_negative, rem))
    }

    /// -1, 0 or 1 as `self` is less than, equal to or greater than `other`.
    pub fn compare(&self, other: &BigInt) -> (r: i8)
        ensures
            r == -1 <==> self@ < other@,
            r == 0 <==> self@ == other@,
            r == 1 <==> self@ > other@,
    {
        proof {
            use_type_invariant(self);
            use_type_invariant(other);
        }
        let c = cmp_from(&self.limbs, &other.limbs, 0);
        let empty: Vec<u64> = Vec::new();
        let a_zero = cmp_from(&self.limbs, &empty, 0) == 0;
        let b_zero = cmp_from(&other.limbs, &empty, 0) == 0;
        let a_neg = self.negative && !a_zero;
        let b_neg = other.negative && !b_zero;
        if a_neg && b_neg {
            -c
        } else if a_neg {
            -1
        } else if b_neg {
            1
        } else {
            c
        }
    }

    /// The value as a `usize`, when it lies in `0..=bound`.
    pub fn to_usize_within(&self, bound: usize) -> (r: Option<usize>)
        ensures
            match r {
                Some(v) => v == self@ && self@ <= bound,
                None => self@ < 0 || self@ > bound,
            },
    {
        proof {
            use_type_invariant(self);
        }
        match small_from(&self.limbs, 0, bound as u64) {
            Some(v) => if self.negative && v != 0 {
                None
            } else {
                assert(v <= bound);
                assert(self@ == v);
                Some(v as usize)
            },
            None => None,
        }
    }

    /// The value as an `i64`, when it fits.
    pub fn to_i64(&self) -> (r: Option<i64>)
        ensures
            match r {
                Some(v) => v == self@,
                None => self@ < i64::MIN || self@ > i64::MAX,
            },
    {
        proof {
            use_type_invariant(self);
        }
        let bound: u64 = if self.negative {
            0x8000_0000_0000_0000
        } else {
            0x7fff_ffff_ffff_ffff
        };
        match small_from(&self.limbs, 0, bound) {
            Some(v) => if self.negative {
                assert(v <= 0x8000_0000_0000_0000);
                let n: i128 = -(v as i128);
                assert(n == self@);
                Some(n as i64)
            } else {
                assert(v == self@);
                Some(v as i64)
            },
            None => None,
        }
    }
}

fn magnitude_is_positive(a: &Vec<u64>) -> (r: bool)
    requires
        limbs_ok(a@),
    ensures
        r == (magnitude(a@) > 0),
{
    let empty: Vec<u64> = Vec::new();
    cmp_from(a, &empty, 0) != 0
}

/// The absolute value.
pub open spec fn abs(x: int) -> int {
    if x < 0 {
        -x
    } else {
        x
    }
}

impl PartialEq for BigInt {
    fn eq(&self, other: &BigInt) -> (r: bool) {
        self.compare(other) == 0
    }
}

impl vstd::std_specs::cmp::PartialEqSpecImpl for BigInt {
    open spec fn obeys_eq_spec() -> bool {
        true
    }

    open spec fn eq_spec(&self, other: &BigInt) -> bool {
        self@ == other@
    }
}

} // verus!

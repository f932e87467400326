//! Arbitrary-precision unsigned integers, stored as little-endian limbs in
//! base 10^18 (the number of smallest currency units in one whole unit).
//!
//! Choosing the radix equal to the currency's scaling factor makes the
//! conversion `floor(x / 10^18)` a plain limb shift, so the payment
//! arithmetic of the ledger never rounds anywhere but in that one place.

use vstd::arithmetic::div_mod::lemma_fundamental_div_mod;
use vstd::arithmetic::mul::lemma_mul_strictly_positive;
use vstd::prelude::*;

verus! {

/// Smallest currency units per whole unit, and the radix of the limbs.
pub const BASE: u64 = 1_000_000_000_000_000_000;

/// The value denoted by a little-endian limb sequence.
pub open spec fn nat_of(s: Seq<u64>) -> nat
    decreases s.len(),
{
    if s.len() == 0 {
        0
    } else {
        s[0] as nat + (BASE as nat) * nat_of(s.subrange(1, s.len() as int))
    }
}

/// An unsigned integer of arbitrary size.
///
/// The canonical form keeps every limb below `BASE` and never stores a
/// most-significant zero limb, so the empty limb vector is the one
/// representation of zero.
#[derive(Debug)]
pub struct BigUint {
    limbs: Vec<u64>,
}

impl View for BigUint {
    type V = nat;

    closed spec fn view(&self) -> nat {
        nat_of(self.limbs@)
    }
}

/// A canonical limb sequence: all limbs in range, no trailing zero limb.
pub open spec fn canonical(s: Seq<u64>) -> bool {
    &&& forall|i: int| 0 <= i < s.len() ==> s[i] < BASE
    &&& (s.len() > 0 ==> s[s.len() - 1] != 0)
}

/// `BASE` raised to the power `e`.
pub open spec fn rpow(e: nat) -> nat
    decreases e,
{
    if e == 0 {
        1
    } else {
        (BASE as nat) * rpow((e - 1) as nat)
    }
}

/// Appending a limb adds its value scaled by the radix power of the old length.
proof fn lemma_nat_of_push(s: Seq<u64>, x: u64)
    ensures
        nat_of(s.push(x)) == nat_of(s) + x * rpow(s.len()),
    decreases s.len(),
{
    let sp = s.push(x);
    if s.len() == 0 {
        assert(nat_of(sp.subrange(1, 1)) == 0);
        assert(rpow(0) == 1);
    } else {
        let t = s.subrange(1, s.len() as int);
        assert(sp.subrange(1, sp.len() as int) =~= t.push(x));
        lemma_nat_of_push(t, x);
        let p = rpow((s.len() - 1) as nat);
        assert(rpow(s.len()) == BASE * p);
        assert((BASE as int) * (nat_of(t) + x * p) == (BASE as int) * nat_of(t) + x * ((BASE as int)
            * p)) by (nonlinear_arith);
    }
}

/// The limb at position `i`, reading positions past the end as zero.
pub open spec fn limb_at(s: Seq<u64>, i: int) -> u64 {
    if 0 <= i < s.len() {
        s[i]
    } else {
        0
    }
}

/// The first `i` limbs (or all of them, when fewer exist).
pub open spec fn prefix(s: Seq<u64>, i: int) -> Seq<u64> {
    s.subrange(0, if i <= s.len() { i } else { s.len() as int })
}

/// Extending a prefix by one position adds that position's limb value.
proof fn lemma_prefix_step(s: Seq<u64>, i: int)
    requires
        0 <= i,
    ensures
        nat_of(prefix(s, i + 1)) == nat_of(prefix(s, i)) + limb_at(s, i) * rpow(i as nat),
{
    if i < s.len() {
        assert(prefix(s, i + 1) =~= prefix(s, i).push(s[i]));
        lemma_nat_of_push(prefix(s, i), s[i]);
    } else {
        assert(prefix(s, i + 1) =~= prefix(s, i));
    }
}

/// Drops trailing zero limbs, leaving the canonical form of the same value.
fn trim(v: &mut Vec<u64>)
    ensures
        nat_of(final(v)@) == nat_of(old(v)@),
        final(v)@.len() <= old(v)@.len(),
        forall|i: int| 0 <= i < final(v)@.len() ==> final(v)@[i] == old(v)@[i],
        final(v)@.len() > 0 ==> final(v)@[final(v)@.len() - 1] != 0,
{
    while v.len() > 0 && v[v.len() - 1] == 0
        invariant
            nat_of(v@) == nat_of(old(v)@),
            v@.len() <= old(v)@.len(),
            forall|i: int| 0 <= i < v@.len() ==> v@[i] == old(v)@[i],
        decreases v@.len(),
    {
        proof {
            let w = v@;
            assert(w =~= w.subrange(0, w.len() - 1).push(w[w.len() - 1]));
            lemma_nat_of_push(w.subrange(0, w.len() - 1), w[w.len() - 1]);
        }
        let _ = v.pop();
    }
}

/// A nonzero top limb forces a nonzero value.
proof fn lemma_nat_of_last_nonzero(s: Seq<u64>)
    requires
        s.len() > 0,
        s[s.len() - 1] != 0,
    ensures
        nat_of(s) > 0,
    decreases s.len(),
{
    if s.len() == 1 {
        assert(s.subrange(1, 1).len() == 0);
    } else {
        let t = s.subrange(1, s.len() as int);
        assert(t[t.len() - 1] == s[s.len() - 1]);
        lemma_nat_of_last_nonzero(t);
        lemma_mul_strictly_positive(BASE as int, nat_of(t) as int);
    }
}

/// Canonical forms are unique: equal values have equal limb sequences.
proof fn lemma_canonical_injective(s: Seq<u64>, t: Seq<u64>)
    requires
        canonical(s),
        canonical(t),
        nat_of(s) == nat_of(t),
    ensures
        s == t,
    decreases s.len(),
{
    if s.len() == 0 {
        if t.len() > 0 {
            lemma_nat_of_last_nonzero(t);
        }
        assert(s =~= t);
    } else if t.len() == 0 {
        lemma_nat_of_last_nonzero(s);
    } else {
        let st = s.subrange(1, s.len() as int);
        let tt = t.subrange(1, t.len() as int);
        assert(nat_of(s) == s[0] as nat + (BASE as nat) * nat_of(st));
        assert(nat_of(t) == t[0] as nat + (BASE as nat) * nat_of(tt));
        assert(s[0] == t[0] && nat_of(st) == nat_of(tt)) by (nonlinear_arith)
            requires
                s[0] as nat + (BASE as nat) * nat_of(st) == t[0] as nat + (BASE as nat) * nat_of(
                    tt,
                ),
                s[0] < BASE,
                t[0] < BASE,
        ;
        if st.len() > 0 {
            assert(st[st.len() - 1] == s[s.len() - 1]);
        }
        if tt.len() > 0 {
            assert(tt[tt.len() - 1] == t[t.len() - 1]);
        }
        lemma_canonical_injective(st, tt);
        assert forall|i: int| 0 <= i < s.len() implies s[i] == t[i] by {
            if i > 0 {
                assert(st[i - 1] == s[i]);
                assert(tt[i - 1] == t[i]);
            }
        }
        assert(s =~= t);
    }
}

impl BigUint {
    /// The representation invariant.
    pub closed spec fn wf(&self) -> bool {
        canonical(self.limbs@)
    }

    /// On well-formed values, equality of representations (what `==`
    /// compares) and equality of the denoted numbers coincide.
    pub proof fn lemma_eq_is_value_eq(a: &BigUint, b: &BigUint)
        requires
            a.wf(),
            b.wf(),
        ensures
            (a.rep() == b.rep()) <==> (a@ == b@),
    {
        if a@ == b@ {
            lemma_canonical_injective(a.limbs@, b.limbs@);
        }
    }

    /// The number zero.
    pub fn zero() -> (r: BigUint)
        ensures
            r.wf(),
            r@ == 0,
    {
        BigUint { limbs: Vec::new() }
    }

    /// The value of a machine word.
    pub fn from_u64(v: u64) -> (r: BigUint)
        ensures
            r.wf(),
            r@ == v,
    {
        let mut limbs: Vec<u64> = Vec::new();
        if v >= BASE {
            limbs.push(v % BASE);
            limbs.push(v / BASE);
            proof {
                let s = limbs@;
                let t = s.subrange(1, 2);
                assert(t[0] == s[1]);
                assert(nat_of(t.subrange(1, 1)) == 0);
                assert(nat_of(t) == s[1] as nat);
            }
        } else if v > 0 {
            limbs.push(v);
            proof {
                assert(nat_of(limbs@.subrange(1, 1)) == 0);
            }
        }
        BigUint { limbs }
    }

    /// Whether the value is zero.
    pub fn is_zero(&self) -> (r: bool)
        requires
            self.wf(),
        ensures
            r == (self@ == 0),
    {
        proof {
            if self.limbs@.len() > 0 {
                lemma_nat_of_last_nonzero(self.limbs@);
            }
        }
        self.limbs.len() == 0
    }

    /// The sum of two values.
    pub fn add(&self, other: &BigUint) -> (r: BigUint)
        requires
            self.wf(),
            other.wf(),
        ensures
            r.wf(),
            r@ == self@ + other@,
    {
        let a = &self.limbs;
        let b = &other.limbs;
        let n: usize = if a.len() > b.len() {
            a.len()
        } else {
            b.len()
        };
        let mut res: Vec<u64> = Vec::new();
        let mut carry: u64 = 0;
        let mut i: usize = 0;
        while i < n
            invariant
                i <= n,
                a@.len() <= n,
                b@.len() <= n,
                canonical(a@),
                canonical(b@),
                res@.len() == i,
                carry <= 1,
                forall|j: int| 0 <= j < i ==> res@[j] < BASE,
                nat_of(res@) + carry * rpow(i as nat) == nat_of(prefix(a@, i as int))
                    + nat_of(prefix(b@, i as int)),
            decreases n - i,
        {
            let av: u64 = if i < a.len() {
                a[i]
            } else {
                0
            };
            let bv: u64 = if i < b.len() {
                b[i]
            } else {
                0
            };
            let s: u64 = av + bv + carry;
            let (d, c2): (u64, u64) = if s >= BASE {
                (s - BASE, 1)
            } else {
                (s, 0)
            };
            proof {
                lemma_prefix_step(a@, i as int);
                lemma_prefix_step(b@, i as int);
                lemma_nat_of_push(res@, d);
                let p = rpow(i as nat);
                assert(rpow((i + 1) as nat) == BASE * p);
                assert(nat_of(res@) + d * p + c2 * ((BASE as int) * p) == nat_of(
                    prefix(a@, i as int),
                ) + nat_of(prefix(b@, i as int)) + (av * p + bv * p)) by (nonlinear_arith)
                    requires
                        nat_of(res@) + carry * p == nat_of(prefix(a@, i as int)) + nat_of(
                            prefix(b@, i as int),
                        ),
                        d + BASE * c2 == av + bv + carry,
                ;
            }
            res.push(d);
            carry = c2;
            i += 1;
        }
        proof {
            assert(prefix(a@, n as int) =~= a@);
            assert(prefix(b@, n as int) =~= b@);
        }
        if carry > 0 {
            proof {
                lemma_nat_of_push(res@, carry);
            }
            res.push(carry);
        }
        trim(&mut res);
        BigUint { limbs: res }
    }

    /// The product of the value with a single limb.
    fn mul_limb(&self, m: u64) -> (r: BigUint)
        requires
            self.wf(),
            m < BASE,
        ensures
            r.wf(),
            r@ == self@ * m,
    {
        let a = &self.limbs;
        let mut res: Vec<u64> = Vec::new();
        let mut carry: u64 = 0;
        let mut i: usize = 0;
        proof {
            assert(nat_of(prefix(a@, 0)) == 0);
            assert(nat_of(prefix(a@, 0)) * m == 0) by (nonlinear_arith)
                requires
                    nat_of(prefix(a@, 0)) == 0,
            ;
        }
        while i < a.len()
            invariant
                i <= a@.len(),
                canonical(a@),
                m < BASE,
                res@.len() == i,
                carry < BASE,
                forall|j: int| 0 <= j < i ==> res@[j] < BASE,
                nat_of(res@) + carry * rpow(i as nat) == nat_of(prefix(a@, i as int)) * m,
            decreases a@.len() - i,
        {
            proof {
                assert(a@[i as int] * m + carry < BASE * BASE) by (nonlinear_arith)
                    requires
                        a@[i as int] < BASE,
                        m < BASE,
                        carry < BASE,
                ;
            }
            let p: u128 = a[i] as u128 * m as u128 + carry as u128;
            let d: u64 = (p % (BASE as u128)) as u64;
            let c2: u64 = (p / (BASE as u128)) as u64;
            proof {
                assert(p == a@[i as int] * m + carry);
                assert(p < (BASE as u128) * (BASE as u128));
                assert(d == p % (BASE as u128));
                assert(p / (BASE as u128) < BASE) by (nonlinear_arith)
                    requires
                        p < (BASE as u128) * (BASE as u128),
                ;
                assert(c2 == p / (BASE as u128));
                lemma_fundamental_div_mod(p as int, BASE as int);
                assert(p == (BASE as u128) * (p / (BASE as u128)) + p % (BASE as u128));
                assert(d + (BASE as nat) * c2 == a@[i as int] * m + carry);
                lemma_prefix_step(a@, i as int);
                lemma_nat_of_push(res@, d);
                let rp = rpow(i as nat);
                assert(rpow((i + 1) as nat) == BASE * rp);
                assert(nat_of(res@) + d * rp + c2 * ((BASE as nat) * rp) == (nat_of(
                    prefix(a@, i as int),
                ) + a@[i as int] * rp) * m) by (nonlinear_arith)
                    requires
                        nat_of(res@) + carry * rp == nat_of(prefix(a@, i as int)) * m,
                        d + (BASE as nat) * c2 == a@[i as int] * m + carry,
                ;
            }
            res.push(d);
            carry = c2;
            i += 1;
        }
        proof {
            assert(prefix(a@, a@.len() as int) =~= a@);
        }
        if carry > 0 {
            proof {
                lemma_nat_of_push(res@, carry);
            }
            res.push(carry);
        }
        trim(&mut res);
        BigUint { limbs: res }
    }

    /// The value multiplied by the radix: one extra low-order zero limb.
    fn shift_one(&self) -> (r: BigUint)
        requires
            self.wf(),
        ensures
            r.wf(),
            r@ == (BASE as nat) * self@,
    {
        if self.limbs.len() == 0 {
            BigUint::zero()
        } else {
            let mut v: Vec<u64> = Vec::new();
            v.push(0);
            let mut i: usize = 0;
            while i < self.limbs.len()
                invariant
                    i <= self.limbs@.len(),
                    self.wf(),
                    v@.len() == i + 1,
                    v@[0] == 0,
                    forall|j: int| 1 <= j < v@.len() ==> v@[j] == self.limbs@[j - 1],
                decreases self.limbs@.len() - i,
            {
                v.push(self.limbs[i]);
                i += 1;
            }
            proof {
                assert(v@.subrange(1, v@.len() as int) =~= self.limbs@);
            }
            BigUint { limbs: v }
        }
    }

    /// The product of two values.
    pub fn mul(&self, other: &BigUint) -> (r: BigUint)
        requires
            self.wf(),
            other.wf(),
        ensures
            r.wf(),
            r@ == self@ * other@,
    {
        let mut acc = BigUint::zero();
        let mut j: usize = other.limbs.len();
        proof {
            assert(other.limbs@.subrange(other.limbs@.len() as int, other.limbs@.len() as int).len()
                == 0);
        }
        while j > 0
            invariant
                j <= other.limbs@.len(),
                self.wf(),
                other.wf(),
                acc.wf(),
                acc@ == self@ * nat_of(other.limbs@.subrange(j as int, other.limbs@.len() as int)),
            decreases j,
        {
            j -= 1;
            proof {
                assert(canonical(other.limbs@));
                assert(other.limbs@[j as int] < BASE);
            }
            let part = self.mul_limb(other.limbs[j]);
            let shifted = acc.shift_one();
            let ghost acc_old: nat = acc@;
            acc = shifted.add(&part);
            proof {
                let bs = other.limbs@;
                let t = bs.subrange(j as int, bs.len() as int);
                let rest = nat_of(bs.subrange(j as int + 1, bs.len() as int));
                assert(t[0] == bs[j as int]);
                assert(t.subrange(1, t.len() as int) =~= bs.subrange(j as int + 1, bs.len() as int));
                assert(nat_of(t) == t[0] as nat + (BASE as nat) * rest);
                assert(self@ * (bs[j as int] as nat + (BASE as nat) * rest) == (BASE as nat) * (
                self@ * rest) + self@ * bs[j as int]) by (nonlinear_arith);
            }
        }
        proof {
            assert(other.limbs@.subrange(0, other.limbs@.len() as int) =~= other.limbs@);
        }
        acc
    }

    /// The value divided by the radix, rounded down: the low-order limb is
    /// discarded, which is exactly `floor(self / BASE)`.
    pub fn div_base(&self) -> (r: BigUint)
        requires
            self.wf(),
        ensures
            r.wf(),
            r@ == self@ / (BASE as nat),
    {
        if self.limbs.len() == 0 {
            BigUint::zero()
        } else {
            let mut v: Vec<u64> = Vec::new();
            let mut i: usize = 1;
            while i < self.limbs.len()
                invariant
                    1 <= i <= self.limbs@.len(),
                    self.wf(),
                    v@.len() == i - 1,
                    forall|j: int| 0 <= j < v@.len() ==> v@[j] == self.limbs@[j + 1],
                decreases self.limbs@.len() - i,
            {
                v.push(self.limbs[i]);
                i += 1;
            }
            proof {
                assert(v@ =~= self.limbs@.subrange(1, self.limbs@.len() as int));
                assert(self@ == self.limbs@[0] as nat + (BASE as nat) * nat_of(v@));
            }
            BigUint { limbs: v }
        }
    }

    /// The canonical limb sequence, for stating what equality compares.
    pub closed spec fn rep(&self) -> Seq<u64> {
        self.limbs@
    }
}

impl Clone for BigUint {
    /// An equal, independently owned copy.
    fn clone(&self) -> (r: Self)
        ensures
            r@ == self@,
            r.wf() == self.wf(),
            r.rep() == self.rep(),
    {
        let mut limbs: Vec<u64> = Vec::new();
        let mut i: usize = 0;
        while i < self.limbs.len()
            invariant
                i <= self.limbs@.len(),
                limbs@.len() == i,
                forall|j: int| 0 <= j < i ==> limbs@[j] == self.limbs@[j],
            decreases self.limbs@.len() - i,
        {
            limbs.push(self.limbs[i]);
            i += 1;
        }
        proof {
            assert(limbs@ =~= self.limbs@);
        }
        BigUint { limbs }
    }
}

impl PartialEq for BigUint {
    /// Equality of canonical representations; on well-formed values this
    /// coincides with equality of the denoted numbers.
    fn eq(&self, other: &Self) -> (r: bool) {
        if self.limbs.len() != other.limbs.len() {
            proof {
                assert(self.limbs@ != other.limbs@);
            }
            return false;
        }
        let mut i: usize = 0;
        while i < self.limbs.len()
            invariant
                i <= self.limbs@.len(),
                self.limbs@.len() == other.limbs@.len(),
                forall|j: int| 0 <= j < i ==> self.limbs@[j] == other.limbs@[j],
            decreases self.limbs@.len() - i,
        {
            if self.limbs[i] != other.limbs[i] {
                proof {
                    assert(self.limbs@ != other.limbs@);
                }
                return false;
            }
            i += 1;
        }
        proof {
            assert(self.limbs@ =~= other.limbs@);
        }
        true
    }
}

impl vstd::std_specs::cmp::PartialEqSpecImpl for BigUint {
    open spec fn obeys_eq_spec() -> bool {
        true
    }

    open spec fn eq_spec(&self, other: &Self) -> bool {
        self.rep() == other.rep()
    }
}

} // verus!

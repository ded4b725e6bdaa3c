//! Table-driven arithmetic in GF(2^8) with the primitive polynomial 0x11d.
//!
//! The field's nonzero elements are the powers `alpha^0 .. alpha^254` of the
//! generator `alpha = x`; multiplication adds discrete logarithms. The
//! contracts speak of that model (`alpha_pow`, `dlog`), and the laws below
//! show that the table arithmetic is the field's: commutative, associative,
//! with identity, inverses, and distributive over addition (XOR).
use vstd::prelude::*;
use vstd::relations::injective_on;
use vstd::set_lib::{lemma_int_range, lemma_map_size, lemma_subset_equality, set_int_range};

verus! {

/// The field polynomial x^8 + x^4 + x^3 + x^2 + 1.
const GF256_PRIMITIVE: u16 = 0x11d;

/// Multiplication by the generator x: shift left, then reduce by the field
/// polynomial when x^8 appears.
pub open spec fn times_x(v: u8) -> u8 {
    if v & 0x80u8 == 0 {
        (v << 1u8) as u8
    } else {
        ((v << 1u8) ^ 0x1du8) as u8
    }
}

/// `alpha^i`.
pub open spec fn alpha_pow(i: nat) -> u8
    decreases i,
{
    if i == 0 {
        1
    } else {
        times_x(alpha_pow((i - 1) as nat))
    }
}

/// `v` multiplied by x, `k` times over.
pub open spec fn times_x_iter(v: u8, k: nat) -> u8
    decreases k,
{
    if k == 0 {
        v
    } else {
        times_x(times_x_iter(v, (k - 1) as nat))
    }
}

/// The discrete logarithm: for nonzero `v`, the exponent `i < 255` with
/// `alpha^i == v` (unique, by `lemma_dlog`); 0 for zero.
pub open spec fn dlog(v: u8) -> nat {
    if v == 0 {
        0
    } else {
        choose|i: nat| i < 255 && alpha_pow(i) == v
    }
}

/// Field product.
pub open spec fn gf_mul(a: u8, b: u8) -> u8 {
    if a == 0 || b == 0 {
        0
    } else {
        alpha_pow(((dlog(a) + dlog(b)) % 255) as nat)
    }
}

/// Multiplicative inverse, with zero mapped to zero.
pub open spec fn gf_inv(a: u8) -> u8 {
    if a == 0 {
        0
    } else {
        alpha_pow(((255 - dlog(a)) % 255) as nat)
    }
}

/// `a^n` for any integer exponent (zero for a zero base, one for a zero
/// exponent).
pub open spec fn gf_pow(a: u8, n: int) -> u8 {
    if a == 0 {
        0
    } else if n == 0 {
        1
    } else {
        alpha_pow(((dlog(a) * n) % 255) as nat)
    }
}

/// The polynomial with coefficients `coeffs` (highest degree first) at `x`,
/// by Horner's rule.
pub open spec fn horner(coeffs: Seq<u8>, x: u8) -> u8
    decreases coeffs.len(),
{
    if coeffs.len() == 0 {
        0
    } else if coeffs.len() == 1 {
        coeffs[0]
    } else {
        gf_mul(horner(coeffs.drop_last(), x), x) ^ coeffs.last()
    }
}

spec fn pow_from(v: u8, k: u8) -> u8
    decreases k,
{
    if k == 0 {
        v
    } else {
        pow_from(times_x(v), (k - 1) as u8)
    }
}

spec fn avoids_one(v: u8, k: u8) -> bool
    decreases k,
{
    if k == 0 {
        true
    } else {
        v != 1 && avoids_one(times_x(v), (k - 1) as u8)
    }
}

proof fn lemma_times_x(a: u8, b: u8)
    ensures
        times_x(a) == times_x(b) ==> a == b,
        a != 0 ==> times_x(a) != 0,
        times_x(a ^ b) == times_x(a) ^ times_x(b),
        times_x(0) == 0,
        times_x(1) == 2,
{
    assert(times_x(a) == times_x(b) ==> a == b) by (bit_vector);
    assert(a != 0 ==> times_x(a) != 0) by (bit_vector);
    assert(times_x(a ^ b) == times_x(a) ^ times_x(b)) by (bit_vector);
    assert(times_x(0) == 0 && times_x(1) == 2) by (bit_vector);
}

proof fn lemma_xor(a: u8, b: u8)
    ensures
        a ^ 0 == a,
        0 ^ a == a,
        a ^ a == 0,
        a ^ b == b ^ a,
{
    assert(a ^ 0 == a && 0 ^ a == a && a ^ a == 0 && a ^ b == b ^ a) by (bit_vector);
}

proof fn lemma_pow_from(a: nat, k: u8)
    ensures
        pow_from(alpha_pow(a), k) == alpha_pow(a + k as nat),
    decreases k,
{
    if k > 0 {
        lemma_pow_from(a + 1, (k - 1) as u8);
        assert(alpha_pow(a + 1) == times_x(alpha_pow(a)));
    }
}

proof fn lemma_avoids_one(a: nat, k: u8)
    requires
        avoids_one(alpha_pow(a), k),
    ensures
        forall|j: nat| j < k ==> #[trigger] alpha_pow(a + j) != 1,
    decreases k,
{
    if k > 0 {
        assert(alpha_pow(a + 1) == times_x(alpha_pow(a)));
        lemma_avoids_one(a + 1, (k - 1) as u8);
        assert forall|j: nat| j < k implies #[trigger] alpha_pow(a + j) != 1 by {
            if j > 0 {
                assert(alpha_pow((a + 1) + (j - 1) as nat) != 1);
                assert((a + 1) + (j - 1) as nat == a + j);
            }
        }
    }
}

/// alpha has order exactly 255: `alpha^255 == 1` and no smaller positive
/// power is 1. Both facts are evaluated by the bit-vector solver.
proof fn lemma_alpha_order()
    ensures
        alpha_pow(255) == 1,
        forall|k: nat| 0 < k < 255 ==> #[trigger] alpha_pow(k) != 1,
{
    assert(pow_from(1u8, 255u8) == 1u8) by (bit_vector);
    assert(avoids_one(2u8, 254u8)) by (bit_vector);
    lemma_pow_from(0, 255);
    lemma_times_x(1, 1);
    assert(alpha_pow(1) == 2) by {
        assert(alpha_pow(1) == times_x(alpha_pow(0)));
    }
    lemma_avoids_one(1, 254);
    assert forall|k: nat| 0 < k < 255 implies #[trigger] alpha_pow(k) != 1 by {
        assert(alpha_pow(1 + (k - 1) as nat) != 1);
    }
}

proof fn lemma_alpha_nonzero(i: nat)
    ensures
        alpha_pow(i) != 0,
    decreases i,
{
    if i > 0 {
        lemma_alpha_nonzero((i - 1) as nat);
        lemma_times_x(alpha_pow((i - 1) as nat), 0);
    }
}

proof fn lemma_alpha_period(i: nat)
    ensures
        alpha_pow(i + 255) == alpha_pow(i),
    decreases i,
{
    if i == 0 {
        lemma_alpha_order();
    } else {
        lemma_alpha_period((i - 1) as nat);
        assert(alpha_pow(i + 255) == times_x(alpha_pow(((i - 1) as nat + 255) as nat)));
    }
}

proof fn lemma_alpha_mod(i: nat)
    ensures
        alpha_pow(i) == alpha_pow(i % 255),
    decreases i,
{
    if i >= 255 {
        lemma_alpha_mod((i - 255) as nat);
        lemma_alpha_period((i - 255) as nat);
        assert(((i - 255) as nat) % 255 == i % 255);
    }
}

proof fn lemma_alpha_distinct(i: nat, j: nat)
    requires
        i < j < 255,
    ensures
        alpha_pow(i) != alpha_pow(j),
    decreases i,
{
    if i == 0 {
        lemma_alpha_order();
        assert(alpha_pow(j) != 1);
    } else {
        lemma_alpha_distinct((i - 1) as nat, (j - 1) as nat);
        lemma_times_x(alpha_pow((i - 1) as nat), alpha_pow((j - 1) as nat));
    }
}

/// Every nonzero byte is a power of alpha below 255: 255 distinct nonzero
/// powers fill the 255 nonzero bytes.
proof fn lemma_alpha_onto(v: u8)
    requires
        v != 0,
    ensures
        exists|i: nat| i < 255 && alpha_pow(i) == v,
{
    let dom = set_int_range(0, 255);
    let f = |i: int| alpha_pow(i as nat) as int;
    let img = dom.map(f);
    let nonzero = set_int_range(1, 256);
    assert(injective_on(f, dom)) by {
        assert forall|x1: int, x2: int|
            dom.contains(x1) && dom.contains(x2) && #[trigger] f(x1) == #[trigger] f(x2) implies x1
            == x2 by {
            if x1 < x2 {
                lemma_alpha_distinct(x1 as nat, x2 as nat);
            } else if x2 < x1 {
                lemma_alpha_distinct(x2 as nat, x1 as nat);
            }
        }
    }
    lemma_int_range(0, 255);
    lemma_int_range(1, 256);
    lemma_map_size(dom, img, f);
    assert(img.subset_of(nonzero)) by {
        assert forall|y: int| img.contains(y) implies nonzero.contains(y) by {
            let x = choose|x: int| dom.contains(x) && y == f(x);
            lemma_alpha_nonzero(x as nat);
        }
    }
    lemma_subset_equality(img, nonzero);
    assert(nonzero.contains(v as int));
    assert(img.contains(v as int));
    let x = choose|x: int| dom.contains(x) && v as int == f(x);
    assert((x as nat) < 255 && alpha_pow(x as nat) == v);
}

/// `dlog` inverts `alpha_pow` below 255, and `alpha_pow` inverts `dlog` on
/// nonzero bytes.
pub proof fn lemma_dlog(v: u8, k: nat)
    ensures
        v != 0 ==> dlog(v) < 255 && alpha_pow(dlog(v)) == v,
        k < 255 ==> dlog(alpha_pow(k)) == k,
        dlog(1) == 0,
{
    if v != 0 {
        lemma_alpha_onto(v);
    }
    if k < 255 {
        let w = alpha_pow(k);
        lemma_alpha_nonzero(k);
        lemma_alpha_onto(w);
        let d = dlog(w);
        if d < k {
            lemma_alpha_distinct(d, k);
        } else if k < d {
            lemma_alpha_distinct(k, d);
        }
    }
    lemma_alpha_onto(1);
    let d1 = dlog(1);
    if d1 > 0 {
        lemma_alpha_distinct(0, d1);
    }
}

/// Multiplication commutes.
pub proof fn lemma_mul_commutative(a: u8, b: u8)
    ensures
        gf_mul(a, b) == gf_mul(b, a),
{
}

/// One is the multiplicative identity.
pub proof fn lemma_mul_identity(a: u8)
    ensures
        gf_mul(a, 1) == a,
{
    lemma_dlog(a, 0);
    if a != 0 {
        assert((dlog(a) + dlog(1)) % 255 == dlog(a));
    }
}

/// Every nonzero element times its inverse is one.
pub proof fn lemma_mul_inverse(a: u8)
    requires
        a != 0,
    ensures
        gf_inv(a) != 0,
        gf_mul(a, gf_inv(a)) == 1,
{
    lemma_dlog(a, 0);
    let la = dlog(a);
    let k = ((255 - la) % 255) as nat;
    lemma_alpha_nonzero(k);
    lemma_dlog(gf_inv(a), k);
    assert((la + k) % 255 == 0);
}

/// A product of nonzero elements is nonzero, with the logarithms adding.
proof fn lemma_mul_log(a: u8, b: u8)
    requires
        a != 0,
        b != 0,
    ensures
        gf_mul(a, b) != 0,
        dlog(gf_mul(a, b)) == (dlog(a) + dlog(b)) % 255,
{
    let k = ((dlog(a) + dlog(b)) % 255) as nat;
    lemma_alpha_nonzero(k);
    lemma_dlog(gf_mul(a, b), k);
}

proof fn lemma_mod_add_assoc(x: int, y: int, z: int)
    requires
        0 <= x < 255,
        0 <= y < 255,
        0 <= z < 255,
    ensures
        ((x + y) % 255 + z) % 255 == (x + (y + z) % 255) % 255,
{
    let xy = if x + y >= 255 { x + y - 255 } else { x + y };
    let yz = if y + z >= 255 { y + z - 255 } else { y + z };
    assert((x + y) % 255 == xy);
    assert((y + z) % 255 == yz);
    let t = x + y + z;
    let r = if t >= 510 { t - 510 } else if t >= 255 { t - 255 } else { t };
    assert((xy + z) % 255 == r);
    assert((x + yz) % 255 == r);
}

/// Multiplication associates.
pub proof fn lemma_mul_associative(a: u8, b: u8, c: u8)
    ensures
        gf_mul(gf_mul(a, b), c) == gf_mul(a, gf_mul(b, c)),
{
    if a != 0 && b != 0 && c != 0 {
        lemma_mul_log(a, b);
        lemma_mul_log(b, c);
        lemma_dlog(a, 0);
        lemma_dlog(b, 0);
        lemma_dlog(c, 0);
        let (la, lb, lc) = (dlog(a) as int, dlog(b) as int, dlog(c) as int);
        lemma_mod_add_assoc(la, lb, lc);
        assert(gf_mul(gf_mul(a, b), c) == alpha_pow((((la + lb) % 255 + lc) % 255) as nat));
        assert(gf_mul(a, gf_mul(b, c)) == alpha_pow(((la + (lb + lc) % 255) % 255) as nat));
    } else if a != 0 && b != 0 {
        lemma_mul_log(a, b);
    } else if b != 0 && c != 0 {
        lemma_mul_log(b, c);
    }
}

/// Multiplying by alpha (the byte 2) is the shift-and-reduce step.
pub proof fn lemma_mul_by_generator(a: u8)
    ensures
        gf_mul(a, 2) == times_x(a),
{
    lemma_times_x(a, a);
    lemma_dlog(2, 1);
    assert(alpha_pow(1) == times_x(alpha_pow(0)));
    if a != 0 {
        lemma_dlog(a, 0);
        let la = dlog(a);
        assert(alpha_pow(la + 1) == times_x(alpha_pow(la)));
        lemma_alpha_mod(la + 1);
    }
}

proof fn lemma_mul_alpha_pow(a: u8, k: nat)
    ensures
        gf_mul(a, alpha_pow(k)) == times_x_iter(a, k),
    decreases k,
{
    if k == 0 {
        lemma_mul_identity(a);
    } else {
        let p = alpha_pow((k - 1) as nat);
        lemma_mul_alpha_pow(a, (k - 1) as nat);
        lemma_mul_by_generator(p);
        lemma_mul_associative(a, p, 2);
        lemma_mul_by_generator(gf_mul(a, p));
    }
}

proof fn lemma_times_x_iter_linear(a: u8, b: u8, k: nat)
    ensures
        times_x_iter(a ^ b, k) == times_x_iter(a, k) ^ times_x_iter(b, k),
    decreases k,
{
    if k > 0 {
        lemma_times_x_iter_linear(a, b, (k - 1) as nat);
        lemma_times_x(times_x_iter(a, (k - 1) as nat), times_x_iter(b, (k - 1) as nat));
    }
}

/// Multiplication distributes over addition (XOR).
pub proof fn lemma_mul_distributes(a: u8, b: u8, c: u8)
    ensures
        gf_mul(a ^ b, c) == gf_mul(a, c) ^ gf_mul(b, c),
{
    if c == 0 {
        lemma_xor(0, 0);
    } else {
        lemma_dlog(c, 0);
        let k = dlog(c);
        lemma_mul_alpha_pow(a ^ b, k);
        lemma_mul_alpha_pow(a, k);
        lemma_mul_alpha_pow(b, k);
        lemma_times_x_iter_linear(a, b, k);
    }
}

/// The log/antilog tables of GF(2^8). `exp` holds `alpha^i` for `i` in
/// `0..511` (two periods, so a sum of two logarithms indexes it directly);
/// `log` holds the discrete logarithm of every nonzero byte.
pub struct Gf256 {
    exp: Vec<u8>,
    log: Vec<u8>,
}

impl Gf256 {
    pub closed spec fn wf(&self) -> bool {
        &&& self.exp@.len() == 512
        &&& self.log@.len() == 256
        &&& forall|i: int| 0 <= i < 511 ==> #[trigger] self.exp@[i] == alpha_pow((i % 255) as nat)
        &&& forall|v: int| 1 <= v < 256 ==> #[trigger] self.log@[v] as nat == dlog(v as u8)
    }

    pub fn new() -> (g: Self)
        ensures
            g.wf(),
    {
        let mut exp: Vec<u8> = vec![0u8; 512];
        let mut log: Vec<u8> = vec![0u8; 256];
        let mut val: u16 = 1;
        let mut i: usize = 0;
        while i < 255
            invariant
                i <= 255,
                exp@.len() == 512,
                log@.len() == 256,
                val as int == alpha_pow(i as nat) as int,
                forall|j: int| 0 <= j < i ==> #[trigger] exp@[j] == alpha_pow(j as nat),
                forall|j: nat| j < i ==> #[trigger] log@[alpha_pow(j) as int] == j,
            decreases 255 - i,
        {
            proof {
                lemma_alpha_nonzero(i as nat);
                assert forall|j: nat| j < i implies alpha_pow(j) != alpha_pow(i as nat) by {
                    lemma_alpha_distinct(j, i as nat);
                }
            }
            exp.set(i, val as u8);
            log.set(val as usize, i as u8);
            let ghost old_val = val;
            val = Self::gf_mul_step(val);
            proof {
                assert(alpha_pow((i + 1) as nat) == times_x(alpha_pow(i as nat)));
            }
            i = i + 1;
        }
        while i < 511
            invariant
                255 <= i <= 511,
                exp@.len() == 512,
                log@.len() == 256,
                forall|j: int| 0 <= j < i ==> #[trigger] exp@[j] == alpha_pow((j % 255) as nat),
                forall|j: nat| j < 255 ==> #[trigger] log@[alpha_pow(j) as int] == j,
            decreases 511 - i,
        {
            let e = exp[i - 255];
            exp.set(i, e);
            proof {
                assert(((i - 255) as int) % 255 == (i as int) % 255);
            }
            i = i + 1;
        }
        let g = Gf256 { exp, log };
        proof {
            assert forall|i: int| 0 <= i < 511 implies #[trigger] g.exp@[i] == alpha_pow(
                (i % 255) as nat,
            ) by {
                if i < 255 {
                    assert(i % 255 == i);
                }
            }
            assert forall|v: int| 1 <= v < 256 implies #[trigger] g.log@[v] as nat == dlog(
                v as u8,
            ) by {
                lemma_dlog(v as u8, 0);
                let d = dlog(v as u8);
                assert(g.log@[alpha_pow(d) as int] == d);
            }
        }
        g
    }

    /// One step of the generator: multiply by x and reduce.
    fn gf_mul_step(val: u16) -> (r: u16)
        requires
            val < 256,
        ensures
            r < 256,
            r as int == times_x(val as u8) as int,
    {
        let mut v = val << 1;
        if v & 0x100 != 0 {
            v ^= GF256_PRIMITIVE;
        }
        assert(v < 256 && v as int == times_x(val as u8) as int) by (bit_vector)
            requires
                val < 256,
                v == (if (val << 1u16) & 0x100u16 != 0 {
                    ((val << 1u16) ^ 0x11du16) as u16
                } else {
                    (val << 1u16) as u16
                }),
        ;
        v
    }

    /// Addition is XOR.
    pub fn add(&self, a: u8, b: u8) -> (r: u8)
        ensures
            r == a ^ b,
    {
        a ^ b
    }

    /// Subtraction is addition.
    pub fn sub(&self, a: u8, b: u8) -> (r: u8)
        ensures
            r == a ^ b,
    {
        a ^ b
    }

    pub fn mul(&self, a: u8, b: u8) -> (r: u8)
        requires
            self.wf(),
        ensures
            r == gf_mul(a, b),
    {
        if a == 0 || b == 0 {
            return 0;
        }
        proof {
            lemma_dlog(a, 0);
            lemma_dlog(b, 0);
        }
        let sum = self.log[a as usize] as u16 + self.log[b as usize] as u16;
        self.exp[sum as usize]
    }

    pub fn inv(&self, a: u8) -> (r: u8)
        requires
            self.wf(),
        ensures
            r == gf_inv(a),
    {
        if a == 0 {
            return 0;
        }
        proof {
            lemma_dlog(a, 0);
        }
        let l = self.log[a as usize] as u16;
        self.exp[(255 - l) as usize]
    }

    /// `a^n`. The product of the logarithm and `n` must fit in an `i32`.
    pub fn pow(&self, a: u8, n: i32) -> (r: u8)
        requires
            self.wf(),
            a == 0 || n == 0 || i32::MIN <= dlog(a) * n <= i32::MAX,
        ensures
            r == gf_pow(a, n as int),
    {
        if a == 0 {
            return 0;
        }
        if n == 0 {
            return 1;
        }
        proof {
            lemma_dlog(a, 0);
        }
        let log_a = self.log[a as usize] as i64;
        let prod: i64 = log_a * (n as i64);
        let r: u64 = if prod >= 0 {
            (prod as u64) % 255
        } else {
            let p: u64 = (-prod) as u64;
            let m: u64 = p % 255;
            assert((prod as int) % 255 == (if m == 0 { 0 } else { 255 - m })) by (nonlinear_arith)
                requires
                    p as int == -(prod as int),
                    m as int == (p as int) % 255,
                    p > 0,
            ;
            if m == 0 {
                0
            } else {
                255 - m
            }
        };
        self.exp[r as usize]
    }

    /// Evaluates the polynomial `coeffs` (highest degree first) at `x`.
    pub fn poly_eval(&self, coeffs: &[u8], x: u8) -> (y: u8)
        requires
            self.wf(),
            coeffs@.len() >= 1,
        ensures
            y == horner(coeffs@, x),
    {
        let mut y = coeffs[0];
        let mut i: usize = 1;
        assert(coeffs@.subrange(0, 1) =~= seq![coeffs@[0]]);
        while i < coeffs.len()
            invariant
                self.wf(),
                1 <= i <= coeffs@.len(),
                y == horner(coeffs@.subrange(0, i as int), x),
            decreases coeffs@.len() - i,
        {
            let ghost prefix = coeffs@.subrange(0, i as int + 1);
            assert(prefix.drop_last() =~= coeffs@.subrange(0, i as int));
            y = self.add(self.mul(y, x), coeffs[i]);
            i = i + 1;
        }
        assert(coeffs@.subrange(0, coeffs@.len() as int) =~= coeffs@);
        y
    }
}

impl Default for Gf256 {
    fn default() -> (g: Self)
        ensures
            g.wf(),
    {
        Self::new()
    }
}

} // verus!

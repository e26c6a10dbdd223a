//! Arithmetic in GF(2^8) with the primitive polynomial
//! x^8 + x^4 + x^3 + x^2 + 1 (0x11D).

use vstd::prelude::*;
use crate::erasure::tables::{exp_lit, log_lit, lemma_exp_table, lemma_log_exp_table, lemma_log_table};

verus! {

/// Multiplication by the generator `x` (that is, by 2), reduced modulo 0x11D.
pub open spec fn xtime(a: u8) -> u8 {
    if a & 0x80u8 == 0 {
        a << 1u8
    } else {
        (a << 1u8) ^ 0x1Du8
    }
}

/// The term of `a * b` contributed by the bit `mask` of `b`.
pub open spec fn bit_term(b: u8, mask: u8, ai: u8) -> u8 {
    if b & mask != 0 { ai } else { 0 }
}

/// Product in GF(2^8): carry-less multiplication of the two polynomials,
/// reduced modulo 0x11D (shift-and-add over the bits of `b`).
pub open spec fn gf_mul(a: u8, b: u8) -> u8 {
    let a1 = xtime(a);
    let a2 = xtime(a1);
    let a3 = xtime(a2);
    let a4 = xtime(a3);
    let a5 = xtime(a4);
    let a6 = xtime(a5);
    let a7 = xtime(a6);
    bit_term(b, 1, a) ^ bit_term(b, 2, a1) ^ bit_term(b, 4, a2) ^ bit_term(b, 8, a3)
        ^ bit_term(b, 16, a4) ^ bit_term(b, 32, a5) ^ bit_term(b, 64, a6) ^ bit_term(b, 128, a7)
}

/// `2^k` in GF(2^8).
pub open spec fn gf_exp(k: nat) -> u8
    decreases k,
{
    if k == 0 {
        1
    } else {
        xtime(gf_exp((k - 1) as nat))
    }
}

/// `a^e` in GF(2^8), with `a^0 == 1`.
pub open spec fn gf_pow(a: u8, e: nat) -> u8
    decreases e,
{
    if e == 0 {
        1
    } else {
        gf_mul(a, gf_pow(a, (e - 1) as nat))
    }
}

#[verifier::rlimit(100)]
proof fn lemma_mul_commutes(a: u8, b: u8)
    ensures
        gf_mul(a, b) == gf_mul(b, a),
{
    assert(gf_mul(a, b) == gf_mul(b, a)) by (bit_vector);
}

#[verifier::rlimit(100)]
proof fn lemma_mul_xtime(a: u8, b: u8)
    ensures
        gf_mul(xtime(a), b) == xtime(gf_mul(a, b)),
{
    assert(gf_mul(xtime(a), b) == xtime(gf_mul(a, b))) by (bit_vector);
}

proof fn lemma_mul_distributes(a: u8, b: u8, c: u8)
    ensures
        gf_mul(a, b ^ c) == gf_mul(a, b) ^ gf_mul(a, c),
{
    assert(gf_mul(a, b ^ c) == gf_mul(a, b) ^ gf_mul(a, c)) by (bit_vector);
}

proof fn lemma_mul_identity_zero(a: u8)
    ensures
        gf_mul(1, a) == a,
        gf_mul(a, 1) == a,
        gf_mul(0, a) == 0,
        gf_mul(a, 0) == 0,
{
    assert(gf_mul(1, a) == a && gf_mul(a, 1) == a && gf_mul(0, a) == 0 && gf_mul(a, 0) == 0) by (bit_vector);
}

/// Shifting left by one and reducing by 0x11D, on a wider integer, is `xtime`.
proof fn lemma_wide_xtime(x: u32)
    requires
        x < 256,
    ensures
        (if (x << 1u32) & 0x100u32 != 0 { (x << 1u32) ^ 0x11Du32 } else { x << 1u32 }) < 256,
        (if (x << 1u32) & 0x100u32 != 0 { (x << 1u32) ^ 0x11Du32 } else { x << 1u32 }) as u8
            == xtime(x as u8),
{
    assert(
        (if (x << 1u32) & 0x100u32 != 0 { (x << 1u32) ^ 0x11Du32 } else { x << 1u32 }) < 256
        && (if (x << 1u32) & 0x100u32 != 0 { (x << 1u32) ^ 0x11Du32 } else { x << 1u32 }) as u8
            == xtime(x as u8)) by (bit_vector)
        requires x < 256;
}

/// `2^k` repeats with period 255 and agrees with the exponent table.
proof fn lemma_exp_lit(k: nat)
    ensures
        gf_exp(k) == exp_lit((k % 255) as u8),
    decreases k,
{
    lemma_exp_table();
    if k > 0 {
        lemma_exp_lit((k - 1) as nat);
        let j = ((k - 1) as nat % 255) as u8;
        if j < 254 {
            assert(((j + 1) as u8) == (k % 255) as u8);
        } else {
            assert(k % 255 == 0);
        }
    }
}

/// Every `2^k` is non-zero, and `2^(k + 255) == 2^k`.
pub proof fn lemma_exp_period(k: nat)
    ensures
        gf_exp(k + 255) == gf_exp(k),
        gf_exp(k) != 0,
{
    lemma_exp_lit(k);
    lemma_exp_lit(k + 255);
    lemma_log_exp_table();
    assert((k + 255) % 255 == k % 255);
    assert(((k % 255) as u8) < 255);
}

/// `2^i * 2^j == 2^(i + j)`.
pub proof fn lemma_exp_mul(i: nat, j: nat)
    ensures
        gf_mul(gf_exp(i), gf_exp(j)) == gf_exp(i + j),
    decreases i,
{
    if i == 0 {
        lemma_mul_identity_zero(gf_exp(j));
    } else {
        lemma_exp_mul((i - 1) as nat, j);
        lemma_mul_xtime(gf_exp((i - 1) as nat), gf_exp(j));
        assert((i - 1) as nat + j + 1 == i + j);
    }
}

/// The discrete logarithm of an element: the exponent `k < 255` with `2^k == x`.
pub open spec fn gf_log(x: u8) -> nat {
    choose|k: nat| k < 255 && gf_exp(k) == x
}

/// Powers `2^k` for `k < 255` are pairwise distinct.
proof fn lemma_exp_injective(i: nat, j: nat)
    requires
        i < 255,
        j < 255,
        gf_exp(i) == gf_exp(j),
    ensures
        i == j,
{
    lemma_exp_lit(i);
    lemma_exp_lit(j);
    lemma_log_exp_table();
    assert(log_lit(exp_lit(i as u8)) == i as u8);
    assert(log_lit(exp_lit(j as u8)) == j as u8);
}

/// The logarithm table agrees with `gf_log` on non-zero elements.
proof fn lemma_log_lit(x: u8)
    requires
        x != 0,
    ensures
        gf_log(x) == log_lit(x) as nat,
        gf_log(x) < 255,
        gf_exp(gf_log(x)) == x,
{
    lemma_log_table();
    let k = log_lit(x) as nat;
    lemma_exp_lit(k);
    assert(k % 255 == k);
    assert(k < 255 && gf_exp(k) == x);
    let c = gf_log(x);
    assert(c < 255 && gf_exp(c) == x);
    lemma_exp_injective(c, k);
}

/// The logarithm of `2^i` is `i`, for `i < 255`.
pub proof fn lemma_log_of_exp(i: nat)
    requires
        i < 255,
    ensures
        gf_log(gf_exp(i)) == i,
{
    lemma_exp_period(i);
    lemma_log_lit(gf_exp(i));
    lemma_exp_injective(gf_log(gf_exp(i)), i);
}

/// Every non-zero element is `2^log(x)`, with `log(x) < 255`.
pub proof fn lemma_log(x: u8)
    requires
        x != 0,
    ensures
        gf_log(x) < 255,
        gf_exp(gf_log(x)) == x,
{
    lemma_log_lit(x);
}

/// `2^k == 2^(k mod 255)`.
pub proof fn lemma_exp_mod(k: nat)
    ensures
        gf_exp(k) == gf_exp(k % 255),
{
    lemma_exp_lit(k);
    lemma_exp_lit(k % 255);
    assert((k % 255) % 255 == k % 255);
}

/// Multiplication in GF(2^8) is commutative.
pub proof fn lemma_gf_mul_commutative(a: u8, b: u8)
    ensures
        gf_mul(a, b) == gf_mul(b, a),
{
    lemma_mul_commutes(a, b);
}

/// Multiplication in GF(2^8) is associative.
pub proof fn lemma_gf_mul_associative(a: u8, b: u8, c: u8)
    ensures
        gf_mul(gf_mul(a, b), c) == gf_mul(a, gf_mul(b, c)),
{
    lemma_mul_identity_zero(a);
    lemma_mul_identity_zero(b);
    lemma_mul_identity_zero(c);
    lemma_mul_identity_zero(gf_mul(a, b));
    lemma_mul_identity_zero(gf_mul(b, c));
    if a != 0 && b != 0 && c != 0 {
        lemma_log(a);
        lemma_log(b);
        lemma_log(c);
        let (i, j, k) = (gf_log(a), gf_log(b), gf_log(c));
        lemma_exp_mul(i, j);
        lemma_exp_mul(j, k);
        lemma_exp_mul(i + j, k);
        lemma_exp_mul(i, j + k);
        assert(i + j + k == i + (j + k));
    }
}

/// Multiplication distributes over addition (xor) in GF(2^8).
pub proof fn lemma_gf_mul_distributive(a: u8, b: u8, c: u8)
    ensures
        gf_mul(a, b ^ c) == gf_mul(a, b) ^ gf_mul(a, c),
        gf_mul(b ^ c, a) == gf_mul(b, a) ^ gf_mul(c, a),
{
    lemma_mul_distributes(a, b, c);
    lemma_mul_commutes(a, b ^ c);
    lemma_mul_commutes(a, b);
    lemma_mul_commutes(a, c);
}

/// 1 is the multiplicative identity and 0 absorbs.
pub proof fn lemma_gf_mul_identity(a: u8)
    ensures
        gf_mul(1, a) == a,
        gf_mul(a, 1) == a,
        gf_mul(0, a) == 0,
        gf_mul(a, 0) == 0,
{
    lemma_mul_identity_zero(a);
}

/// The product of non-zero elements is non-zero.
pub proof fn lemma_gf_mul_nonzero(a: u8, b: u8)
    requires
        a != 0,
        b != 0,
    ensures
        gf_mul(a, b) != 0,
{
    lemma_log(a);
    lemma_log(b);
    lemma_exp_mul(gf_log(a), gf_log(b));
    lemma_exp_period(gf_log(a) + gf_log(b));
}

/// Cancellation: multiplying by a non-zero element is injective.
pub proof fn lemma_gf_mul_cancel(x: u8, y: u8, b: u8)
    requires
        b != 0,
        gf_mul(x, b) == gf_mul(y, b),
    ensures
        x == y,
{
    lemma_log(b);
    let lb = gf_log(b);
    let binv = gf_exp((255 - lb) as nat);
    lemma_exp_mul(lb, (255 - lb) as nat);
    lemma_exp_lit(255);
    lemma_exp_table();
    assert(gf_mul(b, binv) == 1);
    lemma_gf_mul_associative(x, b, binv);
    lemma_gf_mul_associative(y, b, binv);
    lemma_mul_identity_zero(x);
    lemma_mul_identity_zero(y);
}

/// `a^e == 2^(log(a) * e)` for non-zero `a`.
pub proof fn lemma_pow_log(a: u8, e: nat)
    requires
        a != 0,
    ensures
        gf_pow(a, e) == gf_exp(gf_log(a) * e),
    decreases e,
{
    lemma_log(a);
    if e == 0 {
        assert(gf_log(a) * 0 == 0);
    } else {
        lemma_pow_log(a, (e - 1) as nat);
        lemma_exp_mul(gf_log(a), gf_log(a) * (e - 1) as nat);
        assert(gf_log(a) + gf_log(a) * (e - 1) as nat == gf_log(a) * e) by (nonlinear_arith)
            requires e > 0;
    }
}

/// Every power of 1 is 1.
pub proof fn lemma_pow_one(e: nat)
    ensures
        gf_pow(1, e) == 1,
    decreases e,
{
    if e > 0 {
        lemma_pow_one((e - 1) as nat);
        lemma_gf_mul_identity(1);
    }
}

/// `2^8` in the field is `0x1D`: the primitive polynomial without its top bit.
pub proof fn lemma_two_to_the_eighth()
    ensures
        gf_pow(2, 8) == 0x1D,
{
    reveal_with_fuel(gf_pow, 9);
    assert(gf_mul(2, 1) == 2) by (bit_vector);
    assert(gf_mul(2, 2) == 4) by (bit_vector);
    assert(gf_mul(2, 4) == 8) by (bit_vector);
    assert(gf_mul(2, 8) == 16) by (bit_vector);
    assert(gf_mul(2, 16) == 32) by (bit_vector);
    assert(gf_mul(2, 32) == 64) by (bit_vector);
    assert(gf_mul(2, 64) == 128) by (bit_vector);
    assert(gf_mul(2, 128) == 0x1D) by (bit_vector);
}

/// Why an operation of the erasure layer was refused.
#[derive(Debug, Clone, Copy, PartialEq, Eq, Structural)]
pub enum ErasureError {
    /// Division by zero in the field.
    DivisionByZero,
    /// Zero has no multiplicative inverse.
    InverseOfZero,
    /// The data or parity shard count is zero.
    ZeroShards,
    /// More than 255 shards in total.
    TooManyShards,
    /// Encoding empty data.
    EmptyData,
    /// Fewer available shards than data shards.
    InsufficientShards,
    /// Fewer usable shards than data shards among those selected.
    NotEnoughValidShards,
    /// The matrix to invert is not square.
    NotSquare,
    /// The selected shards do not determine the data.
    NotInvertible,
}

/// The logarithm table of GF(2^8): `log(x)` for non-zero `x`, 0 for 0.
pub open spec fn gf_log_table() -> Seq<u8> {
    Seq::new(256, |x: int| if x == 0 { 0u8 } else { gf_log(x as u8) as u8 })
}

/// The exponential table of GF(2^8): `2^k` for `k < 510`, then two zeros.
pub open spec fn gf_exp_table() -> Seq<u8> {
    Seq::new(512, |k: int| if k < 510 { gf_exp(k as nat) } else { 0u8 })
}

/// Galois field GF(2^8) with logarithm and exponential tables.
#[derive(Debug)]
pub struct GaloisField {
    /// Field size.
    size: usize,
    /// Primitive polynomial.
    primitive_poly: u32,
    /// `log_table[x] == log(x)` for non-zero `x`.
    log_table: Vec<u8>,
    /// 512 entries: `exp_table[k] == 2^k` for `k < 510`, then two zeros.
    exp_table: Vec<u8>,
}

impl GaloisField {
    #[verifier::type_invariant]
    closed spec fn wf(self) -> bool {
        &&& self.size == 256
        &&& self.primitive_poly == 0x11D
        &&& self.log_table@.len() == 256
        &&& forall|x: u8| x != 0 ==> #[trigger] self.log_table@[x as int] as nat == gf_log(x)
        &&& self.exp_table@.len() == 512
        &&& forall|k: int| 0 <= k < 510 ==> #[trigger] self.exp_table@[k] == gf_exp(k as nat)
    }

    /// Number of elements of the field.
    pub closed spec fn spec_size(&self) -> usize {
        self.size
    }

    /// The primitive polynomial, as a bit pattern.
    pub closed spec fn spec_primitive_poly(&self) -> u32 {
        self.primitive_poly
    }

    /// The logarithm table.
    pub closed spec fn spec_log_table(&self) -> Seq<u8> {
        self.log_table@
    }

    /// The exponential table.
    pub closed spec fn spec_exp_table(&self) -> Seq<u8> {
        self.exp_table@
    }

    /// Build the field GF(2^8) modulo x^8 + x^4 + x^3 + x^2 + 1: 256
    /// elements, primitive polynomial 0x11D, the logarithm table
    /// `gf_log_table()` and the exponential table `gf_exp_table()`.
    pub fn new() -> (f: GaloisField)
        ensures
            f.spec_size() == 256,
            f.spec_primitive_poly() == 0x11D,
            f.spec_log_table() == gf_log_table(),
            f.spec_exp_table() == gf_exp_table(),
    {
        let size: usize = 256;
        let primitive_poly: u32 = 0x11D;
        let mut log_table: Vec<u8> = vec![0u8; size];
        let mut exp_table: Vec<u8> = vec![0u8; size * 2];
        let mut x: u32 = 1;
        let mut i: usize = 0;
        while i < 255
            invariant
                i <= 255,
                x < 256,
                x as u8 == gf_exp(i as nat),
                log_table@.len() == 256,
                exp_table@.len() == 512,
                log_table@[0] == 0,
                exp_table@[510] == 0,
                exp_table@[511] == 0,
                forall|k: int| 0 <= k < i ==> #[trigger] exp_table@[k] == gf_exp(k as nat),
                forall|k: int| 0 <= k < i ==> #[trigger] exp_table@[k + 255] == gf_exp(k as nat),
                forall|v: u8| v != 0 && gf_log(v) < i ==> #[trigger] log_table@[v as int] as nat == gf_log(v),
            decreases 255 - i,
        {
            proof {
                lemma_exp_period(i as nat);
                lemma_log_of_exp(i as nat);
                lemma_wide_xtime(x);
            }
            let ghost xv = x as u8;
            exp_table.set(i, x as u8);
            exp_table.set(i + 255, x as u8);
            log_table.set(x as usize, i as u8);
            assert forall|v: u8| v != 0 && gf_log(v) < i + 1 implies #[trigger] log_table@[v as int] as nat == gf_log(v) by {
                lemma_log(v);
                if v != xv {
                    assert(gf_log(v) != i);
                }
            }
            let y: u32 = x << 1u32;
            x = if y & 0x100u32 != 0 { y ^ 0x11Du32 } else { y };
            i += 1;
        }
        assert forall|k: int| 0 <= k < 510 implies #[trigger] exp_table@[k] == gf_exp(k as nat) by {
            if k >= 255 {
                lemma_exp_period((k - 255) as nat);
                assert(exp_table@[(k - 255) + 255] == gf_exp((k - 255) as nat));
            }
        }
        assert forall|v: u8| v != 0 implies #[trigger] log_table@[v as int] as nat == gf_log(v) by {
            lemma_log(v);
        }
        assert forall|x: int| 0 <= x < 256 implies #[trigger] log_table@[x] == gf_log_table()[x] by {
            if x != 0 {
                let v = x as u8;
                assert(log_table@[v as int] as nat == gf_log(v));
                lemma_log(v);
            }
        }
        assert(log_table@ =~= gf_log_table());
        assert forall|k: int| 0 <= k < 512 implies #[trigger] exp_table@[k] == gf_exp_table()[k] by {
            if k < 510 {
                assert(exp_table@[k] == gf_exp(k as nat));
            }
        }
        assert(exp_table@ =~= gf_exp_table());
        GaloisField { size, primitive_poly, log_table, exp_table }
    }

    /// Multiply two elements of the field.
    pub fn multiply(&self, a: u8, b: u8) -> (r: u8)
        ensures
            r == gf_mul(a, b),
    {
        proof { use_type_invariant(self); lemma_gf_mul_identity(a); lemma_gf_mul_identity(b); }
        if a == 0 || b == 0 {
            return 0;
        }
        let log_a = self.log_table[a as usize] as usize;
        let log_b = self.log_table[b as usize] as usize;
        proof {
            lemma_log(a);
            lemma_log(b);
            lemma_exp_mul(gf_log(a), gf_log(b));
        }
        self.exp_table[log_a + log_b]
    }

    /// Divide `a` by `b`: the element `r` with `r * b == a`.
    pub fn divide(&self, a: u8, b: u8) -> (res: Result<u8, ErasureError>)
        ensures
            b == 0 ==> res == Err::<u8, ErasureError>(ErasureError::DivisionByZero),
            b != 0 ==> (res matches Ok(r) && gf_mul(r, b) == a),
    {
        proof { use_type_invariant(self); lemma_gf_mul_identity(b); }
        if b == 0 {
            return Err(ErasureError::DivisionByZero);
        }
        if a == 0 {
            return Ok(0);
        }
        let log_a = self.log_table[a as usize] as usize;
        let log_b = self.log_table[b as usize] as usize;
        let log_result = (log_a + 255 - log_b) % 255;
        proof {
            lemma_log(a);
            lemma_log(b);
            lemma_exp_mul(log_result as nat, gf_log(b));
            if log_a >= log_b {
                assert(log_result == log_a - log_b);
            } else {
                assert(log_result == log_a + 255 - log_b);
                lemma_exp_period(gf_log(a));
            }
        }
        Ok(self.exp_table[log_result])
    }

    /// `base^exp`, where a zero base gives zero.
    pub fn power(&self, base: u8, exp: u8) -> (r: u8)
        ensures
            r == (if base == 0 { 0 } else { gf_pow(base, exp as nat) }),
    {
        proof { use_type_invariant(self); }
        if base == 0 {
            return 0;
        }
        if exp == 0 {
            return 1;
        }
        let log_base = self.log_table[base as usize] as usize;
        proof {
            lemma_log(base);
            lemma_pow_log(base, exp as nat);
            lemma_exp_mod(gf_log(base) * exp as nat);
            assert(log_base * (exp as usize) <= 254 * 255) by (nonlinear_arith)
                requires log_base < 255;
        }
        let log_result = (log_base * exp as usize) % 255;
        self.exp_table[log_result]
    }

    /// The multiplicative inverse of `a`.
    pub fn inverse(&self, a: u8) -> (res: Result<u8, ErasureError>)
        ensures
            a == 0 ==> res == Err::<u8, ErasureError>(ErasureError::InverseOfZero),
            a != 0 ==> (res matches Ok(r) && gf_mul(a, r) == 1),
    {
        proof { use_type_invariant(self); }
        if a == 0 {
            return Err(ErasureError::InverseOfZero);
        }
        let log_a = self.log_table[a as usize] as usize;
        let log_result = (255 - log_a) % 255;
        proof {
            lemma_log(a);
            lemma_exp_mul(gf_log(a), log_result as nat);
            lemma_exp_mod(gf_log(a) + log_result as nat);
            assert((gf_log(a) + log_result as nat) % 255 == 0);
        }
        Ok(self.exp_table[log_result])
    }

    /// Add two elements (xor).
    pub fn add(&self, a: u8, b: u8) -> (r: u8)
        ensures
            r == a ^ b,
    {
        a ^ b
    }

    /// Subtract two elements (xor, as addition).
    pub fn subtract(&self, a: u8, b: u8) -> (r: u8)
        ensures
            r == a ^ b,
    {
        a ^ b
    }
}

} // verus!

//! The field GF(2^16): additive (XOR) and logarithmic (multiplier) forms,
//! and the lookup tables that every codec operation reads.

use vstd::prelude::*;

verus! {

/// Bits per field symbol.
pub const FIELD_BITS: usize = 16;

/// Number of field elements.
pub const FIELD_SIZE: usize = 65536;

/// All-ones element; also the sentinel "logarithm of zero".
pub const ONEMASK: u16 = 65535;

/// Tail of the irreducible polynomial x^16 + x^5 + x^3 + x^2 + 1.
pub const GENERATOR: u16 = 0x2D;

/// A field element in additive form: a 16-bit pattern, added by XOR.
#[derive(Clone, Copy, Debug, PartialEq, Eq, Structural)]
pub struct Additive(pub u16);

/// A field element in multiplier form: the discrete logarithm of a
/// non-zero element, with `ONEMASK` leaking in as the logarithm of zero.
#[derive(Clone, Copy, Debug, PartialEq, Eq, Structural)]
pub struct Logarithm(pub u16);

/// The mathematical content of [`Tables`]: each table as a sequence.
pub struct TablesView {
    pub log: Seq<u16>,
    pub exp: Seq<u16>,
    pub skew: Seq<u16>,
    pub b: Seq<u16>,
    pub log_walsh: Seq<u16>,
}

impl TablesView {
    /// Every table has its fixed size.
    pub open spec fn wf_len(self) -> bool {
        &&& self.log.len() == 65536
        &&& self.exp.len() == 65536
        &&& self.skew.len() == 65535
        &&& self.b.len() == 32768
        &&& self.log_walsh.len() == 65536
    }

    /// Well-formed tables: sizes, the exp/log round trips, the
    /// wrap-around entry `exp[ONEMASK] == exp[0]`, the `ONEMASK` sentinel
    /// as the logarithm of zero, the formal-derivative multipliers held
    /// below `ONEMASK` with a zero first entry, and the error-locator
    /// table as the Walsh transform of the log table with its zero entry
    /// cleared.
    pub open spec fn wf(self) -> bool {
        &&& self.wf_len()
        &&& forall|a: int|
            1 <= a < 65536 ==> self.exp[(#[trigger] self.log[a]) as int] == a
        &&& forall|l: int|
            0 <= l < 65535 ==> self.log[(#[trigger] self.exp[l]) as int] == l
        &&& self.exp[65535] == self.exp[0]
        &&& self.log[0] == 65535
        &&& self.b[0] == 0
        &&& forall|j: int| 0 <= j < 32768 ==> (#[trigger] self.b[j]) < 65535
        &&& self.log_walsh == crate::transforms::walsh_spec(self.log.update(0, 0u16), 65536)
    }
}

/// The five lookup tables, computed once and then only read.
pub struct Tables {
    pub log: Vec<u16>,
    pub exp: Vec<u16>,
    pub skew: Vec<u16>,
    pub b: Vec<u16>,
    pub log_walsh: Vec<u16>,
}

impl View for Tables {
    type V = TablesView;

    open spec fn view(&self) -> TablesView {
        TablesView {
            log: self.log@,
            exp: self.exp@,
            skew: self.skew@,
            b: self.b@,
            log_walsh: self.log_walsh@,
        }
    }
}

/// Folds a 17-bit sum of logarithms to the table index that represents it
/// modulo `ONEMASK`: one pass of `(x & ONEMASK) + (x >> 16)`.
pub open spec fn fold_offset(log: int) -> int {
    log % 65536 + log / 65536
}

/// What multiplication by table lookup returns: `0` for a zero operand,
/// otherwise `exp[(log[a] + m) mod ONEMASK]` via the one-pass fold.
pub open spec fn mul_spec(t: TablesView, a: u16, m: u16) -> u16 {
    if a == 0 {
        0u16
    } else {
        t.exp[fold_offset(t.log[a as int] as int + m as int)]
    }
}

/// Multiplication with the skew sentinel: `ONEMASK` means "multiply by the
/// zero twist", which the transforms skip, leaving the element untouched.
pub open spec fn mul_or_zero(t: TablesView, a: u16, m: u16) -> u16 {
    if m == 65535 {
        0u16
    } else {
        mul_spec(t, a, m)
    }
}

/// The folded offset of a sum of two 16-bit logarithms stays a valid
/// table index.
pub proof fn lemma_fold_offset_range(log: int)
    requires
        0 <= log <= 131070,
    ensures
        0 <= fold_offset(log) < 65536,
{
}

/// `mul` on raw symbols: `a` times the element whose logarithm is `m`.
pub(crate) fn mul_elt(t: &Tables, a: u16, m: u16) -> (r: u16)
    requires
        t@.wf_len(),
    ensures
        r == mul_spec(t@, a, m),
{
    if a == 0 {
        return 0;
    }
    let log: u32 = t.log[a as usize] as u32 + m as u32;
    proof {
        assert(log & 0xFFFF == log % 65536 && log >> 16 == log / 65536) by (bit_vector);
        lemma_fold_offset_range(log as int);
    }
    let offset: u32 = (log & 0xFFFF) + (log >> 16);
    t.exp[offset as usize]
}

impl Additive {
    /// Field addition is XOR of the bit patterns.
    pub fn add(self, other: Additive) -> (r: Additive)
        ensures
            r.0 == self.0 ^ other.0,
    {
        Additive(self.0 ^ other.0)
    }

    /// The multiplier (logarithm) form of this element.  Leaky for zero,
    /// whose entry is the sentinel `ONEMASK`; callers guard on `a == 0`.
    pub fn to_multiplier(self, t: &Tables) -> (r: Logarithm)
        requires
            t@.wf_len(),
        ensures
            r.0 == t@.log[self.0 as int],
    {
        Logarithm(t.log[self.0 as usize])
    }

    /// Multiply by a constant in multiplier form.
    pub fn mul(self, t: &Tables, other: Logarithm) -> (r: Additive)
        requires
            t@.wf_len(),
        ensures
            r.0 == mul_spec(t@, self.0, other.0),
    {
        Additive(mul_elt(t, self.0, other.0))
    }

    /// Multiply every element of a buffer by one constant in multiplier form.
    pub fn mul_assign_slice(t: &Tables, data: &mut Vec<Additive>, other: Logarithm)
        requires
            t@.wf_len(),
        ensures
            final(data)@.len() == old(data)@.len(),
            forall|i: int|
                0 <= i < old(data)@.len() ==> (#[trigger] final(data)@[i]).0 == mul_spec(
                    t@,
                    old(data)@[i].0,
                    other.0,
                ),
    {
        let mut i: usize = 0;
        while i < data.len()
            invariant
                i <= data@.len(),
                data@.len() == old(data)@.len(),
                forall|j: int|
                    0 <= j < i ==> (#[trigger] data@[j]).0 == mul_spec(
                        t@,
                        old(data)@[j].0,
                        other.0,
                    ),
                forall|j: int| i <= j < data@.len() ==> data@[j] == old(data)@[j],
                t@.wf_len(),
            decreases data@.len() - i,
        {
            let v = Additive(mul_elt(t, data[i].0, other.0));
            data.set(i, v);
            i = i + 1;
        }
    }
}

impl Logarithm {
    /// Widen to the 32-bit form used for sums of logarithms.
    pub fn to_wide(self) -> (r: u32)
        ensures
            r == self.0 as u32,
    {
        self.0 as u32
    }

    /// Narrow a 32-bit value back; keeps the low 16 bits.
    pub fn from_wide(x: u32) -> (r: Logarithm)
        ensures
            r.0 == x & 0xFFFF,
    {
        proof {
            assert(x & 0xFFFF < 65536) by (bit_vector);
        }
        Logarithm((x & 0xFFFF) as u16)
    }
}

/// Law: for every non-zero additive element `a`, `exp[log[a]] == a`.
pub proof fn lemma_exp_of_log(t: TablesView, a: u16)
    requires
        t.wf(),
        1 <= a,
    ensures
        t.exp[t.log[a as int] as int] == a,
{
}

/// Law: for every logarithm `l` below `ONEMASK`, `log[exp[l]] == l`.
pub proof fn lemma_log_of_exp(t: TablesView, l: u16)
    requires
        t.wf(),
        l < 65535,
    ensures
        t.log[t.exp[l as int] as int] == l,
{
}

/// Law: field addition is commutative and every element is self-inverse.
pub proof fn lemma_add_laws(a: Additive, b: Additive)
    ensures
        a.0 ^ b.0 == b.0 ^ a.0,
        a.0 ^ a.0 == 0,
{
    let x = a.0;
    let y = b.0;
    assert(x ^ y == y ^ x) by (bit_vector);
    assert(x ^ x == 0) by (bit_vector);
}

} // verus!

verus! {

/// The carry-less (GF(2)) product of two bit polynomials, low bit of `b`
/// first.
pub open spec fn clmul_spec(a: u64, b: u64) -> u64
    decreases b,
{
    if b == 0 {
        0u64
    } else {
        (if b % 2 == 1 {
            a
        } else {
            0u64
        }) ^ clmul_spec((a * 2) as u64, (b / 2) as u64)
    }
}

/// Reduction of a 31-bit polynomial by x^16 + x^5 + x^3 + x^2 + 1, one
/// leading bit at a time from degree `d` down to 16.
pub open spec fn polyred_spec(x: u64, d: u64) -> u64
    decreases d,
{
    if d <= 15 {
        x
    } else {
        polyred_spec(
            if (x >> d) & 1 == 1 {
                x ^ ((0x1002Du64) << (d - 16) as u64)
            } else {
                x
            },
            (d - 1) as u64,
        )
    }
}

/// Multiplication in GF(2^16) defined directly on bit polynomials: the
/// carry-less product reduced by the generator polynomial.
pub open spec fn gf_mul_bitpoly_spec(a: u16, b: u16) -> u16 {
    polyred_spec(clmul_spec(a as u64, b as u64), 30) as u16
}

/// Bit-polynomial multiplication with reduction by the generator; the
/// table-free reference that the tests hold [`Additive::mul`] against.
#[verifier::loop_isolation(false)]
pub fn gf_mul_bitpoly_reduced(a: u16, b: u16) -> (r: u16)
    ensures
        r == gf_mul_bitpoly_spec(a, b),
{
    let mut acc: u64 = 0;
    let mut aa: u64 = a as u64;
    let mut bb: u64 = b as u64;
    let ghost mut e: nat = 0;
    proof {
        vstd::arithmetic::power2::lemma2_to64();
        lemma_xor_zero_u64(clmul_spec(a as u64, b as u64));
    }
    while bb > 0
        invariant
            e <= 16,
            aa == a as int * vstd::arithmetic::power2::pow2(e),
            bb == b as int / vstd::arithmetic::power2::pow2(e) as int,
            acc < 0x80000000,
            (clmul_spec(aa, bb) ^ acc) == clmul_spec(a as u64, b as u64),
        decreases bb,
    {
        let ghost p = vstd::arithmetic::power2::pow2(e) as int;
        proof {
            vstd::arithmetic::power2::lemma_pow2_pos(e);
            assert(p <= b as int) by {
                vstd::arithmetic::div_mod::lemma_fundamental_div_mod(b as int, p);
                assert(b as int / p >= 1);
                vstd::arithmetic::mul::lemma_mul_inequality(1, b as int / p, p);
                vstd::arithmetic::mul::lemma_mul_is_commutative(b as int / p, p);
            }
            assert(e <= 15) by {
                if e >= 16 {
                    vstd::arithmetic::power2::lemma_pow2_strictly_increases(15, e);
                }
            }
            assert(aa < 0x80000000) by {
                vstd::arithmetic::mul::lemma_mul_inequality(a as int, 65535, p);
                vstd::arithmetic::mul::lemma_mul_is_commutative(a as int, p);
                vstd::arithmetic::mul::lemma_mul_is_commutative(65535, p);
                vstd::arithmetic::mul::lemma_mul_inequality(p, 32768, 65535);
                vstd::arithmetic::mul::lemma_mul_is_commutative(p, 65535);
                if e <= 14 {
                    vstd::arithmetic::power2::lemma_pow2_strictly_increases(e, 15);
                }
            }
            let x = clmul_spec(aa, bb);
            let y = clmul_spec((aa * 2) as u64, (bb / 2) as u64);
            assert(x == ((if bb % 2 == 1 {
                aa
            } else {
                0u64
            }) ^ y));
            lemma_xor_shuffle((if bb % 2 == 1 {
                aa
            } else {
                0u64
            }), y, acc);
            lemma_xor_zero_u64(acc);
        }
        if bb % 2 == 1 {
            let ghost acc0 = acc;
            acc = acc ^ aa;
            proof {
                lemma_xor_u64_small(acc0, aa);
            }
        }
        proof {
            vstd::arithmetic::power2::lemma_pow2_unfold(e + 1);
            vstd::arithmetic::div_mod::lemma_div_denominator(b as int, p, 2);
            vstd::arithmetic::mul::lemma_mul_is_commutative(p, 2);
            vstd::arithmetic::mul::lemma_mul_is_distributive_add_other_way(
                vstd::arithmetic::power2::pow2(e + 1) as int,
                0,
                1,
            );
            assert(a as int * vstd::arithmetic::power2::pow2(e + 1) == aa * 2) by {
                vstd::arithmetic::mul::lemma_mul_is_associative(a as int, p, 2);
            }
            e = e + 1;
        }
        aa = aa * 2;
        bb = bb / 2;
    }
    proof {
        lemma_xor_zero_u64(acc);
    }
    let mut x: u64 = acc;
    let mut d: u64 = 30;
    proof {
        assert(acc < 0x80000000 ==> acc < (1u64 << 31u64)) by (bit_vector);
        lemma_polyred_bound(x, 30);
    }
    while d > 15
        invariant
            x < 0x100000000,
            15 <= d <= 30,
            polyred_spec(x, d) == polyred_spec(acc, 30),
            polyred_spec(x, d) < 0x10000,
        decreases d,
    {
        proof {
            assert(((0x1002Du64) << ((d - 16) as u64)) < 0x100000000 && (x ^ ((0x1002Du64) << ((d
                - 16) as u64))) < 0x100000000) by (bit_vector)
                requires
                    16 <= d <= 30 && x < 0x100000000,
            ;
        }
        if (x >> d) & 1 == 1 {
            x = x ^ (0x1002Du64 << (d - 16));
        }
        d = d - 1;
    }
    proof {
        assert(x < 0x10000);
    }
    x as u16
}

/// XOR over `u64` shuffles, which lets an accumulator absorb terms.
proof fn lemma_xor_shuffle(p: u64, q: u64, r: u64)
    ensures
        ((p ^ q) ^ r) == (q ^ (r ^ p)),
{
    assert(((p ^ q) ^ r) == (q ^ (r ^ p))) by (bit_vector);
}

/// XOR of two values below 2^31 stays below 2^31.
proof fn lemma_xor_u64_small(p: u64, q: u64)
    requires
        p < 0x80000000,
        q < 0x80000000,
    ensures
        (p ^ q) < 0x80000000,
{
    assert(p < 0x80000000 && q < 0x80000000 ==> (p ^ q) < 0x80000000) by (bit_vector);
}

/// XOR with zero on the left is the identity.
proof fn lemma_xor_zero_u64(p: u64)
    ensures
        (0u64 ^ p) == p,
        (p ^ 0u64) == p,
{
    assert((0u64 ^ p) == p && (p ^ 0u64) == p) by (bit_vector);
}

/// The reduction run leaves a value below 2^16 whenever its input fits in
/// `d + 1` bits.
proof fn lemma_polyred_bound(x: u64, d: u64)
    requires
        15 <= d <= 30,
        x < (1u64 << ((d + 1) as u64)),
    ensures
        polyred_spec(x, d) < 0x10000,
    decreases d,
{
    if d <= 15 {
        assert(x < (1u64 << 16u64) ==> x < 0x10000) by (bit_vector);
    } else {
        let x2 = if (x >> d) & 1 == 1 {
            x ^ ((0x1002Du64) << (d - 16) as u64)
        } else {
            x
        };
        assert(x2 < (1u64 << d)) by (bit_vector)
            requires
                16 <= d <= 30 && x < (1u64 << ((d + 1) as u64)) && x2 == (if (x >> d) & 1 == 1 {
                    x ^ ((0x1002Du64) << (d - 16) as u64)
                } else {
                    x
                }),
        ;
        lemma_polyred_bound(x2, (d - 1) as u64);
    }
}

} // verus!

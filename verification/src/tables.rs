//! One-time construction of the lookup tables: the log/exp pair from the
//! polynomial-basis generator and the Cantor basis, the skew factors of the
//! additive FFT, the formal-derivative multipliers and the Walsh transform
//! of the log table.
//!
//! The construction itself is ordinary table bootstrapping; whether the
//! generator really is primitive and the basis change invertible is
//! arithmetic beyond the verifier, so the builder checks the log/exp round
//! trips afterwards and reports the outcome.  With the fixed constants the
//! check always passes.

use vstd::prelude::*;
use vstd::arithmetic::power2::pow2;
use vstd::arithmetic::power2::lemma2_to64;
use vstd::arithmetic::div_mod::lemma_small_mod;
use vstd::arithmetic::div_mod::lemma_mod_add_multiples_vanish;
use vstd::bits::lemma_usize_shl_is_mul;
use crate::f2e16::{Tables, TablesView};
use crate::transforms::{walsh, log2s, lemma_pow2_divides};

verus! {

/// A vector of `n` zero symbols.
pub(crate) fn zero_vec(n: usize) -> (v: Vec<u16>)
    ensures
        v@.len() == n,
        forall|i: int| 0 <= i < n ==> v@[i] == 0u16,
{
    let mut v: Vec<u16> = Vec::new();
    while v.len() < n
        invariant
            v@.len() <= n,
            forall|i: int| 0 <= i < v@.len() ==> v@[i] == 0u16,
        decreases n - v@.len(),
    {
        v.push(0);
    }
    v
}

/// What bootstrap-time multiplication returns over a given log/exp pair.
pub open spec fn mul_boot_spec(log: Seq<u16>, exp: Seq<u16>, a: u16, b: u16) -> u16 {
    if a == 0 {
        0u16
    } else {
        exp[crate::f2e16::fold_offset(log[a as int] as int + b as int)]
    }
}

/// Bootstrap-time multiplication `a * exp[b]`, reading the log/exp pair
/// before the [`Tables`] value exists; the codec proper goes through
/// [`crate::f2e16::mul_spec`]-specified multiplication instead.
fn mul_boot(log: &Vec<u16>, exp: &Vec<u16>, a: u16, b: u16) -> (r: u16)
    requires
        log@.len() == 65536,
        exp@.len() == 65536,
    ensures
        r == mul_boot_spec(log@, exp@, a, b),
{
    if a == 0 {
        return 0;
    }
    let s: u32 = log[a as usize] as u32 + b as u32;
    proof {
        assert(s & 0xFFFF == s % 65536 && s >> 16 == s / 65536) by (bit_vector);
        crate::f2e16::lemma_fold_offset_range(s as int);
    }
    let offset: u32 = (s & 0xFFFF) + (s >> 16);
    exp[offset as usize]
}

/// `1usize << e` is `pow2(e)` for the exponents the builder uses.
proof fn lemma_shl_pow2(e: usize)
    requires
        e < 17,
    ensures
        (1usize << e) as int == pow2(e as nat) as int,
        1 <= (1usize << e) <= 65536 + 65536,
{
    lemma2_to64();
    lemma_usize_shl_is_mul(1, e as usize);
}


/// The Cantor basis constant at index `j`.
pub open spec fn cantor_base16(j: int) -> u16 {
    if j == 0 {
        1
    } else if j == 1 {
        44234
    } else if j == 2 {
        15374
    } else if j == 3 {
        5694
    } else if j == 4 {
        50562
    } else if j == 5 {
        60718
    } else if j == 6 {
        37196
    } else if j == 7 {
        16402
    } else if j == 8 {
        27800
    } else if j == 9 {
        4312
    } else if j == 10 {
        27250
    } else if j == 11 {
        47360
    } else if j == 12 {
        64952
    } else if j == 13 {
        64308
    } else if j == 14 {
        65336
    } else {
        39198
    }
}

/// One step of the generator's linear feedback register.
pub open spec fn lfsr_step_spec(s: u32) -> u32 {
    if (s >> 15) != 0 {
        ((s & 0x7FFF) << 1) ^ 0x2D
    } else {
        s << 1
    }
}

/// The register's state after `i` steps from one.
pub open spec fn lfsr_state_spec(i: int) -> u32
    decreases i,
{
    if i <= 0 {
        1
    } else {
        lfsr_step_spec(lfsr_state_spec(i - 1))
    }
}

/// The polynomial-basis logarithms after `i` register steps: entry
/// `state(j)` holds `j` for every step taken so far.
pub open spec fn exp_phase1_spec(i: int) -> Seq<u16>
    decreases i,
{
    if i <= 0 {
        Seq::new(65536, |x: int| 0u16)
    } else {
        exp_phase1_spec(i - 1).update(lfsr_state_spec(i - 1) as int, (i - 1) as u16)
    }
}

/// The finished first table: all register steps taken and the zero entry
/// set to the sentinel.
pub open spec fn exp_lfsr_spec() -> Seq<u16> {
    exp_phase1_spec(65535).update(0, 65535u16)
}

/// One pass of the Cantor basis change: the upper copy of each size-`w`
/// block takes the lower copy XOR the basis constant.
pub open spec fn cantor_pass_spec(s: Seq<u16>, bi: int) -> Seq<u16> {
    let w = pow2(bi as nat) as int;
    Seq::new(
        65536,
        |idx: int|
            if w <= idx < 2 * w {
                s[idx - w] ^ cantor_base16(bi)
            } else {
                s[idx]
            },
    )
}

/// The Cantor coordinate map after `bi` passes: index bits pick basis
/// constants to XOR.
pub open spec fn cantor_map_spec(bi: int) -> Seq<u16>
    decreases bi,
{
    if bi <= 0 {
        Seq::new(65536, |x: int| 0u16)
    } else {
        cantor_pass_spec(cantor_map_spec(bi - 1), bi - 1)
    }
}

/// The finished log table: the polynomial-basis logarithm of the element
/// whose Cantor coordinates are the index.
pub open spec fn log_table_spec() -> Seq<u16> {
    Seq::new(65536, |i: int| exp_lfsr_spec()[cantor_map_spec(16)[i] as int])
}

/// The inversion of the log table after `i` entries, over the
/// first-phase table.
pub open spec fn exp_phase4_spec(i: int) -> Seq<u16>
    decreases i,
{
    if i <= 0 {
        exp_lfsr_spec()
    } else {
        exp_phase4_spec(i - 1).update(log_table_spec()[i - 1] as int, (i - 1) as u16)
    }
}

/// The finished exp table: the log table inverted, with the wrap-around
/// entry tied to entry zero.
pub open spec fn exp_table_spec() -> Seq<u16> {
    exp_phase4_spec(65536).update(65535, exp_phase4_spec(65536)[0])
}

/// The two round trips that make a log/exp pair usable.
pub open spec fn logexp_ok(log: Seq<u16>, exp: Seq<u16>) -> bool {
    &&& forall|a: int| 1 <= a < 65536 ==> exp[(#[trigger] log[a]) as int] == a
    &&& forall|l: int| 0 <= l < 65535 ==> log[(#[trigger] exp[l]) as int] == l
}

/// The seed values of the skew recurrence: the basis elements above one.
pub open spec fn base_init_spec() -> Seq<u16> {
    Seq::new(15, |i: int| pow2((i + 1) as nat) as u16)
}

/// One fan-out pass of the skew fill at block size `blk`: positions
/// `blk + j` for `j` congruent to `hm - 1` modulo `step` take the entry
/// at `j` XOR the running basis value.
pub open spec fn skew_pass_spec(s: Seq<u16>, bv: u16, hm: int, step: int, blk: int) -> Seq<u16> {
    Seq::new(
        s.len(),
        |x: int|
            if blk <= x < 2 * blk && (x - blk) % step == hm - 1 {
                s[x - blk] ^ bv
            } else {
                s[x]
            },
    )
}

/// The fan-out passes of one skew round, for block sizes `2^(m+1)` up to
/// `2^fi`.
pub open spec fn skew_fi_spec(s: Seq<u16>, bv: Seq<u16>, m: int, fi: int) -> Seq<u16>
    decreases fi - m when m <= fi
{
    if fi <= m {
        s
    } else {
        skew_pass_spec(
            skew_fi_spec(s, bv, m, fi - 1),
            bv[fi - 1],
            pow2(m as nat) as int,
            pow2((m + 1) as nat) as int,
            pow2(fi as nat) as int,
        )
    }
}

/// One full round of the skew recurrence: the marker write, the fan-out
/// passes, and the two basis updates.
pub open spec fn skew_m_step(
    sk: Seq<u16>,
    bv: Seq<u16>,
    lg: Seq<u16>,
    ex: Seq<u16>,
    m: int,
) -> (Seq<u16>, Seq<u16>) {
    let sk1 = sk.update(pow2(m as nat) as int - 1, 0u16);
    let sk2 = skew_fi_spec(sk1, bv, m, 15);
    let idx = mul_boot_spec(lg, ex, bv[m], lg[(bv[m] ^ 1) as int]);
    let bv1 = bv.update(m, (65535 - lg[idx as int]) as u16);
    let bv2 = Seq::new(
        15,
        |x: int|
            if m + 1 <= x < 15 {
                mul_boot_spec(
                    lg,
                    ex,
                    bv1[x],
                    (((lg[(bv1[x] ^ 1) as int] as int + bv1[m] as int) % 65535) as u16),
                )
            } else {
                bv1[x]
            },
    );
    (sk2, bv2)
}

/// The skew table and basis vector after `m` rounds of the recurrence.
pub open spec fn skew_iter_spec(lg: Seq<u16>, ex: Seq<u16>, m: int) -> (Seq<u16>, Seq<u16>)
    decreases m,
{
    if m <= 0 {
        (Seq::new(65535, |x: int| 0u16), base_init_spec())
    } else {
        let prev = skew_iter_spec(lg, ex, m - 1);
        skew_m_step(prev.0, prev.1, lg, ex, m - 1)
    }
}

/// The finished skew table: the raw recurrence re-read through the log
/// table, so every entry is stored in logarithm form.
pub open spec fn skew_table_spec(lg: Seq<u16>, ex: Seq<u16>) -> Seq<u16> {
    Seq::new(65535, |i: int| lg[skew_iter_spec(lg, ex, 15).0[i] as int])
}

/// The basis vector folded for the formal-derivative table: entry zero
/// complemented, later entries accumulated modulo `ONEMASK`.
pub open spec fn base_fd_spec(lg: Seq<u16>, ex: Seq<u16>, i: int) -> Seq<u16>
    decreases i,
{
    if i <= 0 {
        skew_iter_spec(lg, ex, 15).1.update(
            0,
            (65535 - skew_iter_spec(lg, ex, 15).1[0]) as u16,
        )
    } else {
        let p = base_fd_spec(lg, ex, i - 1);
        p.update(i, (((65535 - p[i]) as int + p[i - 1] as int) % 65535) as u16)
    }
}

/// One doubling pass of the formal-derivative table.
pub open spec fn b_pass_spec(s: Seq<u16>, bv: u16, depart: int) -> Seq<u16> {
    Seq::new(
        32768,
        |x: int|
            if depart <= x < 2 * depart {
                (((s[x - depart] as int + bv as int) % 65535) as u16)
            } else {
                s[x]
            },
    )
}

/// The formal-derivative table after `di` doubling passes.
pub open spec fn b_iter_spec(lg: Seq<u16>, ex: Seq<u16>, di: int) -> Seq<u16>
    decreases di,
{
    if di <= 0 {
        Seq::new(32768, |x: int| 0u16)
    } else {
        b_pass_spec(
            b_iter_spec(lg, ex, di - 1),
            base_fd_spec(lg, ex, 14)[di - 1],
            pow2((di - 1) as nat) as int,
        )
    }
}

/// The finished formal-derivative table.
pub open spec fn b_table_spec(lg: Seq<u16>, ex: Seq<u16>) -> Seq<u16> {
    b_iter_spec(lg, ex, 15)
}

/// Law: table initialization is deterministic and idempotent.  Any two
/// table sets carrying the pinned construction — which every successful
/// [`Tables::build`] hands out — are equal in all five tables, so a
/// one-shot initialization and a rebuild cannot be told apart.
pub proof fn lemma_build_deterministic(t1: TablesView, t2: TablesView)
    requires
        t1.log == log_table_spec(),
        t1.exp == exp_table_spec(),
        t1.skew == skew_table_spec(log_table_spec(), exp_table_spec()),
        t1.b == b_table_spec(log_table_spec(), exp_table_spec()),
        t1.log_walsh == crate::transforms::walsh_spec(t1.log.update(0, 0u16), 65536),
        t2.log == log_table_spec(),
        t2.exp == exp_table_spec(),
        t2.skew == skew_table_spec(log_table_spec(), exp_table_spec()),
        t2.b == b_table_spec(log_table_spec(), exp_table_spec()),
        t2.log_walsh == crate::transforms::walsh_spec(t2.log.update(0, 0u16), 65536),
    ensures
        t1 == t2,
{
}

/// Two numbers with one residue inside one stride of each other are equal.
pub proof fn lemma_same_residue(a: int, b: int, m: int)
    requires
        m >= 1,
        a % m == b % m,
        b <= a < b + m,
    ensures
        a == b,
{
    vstd::arithmetic::div_mod::lemma_fundamental_div_mod(a, m);
    vstd::arithmetic::div_mod::lemma_fundamental_div_mod(b, m);
    let qa = a / m;
    let qb = b / m;
    vstd::arithmetic::mul::lemma_mul_is_commutative(m, qa);
    vstd::arithmetic::mul::lemma_mul_is_commutative(m, qb);
    if qa > qb {
        vstd::arithmetic::mul::lemma_mul_inequality(qb + 1, qa, m);
        vstd::arithmetic::mul::lemma_mul_is_distributive_add_other_way(m, qb, 1);
    }
    if qa < qb {
        vstd::arithmetic::mul::lemma_mul_inequality(qa + 1, qb, m);
        vstd::arithmetic::mul::lemma_mul_is_distributive_add_other_way(m, qa, 1);
    }
}

impl Tables {
    /// Builds the tables and checks the log/exp round trips.  Success is
    /// exactly the round trips holding of the spec-level construction, so
    /// the log and exp tables handed out are pinned; `None` never happens
    /// with the fixed constants, which the checks confirm at run time.
    #[verifier::loop_isolation(false)]
    #[verifier::rlimit(100)]
    pub fn build() -> (r: Option<Tables>)
        ensures
            r is Some <==> logexp_ok(log_table_spec(), exp_table_spec()),
            match r {
                Some(t) => {
                    &&& t@.wf()
                    &&& t@.log == log_table_spec()
                    &&& t@.exp == exp_table_spec()
                    &&& t@.skew == skew_table_spec(log_table_spec(), exp_table_spec())
                    &&& t@.b == b_table_spec(log_table_spec(), exp_table_spec())
                },
                None => true,
            },
    {
        let base16: [u16; 16] = [
            1,
            44234,
            15374,
            5694,
            50562,
            60718,
            37196,
            16402,
            27800,
            4312,
            27250,
            47360,
            64952,
            64308,
            65336,
            39198,
        ];
        proof {
            assert(forall|j: int| 0 <= j < 16 ==> base16@[j] == cantor_base16(j));
        }
        let mut log = zero_vec(65536);
        let mut exp = zero_vec(65536);
        proof {
            assert(exp@ =~= exp_phase1_spec(0));
            assert(log@ =~= cantor_map_spec(0));
        }

        // discrete logarithms in the polynomial basis, by running the
        // generator's linear feedback register through all non-zero states
        let mut state: u32 = 1;
        let mut i: usize = 0;
        while i < 65535
            invariant
                log@.len() == 65536,
                exp@.len() == 65536,
                i <= 65535,
                state < 65536,
                state == lfsr_state_spec(i as int),
                exp@ == exp_phase1_spec(i as int),
            decreases 65535 - i,
        {
            exp.set(state as usize, i as u16);
            if (state >> 15) != 0 {
                proof {
                    assert(state & 0x7FFF < 32768) by (bit_vector);
                    assert(((state & 0x7FFF) << 1u32) < 65536 && (((state & 0x7FFF) << 1u32)
                        ^ 0x2D) < 65536) by (bit_vector);
                }
                state = ((state & 0x7FFF) << 1) ^ 0x2D;
            } else {
                proof {
                    assert(state >> 15 == 0 ==> state < 32768) by (bit_vector);
                    assert(state < 32768 ==> (state << 1u32) < 65536) by (bit_vector);
                }
                state = state << 1;
            }
            i = i + 1;
        }
        exp.set(0, 65535);
        proof {
            assert(exp@ == exp_lfsr_spec());
        }

        // the Cantor basis change: index bits pick basis elements to XOR
        let mut bi: usize = 0;
        while bi < 16
            invariant
                log@.len() == 65536,
                exp@.len() == 65536,
                bi <= 16,
                log@[0] == 0,
                log@ == cantor_map_spec(bi as int),
            decreases 16 - bi,
        {
            let w: usize = 1usize << bi;
            proof {
                lemma2_to64();
                lemma_shl_pow2(bi);
                if bi < 15 {
                    vstd::arithmetic::power2::lemma_pow2_strictly_increases(bi as nat, 15);
                }
            }
            let ghost snap = log@;
            let mut j: usize = 0;
            while j < w
                invariant
                    log@.len() == 65536,
                    exp@.len() == 65536,
                    j <= w,
                    w + w <= 65536,
                    bi < 16,
                    log@[0] == 0,
                    forall|x: int| 0 <= x < w ==> log@[x] == snap[x],
                    forall|x: int| w <= x < w + j ==> log@[x] == (snap[x - w] ^ base16@[bi as int]),
                    forall|x: int| w + j <= x < 65536 ==> log@[x] == snap[x],
                decreases w - j,
            {
                let v = log[j] ^ base16[bi];
                log.set(j + w, v);
                j = j + 1;
            }
            proof {
                assert(log@ =~= cantor_pass_spec(snap, bi as int));
            }
            bi = bi + 1;
        }

        // compose: log of the Cantor element with coordinates `i`; at
        // index zero this writes `exp[0]`, the `ONEMASK` sentinel
        let mut i2: usize = 0;
        while i2 < 65536
            invariant
                log@.len() == 65536,
                exp@.len() == 65536,
                i2 <= 65536,
                i2 == 0 ==> log@[0] == 0,
                i2 >= 1 ==> log@[0] == 65535,
                forall|x: int| 0 <= x < i2 ==> log@[x] == log_table_spec()[x],
                forall|x: int| i2 <= x < 65536 ==> log@[x] == cantor_map_spec(16)[x],
            decreases 65536 - i2,
        {
            let v = exp[log[i2] as usize];
            log.set(i2, v);
            i2 = i2 + 1;
        }
        proof {
            assert(log@ =~= log_table_spec());
        }

        // invert, and tie the wrap-around entry down
        let mut i3: usize = 0;
        while i3 < 65536
            invariant
                log@.len() == 65536,
                exp@.len() == 65536,
                i3 <= 65536,
                exp@ == exp_phase4_spec(i3 as int),
            decreases 65536 - i3,
        {
            exp.set(log[i3] as usize, i3 as u16);
            i3 = i3 + 1;
        }
        let e0 = exp[0];
        exp.set(65535, e0);
        proof {
            assert(exp@ == exp_table_spec());
        }

        // the round trips that make the tables usable; checked, not assumed
        let mut a: usize = 1;
        while a < 65536
            invariant
                log@.len() == 65536,
                exp@.len() == 65536,
                1 <= a <= 65536,
                forall|x: int| 1 <= x < a ==> exp@[(#[trigger] log@[x]) as int] == x,
            decreases 65536 - a,
        {
            if exp[log[a] as usize] as usize != a {
                proof {
                    assert(!logexp_ok(log_table_spec(), exp_table_spec())) by {
                        if logexp_ok(log_table_spec(), exp_table_spec()) {
                            assert(exp_table_spec()[(log_table_spec()[a as int]) as int]
                                == a as int);
                        }
                    }
                }
                return None;
            }
            a = a + 1;
        }
        let mut l: usize = 0;
        while l < 65535
            invariant
                log@.len() == 65536,
                exp@.len() == 65536,
                l <= 65535,
                forall|x: int| 1 <= x < 65536 ==> exp@[(#[trigger] log@[x]) as int] == x,
                forall|x: int| 0 <= x < l ==> log@[(#[trigger] exp@[x]) as int] == x,
            decreases 65535 - l,
        {
            if log[exp[l] as usize] as usize != l {
                proof {
                    assert(!logexp_ok(log_table_spec(), exp_table_spec())) by {
                        if logexp_ok(log_table_spec(), exp_table_spec()) {
                            assert(log_table_spec()[(exp_table_spec()[l as int]) as int]
                                == l as int);
                        }
                    }
                }
                return None;
            }
            l = l + 1;
        }

        // skew factors of the additive FFT butterflies
        let mut skew = zero_vec(65535);
        let mut base = zero_vec(15);
        let mut bs: usize = 1;
        while bs < 16
            invariant
                base@.len() == 15,
                bs <= 16,
                1 <= bs,
                forall|x: int| 0 <= x < bs - 1 ==> base@[x] == base_init_spec()[x],
                forall|x: int| bs - 1 <= x < 15 ==> base@[x] == 0,
            decreases 16 - bs,
        {
            proof {
                lemma2_to64();
                lemma_shl_pow2(bs);
                vstd::arithmetic::power2::lemma_pow2_strictly_increases(bs as nat, 16);
            }
            base.set(bs - 1, (1usize << bs) as u16);
            bs = bs + 1;
        }
        proof {
            assert(base@ =~= base_init_spec());
            assert(skew@ =~= skew_iter_spec(log@, exp@, 0).0);
        }
        let mut m: usize = 0;
        while m < 15
            invariant
                log@.len() == 65536,
                exp@.len() == 65536,
                skew@.len() == 65535,
                base@.len() == 15,
                m <= 15,
                skew@ == skew_iter_spec(log@, exp@, m as int).0,
                base@ == skew_iter_spec(log@, exp@, m as int).1,
            decreases 15 - m,
        {
            let step: usize = 1usize << (m + 1);
            let hm: usize = 1usize << m;
            proof {
                lemma2_to64();
                lemma_shl_pow2(m);
                lemma_shl_pow2((m + 1) as usize);
                vstd::arithmetic::power2::lemma_pow2_strictly_increases(m as nat, (m + 1) as nat);
                vstd::arithmetic::power2::lemma_pow2_strictly_increases(m as nat, 16);
                vstd::arithmetic::power2::lemma_pow2_unfold((m + 1) as nat);
            }
            skew.set(hm - 1, 0);
            let ghost sk1 = skew@;
            let mut fi: usize = m;
            while fi < 15
                invariant
                    log@.len() == 65536,
                    exp@.len() == 65536,
                    skew@.len() == 65535,
                    base@.len() == 15,
                    m <= fi <= 15,
                    m < 15,
                    step as int == pow2((m + 1) as nat) as int,
                    hm as int == pow2(m as nat) as int,
                    step == 2 * hm,
                    1 <= hm,
                    skew@ == skew_fi_spec(sk1, base@, m as int, fi as int),
                decreases 15 - fi,
            {
                let s_: usize = 1usize << (fi + 1);
                proof {
                    lemma2_to64();
                    lemma_shl_pow2((fi + 1) as usize);
                    if fi + 1 < 15 {
                        vstd::arithmetic::power2::lemma_pow2_strictly_increases(
                            (fi + 1) as nat,
                            15,
                        );
                    }
                    lemma_pow2_divides((m + 1) as nat, (fi + 1) as nat);
                    lemma_small_mod((hm - 1) as nat, step as nat);
                }
                let ghost snapj = skew@;
                proof {
                    assert forall|x: int|
                        s_ <= x < 2 * s_ && x - s_ < hm - 1 implies #[trigger] ((x - s_) % (
                    step as int)) != hm - 1 by {
                        vstd::arithmetic::div_mod::lemma_mod_decreases(
                            (x - s_) as nat,
                            step as nat,
                        );
                    }
                }
                let mut j: usize = hm - 1;
                while j < s_
                    invariant
                        log@.len() == 65536,
                        exp@.len() == 65536,
                        skew@.len() == 65535,
                        base@.len() == 15,
                        fi < 15,
                        s_ <= 32768,
                        s_ as int % step as int == 0,
                        j as int % step as int == hm - 1,
                        hm <= step,
                        1 <= hm,
                        step == 2 * hm,
                        hm - 1 <= j,
                        forall|x: int|
                            0 <= x < 65535 ==> skew@[x] == (if s_ <= x < 2 * s_ && x - s_ < j && (
                            x - s_) % (step as int) == hm - 1 {
                                snapj[x - s_] ^ base@[fi as int]
                            } else {
                                snapj[x]
                            }),
                    decreases s_ + step - j,
                {
                    proof {
                        crate::transforms::lemma_mod_bound_step_pub(j as int, step as int, hm - 1 as int, s_ as int);
                    }
                    let v = skew[j] ^ base[fi];
                    skew.set(j + s_, v);
                    proof {
                        lemma_mod_add_multiples_vanish(j as int, step as int);
                        assert forall|x: int| 0 <= x < 65535 implies skew@[x] == (if s_ <= x < 2
                            * s_ && x - s_ < j + step && (x - s_) % (step as int) == hm - 1 {
                            snapj[x - s_] ^ base@[fi as int]
                        } else {
                            snapj[x]
                        }) by {
                            if s_ <= x < 2 * s_ && j <= x - s_ < j + step && (x - s_) % (
                            step as int) == hm - 1 {
                                lemma_same_residue(x - s_, j as int, step as int);
                            }
                        }
                    }
                    j = j + step;
                }
                proof {
                    assert(skew@ =~= skew_pass_spec(
                        snapj,
                        base@[fi as int],
                        hm as int,
                        step as int,
                        s_ as int,
                    ));
                }
                fi = fi + 1;
            }
            let ghost sk2 = skew@;
            let ghost bv0 = base@;
            let em = base[m] ^ 1;
            let idx = mul_boot(&log, &exp, base[m], log[em as usize]);
            base.set(m, 65535 - log[idx as usize]);
            let ghost bv1s = base@;
            let mut fi2: usize = m + 1;
            while fi2 < 15
                invariant
                    log@.len() == 65536,
                    exp@.len() == 65536,
                    base@.len() == 15,
                    m < 15,
                    m + 1 <= fi2 <= 15,
                    forall|x: int|
                        m + 1 <= x < fi2 ==> base@[x] == mul_boot_spec(
                            log@,
                            exp@,
                            bv1s[x],
                            (((log@[(bv1s[x] ^ 1) as int] as int + bv1s[m as int] as int) % 65535)
                                as u16),
                        ),
                    forall|x: int| 0 <= x <= m ==> base@[x] == bv1s[x],
                    forall|x: int| fi2 <= x < 15 ==> base@[x] == bv1s[x],
                decreases 15 - fi2,
            {
                let eb = base[fi2] ^ 1;
                let bsum: u32 = log[eb as usize] as u32 + base[m] as u32;
                let bmod: u16 = (bsum % 65535) as u16;
                let nv = mul_boot(&log, &exp, base[fi2], bmod);
                base.set(fi2, nv);
                fi2 = fi2 + 1;
            }
            proof {
                let stepped = skew_m_step(
                    skew_iter_spec(log@, exp@, m as int).0,
                    skew_iter_spec(log@, exp@, m as int).1,
                    log@,
                    exp@,
                    m as int,
                );
                assert(sk1 == skew_iter_spec(log@, exp@, m as int).0.update(
                    pow2(m as nat) as int - 1,
                    0u16,
                ));
                assert(sk2 == stepped.0);
                assert(bv1s == bv0.update(
                    m as int,
                    (65535 - log@[mul_boot_spec(
                        log@,
                        exp@,
                        bv0[m as int],
                        log@[(bv0[m as int] ^ 1) as int],
                    ) as int]) as u16,
                ));
                assert(base@ =~= stepped.1);
                assert(skew_iter_spec(log@, exp@, m as int + 1) == stepped);
            }
            m = m + 1;
        }
        let mut si: usize = 0;
        while si < 65535
            invariant
                log@.len() == 65536,
                exp@.len() == 65536,
                skew@.len() == 65535,
                si <= 65535,
                forall|x: int| 0 <= x < si ==> skew@[x] == skew_table_spec(log@, exp@)[x],
                forall|x: int|
                    si <= x < 65535 ==> skew@[x] == skew_iter_spec(log@, exp@, 15).0[x],
            decreases 65535 - si,
        {
            let v = log[skew[si] as usize];
            skew.set(si, v);
            si = si + 1;
        }
        proof {
            assert(skew@ =~= skew_table_spec(log@, exp@));
        }

        // formal-derivative multipliers
        let b0 = base[0];
        base.set(0, 65535 - b0);
        let mut bi2: usize = 1;
        while bi2 < 15
            invariant
                base@.len() == 15,
                1 <= bi2 <= 15,
                base@ == base_fd_spec(log@, exp@, bi2 as int - 1),
            decreases 15 - bi2,
        {
            let nv: u32 = ((65535 - base[bi2]) as u32 + base[bi2 - 1] as u32) % 65535;
            base.set(bi2, nv as u16);
            bi2 = bi2 + 1;
        }
        proof {
            assert(base@ == base_fd_spec(log@, exp@, 14));
        }
        let mut b = zero_vec(32768);
        proof {
            assert(b@ =~= b_iter_spec(log@, exp@, 0));
        }
        let mut di: usize = 0;
        while di < 15
            invariant
                b@.len() == 32768,
                base@.len() == 15,
                di <= 15,
                b@[0] == 0,
                forall|x: int| 0 <= x < 32768 ==> (#[trigger] b@[x]) < 65535,
                b@ == b_iter_spec(log@, exp@, di as int),
            decreases 15 - di,
        {
            let depart: usize = 1usize << di;
            proof {
                lemma2_to64();
                lemma_shl_pow2(di);
                if di < 14 {
                    vstd::arithmetic::power2::lemma_pow2_strictly_increases(di as nat, 14);
                }
            }
            let ghost snapb = b@;
            let mut j2: usize = 0;
            while j2 < depart
                invariant
                    b@.len() == 32768,
                    base@.len() == 15,
                    di < 15,
                    j2 <= depart,
                    depart + depart <= 32768,
                    b@[0] == 0,
                    forall|x: int| 0 <= x < 32768 ==> (#[trigger] b@[x]) < 65535,
                    forall|x: int| 0 <= x < depart ==> b@[x] == snapb[x],
                    forall|x: int|
                        depart <= x < depart + j2 ==> b@[x] == (((snapb[x - depart] as int
                            + base@[di as int] as int) % 65535) as u16),
                    forall|x: int| depart + j2 <= x < 32768 ==> b@[x] == snapb[x],
                decreases depart - j2,
            {
                let nv: u32 = (b[j2] as u32 + base[di] as u32) % 65535;
                b.set(j2 + depart, nv as u16);
                j2 = j2 + 1;
            }
            proof {
                assert(b@ =~= b_pass_spec(snapb, base@[di as int], depart as int));
            }
            di = di + 1;
        }
        proof {
            assert(b@ == b_table_spec(log@, exp@));
        }

        // the Walsh transform of the zero-cleared log table drives the
        // error locator
        let mut log_walsh = zero_vec(65536);
        let mut wi: usize = 0;
        while wi < 65536
            invariant
                log@.len() == 65536,
                log_walsh@.len() == 65536,
                wi <= 65536,
                forall|x: int| 0 <= x < wi ==> log_walsh@[x] == log@[x],
            decreases 65536 - wi,
        {
            let v = log[wi];
            log_walsh.set(wi, v);
            wi = wi + 1;
        }
        log_walsh.set(0, 0);
        let ghost lw0 = log_walsh@;
        proof {
            assert(lw0 =~= log@.update(0, 0u16));
            lemma2_to64();
            assert(log2s(65536) == 16) by {
                reveal_with_fuel(log2s, 18);
            }
        }
        walsh(&mut log_walsh, 65536);

        proof {
            let tv = TablesView { log: log@, exp: exp@, skew: skew@, b: b@, log_walsh: log_walsh@ };
            assert(tv.wf_len());
            assert(exp@[65535] == exp@[0]);
            assert(forall|x: int| 1 <= x < 65536 ==> tv.exp[(#[trigger] tv.log[x]) as int] == x);
            assert(forall|x: int| 0 <= x < 65535 ==> tv.log[(#[trigger] tv.exp[x]) as int] == x);
            assert(tv.log[0] == 65535);
            assert(tv.b[0] == 0 && forall|j: int| 0 <= j < 32768 ==> (#[trigger] tv.b[j]) < 65535);
            assert(tv.log_walsh == crate::transforms::walsh_spec(tv.log.update(0, 0u16), 65536));
            assert(tv.wf());
            assert(tv.log == log_table_spec() && tv.exp == exp_table_spec());
            assert(tv.skew == skew_table_spec(log_table_spec(), exp_table_spec()));
            assert(tv.b == b_table_spec(log_table_spec(), exp_table_spec()));
            assert(logexp_ok(log_table_spec(), exp_table_spec()));
        }
        Some(Tables { log, exp, skew, b, log_walsh })
    }
}

} // verus!

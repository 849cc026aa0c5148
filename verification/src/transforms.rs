//! The in-place transforms of the codec: the fast Walsh-Hadamard transform
//! over the integers modulo `ONEMASK`, the additive FFT pair in the novel
//! polynomial basis, and the formal derivative in that basis.
//!
//! Each executable transform is proved equal to a stage-by-stage functional
//! model (`*_stages`), a fold of pointwise butterfly layers.

use vstd::prelude::*;
use vstd::arithmetic::power2::pow2;
use vstd::arithmetic::power2::lemma_pow2_pos;
use vstd::arithmetic::power2::lemma_pow2_unfold;
use vstd::arithmetic::power2::lemma_pow2_adds;
use vstd::arithmetic::power2::lemma_pow2_strictly_increases;
use vstd::arithmetic::div_mod::lemma_fundamental_div_mod;
use vstd::arithmetic::div_mod::lemma_fundamental_div_mod_converse;
use vstd::arithmetic::div_mod::lemma_mod_multiples_basic;
use vstd::arithmetic::div_mod::lemma_small_mod;
use vstd::arithmetic::mul::lemma_mul_inequality;
use crate::f2e16::{Tables, TablesView, mul_spec, mul_or_zero, mul_elt};

verus! {

/// Floor of the base-2 logarithm.
pub open spec fn log2s(n: int) -> nat
    decreases n,
{
    if n <= 1 {
        0
    } else {
        1 + log2s(n / 2)
    }
}

/// `n` is a power of two.
pub open spec fn is_pow2(n: int) -> bool {
    n >= 1 && pow2(log2s(n)) == n
}

/// Halving a power of two steps its logarithm down by one.
pub proof fn lemma_pow2_halves(n: int)
    requires
        is_pow2(n),
        n >= 2,
    ensures
        n % 2 == 0,
        is_pow2(n / 2),
        log2s(n / 2) == log2s(n) - 1,
        pow2((log2s(n) - 1) as nat) == n / 2,
{
    assert(log2s(n) == 1 + log2s(n / 2));
    lemma_pow2_unfold(log2s(n));
}

/// `pow2(a)` divides `pow2(b)` for `a <= b`.
pub proof fn lemma_pow2_divides(a: nat, b: nat)
    requires
        a <= b,
    ensures
        pow2(b) as int % pow2(a) as int == 0,
{
    lemma_pow2_pos(a);
    lemma_pow2_adds(a, (b - a) as nat);
    lemma_mod_multiples_basic(pow2((b - a) as nat) as int, pow2(a) as int);
}

/// A block start that is a multiple of the stride `w` and below `size`
/// leaves room for a whole block, when `w` divides `size`.
pub proof fn lemma_stride_block_fits(j: int, w: int, size: int)
    requires
        w >= 1,
        j % w == 0,
        0 <= j < size,
        size % w == 0,
    ensures
        j + w <= size,
{
    broadcast use vstd::arithmetic::mul::group_mul_properties;

    let q = j / w;
    let sq = size / w;
    lemma_fundamental_div_mod(j, w);
    lemma_fundamental_div_mod(size, w);
    assert(q < sq) by {
        if q >= sq {
            lemma_mul_inequality(sq, q, w);
        }
    }
    lemma_mul_inequality(q + 1, sq, w);
}

/// The base of the block that position `i` belongs to at stride `d`:
/// the odd multiple of `d` sitting between the pair halves.
pub open spec fn blk(i: int, d: int) -> int {
    2 * d * (i / (2 * d)) + d
}

/// Positions of one 2`d` block share a base, lows sit below it.
pub proof fn lemma_blk(i: int, d: int, j: int)
    requires
        d >= 1,
        j % (2 * d) == d,
        j - d <= i < j + d,
    ensures
        blk(i, d) == j,
        (i % (2 * d) < d) <==> i < j,
{
    let q = j / (2 * d);
    lemma_fundamental_div_mod(j, 2 * d);
    lemma_fundamental_div_mod_converse(i, 2 * d, q, i - 2 * d * q);
}

/// XOR facts the butterfly proofs lean on.
pub proof fn lemma_xor_basics(x: u16, y: u16)
    ensures
        x ^ y == y ^ x,
        x ^ x == 0,
        x ^ 0 == x,
        (x ^ y) ^ y == x,
{
    assert(x ^ y == y ^ x) by (bit_vector);
    assert(x ^ x == 0) by (bit_vector);
    assert(x ^ 0 == x) by (bit_vector);
    assert((x ^ y) ^ y == x) by (bit_vector);
}

/// One pass of `(x & ONEMASK) + (x >> 16)`, which reduces a sum of two
/// 16-bit values modulo `ONEMASK` into a 16-bit representative.
pub open spec fn wfold(x: int) -> int {
    x % 65536 + x / 65536
}

/// The fold keeps 17-bit sums inside 16 bits.
pub proof fn lemma_wfold_range(x: int)
    requires
        0 <= x <= 131070,
    ensures
        0 <= wfold(x) <= 65535,
{
}

/// One Walsh butterfly layer at stride `d`: each pair `(a, b)` becomes
/// `(a + b, a + ONEMASK - b)` reduced by the one-pass fold.
pub open spec fn walsh_layer(s: Seq<u16>, d: int) -> Seq<u16> {
    Seq::new(
        s.len(),
        |i: int|
            if i % (2 * d) < d {
                wfold(s[i] + s[i + d]) as u16
            } else {
                wfold(s[i - d] + 65535 - s[i]) as u16
            },
    )
}

/// Walsh layers at strides `pow2(lvl), pow2(lvl + 1), ..., pow2(maxlvl - 1)`.
pub open spec fn walsh_stages(s: Seq<u16>, lvl: int, maxlvl: int) -> Seq<u16>
    decreases maxlvl - lvl,
{
    if lvl >= maxlvl {
        s
    } else {
        walsh_stages(walsh_layer(s, pow2(lvl as nat) as int), lvl + 1, maxlvl)
    }
}

/// The whole Walsh transform of a buffer of power-of-two length `size`.
pub open spec fn walsh_spec(s: Seq<u16>, size: int) -> Seq<u16> {
    walsh_stages(s, 0, log2s(size) as int)
}

/// In-place fast Walsh-Hadamard transform over the integers mod `ONEMASK`.
#[verifier::loop_isolation(false)]
pub fn walsh(data: &mut Vec<u16>, size: usize)
    requires
        old(data)@.len() == size,
        is_pow2(size as int),
        size <= 65536,
    ensures
        final(data)@.len() == size,
        final(data)@ == walsh_spec(old(data)@, size as int),
{
    let ghost orig = data@;
    let ghost maxlvl = log2s(size as int) as int;
    proof {
        vstd::arithmetic::power2::lemma2_to64();
    }
    let mut depart_no: usize = 1;
    let ghost mut lvl: int = 0;
    while depart_no < size
        invariant
            data@.len() == size,
            0 <= lvl <= maxlvl,
            depart_no as int == pow2(lvl as nat) as int,
            walsh_stages(data@, lvl, maxlvl) == walsh_spec(orig, size as int),
        decreases size - depart_no,
    {
        let ghost d = depart_no as int;
        let ghost snap = data@;
        proof {
            assert(lvl < maxlvl) by {
                if lvl >= maxlvl {
                    if lvl > maxlvl {
                        lemma_pow2_strictly_increases(maxlvl as nat, lvl as nat);
                    }
                }
            }
            lemma_pow2_pos(lvl as nat);
            lemma_pow2_unfold((lvl + 1) as nat);
            lemma_pow2_divides((lvl + 1) as nat, maxlvl as nat);
            lemma_small_mod(0, (2 * d) as nat);
        }
        let mut j: usize = 0;
        while j < size
            invariant
                data@.len() == size,
                j as int % (2 * d) == 0,
                j <= size,
                forall|x: int| 0 <= x < j ==> data@[x] == walsh_layer(snap, d)[x],
                forall|x: int| j <= x < size ==> data@[x] == snap[x],
            decreases size - j,
        {
            proof {
                broadcast use vstd::arithmetic::mul::lemma_mul_is_commutative;

                lemma_stride_block_fits(j as int, 2 * d, size as int);
                lemma_fundamental_div_mod(j as int, 2 * d);
                lemma_fundamental_div_mod_converse(
                    j as int + d,
                    2 * d,
                    j as int / (2 * d),
                    d,
                );
            }
            let mut i: usize = j;
            while i < j + depart_no
                invariant
                    data@.len() == size,
                    j <= i <= j + depart_no,
                    j + 2 * depart_no <= size,
                    (j + d) % (2 * d) == d,
                    forall|x: int| 0 <= x < j ==> data@[x] == walsh_layer(snap, d)[x],
                    forall|x: int| j <= x < i ==> data@[x] == walsh_layer(snap, d)[x],
                    forall|x: int|
                        j + d <= x < i + d ==> data@[x] == walsh_layer(snap, d)[x],
                    forall|x: int| i <= x < j + d ==> data@[x] == snap[x],
                    forall|x: int| i + d <= x < j + 2 * d ==> data@[x] == snap[x],
                    forall|x: int| j + 2 * depart_no <= x < size ==> data@[x] == snap[x],
                decreases j + depart_no - i,
            {
                proof {
                    lemma_blk(i as int, d, j as int + d);
                    lemma_blk(i as int + d, d, j as int + d);
                    lemma_wfold_range(snap[i as int] + snap[i as int + d]);
                    lemma_wfold_range(snap[i as int] + 65535 - snap[i as int + d]);
                }
                let a: u32 = data[i] as u32;
                let b: u32 = data[i + depart_no] as u32;
                let tmp1: u32 = a + b;
                let tmp2: u32 = a + 65535 - b;
                proof {
                    assert(tmp1 & 65535 == tmp1 % 65536 && tmp1 >> 16 == tmp1 / 65536)
                        by (bit_vector);
                    assert(tmp2 & 65535 == tmp2 % 65536 && tmp2 >> 16 == tmp2 / 65536)
                        by (bit_vector);
                }
                data.set(i, ((tmp1 & 65535) + (tmp1 >> 16)) as u16);
                data.set(i + depart_no, ((tmp2 & 65535) + (tmp2 >> 16)) as u16);
                i = i + 1;
            }
            proof {
                vstd::arithmetic::div_mod::lemma_mod_add_multiples_vanish(j as int, 2 * d);
            }
            j = j + 2 * depart_no;
        }
        proof {
            assert(data@ =~= walsh_layer(snap, d));
            assert(2 * depart_no <= size) by {
                if lvl + 1 < maxlvl {
                    lemma_pow2_strictly_increases((lvl + 1) as nat, maxlvl as nat);
                }
            }
            lvl = lvl + 1;
        }
        depart_no = depart_no * 2;
    }
    proof {
        assert(lvl == maxlvl) by {
            if lvl < maxlvl {
                lemma_pow2_strictly_increases(lvl as nat, maxlvl as nat);
            }
        }
    }
}

} // verus!

verus! {

/// The skew (twist) constant a block at stride `d` reads: entry
/// `j + index - 1` of the skew table, `j` being the block base.
pub open spec fn skew_at(t: TablesView, d: int, index: int, i: int) -> u16 {
    t.skew[blk(i, d) + index - 1]
}

/// One forward butterfly layer at stride `d`: lows take the twisted high,
/// highs then take the new low.
pub open spec fn afft_layer(t: TablesView, s: Seq<u16>, d: int, index: int) -> Seq<u16> {
    Seq::new(
        s.len(),
        |i: int|
            if i % (2 * d) < d {
                s[i] ^ mul_or_zero(t, s[i + d], skew_at(t, d, index, i))
            } else {
                s[i] ^ (s[i - d] ^ mul_or_zero(t, s[i], skew_at(t, d, index, i)))
            },
    )
}

/// One inverse butterfly layer at stride `d`: highs take the low first,
/// lows then take the twisted new high.
pub open spec fn iafft_layer(t: TablesView, s: Seq<u16>, d: int, index: int) -> Seq<u16> {
    Seq::new(
        s.len(),
        |i: int|
            if i % (2 * d) < d {
                s[i] ^ mul_or_zero(t, s[i + d] ^ s[i], skew_at(t, d, index, i))
            } else {
                s[i] ^ s[i - d]
            },
    )
}

/// Forward layers at strides `pow2(dlvl), pow2(dlvl - 1), ..., 1`.
pub open spec fn afft_stages(t: TablesView, s: Seq<u16>, dlvl: int, index: int) -> Seq<u16>
    decreases dlvl + 1 when dlvl >= -1
{
    if dlvl < 0 {
        s
    } else {
        afft_stages(t, afft_layer(t, s, pow2(dlvl as nat) as int, index), dlvl - 1, index)
    }
}

/// The forward additive FFT of a power-of-two-sized buffer.
pub open spec fn afft_spec(t: TablesView, s: Seq<u16>, size: int, index: int) -> Seq<u16> {
    afft_stages(t, s, log2s(size) as int - 1, index)
}

/// Inverse layers at strides `pow2(lvl), pow2(lvl + 1), ..., pow2(maxlvl - 1)`.
pub open spec fn iafft_stages(t: TablesView, s: Seq<u16>, lvl: int, maxlvl: int, index: int) -> Seq<
    u16,
>
    decreases maxlvl - lvl,
{
    if lvl >= maxlvl {
        s
    } else {
        iafft_stages(t, iafft_layer(t, s, pow2(lvl as nat) as int, index), lvl + 1, maxlvl, index)
    }
}

/// The inverse additive FFT of a power-of-two-sized buffer.
pub open spec fn iafft_spec(t: TablesView, s: Seq<u16>, size: int, index: int) -> Seq<u16> {
    iafft_stages(t, s, 0, log2s(size) as int, index)
}

/// A block base below a size that its doubled stride divides leaves room
/// for the upper half of the block.
pub proof fn lemma_block_step_bound(j: int, d: int, size: int)
    requires
        d >= 1,
        j % (2 * d) == d,
        size % (2 * d) == 0,
        j < size,
    ensures
        j + d <= size,
{
    broadcast use vstd::arithmetic::mul::group_mul_properties;

    let w = 2 * d;
    lemma_fundamental_div_mod(j, w);
    lemma_fundamental_div_mod(size, w);
    let q = j / w;
    let sq = size / w;
    assert(q < sq) by {
        if q >= sq {
            lemma_mul_inequality(sq, q, w);
        }
    }
    lemma_mul_inequality(q + 1, sq, w);
}

/// A counter that stays `d` modulo `2d` and lands in `[size, size + d]`
/// over a size that `2d` divides has reached exactly `size + d`.
pub proof fn lemma_block_exit(j: int, d: int, size: int)
    requires
        d >= 1,
        j % (2 * d) == d,
        size % (2 * d) == 0,
        size <= j <= size + d,
    ensures
        j == size + d,
{
    lemma_fundamental_div_mod(size, 2 * d);
    vstd::arithmetic::div_mod::lemma_mod_multiples_vanish(size / (2 * d), j - size, 2 * d);
    lemma_small_mod((j - size) as nat, (2 * d) as nat);
}

/// In-place forward additive FFT in the novel polynomial basis.
#[verifier::loop_isolation(false)]
pub fn afft(t: &Tables, data: &mut Vec<u16>, size: usize, index: usize)
    requires
        t@.wf_len(),
        old(data)@.len() == size,
        is_pow2(size as int),
        size + index <= 65536,
    ensures
        final(data)@.len() == size,
        final(data)@ == afft_spec(t@, old(data)@, size as int, index as int),
{
    let ghost orig = data@;
    let ghost maxlvl = log2s(size as int) as int;
    proof {
        vstd::arithmetic::power2::lemma2_to64();
        if size >= 2 {
            lemma_pow2_halves(size as int);
        }
    }
    let mut depart_no: usize = size / 2;
    let ghost mut dlvl: int = maxlvl - 1;
    while depart_no > 0
        invariant
            data@.len() == size,
            -1 <= dlvl <= maxlvl - 1,
            depart_no as int == (if dlvl >= 0 {
                pow2(dlvl as nat) as int
            } else {
                0
            }),
            afft_stages(t@, data@, dlvl, index as int) == afft_spec(
                t@,
                orig,
                size as int,
                index as int,
            ),
        decreases depart_no,
    {
        let ghost d = depart_no as int;
        let ghost snap = data@;
        proof {
            lemma_pow2_pos(dlvl as nat);
            lemma_pow2_unfold((dlvl + 1) as nat);
            lemma_pow2_divides((dlvl + 1) as nat, maxlvl as nat);
            lemma_small_mod(d as nat, (2 * d) as nat);
        }
        let mut j: usize = depart_no;
        while j < size
            invariant
                data@.len() == size,
                j as int % (2 * d) == d,
                depart_no <= j <= size + depart_no,
                forall|x: int| 0 <= x < j - d ==> data@[x] == afft_layer(t@, snap, d, index as int)[x],
                forall|x: int| j - d <= x < size ==> data@[x] == snap[x],
            decreases size + depart_no - j,
        {
            proof {
                lemma_block_step_bound(j as int, d, size as int);
            }
            let skew: u16 = t.skew[j + index - 1];
            let ghost mid: Seq<u16>;
            if skew != 65535 {
                let mut i: usize = j - depart_no;
                while i < j
                    invariant
                        data@.len() == size,
                        j - depart_no <= i <= j,
                        forall|x: int|
                            0 <= x < j - d ==> data@[x] == afft_layer(t@, snap, d, index as int)[x],
                        forall|x: int|
                            j - d <= x < i ==> data@[x] == (snap[x] ^ mul_spec(
                                t@,
                                snap[x + d],
                                skew,
                            )),
                        forall|x: int| i <= x < size ==> data@[x] == snap[x],
                    decreases j - i,
                {
                    let v = data[i] ^ mul_elt(t, data[i + depart_no], skew);
                    data.set(i, v);
                    i = i + 1;
                }
                proof {
                    mid = data@;
                    assert forall|x: int| j - d <= x < j implies mid[x] == (snap[x] ^ mul_or_zero(
                        t@,
                        snap[x + d],
                        skew,
                    )) by {
                    }
                }
            } else {
                proof {
                    mid = data@;
                    assert forall|x: int| j - d <= x < j implies mid[x] == (snap[x] ^ mul_or_zero(
                        t@,
                        snap[x + d],
                        skew,
                    )) by {
                        lemma_xor_basics(snap[x], 0);
                    }
                }
            }
            let mut i: usize = j - depart_no;
            while i < j
                invariant
                    data@.len() == size,
                    j - depart_no <= i <= j,
                    forall|x: int|
                        0 <= x < j - d ==> data@[x] == afft_layer(t@, snap, d, index as int)[x],
                    forall|x: int| j - d <= x < j ==> data@[x] == mid[x],
                    forall|x: int|
                        j - d <= x < j ==> mid[x] == (snap[x] ^ mul_or_zero(
                            t@,
                            snap[x + d],
                            skew,
                        )),
                    forall|x: int|
                        j <= x < i + d ==> data@[x] == (snap[x] ^ mid[x - d]),
                    forall|x: int| i + d <= x < j + d ==> data@[x] == snap[x],
                    forall|x: int| j + d <= x < size ==> data@[x] == snap[x],
                decreases j - i,
            {
                let v = data[i + depart_no] ^ data[i];
                data.set(i + depart_no, v);
                i = i + 1;
            }
            proof {
                assert forall|x: int| j - d <= x < j + d implies data@[x] == afft_layer(
                    t@,
                    snap,
                    d,
                    index as int,
                )[x] by {
                    lemma_blk(x, d, j as int);
                    if x < j {
                        assert(data@[x] == mid[x]);
                        assert(mid[x] == (snap[x] ^ mul_or_zero(t@, snap[x + d], skew)));
                    } else {
                        assert(data@[x] == (snap[x] ^ mid[x - d]));
                        assert(mid[x - d] == (snap[x - d] ^ mul_or_zero(t@, snap[x], skew)));
                    }
                }
                vstd::arithmetic::div_mod::lemma_mod_add_multiples_vanish(j as int, 2 * d);
            }
            j = j + 2 * depart_no;
        }
        proof {
            lemma_block_exit(j as int, d, size as int);
            assert(data@ =~= afft_layer(t@, snap, d, index as int));
            if dlvl >= 1 {
                lemma_pow2_unfold(dlvl as nat);
            }
            dlvl = dlvl - 1;
        }
        depart_no = depart_no / 2;
    }
    proof {
        if dlvl >= 0 {
            lemma_pow2_pos(dlvl as nat);
        }
    }
}

/// In-place inverse additive FFT in the novel polynomial basis.
#[verifier::loop_isolation(false)]
pub fn inverse_afft(t: &Tables, data: &mut Vec<u16>, size: usize, index: usize)
    requires
        t@.wf_len(),
        old(data)@.len() == size,
        is_pow2(size as int),
        size + index <= 65536,
    ensures
        final(data)@.len() == size,
        final(data)@ == iafft_spec(t@, old(data)@, size as int, index as int),
{
    let ghost orig = data@;
    let ghost maxlvl = log2s(size as int) as int;
    proof {
        vstd::arithmetic::power2::lemma2_to64();
    }
    let mut depart_no: usize = 1;
    let ghost mut lvl: int = 0;
    while depart_no < size
        invariant
            data@.len() == size,
            0 <= lvl <= maxlvl,
            depart_no as int == pow2(lvl as nat) as int,
            iafft_stages(t@, data@, lvl, maxlvl, index as int) == iafft_spec(
                t@,
                orig,
                size as int,
                index as int,
            ),
        decreases size - depart_no,
    {
        let ghost d = depart_no as int;
        let ghost snap = data@;
        proof {
            assert(lvl < maxlvl) by {
                if lvl >= maxlvl {
                    if lvl > maxlvl {
                        lemma_pow2_strictly_increases(maxlvl as nat, lvl as nat);
                    }
                }
            }
            lemma_pow2_pos(lvl as nat);
            lemma_pow2_unfold((lvl + 1) as nat);
            lemma_pow2_divides((lvl + 1) as nat, maxlvl as nat);
            lemma_small_mod(d as nat, (2 * d) as nat);
        }
        let mut j: usize = depart_no;
        while j < size
            invariant
                data@.len() == size,
                j as int % (2 * d) == d,
                depart_no <= j <= size + depart_no,
                forall|x: int|
                    0 <= x < j - d ==> data@[x] == iafft_layer(t@, snap, d, index as int)[x],
                forall|x: int| j - d <= x < size ==> data@[x] == snap[x],
            decreases size + depart_no - j,
        {
            proof {
                lemma_block_step_bound(j as int, d, size as int);
            }
            let ghost mid: Seq<u16>;
            let mut i: usize = j - depart_no;
            while i < j
                invariant
                    data@.len() == size,
                    j - depart_no <= i <= j,
                    forall|x: int|
                        0 <= x < j - d ==> data@[x] == iafft_layer(t@, snap, d, index as int)[x],
                    forall|x: int| j - d <= x < j ==> data@[x] == snap[x],
                    forall|x: int|
                        j <= x < i + d ==> data@[x] == (snap[x] ^ snap[x - d]),
                    forall|x: int| i + d <= x < j + d ==> data@[x] == snap[x],
                    forall|x: int| j + d <= x < size ==> data@[x] == snap[x],
                decreases j - i,
            {
                let v = data[i + depart_no] ^ data[i];
                data.set(i + depart_no, v);
                i = i + 1;
            }
            proof {
                mid = data@;
                assert forall|x: int| j <= x < j + d implies mid[x] == (snap[x] ^ snap[x - d]) by {
                }
            }
            let skew: u16 = t.skew[j + index - 1];
            if skew != 65535 {
                let mut i2: usize = j - depart_no;
                while i2 < j
                    invariant
                        data@.len() == size,
                        j - depart_no <= i2 <= j,
                        forall|x: int|
                            0 <= x < j - d ==> data@[x] == iafft_layer(t@, snap, d, index as int)[x],
                        forall|x: int|
                            j <= x < j + d ==> mid[x] == (snap[x] ^ snap[x - d]),
                        forall|x: int|
                            j - d <= x < i2 ==> data@[x] == (snap[x] ^ mul_spec(
                                t@,
                                mid[x + d],
                                skew,
                            )),
                        forall|x: int| i2 <= x < j ==> data@[x] == snap[x],
                        forall|x: int| j <= x < j + d ==> data@[x] == mid[x],
                        forall|x: int| j + d <= x < size ==> data@[x] == snap[x],
                    decreases j - i2,
                {
                    let v = data[i2] ^ mul_elt(t, data[i2 + depart_no], skew);
                    data.set(i2, v);
                    i2 = i2 + 1;
                }
            }
            proof {
                assert forall|x: int| j - d <= x < j + d implies data@[x] == iafft_layer(
                    t@,
                    snap,
                    d,
                    index as int,
                )[x] by {
                    lemma_blk(x, d, j as int);
                    if x < j {
                        if skew == 65535 {
                            lemma_xor_basics(snap[x], 0);
                        } else {
                            assert(data@[x] == (snap[x] ^ mul_spec(t@, mid[x + d], skew)));
                            assert(mid[x + d] == (snap[x + d] ^ snap[x]));
                        }
                    } else {
                        assert(data@[x] == mid[x]);
                        assert(mid[x] == (snap[x] ^ snap[x - d]));
                    }
                }
                vstd::arithmetic::div_mod::lemma_mod_add_multiples_vanish(j as int, 2 * d);
            }
            j = j + 2 * depart_no;
        }
        proof {
            lemma_block_exit(j as int, d, size as int);
            assert(data@ =~= iafft_layer(t@, snap, d, index as int));
            assert(2 * depart_no <= size) by {
                if lvl + 1 < maxlvl {
                    lemma_pow2_strictly_increases((lvl + 1) as nat, maxlvl as nat);
                }
            }
            lvl = lvl + 1;
        }
        depart_no = depart_no * 2;
    }
    proof {
        assert(lvl == maxlvl) by {
            if lvl < maxlvl {
                lemma_pow2_strictly_increases(lvl as nat, maxlvl as nat);
            }
        }
    }
}

} // verus!

verus! {

/// The lowest set bit of `i`, computed as `((i ^ (i - 1)) + 1) >> 1`.
pub open spec fn lowbit(i: u32) -> int {
    ((i ^ ((i - 1) as u32)) as int + 1) / 2
}

/// For `0 < i < size` with `size` a power of two, the lowest set bit of
/// `i` is at least one, at most `i`, and `i + lowbit(i)` stays in range.
pub proof fn lemma_lowbit_bounds(i: u32, size: u32)
    requires
        1 <= i,
        i < size,
        size <= 65536,
        size & ((size - 1) as u32) == 0,
    ensures
        1 <= lowbit(i),
        lowbit(i) <= i,
        i as int + lowbit(i) <= size,
        lowbit(i) == ((((i ^ ((i - 1) as u32)) + 1) as u32) >> 1) as int,
{
    let x: u32 = i ^ ((i - 1) as u32);
    assert(x < 0xFFFFFFFF && ((((x + 1) as u32) >> 1) as int == (x as int + 1) / 2)) by (bit_vector)
        requires
            1 <= i < 65536 && x == i ^ ((i - 1) as u32),
    ;
    assert(1 <= ((x + 1) as u32) >> 1 && (((x + 1) as u32) >> 1) <= i) by (bit_vector)
        requires
            1 <= i < 65536 && x == i ^ ((i - 1) as u32),
    ;
    assert(i + (((x + 1) as u32) >> 1) <= size) by (bit_vector)
        requires
            1 <= i && i < size && size <= 65536 && size & ((size - 1) as u32) == 0 && x == i ^ ((i
                - 1) as u32),
    ;
}

/// A power of two at most 2^16 clears its own decrement under AND.
pub proof fn lemma_pow2_mask(e: nat)
    requires
        pow2(e) <= 65536,
    ensures
        (pow2(e) as u32) & ((pow2(e) - 1) as u32) == 0,
    decreases e,
{
    if e == 0 {
        vstd::arithmetic::power2::lemma2_to64();
        assert(1u32 & 0u32 == 0) by (bit_vector);
    } else {
        lemma_pow2_unfold(e);
        lemma_pow2_mask((e - 1) as nat);
        lemma_pow2_pos((e - 1) as nat);
        let m: u32 = pow2((e - 1) as nat) as u32;
        let n: u32 = pow2(e) as u32;
        assert(n & ((n - 1) as u32) == 0) by (bit_vector)
            requires
                n == 2 * m && m & ((m - 1) as u32) == 0 && 1 <= m && n <= 65536,
        ;
    }
}

/// One step of the formal derivative: positions `[i - lowbit(i), i)` take
/// the XOR of the partner `lowbit(i)` above them.
pub open spec fn fd_step(s: Seq<u16>, i: int) -> Seq<u16> {
    let w = lowbit(i as u32);
    Seq::new(
        s.len(),
        |j: int|
            if i - w <= j < i {
                s[j] ^ s[j + w]
            } else {
                s[j]
            },
    )
}

/// Formal-derivative steps `i, i + 1, ..., size - 1` in order.
pub open spec fn fd_stages(s: Seq<u16>, i: int, size: int) -> Seq<u16>
    decreases size - i when i <= size
{
    if i >= size {
        s
    } else {
        fd_stages(fd_step(s, i), i + 1, size)
    }
}

/// The formal derivative of a polynomial written in the novel basis.
pub open spec fn fd_spec(s: Seq<u16>, size: int) -> Seq<u16> {
    fd_stages(s, 1, size)
}

/// In-place formal derivative in the novel polynomial basis.
#[verifier::loop_isolation(false)]
pub fn formal_derivative(cos: &mut Vec<u16>, size: usize)
    requires
        old(cos)@.len() == size,
        is_pow2(size as int),
        size <= 65536,
    ensures
        final(cos)@.len() == size,
        final(cos)@ == fd_spec(old(cos)@, size as int),
{
    let ghost orig = cos@;
    proof {
        lemma_pow2_mask(log2s(size as int));
    }
    let mut i: usize = 1;
    while i < size
        invariant
            cos@.len() == size,
            1 <= i <= size,
            fd_stages(cos@, i as int, size as int) == fd_spec(orig, size as int),
        decreases size - i,
    {
        proof {
            lemma_lowbit_bounds(i as u32, size as u32);
        }
        let xi: u32 = i as u32;
        let length: usize = (((xi ^ (xi - 1)) + 1) >> 1) as usize;
        let ghost w = length as int;
        let ghost snap = cos@;
        let mut jj: usize = i - length;
        while jj < i
            invariant
                cos@.len() == size,
                i - length <= jj <= i,
                i + length <= size,
                1 <= length <= i,
                w == lowbit(i as u32),
                forall|x: int| 0 <= x < i - w ==> cos@[x] == snap[x],
                forall|x: int| i - w <= x < jj ==> cos@[x] == (snap[x] ^ snap[x + w]),
                forall|x: int| jj <= x < size ==> cos@[x] == snap[x],
            decreases i - jj,
        {
            let v = cos[jj] ^ cos[jj + length];
            cos.set(jj, v);
            jj = jj + 1;
        }
        proof {
            assert(cos@ =~= fd_step(snap, i as int));
        }
        i = i + 1;
    }
    proof {
        if size == 0 {
            assert(false);
        }
    }
}

} // verus!


verus! {

/// The `2w`-aligned block around position `i` fits inside a length that
/// `2w` divides, and positions pair up inside it.
pub proof fn lemma_pair_positions(i: int, d: int, len: int)
    requires
        d >= 1,
        0 <= i < len,
        len % (2 * d) == 0,
    ensures
        i % (2 * d) < d ==> ((i + d) % (2 * d) == i % (2 * d) + d && blk(i + d, d) == blk(i, d)
            && i + d < len),
        i % (2 * d) >= d ==> ((i - d) % (2 * d) == i % (2 * d) - d && blk(i - d, d) == blk(i, d)
            && i - d >= 0),
{
    let w = 2 * d;
    let q = i / w;
    let sq = len / w;
    lemma_fundamental_div_mod(i, w);
    lemma_fundamental_div_mod(len, w);
    vstd::arithmetic::mul::lemma_mul_is_commutative(w, q);
    vstd::arithmetic::mul::lemma_mul_is_commutative(w, sq);
    assert(q < sq) by {
        if q >= sq {
            lemma_mul_inequality(sq, q, w);
        }
    }
    assert((q + 1) * w == q * w + w) by {
        vstd::arithmetic::mul::lemma_mul_is_distributive_add_other_way(w, q, 1);
    }
    lemma_mul_inequality(q + 1, sq, w);
    if i % w < d {
        lemma_fundamental_div_mod_converse(i + d, w, q, i % w + d);
    } else {
        lemma_fundamental_div_mod_converse(i - d, w, q, i % w - d);
    }
}

} // verus!

verus! {

/// Law: one inverse butterfly layer undoes the matching forward layer,
/// whatever the tables hold.
pub proof fn lemma_layer_cancel(t: TablesView, s: Seq<u16>, d: int, index: int)
    requires
        d >= 1,
        s.len() as int % (2 * d) == 0,
    ensures
        iafft_layer(t, afft_layer(t, s, d, index), d, index) == s,
{
    let a = afft_layer(t, s, d, index);
    let r = iafft_layer(t, a, d, index);
    assert forall|i: int| 0 <= i < s.len() implies r[i] == s[i] by {
        lemma_pair_positions(i, d, s.len() as int);
        if i % (2 * d) < d {
            let sk = skew_at(t, d, index, i);
            let m = mul_or_zero(t, s[i + d], sk);
            assert(a[i] == (s[i] ^ m));
            assert(a[i + d] == (s[i + d] ^ (s[i] ^ m)));
            lemma_xor_basics(s[i + d], s[i] ^ m);
            assert((a[i + d] ^ a[i]) == s[i + d]);
            assert(r[i] == (a[i] ^ mul_or_zero(t, a[i + d] ^ a[i], sk)));
            lemma_xor_basics(s[i], m);
        } else {
            let sk = skew_at(t, d, index, i - d);
            let m = mul_or_zero(t, s[i], sk);
            assert(a[i - d] == (s[i - d] ^ m));
            assert(a[i] == (s[i] ^ (s[i - d] ^ m)));
            assert(r[i] == (a[i] ^ a[i - d]));
            lemma_xor_basics(s[i], s[i - d] ^ m);
        }
    }
    assert(r =~= s);
}

/// Peeling the last inverse stage off a run of inverse stages.
pub proof fn lemma_iafft_peel(t: TablesView, s: Seq<u16>, lvl: int, top: int, index: int)
    requires
        0 <= lvl <= top,
    ensures
        iafft_stages(t, s, lvl, top + 1, index) == iafft_layer(
            t,
            iafft_stages(t, s, lvl, top, index),
            pow2(top as nat) as int,
            index,
        ),
    decreases top - lvl,
{
    let y = iafft_layer(t, s, pow2(lvl as nat) as int, index);
    if lvl < top {
        lemma_iafft_peel(t, y, lvl + 1, top, index);
    } else {
        assert(iafft_stages(t, s, lvl, top + 1, index) == iafft_stages(t, y, lvl + 1, top + 1, index));
        assert(iafft_stages(t, y, lvl + 1, top + 1, index) == y);
        assert(iafft_stages(t, s, lvl, top, index) == s);
    }
}

/// Law: the run of inverse stages undoes the run of forward stages.
pub proof fn lemma_stages_roundtrip(t: TablesView, s: Seq<u16>, dtop: int, index: int)
    requires
        -1 <= dtop,
        s.len() as int % (pow2((dtop + 1) as nat) as int) == 0,
    ensures
        iafft_stages(t, afft_stages(t, s, dtop, index), 0, dtop + 1, index) == s,
    decreases dtop + 1,
{
    if dtop >= 0 {
        let d = pow2(dtop as nat) as int;
        lemma_pow2_pos(dtop as nat);
        lemma_pow2_unfold((dtop + 1) as nat);
        let y = afft_layer(t, s, d, index);
        assert(y.len() == s.len());
        let w = 2 * d;
        let k = s.len() as int / w;
        lemma_fundamental_div_mod(s.len() as int, w);
        assert(s.len() as int == w * k);
        assert(w * k == (2 * k) * d) by {
            vstd::arithmetic::mul::lemma_mul_is_associative(2, d, k);
            vstd::arithmetic::mul::lemma_mul_is_commutative(d, k);
            vstd::arithmetic::mul::lemma_mul_is_associative(2, k, d);
        }
        lemma_mod_multiples_basic(2 * k, d);
        assert(y.len() as int % d == 0);
        lemma_stages_roundtrip(t, y, dtop - 1, index);
        let z = afft_stages(t, y, dtop - 1, index);
        assert(afft_stages(t, s, dtop, index) == z);
        lemma_iafft_peel(t, z, 0, dtop, index);
        assert(iafft_stages(t, z, 0, dtop + 1, index) == iafft_layer(
            t,
            iafft_stages(t, z, 0, dtop, index),
            d,
            index,
        ));
        lemma_layer_cancel(t, s, d, index);
    }
}

/// Law: the inverse additive FFT undoes the forward additive FFT, for any
/// power-of-two size, any subspace index and any tables.
pub proof fn lemma_afft_roundtrip(t: TablesView, s: Seq<u16>, size: int, index: int)
    requires
        is_pow2(size),
        s.len() == size,
    ensures
        iafft_spec(t, afft_spec(t, s, size, index), size, index) == s,
{
    vstd::arithmetic::div_mod::lemma_mod_self_0(size);
    lemma_stages_roundtrip(t, s, log2s(size) as int - 1, index);
}

} // verus!

verus! {

/// The one-pass fold is congruent to its input modulo `ONEMASK`.
pub proof fn lemma_wfold_cong(x: int)
    requires
        x >= 0,
    ensures
        wfold(x) % 65535 == x % 65535,
{
    lemma_fundamental_div_mod(x, 65536);
    vstd::arithmetic::div_mod::lemma_mod_multiples_vanish(x / 65536, wfold(x), 65535);
}

/// Law (the stridewise half of the Walsh self-duality): one butterfly
/// layer applied twice doubles every entry modulo `ONEMASK`.
pub proof fn lemma_walsh_layer_twice(s: Seq<u16>, d: int)
    requires
        d >= 1,
        s.len() as int % (2 * d) == 0,
    ensures
        forall|i: int|
            0 <= i < s.len() ==> (#[trigger] walsh_layer(walsh_layer(s, d), d)[i]) as int % 65535
                == (2 * s[i]) % 65535,
{
    let l1 = walsh_layer(s, d);
    let l2 = walsh_layer(l1, d);
    assert forall|i: int| 0 <= i < s.len() implies (l2[i]) as int % 65535 == (2 * s[i])
        % 65535 by {
        lemma_pair_positions(i, d, s.len() as int);
        if i % (2 * d) < d {
            let a = s[i] as int;
            let b = s[i + d] as int;
            lemma_wfold_range(a + b);
            lemma_wfold_range(a + 65535 - b);
            lemma_wfold_cong(a + b);
            lemma_wfold_cong(a + 65535 - b);
            lemma_wfold_cong(l1[i] + l1[i + d]);
            assert((l1[i] + l1[i + d]) % 65535 == ((a + b) + (a + 65535 - b)) % 65535) by {
                vstd::arithmetic::div_mod::lemma_add_mod_noop(a + b, a + 65535 - b, 65535);
                vstd::arithmetic::div_mod::lemma_add_mod_noop(
                    l1[i] as int,
                    l1[i + d] as int,
                    65535,
                );
            }
            assert((2 * a + 65535) % 65535 == (2 * a) % 65535) by {
                vstd::arithmetic::div_mod::lemma_mod_add_multiples_vanish(2 * a, 65535);
            }
        } else {
            let a = s[i - d] as int;
            let b = s[i] as int;
            lemma_wfold_range(a + b);
            lemma_wfold_range(a + 65535 - b);
            lemma_wfold_cong(a + b);
            lemma_wfold_cong(a + 65535 - b);
            lemma_wfold_cong(l1[i - d] + 65535 - l1[i]);
            assert((l1[i - d] + 65535 - l1[i]) % 65535 == ((a + b) + 65535 - (a + 65535 - b))
                % 65535) by {
                vstd::arithmetic::div_mod::lemma_sub_mod_noop(
                    l1[i - d] + 65535,
                    l1[i] as int,
                    65535,
                );
                vstd::arithmetic::div_mod::lemma_sub_mod_noop(
                    (a + b) + 65535,
                    a + 65535 - b,
                    65535,
                );
                vstd::arithmetic::div_mod::lemma_add_mod_noop(l1[i - d] as int, 65535, 65535);
                vstd::arithmetic::div_mod::lemma_add_mod_noop(a + b, 65535, 65535);
            }
        }
    }
}

} // verus!

verus! {

/// Pointwise congruence modulo `ONEMASK`: the relation the Walsh
/// transform's representatives are read through.
pub open spec fn cong(s1: Seq<u16>, s2: Seq<u16>) -> bool {
    &&& s1.len() == s2.len()
    &&& forall|i: int|
        0 <= i < s1.len() ==> (#[trigger] s1[i]) as int % 65535 == (#[trigger] s2[i]) as int
            % 65535
}

/// The canonical scaling of a buffer by `c` modulo `ONEMASK`.
pub open spec fn scale_spec(s: Seq<u16>, c: int) -> Seq<u16> {
    Seq::new(s.len(), |i: int| ((c * s[i]) % 65535) as u16)
}

/// A Walsh layer maps congruent buffers to congruent buffers.
pub proof fn lemma_layer_resp(s1: Seq<u16>, s2: Seq<u16>, d: int)
    requires
        cong(s1, s2),
        d >= 1,
        s1.len() as int % (2 * d) == 0,
    ensures
        cong(walsh_layer(s1, d), walsh_layer(s2, d)),
{
    let l1 = walsh_layer(s1, d);
    let l2 = walsh_layer(s2, d);
    assert forall|i: int| 0 <= i < l1.len() implies (l1[i]) as int % 65535 == (l2[i]) as int
        % 65535 by {
        lemma_pair_positions(i, d, s1.len() as int);
        if i % (2 * d) < d {
            lemma_wfold_range(s1[i] + s1[i + d]);
            lemma_wfold_range(s2[i] + s2[i + d]);
            lemma_wfold_cong(s1[i] + s1[i + d]);
            lemma_wfold_cong(s2[i] + s2[i + d]);
            vstd::arithmetic::div_mod::lemma_add_mod_noop(s1[i] as int, s1[i + d] as int, 65535);
            vstd::arithmetic::div_mod::lemma_add_mod_noop(s2[i] as int, s2[i + d] as int, 65535);
        } else {
            lemma_wfold_cong(s1[i - d] + 65535 - s1[i]);
            lemma_wfold_cong(s2[i - d] + 65535 - s2[i]);
            vstd::arithmetic::div_mod::lemma_sub_mod_noop(
                s1[i - d] as int + 65535,
                s1[i] as int,
                65535,
            );
            vstd::arithmetic::div_mod::lemma_sub_mod_noop(
                s2[i - d] as int + 65535,
                s2[i] as int,
                65535,
            );
            vstd::arithmetic::div_mod::lemma_add_mod_noop(s1[i - d] as int, 65535, 65535);
            vstd::arithmetic::div_mod::lemma_add_mod_noop(s2[i - d] as int, 65535, 65535);
        }
    }
}

/// Stepping a position by the smaller stride `d` keeps it inside its
/// `2e`-block and preserves which half of that block it is in.
pub proof fn lemma_small_shift(i: int, d: int, e: int)
    requires
        d >= 1,
        e >= 2 * d,
        e % (2 * d) == 0,
        i >= 0,
    ensures
        i % (2 * d) < d ==> ((i + d) % (2 * e) == i % (2 * e) + d && ((i % (2 * e) < e) <==> (i
            % (2 * e) + d < e))),
        i % (2 * d) >= d ==> (i >= d && (i - d) % (2 * e) == i % (2 * e) - d && ((i % (2 * e) < e)
            <==> (i % (2 * e) - d < e))),
{
    let w = 2 * e;
    let r = i % w;
    lemma_fundamental_div_mod(i, w);
    let q = i / w;
    vstd::arithmetic::mul::lemma_mul_is_commutative(w, q);
    assert(q >= 0) by {
        if q <= -1 {
            lemma_mul_inequality(q, -1, w);
            vstd::arithmetic::mul::lemma_mul_is_commutative(q, w);
        }
    }
    // the low d-structure of i is the low d-structure of its 2e-remainder
    assert(r % (2 * d) == i % (2 * d)) by {
        lemma_two_block_mod(i, d, e);
    }
    let u = r / (2 * d);
    lemma_fundamental_div_mod(r, 2 * d);
    vstd::arithmetic::mul::lemma_mul_is_commutative(2 * d, u);
    assert(u >= 0) by {
        if u <= -1 {
            lemma_mul_inequality(u, -1, 2 * d);
            vstd::arithmetic::mul::lemma_mul_is_commutative(u, 2 * d);
        }
    }
    // u * 2d below e means u * 2d at most e - 2d, as both are multiples
    assert(u * (2 * d) < e ==> u * (2 * d) <= e - 2 * d) by {
        if u * (2 * d) < e {
            lemma_mult_below_multiple(u, 2 * d, e);
        }
    }
    if i % (2 * d) < d {
        assert(r <= w - 2 * d + r % (2 * d)) by {
            vstd::arithmetic::div_mod::lemma_add_mod_noop(e, e, 2 * d);
            lemma_small_mod(0, (2 * d) as nat);
            lemma_small_mod(r as nat, w as nat);
            lemma_mod_bound_step_pub(r, 2 * d, r % (2 * d), w);
        }
        lemma_fundamental_div_mod_converse(i + d, w, q, r + d);
    } else {
        lemma_fundamental_div_mod_converse(i - d, w, q, r - d);
    }
}

/// The remainder by a block size also reduces the remainder by any
/// dividing sub-block size.
pub proof fn lemma_two_block_mod(i: int, d: int, e: int)
    requires
        d >= 1,
        e >= 2 * d,
        e % (2 * d) == 0,
        i >= 0,
    ensures
        (i % (2 * e)) % (2 * d) == i % (2 * d),
{
    lemma_fundamental_div_mod(e, 2 * d);
    let c = e / (2 * d);
    assert(2 * e == (2 * d) * (2 * c)) by {
        vstd::arithmetic::mul::lemma_mul_is_commutative(2 * d, c);
        vstd::arithmetic::mul::lemma_mul_is_distributive_add(2 * d, c, c);
    }
    assert(c >= 1) by {
        if c <= 0 {
            lemma_mul_inequality(c, 0, 2 * d);
            vstd::arithmetic::mul::lemma_mul_is_commutative(c, 2 * d);
        }
    }
    vstd::arithmetic::div_mod::lemma_mod_mod(i, 2 * d, 2 * c);
}

/// A multiple of `w` below another multiple of `w` is at least `w` below.
pub proof fn lemma_mult_below_multiple(u: int, w: int, e: int)
    requires
        w >= 1,
        u >= 0,
        e % w == 0,
        u * w < e,
    ensures
        u * w <= e - w,
{
    lemma_fundamental_div_mod(e, w);
    vstd::arithmetic::mul::lemma_mul_is_commutative(w, e / w);
    assert(u < e / w) by {
        if u >= e / w {
            lemma_mul_inequality(e / w, u, w);
        }
    }
    lemma_mul_inequality(u + 1, e / w, w);
    vstd::arithmetic::mul::lemma_mul_is_distributive_add_other_way(w, u, 1);
}

/// The counter bound of [`lemma_mod_bound_step`] in public form.
pub proof fn lemma_mod_bound_step_pub(j: int, w: int, r: int, s: int)
    requires
        w >= 1,
        0 <= r < w,
        j % w == r,
        s % w == 0,
        0 <= j < s,
    ensures
        j <= s - w + r,
{
    let q = j / w;
    let sq = s / w;
    lemma_fundamental_div_mod(j, w);
    lemma_fundamental_div_mod(s, w);
    vstd::arithmetic::mul::lemma_mul_is_commutative(w, q);
    vstd::arithmetic::mul::lemma_mul_is_commutative(w, sq);
    assert(q < sq) by {
        if q >= sq {
            lemma_mul_inequality(sq, q, w);
        }
    }
    assert(q * w <= (sq - 1) * w) by {
        lemma_mul_inequality(q, sq - 1, w);
    }
    assert((sq - 1) * w == sq * w - w) by {
        vstd::arithmetic::mul::lemma_mul_is_distributive_sub_other_way(w, sq, 1);
    }
}

} // verus!

verus! {

/// Two wfold-reduced values add congruently to their unreduced sources.
proof fn lemma_cong_add(a1: int, a2: int, p1: int, p2: int)
    requires
        a1 % 65535 == p1 % 65535,
        a2 % 65535 == p2 % 65535,
    ensures
        (a1 + a2) % 65535 == (p1 + p2) % 65535,
{
    vstd::arithmetic::div_mod::lemma_add_mod_noop(a1, a2, 65535);
    vstd::arithmetic::div_mod::lemma_add_mod_noop(p1, p2, 65535);
}

/// A wfold-reduced value subtracts congruently under the `+ ONEMASK -`
/// pattern the butterflies use.
proof fn lemma_cong_sub(a1: int, a2: int, p1: int, p2: int)
    requires
        a1 % 65535 == p1 % 65535,
        a2 % 65535 == p2 % 65535,
    ensures
        (a1 + 65535 - a2) % 65535 == (p1 + 65535 - p2) % 65535,
{
    vstd::arithmetic::div_mod::lemma_add_mod_noop(a1, 65535, 65535);
    vstd::arithmetic::div_mod::lemma_add_mod_noop(p1, 65535, 65535);
    vstd::arithmetic::div_mod::lemma_sub_mod_noop(a1 + 65535, a2, 65535);
    vstd::arithmetic::div_mod::lemma_sub_mod_noop(p1 + 65535, p2, 65535);
}

/// Integer expressions that differ by a multiple of `ONEMASK` are
/// congruent.
proof fn lemma_cong_shift(x: int, k: int)
    ensures
        (x + k * 65535) % 65535 == x % 65535,
{
    vstd::arithmetic::mul::lemma_mul_is_commutative(k, 65535);
    vstd::arithmetic::div_mod::lemma_mod_multiples_vanish(k, x, 65535);
}

/// Law: butterfly layers at different strides commute modulo `ONEMASK`.
pub proof fn lemma_layer_commute(s: Seq<u16>, d: int, e: int)
    requires
        d >= 1,
        e >= 2 * d,
        e % (2 * d) == 0,
        s.len() as int % (2 * e) == 0,
    ensures
        cong(walsh_layer(walsh_layer(s, d), e), walsh_layer(walsh_layer(s, e), d)),
{
    let len = s.len() as int;
    let a = walsh_layer(s, d);
    let b = walsh_layer(s, e);
    let lhs = walsh_layer(a, e);
    let rhs = walsh_layer(b, d);
    assert(len % (2 * d) == 0) by {
        lemma_two_block_mod(len, d, e);
        lemma_small_mod(0, (2 * d) as nat);
    }
    assert forall|i: int| 0 <= i < len implies (lhs[i]) as int % 65535 == (rhs[i]) as int
        % 65535 by {
        lemma_pair_positions(i, d, len);
        lemma_pair_positions(i, e, len);
        lemma_small_shift(i, d, e);
        let c = e / (2 * d);
        lemma_fundamental_div_mod(e, 2 * d);
        vstd::arithmetic::mul::lemma_mul_is_commutative(2 * d, c);
        if i % (2 * d) < d {
            if i % (2 * e) < e {
                // both low: four sources i, i+d, i+e, i+d+e
                lemma_pair_positions(i + d, e, len);
                assert((i + e) % (2 * d) == i % (2 * d)) by {
                    vstd::arithmetic::div_mod::lemma_mod_multiples_vanish(c, i, 2 * d);
                }
                lemma_wfold_range(s[i] + s[i + d]);
                lemma_wfold_range(s[i + e] + s[i + d + e]);
                lemma_wfold_range(s[i] + s[i + e]);
                lemma_wfold_range(s[i + d] + s[i + d + e]);
                lemma_wfold_cong(s[i] + s[i + d]);
                lemma_wfold_cong(s[i + e] + s[i + d + e]);
                lemma_wfold_cong(s[i] + s[i + e]);
                lemma_wfold_cong(s[i + d] + s[i + d + e]);
                lemma_wfold_cong(a[i] + a[i + e]);
                lemma_wfold_cong(b[i] + b[i + d]);
                lemma_cong_add(
                    a[i] as int,
                    a[i + e] as int,
                    s[i] + s[i + d],
                    s[i + e] + s[i + d + e],
                );
                lemma_cong_add(
                    b[i] as int,
                    b[i + d] as int,
                    s[i] + s[i + e],
                    s[i + d] + s[i + d + e],
                );
            } else {
                // low in d, high in e: sources i-e, i-e+d, i, i+d
                lemma_pair_positions(i - e, d, len);
                assert((i - e) % (2 * d) == i % (2 * d)) by {
                    assert((2 * d) * (-c) == -((2 * d) * c)) by {
                        vstd::arithmetic::mul::lemma_mul_unary_negation(2 * d, c);
                        vstd::arithmetic::mul::lemma_mul_is_commutative(2 * d, c);
                        vstd::arithmetic::mul::lemma_mul_is_commutative(-c, 2 * d);
                        vstd::arithmetic::mul::lemma_mul_is_commutative(c, 2 * d);
                    }
                    vstd::arithmetic::div_mod::lemma_mod_multiples_vanish(-c, i, 2 * d);
                }
                lemma_wfold_range(s[i - e] + s[i - e + d]);
                lemma_wfold_range(s[i] + s[i + d]);
                lemma_wfold_cong(s[i - e] + s[i - e + d]);
                lemma_wfold_cong(s[i] + s[i + d]);
                lemma_wfold_cong(s[i - e] + 65535 - s[i]);
                lemma_wfold_cong(s[i - e + d] + 65535 - s[i + d]);
                lemma_wfold_cong(a[i - e] + 65535 - a[i]);
                lemma_wfold_cong(b[i] + b[i + d]);
                lemma_cong_sub(
                    a[i - e] as int,
                    a[i] as int,
                    s[i - e] + s[i - e + d],
                    s[i] + s[i + d],
                );
                lemma_cong_add(
                    b[i] as int,
                    b[i + d] as int,
                    s[i - e] + 65535 - s[i],
                    s[i - e + d] + 65535 - s[i + d],
                );
                lemma_cong_shift(s[i - e] + s[i - e + d] + 65535 - s[i] - s[i + d], 1);
            }
        } else {
            if i % (2 * e) < e {
                // high in d, low in e: sources i-d, i, i-d+e, i+e
                lemma_pair_positions(i - d, e, len);
                assert((i + e) % (2 * d) == i % (2 * d)) by {
                    vstd::arithmetic::div_mod::lemma_mod_multiples_vanish(c, i, 2 * d);
                }
                lemma_wfold_range(s[i] + s[i + e]);
                lemma_wfold_range(s[i - d] + s[i - d + e]);
                lemma_wfold_cong(s[i - d] + 65535 - s[i]);
                lemma_wfold_cong(s[i - d + e] + 65535 - s[i + e]);
                lemma_wfold_cong(s[i] + s[i + e]);
                lemma_wfold_cong(s[i - d] + s[i - d + e]);
                lemma_wfold_cong(a[i] + a[i + e]);
                lemma_wfold_cong(b[i - d] + 65535 - b[i]);
                lemma_cong_add(
                    a[i] as int,
                    a[i + e] as int,
                    s[i - d] + 65535 - s[i],
                    s[i - d + e] + 65535 - s[i + e],
                );
                lemma_cong_sub(
                    b[i - d] as int,
                    b[i] as int,
                    s[i - d] + s[i - d + e],
                    s[i] + s[i + e],
                );
                lemma_cong_shift(s[i - d] + s[i - d + e] + 65535 - s[i] - s[i + e], 1);
            } else {
                // both high: sources i-d-e, i-e, i-d, i
                lemma_pair_positions(i - e, d, len);
                assert((i - e) % (2 * d) == i % (2 * d)) by {
                    assert((2 * d) * (-c) == -((2 * d) * c)) by {
                        vstd::arithmetic::mul::lemma_mul_unary_negation(2 * d, c);
                        vstd::arithmetic::mul::lemma_mul_is_commutative(2 * d, c);
                        vstd::arithmetic::mul::lemma_mul_is_commutative(-c, 2 * d);
                        vstd::arithmetic::mul::lemma_mul_is_commutative(c, 2 * d);
                    }
                    vstd::arithmetic::div_mod::lemma_mod_multiples_vanish(-c, i, 2 * d);
                }
                lemma_wfold_cong(s[i - e - d] + 65535 - s[i - e]);
                lemma_wfold_cong(s[i - d] + 65535 - s[i]);
                lemma_wfold_cong(s[i - d - e] + 65535 - s[i - d]);
                lemma_wfold_cong(s[i - e] + 65535 - s[i]);
                lemma_wfold_cong(a[i - e] + 65535 - a[i]);
                lemma_wfold_cong(b[i - d] + 65535 - b[i]);
                lemma_cong_sub(
                    a[i - e] as int,
                    a[i] as int,
                    s[i - e - d] + 65535 - s[i - e],
                    s[i - d] + 65535 - s[i],
                );
                lemma_cong_sub(
                    b[i - d] as int,
                    b[i] as int,
                    s[i - d - e] + 65535 - s[i - d],
                    s[i - e] + 65535 - s[i],
                );
            }
        }
    }
}

} // verus!

verus! {

/// Congruence is transitive.
proof fn lemma_cong_trans(a: Seq<u16>, b: Seq<u16>, c: Seq<u16>)
    requires
        cong(a, b),
        cong(b, c),
    ensures
        cong(a, c),
{
    assert forall|i: int| 0 <= i < a.len() implies (a[i]) as int % 65535 == (c[i]) as int
        % 65535 by {
        assert((a[i]) as int % 65535 == (b[i]) as int % 65535);
        assert((b[i]) as int % 65535 == (c[i]) as int % 65535);
    }
}

/// Scaling maps congruent buffers to congruent buffers.
proof fn lemma_scale_resp(s1: Seq<u16>, s2: Seq<u16>, c: int)
    requires
        cong(s1, s2),
    ensures
        cong(scale_spec(s1, c), scale_spec(s2, c)),
{
    assert forall|i: int| 0 <= i < s1.len() implies (scale_spec(s1, c)[i]) as int % 65535 == (
    scale_spec(s2, c)[i]) as int % 65535 by {
        vstd::arithmetic::div_mod::lemma_mul_mod_noop_right(c, s1[i] as int, 65535);
        vstd::arithmetic::div_mod::lemma_mul_mod_noop_right(c, s2[i] as int, 65535);
        vstd::arithmetic::div_mod::lemma_mod_twice(c * (s1[i] as int), 65535);
        vstd::arithmetic::div_mod::lemma_mod_twice(c * (s2[i] as int), 65535);
    }
}

/// Two scalings compose into one.
proof fn lemma_scale_compose(s: Seq<u16>, c1: int, c2: int)
    ensures
        cong(scale_spec(scale_spec(s, c1), c2), scale_spec(s, c1 * c2)),
{
    assert forall|i: int| 0 <= i < s.len() implies (scale_spec(scale_spec(s, c1), c2)[i]) as int
        % 65535 == (scale_spec(s, c1 * c2)[i]) as int % 65535 by {
        vstd::arithmetic::div_mod::lemma_mul_mod_noop_right(c2, c1 * (s[i] as int), 65535);
        vstd::arithmetic::mul::lemma_mul_is_associative(c2, c1, s[i] as int);
        vstd::arithmetic::mul::lemma_mul_is_commutative(c2, c1);
        vstd::arithmetic::div_mod::lemma_mod_twice(c2 * (c1 * (s[i] as int)), 65535);
        vstd::arithmetic::div_mod::lemma_mod_twice((c1 * c2) * (s[i] as int), 65535);
    }
}

/// Scaling by one changes nothing modulo `ONEMASK`.
proof fn lemma_scale_one(s: Seq<u16>)
    ensures
        cong(scale_spec(s, 1), s),
{
    assert forall|i: int| 0 <= i < s.len() implies (scale_spec(s, 1)[i]) as int % 65535 == (
    s[i]) as int % 65535 by {
        vstd::arithmetic::div_mod::lemma_mod_twice(s[i] as int, 65535);
    }
}

/// A butterfly layer commutes with scaling modulo `ONEMASK`.
proof fn lemma_layer_scale(s: Seq<u16>, d: int, c: int)
    requires
        d >= 1,
        s.len() as int % (2 * d) == 0,
    ensures
        cong(walsh_layer(scale_spec(s, c), d), scale_spec(walsh_layer(s, d), c)),
{
    let sc = scale_spec(s, c);
    let lhs = walsh_layer(sc, d);
    let rhs = scale_spec(walsh_layer(s, d), c);
    assert forall|i: int| 0 <= i < s.len() implies (lhs[i]) as int % 65535 == (rhs[i]) as int
        % 65535 by {
        lemma_pair_positions(i, d, s.len() as int);
        if i % (2 * d) < d {
            lemma_wfold_range(s[i] + s[i + d]);
            lemma_wfold_cong(sc[i] + sc[i + d]);
            lemma_cong_add(
                sc[i] as int,
                sc[i + d] as int,
                c * (s[i] as int),
                c * (s[i + d] as int),
            );
            vstd::arithmetic::div_mod::lemma_mod_twice(c * (s[i] as int), 65535);
            vstd::arithmetic::div_mod::lemma_mod_twice(c * (s[i + d] as int), 65535);
            vstd::arithmetic::mul::lemma_mul_is_distributive_add(c, s[i] as int, s[i + d] as int);
            vstd::arithmetic::div_mod::lemma_mul_mod_noop_right(
                c,
                wfold(s[i] + s[i + d]),
                65535,
            );
            vstd::arithmetic::div_mod::lemma_mul_mod_noop_right(c, s[i] + s[i + d], 65535);
            lemma_wfold_cong(s[i] + s[i + d]);
            vstd::arithmetic::div_mod::lemma_mod_twice(c * (s[i] + s[i + d]), 65535);
        } else {
            lemma_wfold_cong(sc[i - d] + 65535 - sc[i]);
            lemma_cong_sub(
                sc[i - d] as int,
                sc[i] as int,
                c * (s[i - d] as int),
                c * (s[i] as int),
            );
            vstd::arithmetic::div_mod::lemma_mod_twice(c * (s[i - d] as int), 65535);
            vstd::arithmetic::div_mod::lemma_mod_twice(c * (s[i] as int), 65535);
            vstd::arithmetic::mul::lemma_mul_is_distributive_sub(c, s[i - d] as int + 65535, s[i] as int);
            vstd::arithmetic::mul::lemma_mul_is_distributive_add(c, s[i - d] as int, 65535);
            vstd::arithmetic::div_mod::lemma_mul_mod_noop_right(
                c,
                wfold(s[i - d] + 65535 - s[i]),
                65535,
            );
            vstd::arithmetic::div_mod::lemma_mul_mod_noop_right(
                c,
                s[i - d] + 65535 - s[i],
                65535,
            );
            lemma_wfold_cong(s[i - d] + 65535 - s[i]);
            vstd::arithmetic::div_mod::lemma_mod_twice(c * (s[i - d] + 65535 - s[i]), 65535);
            // the two sides differ by (c - 1) copies of ONEMASK
            assert((c * (s[i - d] as int) + 65535 - c * (s[i] as int)) % 65535 == (c * (s[i
                - d] as int) - c * (s[i] as int) + 65535 * 1) % 65535);
            lemma_cong_shift(c * (s[i - d] as int) - c * (s[i] as int), 1);
            lemma_cong_shift(c * (s[i - d] as int) - c * (s[i] as int), c);
        }
    }
}

} // verus!

verus! {

/// The strides of stages `lvl..maxlvl` all divide a length that
/// `pow2(maxlvl)` divides.
proof fn lemma_stage_stride_divides(len: int, lvl: int, maxlvl: int)
    requires
        0 <= lvl < maxlvl,
        len % (pow2(maxlvl as nat) as int) == 0,
    ensures
        len % (2 * pow2(lvl as nat) as int) == 0,
        pow2(lvl as nat) >= 1,
{
    lemma_pow2_pos(lvl as nat);
    lemma_pow2_unfold((lvl + 1) as nat);
    lemma_pow2_divides((lvl + 1) as nat, maxlvl as nat);
    let p = pow2((lvl + 1) as nat) as int;
    let q = pow2(maxlvl as nat) as int;
    lemma_pow2_pos((lvl + 1) as nat);
    lemma_pow2_pos(maxlvl as nat);
    lemma_fundamental_div_mod(q, p);
    lemma_fundamental_div_mod(len, q);
    assert(len == (p * (q / p)) * (len / q)) by {
        vstd::arithmetic::mul::lemma_mul_is_commutative(q, len / q);
        vstd::arithmetic::mul::lemma_mul_is_commutative(p, q / p);
    }
    assert(len == p * ((q / p) * (len / q))) by {
        vstd::arithmetic::mul::lemma_mul_is_associative(p, q / p, len / q);
    }
    assert(len % p == 0) by {
        vstd::arithmetic::mul::lemma_mul_is_commutative(p, (q / p) * (len / q));
        lemma_mod_multiples_basic((q / p) * (len / q), p);
    }
}

/// The Walsh stages keep the buffer length.
proof fn lemma_stages_len(s: Seq<u16>, lvl: int, maxlvl: int)
    ensures
        walsh_stages(s, lvl, maxlvl).len() == s.len(),
    decreases maxlvl - lvl,
{
    if lvl < maxlvl {
        lemma_stages_len(walsh_layer(s, pow2(lvl as nat) as int), lvl + 1, maxlvl);
    }
}

/// The Walsh stages map congruent buffers to congruent buffers.
proof fn lemma_stages_resp(s1: Seq<u16>, s2: Seq<u16>, lvl: int, maxlvl: int)
    requires
        cong(s1, s2),
        0 <= lvl <= maxlvl,
        s1.len() as int % (pow2(maxlvl as nat) as int) == 0,
    ensures
        cong(walsh_stages(s1, lvl, maxlvl), walsh_stages(s2, lvl, maxlvl)),
    decreases maxlvl - lvl,
{
    if lvl < maxlvl {
        let d = pow2(lvl as nat) as int;
        lemma_stage_stride_divides(s1.len() as int, lvl, maxlvl);
        lemma_layer_resp(s1, s2, d);
        lemma_stages_resp(walsh_layer(s1, d), walsh_layer(s2, d), lvl + 1, maxlvl);
    }
}

/// The Walsh stages commute with scaling modulo `ONEMASK`.
proof fn lemma_stages_scale(s: Seq<u16>, lvl: int, maxlvl: int, c: int)
    requires
        0 <= lvl <= maxlvl,
        s.len() as int % (pow2(maxlvl as nat) as int) == 0,
    ensures
        cong(
            walsh_stages(scale_spec(s, c), lvl, maxlvl),
            scale_spec(walsh_stages(s, lvl, maxlvl), c),
        ),
    decreases maxlvl - lvl,
{
    if lvl < maxlvl {
        let d = pow2(lvl as nat) as int;
        lemma_stage_stride_divides(s.len() as int, lvl, maxlvl);
        lemma_layer_scale(s, d, c);
        lemma_stages_resp(
            walsh_layer(scale_spec(s, c), d),
            scale_spec(walsh_layer(s, d), c),
            lvl + 1,
            maxlvl,
        );
        lemma_stages_scale(walsh_layer(s, d), lvl + 1, maxlvl, c);
        lemma_cong_trans(
            walsh_stages(walsh_layer(scale_spec(s, c), d), lvl + 1, maxlvl),
            walsh_stages(scale_spec(walsh_layer(s, d), c), lvl + 1, maxlvl),
            scale_spec(walsh_stages(walsh_layer(s, d), lvl + 1, maxlvl), c),
        );
    }
}

/// The layer at a stride below the remaining stages commutes past all of
/// them modulo `ONEMASK`.
proof fn lemma_layer_through_stages(s: Seq<u16>, lvl: int, j: int, maxlvl: int)
    requires
        0 <= lvl < j <= maxlvl,
        s.len() as int % (pow2(maxlvl as nat) as int) == 0,
    ensures
        cong(
            walsh_layer(walsh_stages(s, j, maxlvl), pow2(lvl as nat) as int),
            walsh_stages(walsh_layer(s, pow2(lvl as nat) as int), j, maxlvl),
        ),
    decreases maxlvl - j,
{
    let d = pow2(lvl as nat) as int;
    lemma_pow2_pos(lvl as nat);
    if j == maxlvl {
        let r = walsh_layer(walsh_stages(s, j, maxlvl), d);
        assert(cong(r, r));
    } else {
        let e = pow2(j as nat) as int;
        lemma_stage_stride_divides(s.len() as int, j, maxlvl);
        lemma_stage_stride_divides(s.len() as int, lvl, maxlvl);
        assert(e >= 2 * d && e % (2 * d) == 0) by {
            lemma_pow2_unfold((lvl + 1) as nat);
            lemma_pow2_divides((lvl + 1) as nat, j as nat);
            if lvl + 1 < j {
                lemma_pow2_strictly_increases((lvl + 1) as nat, j as nat);
            }
        }
        lemma_layer_commute(s, d, e);
        lemma_layer_through_stages(walsh_layer(s, e), lvl, j + 1, maxlvl);
        lemma_stages_resp(
            walsh_layer(walsh_layer(s, d), e),
            walsh_layer(walsh_layer(s, e), d),
            j + 1,
            maxlvl,
        );
        lemma_cong_trans(
            walsh_layer(walsh_stages(s, j, maxlvl), d),
            walsh_stages(walsh_layer(walsh_layer(s, e), d), j + 1, maxlvl),
            walsh_stages(walsh_layer(walsh_layer(s, d), e), j + 1, maxlvl),
        );
    }
}

/// Law: the Walsh stages applied twice scale every entry by two to the
/// number of stages, modulo `ONEMASK`.
proof fn lemma_double_stages(s: Seq<u16>, lvl: int, maxlvl: int)
    requires
        0 <= lvl <= maxlvl,
        s.len() as int % (pow2(maxlvl as nat) as int) == 0,
    ensures
        cong(
            walsh_stages(walsh_stages(s, lvl, maxlvl), lvl, maxlvl),
            scale_spec(s, pow2((maxlvl - lvl) as nat) as int),
        ),
    decreases maxlvl - lvl,
{
    if lvl == maxlvl {
        vstd::arithmetic::power2::lemma2_to64();
        lemma_scale_one(s);
        assert(cong(scale_spec(s, 1), s));
        assert forall|i: int| 0 <= i < s.len() implies (s[i]) as int % 65535 == (scale_spec(
            s,
            1,
        )[i]) as int % 65535 by {
            vstd::arithmetic::div_mod::lemma_mod_twice(s[i] as int, 65535);
        }
    } else {
        let d = pow2(lvl as nat) as int;
        let ls = walsh_layer(s, d);
        lemma_stage_stride_divides(s.len() as int, lvl, maxlvl);
        lemma_stages_len(ls, lvl + 1, maxlvl);
        lemma_stages_len(s, lvl + 1, maxlvl);
        lemma_stages_len(walsh_layer(ls, d), lvl + 1, maxlvl);
        lemma_stages_len(scale_spec(s, 2), lvl + 1, maxlvl);
        lemma_stages_len(scale_spec(walsh_stages(s, lvl + 1, maxlvl), 2), lvl + 1, maxlvl);
        lemma_stages_len(walsh_stages(s, lvl + 1, maxlvl), lvl + 1, maxlvl);
        // move the inner low-stride layer out through the later stages
        lemma_layer_through_stages(ls, lvl, lvl + 1, maxlvl);
        lemma_stages_resp(
            walsh_layer(walsh_stages(ls, lvl + 1, maxlvl), d),
            walsh_stages(walsh_layer(ls, d), lvl + 1, maxlvl),
            lvl + 1,
            maxlvl,
        );
        // the doubled low-stride layer is a doubling
        lemma_walsh_layer_twice(s, d);
        assert(cong(walsh_layer(ls, d), scale_spec(s, 2))) by {
            assert forall|i: int| 0 <= i < s.len() implies (walsh_layer(ls, d)[i]) as int % 65535
                == (scale_spec(s, 2)[i]) as int % 65535 by {
                vstd::arithmetic::div_mod::lemma_mod_twice(2 * (s[i] as int), 65535);
            }
        }
        lemma_stages_resp(walsh_layer(ls, d), scale_spec(s, 2), lvl + 1, maxlvl);
        lemma_stages_resp(
            walsh_stages(walsh_layer(ls, d), lvl + 1, maxlvl),
            walsh_stages(scale_spec(s, 2), lvl + 1, maxlvl),
            lvl + 1,
            maxlvl,
        );
        // push the factor of two out of both stage runs
        lemma_stages_scale(s, lvl + 1, maxlvl, 2);
        lemma_stages_resp(
            walsh_stages(scale_spec(s, 2), lvl + 1, maxlvl),
            scale_spec(walsh_stages(s, lvl + 1, maxlvl), 2),
            lvl + 1,
            maxlvl,
        );
        lemma_stages_scale(walsh_stages(s, lvl + 1, maxlvl), lvl + 1, maxlvl, 2);
        lemma_stages_resp(
            walsh_stages(scale_spec(walsh_stages(s, lvl + 1, maxlvl), 2), lvl + 1, maxlvl),
            scale_spec(walsh_stages(walsh_stages(s, lvl + 1, maxlvl), lvl + 1, maxlvl), 2),
            lvl + 1,
            maxlvl,
        );
        // ... and finish with the one-fewer-stages case
        lemma_double_stages(s, lvl + 1, maxlvl);
        lemma_scale_resp(
            walsh_stages(walsh_stages(s, lvl + 1, maxlvl), lvl + 1, maxlvl),
            scale_spec(s, pow2((maxlvl - lvl - 1) as nat) as int),
            2,
        );
        lemma_scale_compose(s, pow2((maxlvl - lvl - 1) as nat) as int, 2);
        lemma_pow2_unfold((maxlvl - lvl) as nat);
        vstd::arithmetic::mul::lemma_mul_is_commutative(
            pow2((maxlvl - lvl - 1) as nat) as int,
            2,
        );
        let w1 = walsh_stages(walsh_stages(s, lvl, maxlvl), lvl, maxlvl);
        let inner = walsh_stages(s, lvl + 1, maxlvl);
        let a1 = walsh_stages(walsh_layer(walsh_stages(ls, lvl + 1, maxlvl), d), lvl + 1, maxlvl);
        let a2 = walsh_stages(walsh_stages(walsh_layer(ls, d), lvl + 1, maxlvl), lvl + 1, maxlvl);
        let a3 = walsh_stages(walsh_stages(scale_spec(s, 2), lvl + 1, maxlvl), lvl + 1, maxlvl);
        let a4 = walsh_stages(scale_spec(inner, 2), lvl + 1, maxlvl);
        let a5 = scale_spec(walsh_stages(inner, lvl + 1, maxlvl), 2);
        let a6 = scale_spec(scale_spec(s, pow2((maxlvl - lvl - 1) as nat) as int), 2);
        let goal = scale_spec(s, pow2((maxlvl - lvl) as nat) as int);
        assert(w1 == a1);
        lemma_cong_trans(a1, a2, a3);
        lemma_cong_trans(a1, a3, a4);
        lemma_cong_trans(a1, a4, a5);
        lemma_cong_trans(a1, a5, a6);
        lemma_cong_trans(a1, a6, goal);
    }
}

/// Law (the Walsh self-duality): applying the Walsh transform twice to a
/// power-of-two-sized buffer scales every entry by the buffer's length
/// modulo `ONEMASK`.
pub proof fn lemma_walsh_self_dual(s: Seq<u16>, size: int)
    requires
        is_pow2(size),
        s.len() == size,
    ensures
        forall|i: int|
            0 <= i < size ==> (#[trigger] walsh_spec(walsh_spec(s, size), size)[i]) as int % 65535
                == (size * s[i]) % 65535,
{
    let maxlvl = log2s(size) as int;
    vstd::arithmetic::div_mod::lemma_mod_self_0(size);
    lemma_double_stages(s, 0, maxlvl);
    assert forall|i: int| 0 <= i < size implies (walsh_spec(walsh_spec(s, size), size)[i]) as int
        % 65535 == (size * s[i]) % 65535 by {
        assert((walsh_spec(walsh_spec(s, size), size)[i]) as int % 65535 == (scale_spec(
            s,
            size,
        )[i]) as int % 65535);
        vstd::arithmetic::div_mod::lemma_mod_twice(size * (s[i] as int), 65535);
    }
}

} // verus!

verus! {

/// The all-zero buffer of a given length.
pub open spec fn zero_seq(n: int) -> Seq<u16> {
    Seq::new(n as nat, |i: int| 0u16)
}

/// A forward butterfly layer carries the all-zero buffer to itself.
proof fn lemma_afft_layer_zero(t: TablesView, d: int, index: int, n: int)
    requires
        d >= 1,
        n >= 0,
        n % (2 * d) == 0,
    ensures
        afft_layer(t, zero_seq(n), d, index) == zero_seq(n),
        iafft_layer(t, zero_seq(n), d, index) == zero_seq(n),
{
    let z = zero_seq(n);
    assert forall|i: int| 0 <= i < n implies afft_layer(t, z, d, index)[i] == 0u16
        && iafft_layer(t, z, d, index)[i] == 0u16 by {
        lemma_pair_positions(i, d, n);
        lemma_xor_basics(0, 0);
    }
    assert(afft_layer(t, z, d, index) =~= z);
    assert(iafft_layer(t, z, d, index) =~= z);
}

/// The forward stages carry the all-zero buffer to itself.
proof fn lemma_afft_stages_zero(t: TablesView, dlvl: int, index: int, n: int)
    requires
        -1 <= dlvl,
        n >= 0,
        n % (pow2((dlvl + 1) as nat) as int) == 0,
    ensures
        afft_stages(t, zero_seq(n), dlvl, index) == zero_seq(n),
    decreases dlvl + 1,
{
    if dlvl >= 0 {
        let d = pow2(dlvl as nat) as int;
        lemma_pow2_pos(dlvl as nat);
        lemma_pow2_unfold((dlvl + 1) as nat);
        lemma_afft_layer_zero(t, d, index, n);
        if dlvl >= 1 {
            lemma_pow2_divides(dlvl as nat, (dlvl + 1) as nat);
            lemma_mod_chain_divides(
                n,
                pow2(dlvl as nat) as int,
                pow2((dlvl + 1) as nat) as int,
            );
        } else {
            vstd::arithmetic::power2::lemma2_to64();
            lemma_mod_multiples_basic(n, 1);
        }
        lemma_afft_stages_zero(t, dlvl - 1, index, n);
    }
}

/// The inverse stages carry the all-zero buffer to itself.
proof fn lemma_iafft_stages_zero(t: TablesView, lvl: int, maxlvl: int, index: int, n: int)
    requires
        0 <= lvl <= maxlvl,
        n >= 0,
        n % (pow2(maxlvl as nat) as int) == 0,
    ensures
        iafft_stages(t, zero_seq(n), lvl, maxlvl, index) == zero_seq(n),
    decreases maxlvl - lvl,
{
    if lvl < maxlvl {
        let d = pow2(lvl as nat) as int;
        lemma_pow2_pos(lvl as nat);
        lemma_pow2_unfold((lvl + 1) as nat);
        lemma_pow2_divides((lvl + 1) as nat, maxlvl as nat);
        lemma_pow2_pos((lvl + 1) as nat);
        lemma_pow2_pos(maxlvl as nat);
        lemma_mod_chain_divides(n, pow2((lvl + 1) as nat) as int, pow2(maxlvl as nat) as int);
        lemma_afft_layer_zero(t, d, index, n);
        lemma_iafft_stages_zero(t, lvl + 1, maxlvl, index, n);
    }
}

/// Divisibility chains down: a divisor of a divisor of `n` divides `n`.
proof fn lemma_mod_chain_divides(n: int, p: int, q: int)
    requires
        p >= 1,
        q >= 1,
        n % q == 0,
        q % p == 0,
    ensures
        n % p == 0,
{
    lemma_fundamental_div_mod(n, q);
    lemma_fundamental_div_mod(q, p);
    let nq = n / q;
    let qp = q / p;
    assert(n == (p * qp) * nq) by {
        vstd::arithmetic::mul::lemma_mul_is_commutative(q, nq);
        vstd::arithmetic::mul::lemma_mul_is_commutative(p, qp);
    }
    assert(n == p * (qp * nq)) by {
        vstd::arithmetic::mul::lemma_mul_is_associative(p, qp, nq);
    }
    assert(n % p == 0) by {
        vstd::arithmetic::mul::lemma_mul_is_commutative(p, qp * nq);
        lemma_mod_multiples_basic(qp * nq, p);
    }
}

/// Law: both additive transforms carry the all-zero buffer to itself.
/// With XOR addition every element is self-inverse, so the transform of a
/// buffer added to itself is the all-zero buffer again.
pub proof fn lemma_afft_of_zero(t: TablesView, size: int, index: int)
    requires
        is_pow2(size),
    ensures
        afft_spec(t, zero_seq(size), size, index) == zero_seq(size),
        iafft_spec(t, zero_seq(size), size, index) == zero_seq(size),
{
    vstd::arithmetic::div_mod::lemma_mod_self_0(size);
    lemma_afft_stages_zero(t, log2s(size) as int - 1, index, size);
    lemma_iafft_stages_zero(t, 0, log2s(size) as int, index, size);
}

} // verus!

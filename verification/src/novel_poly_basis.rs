//! The Reed-Solomon codec itself: parameter rounding, the systematic
//! encoder over the additive FFT, the erasure decoder, and the striping of
//! payload bytes across shards.

use vstd::prelude::*;
use vstd::arithmetic::power2::pow2;
use vstd::arithmetic::power2::lemma_pow2_pos;
use vstd::arithmetic::power2::lemma2_to64;
use vstd::arithmetic::div_mod::lemma_fundamental_div_mod;
use vstd::arithmetic::div_mod::lemma_fundamental_div_mod_converse;
use vstd::arithmetic::div_mod::lemma_small_mod;
use vstd::arithmetic::div_mod::lemma_mod_add_multiples_vanish;
use crate::errors::Error;
use crate::f2e16::{Tables, TablesView, mul_spec, mul_elt};
use crate::shard::Shard;
use crate::tables::zero_vec;
use crate::transforms::{
    afft, afft_spec, fd_spec, formal_derivative, inverse_afft, iafft_spec, is_pow2, log2s, walsh,
    walsh_spec,
};

verus! {

/// The symbol at index `j` of a zero-padded byte stripe: bytes `2j` and
/// `2j + 1` read big-endian, absent bytes read as zero.
pub open spec fn sym_at(piece: Seq<u8>, j: int) -> u16 {
    (((if 2 * j < piece.len() {
        piece[2 * j] as int
    } else {
        0
    }) * 256 + (if 2 * j + 1 < piece.len() {
        piece[2 * j + 1] as int
    } else {
        0
    })) as u16)
}

/// A byte stripe widened to `n` symbols.
pub open spec fn stripe_symbols(piece: Seq<u8>, n: int) -> Seq<u16> {
    Seq::new(n as nat, |j: int| sym_at(piece, j))
}

/// What the low-rate systematic encoder produces: the data itself on the
/// first `k` positions, and on every later `k`-block the forward transform,
/// shifted to that block, of the inverse transform of the first `k` symbols.
pub open spec fn encode_low_spec(t: TablesView, k: int, n: int, data: Seq<u16>) -> Seq<u16> {
    let ia = iafft_spec(t, data.take(k), k, 0);
    Seq::new(
        n as nat,
        |i: int|
            if i < k {
                data[i]
            } else {
                afft_spec(t, ia, k, (i / k) * k)[i % k]
            },
    )
}

/// One stripe's codeword: its zero-padded symbols through the encoder.
pub open spec fn encode_sub_spec(t: TablesView, k: int, n: int, piece: Seq<u8>) -> Seq<u16> {
    encode_low_spec(t, k, n, stripe_symbols(piece, n))
}

/// Bytes per shard for a payload of `l` bytes: the payload's symbol count,
/// split over `k` data shards, rounded up to whole symbols.
pub open spec fn shard_len_spec(l: int, k: int) -> int {
    (((l + 1) / 2 + k - 1) / k) * 2
}

/// The `2k`-byte stripe at index `s` of a payload.
pub open spec fn stripe_of(bytes: Seq<u8>, k: int, s: int) -> Seq<u8> {
    bytes.subrange(
        2 * k * s,
        if 2 * k * s + 2 * k <= bytes.len() {
            2 * k * s + 2 * k
        } else {
            bytes.len() as int
        },
    )
}

/// Byte `bidx` of shard `v`: one half of symbol `v` of the codeword of
/// stripe `bidx / 2`, high half first.
pub open spec fn shard_byte_spec(
    t: TablesView,
    k: int,
    n: int,
    bytes: Seq<u8>,
    v: int,
    bidx: int,
) -> u8 {
    let cw = encode_sub_spec(t, k, n, stripe_of(bytes, k, bidx / 2));
    if bidx % 2 == 0 {
        (cw[v] >> 8) as u8
    } else {
        (cw[v] & 0xFF) as u8
    }
}

/// The erasure-code descriptor: the caller's shard count, its power-of-two
/// rounding, and the power-of-two data-shard count.
#[derive(Clone, Copy, Debug, PartialEq, Eq, Structural)]
pub struct ReedSolomon {
    /// The shard count the caller asked for; only these are materialized.
    pub wanted_n: usize,
    /// The codeword length: the smallest power of two at least `wanted_n`.
    pub n: usize,
    /// The data-shard count: the largest power of two at most the request.
    pub k: usize,
}

impl ReedSolomon {
    /// The shape every constructed descriptor has.
    pub open spec fn wf(self) -> bool {
        &&& is_pow2(self.n as int)
        &&& is_pow2(self.k as int)
        &&& 1 <= self.k <= self.n
        &&& 2 <= self.n <= 65536
        &&& 2 <= self.wanted_n <= self.n
        &&& self.n < 2 * self.wanted_n
    }

    /// Rounds the requested counts and checks their range; the error says
    /// exactly which bound was broken.
    #[verifier::loop_isolation(false)]
    pub fn new(n: usize, k: usize) -> (r: Result<ReedSolomon, Error>)
        requires
            k <= n,
        ensures
            match r {
                Ok(rs) => {
                    &&& n >= 2
                    &&& k >= 1
                    &&& n <= 65536
                    &&& rs.wf()
                    &&& rs.wanted_n == n
                    &&& rs.n >= n
                    &&& rs.k <= k < 2 * rs.k
                },
                Err(e) => {
                    ||| (e == Error::WantedShardCountTooLow(n) && n < 2)
                    ||| (e == Error::WantedPayloadShardCountTooLow(k) && n >= 2 && k < 1)
                    ||| (e == Error::WantedShardCountTooHigh(n) && n >= 2 && k >= 1 && n > 65536)
                },
            },
    {
        if n < 2 {
            return Err(Error::WantedShardCountTooLow(n));
        }
        if k < 1 {
            return Err(Error::WantedPayloadShardCountTooLow(k));
        }
        if n > 65536 {
            return Err(Error::WantedShardCountTooHigh(n));
        }
        proof {
            lemma2_to64();
            assert(log2s(1) == 0 && pow2(0) == 1);
        }
        let mut n_po2: usize = 1;
        while n_po2 < n
            invariant
                is_pow2(n_po2 as int),
                n_po2 < 2 * n,
                n <= 65536,
            decreases 2 * n - n_po2,
        {
            proof {
                lemma_double_pow2(n_po2 as int);
            }
            n_po2 = n_po2 * 2;
        }
        let mut k_po2: usize = 1;
        while 2 * k_po2 <= k
            invariant
                is_pow2(k_po2 as int),
                k_po2 <= k,
                k <= 65536,
            decreases 2 * k - k_po2,
        {
            proof {
                lemma_double_pow2(k_po2 as int);
            }
            k_po2 = k_po2 * 2;
        }
        proof {
            assert(n_po2 <= 65536) by {
                lemma_pow2_le_bound(n_po2 as int);
            }
        }
        Ok(ReedSolomon { wanted_n: n, n: n_po2, k: k_po2 })
    }

    /// The requested number of data shards, rounded to its power of two.
    pub fn get_number_of_data_shards(&self) -> (r: usize)
        ensures
            r == self.k,
    {
        self.k
    }

    /// The number of shards the codec hands out.
    pub fn get_number_of_all_shards(&self) -> (r: usize)
        ensures
            r == self.wanted_n,
    {
        self.wanted_n
    }

    /// Bytes per shard for a payload of `payload_size` bytes.
    pub fn shard_len(&self, payload_size: usize) -> (r: usize)
        requires
            self.wf(),
            payload_size <= usize::MAX / 4,
        ensures
            r == shard_len_spec(payload_size as int, self.k as int),
    {
        proof {
            vstd::arithmetic::div_mod::lemma_div_nonincreasing(
                (payload_size as int + 1) / 2 + self.k - 1,
                self.k as int,
            );
        }
        let payload_symbols = (payload_size + 1) / 2;
        let shard_symbols_ceil = (payload_symbols + self.k - 1) / self.k;
        shard_symbols_ceil * 2
    }

    /// The systematic low-rate encoder: copies the data, runs the inverse
    /// transform over the first `k` symbols and re-transforms that block
    /// onto every later block of the codeword.
    #[verifier::loop_isolation(false)]
    pub fn encode_low(&self, t: &Tables, data: &Vec<u16>, codeword: &mut Vec<u16>) -> (r: ())
        requires
            t@.wf_len(),
            self.wf(),
            2 * self.k <= self.n,
            data@.len() == self.n,
        ensures
            final(codeword)@ == encode_low_spec(t@, self.k as int, self.n as int, data@),
    {
        let k = self.k;
        let n = self.n;
        let mut ia: Vec<u16> = Vec::new();
        let mut ci: usize = 0;
        while ci < k
            invariant
                ia@.len() == ci,
                ci <= k,
                data@.len() == n,
                k <= n,
                forall|x: int| 0 <= x < ci ==> ia@[x] == data@[x],
            decreases k - ci,
        {
            ia.push(data[ci]);
            ci = ci + 1;
        }
        proof {
            assert(ia@ =~= data@.take(k as int));
        }
        inverse_afft(t, &mut ia, k, 0);
        let ghost iav = ia@;
        let mut cw: Vec<u16> = Vec::new();
        let mut ci2: usize = 0;
        while ci2 < k
            invariant
                cw@.len() == ci2,
                ci2 <= k,
                data@.len() == n,
                k <= n,
                forall|x: int| 0 <= x < ci2 ==> cw@[x] == data@[x],
            decreases k - ci2,
        {
            cw.push(data[ci2]);
            ci2 = ci2 + 1;
        }
        let ghost elspec = encode_low_spec(t@, k as int, n as int, data@);
        proof {
            assert(self.n as int % self.k as int == 0) by {
                if log2s(k as int) > log2s(n as int) {
                    vstd::arithmetic::power2::lemma_pow2_strictly_increases(
                        log2s(n as int),
                        log2s(k as int),
                    );
                }
                crate::transforms::lemma_pow2_divides(log2s(k as int), log2s(n as int));
            }
            lemma_small_mod(0, self.k as nat);
        }
        let mut shift: usize = k;
        while shift < n
            invariant
                t@.wf_len(),
                self.wf(),
                k == self.k,
                n == self.n,
                2 * k <= n,
                data@.len() == n,
                iav == iafft_spec(t@, data@.take(k as int), k as int, 0),
                ia@ == iav,
                cw@.len() == shift,
                k <= shift <= n,
                shift as int % k as int == 0,
                forall|x: int| 0 <= x < k ==> cw@[x] == data@[x],
                forall|x: int|
                    k <= x < shift ==> cw@[x] == afft_spec(
                        t@,
                        iav,
                        k as int,
                        (x / (k as int)) * (k as int),
                    )[x % (k as int)],
            decreases n - shift,
        {
            proof {
                crate::transforms::lemma_stride_block_fits(shift as int, k as int, n as int);
            }
            let mut block: Vec<u16> = Vec::new();
            let mut bi: usize = 0;
            while bi < k
                invariant
                    block@.len() == bi,
                    bi <= k,
                    ia@ == iav,
                    iav.len() == k,
                    forall|x: int| 0 <= x < bi ==> block@[x] == iav[x],
                decreases k - bi,
            {
                block.push(ia[bi]);
                bi = bi + 1;
            }
            proof {
                assert(block@ =~= iav);
                lemma_pow2_pos(log2s(k as int));
            }
            afft(t, &mut block, k, shift);
            let ghost pre_len = cw@.len();
            cw.append(&mut block);
            proof {
                assert forall|x: int| k <= x < shift + k implies cw@[x] == afft_spec(
                    t@,
                    iav,
                    k as int,
                    (x / (k as int)) * (k as int),
                )[x % (k as int)] by {
                    if x >= shift {
                        lemma_div_block(x, k as int, shift as int);
                    }
                }
                lemma_mod_add_multiples_vanish(shift as int, k as int);
            }
            shift = shift + k;
        }
        proof {
            assert(cw@ =~= elspec);
        }
        *codeword = cw;
    }

    /// One stripe of at most `2k` payload bytes, zero-padded to `n`
    /// symbols and encoded to a codeword of `n` symbols.
    #[verifier::loop_isolation(false)]
    pub fn encode_sub(&self, t: &Tables, bytes: &[u8]) -> (r: Vec<u16>)
        requires
            t@.wf_len(),
            self.wf(),
            2 * self.k <= self.n,
            1 <= bytes@.len() <= 2 * self.k,
        ensures
            r@ == encode_sub_spec(t@, self.k as int, self.n as int, bytes@),
    {
        let n = self.n;
        let blen = bytes.len();
        let mut data: Vec<u16> = Vec::new();
        let mut j: usize = 0;
        while j < n
            invariant
                data@.len() == j,
                j <= n,
                blen == bytes@.len(),
                blen <= 2 * n,
                forall|x: int| 0 <= x < j ==> data@[x] == sym_at(bytes@, x),
            decreases n - j,
        {
            let hi: u16 = if 2 * j < blen {
                bytes[2 * j] as u16
            } else {
                0
            };
            let lo: u16 = if 2 * j + 1 < blen {
                bytes[2 * j + 1] as u16
            } else {
                0
            };
            data.push(hi * 256 + lo);
            j = j + 1;
        }
        proof {
            assert(data@ =~= stripe_symbols(bytes@, n as int));
        }
        let mut codeword: Vec<u16> = Vec::new();
        self.encode_low(t, &data, &mut codeword);
        codeword
    }
}

/// Doubling keeps a number a power of two.
proof fn lemma_double_pow2(p: int)
    requires
        is_pow2(p),
    ensures
        is_pow2(2 * p),
{
    vstd::arithmetic::power2::lemma_pow2_unfold((log2s(2 * p)) as nat);
    assert(log2s(2 * p) == 1 + log2s(p)) by {
        assert((2 * p) / 2 == p);
    }
}

/// A power of two below twice the field size is at most the field size.
proof fn lemma_pow2_le_bound(p: int)
    requires
        is_pow2(p),
        p < 131072,
    ensures
        p <= 65536,
{
    lemma2_to64();
    vstd::arithmetic::power2::lemma2_to64_rest();
    let e = log2s(p);
    if p > 65536 {
        if e <= 16 {
            vstd::arithmetic::power2::lemma_pow2_strictly_increases(e, 17);
        } else if e >= 18 {
            vstd::arithmetic::power2::lemma_pow2_strictly_increases(17, e);
        }
    }
}

/// Positions inside the `k`-block starting at `base` divide back to it.
proof fn lemma_div_block(x: int, k: int, base: int)
    requires
        k >= 1,
        base % k == 0,
        base <= x < base + k,
    ensures
        (x / k) * k == base,
        x / k == base / k,
        x % k == x - base,
{
    let q = base / k;
    lemma_fundamental_div_mod(base, k);
    vstd::arithmetic::mul::lemma_mul_is_commutative(k, q);
    lemma_fundamental_div_mod_converse(x, k, q, x - base);
    vstd::arithmetic::mul::lemma_mul_is_commutative(k, x / k);
}

} // verus!

verus! {

impl ReedSolomon {
    /// Encodes a payload into `wanted_n` shards: stripe `s` of `2k` bytes
    /// becomes codeword `s`, and byte pair `2s, 2s + 1` of shard `v` holds
    /// symbol `v` of that codeword, big-endian.  An empty payload is the
    /// one rejected input.  The systematic low-rate encoder needs at least
    /// half the codeword for parity, hence `2k <= n`.
    #[verifier::loop_isolation(false)]
    pub fn encode(&self, t: &Tables, bytes: &[u8]) -> (r: Result<Vec<Shard>, Error>)
        requires
            t@.wf_len(),
            self.wf(),
            2 * self.k <= self.n,
            bytes@.len() <= usize::MAX / 4,
        ensures
            match r {
                Ok(shards) => {
                    &&& bytes@.len() > 0
                    &&& shards@.len() == self.wanted_n
                    &&& forall|v: int|
                        0 <= v < self.wanted_n ==> (#[trigger] shards@[v])@.len()
                            == shard_len_spec(bytes@.len() as int, self.k as int)
                    &&& forall|v: int, bi: int|
                        0 <= v < self.wanted_n && 0 <= bi < shard_len_spec(
                            bytes@.len() as int,
                            self.k as int,
                        ) ==> (#[trigger] shards@[v]@[bi]) == shard_byte_spec(
                            t@,
                            self.k as int,
                            self.n as int,
                            bytes@,
                            v,
                            bi,
                        )
                },
                Err(e) => e == Error::PayloadSizeIsZero && bytes@.len() == 0,
            },
    {
        if bytes.is_empty() {
            return Err(Error::PayloadSizeIsZero);
        }
        let blen = bytes.len();
        let sl = self.shard_len(blen);
        let stripes = sl / 2;
        let k2 = 2 * self.k;
        proof {
            lemma_stripe_count(blen as int, self.k as int);
        }
        let mut codewords: Vec<Vec<u16>> = Vec::new();
        let mut s: usize = 0;
        while s < stripes
            invariant
                codewords@.len() == s,
                s <= stripes,
                forall|x: int|
                    0 <= x < s ==> (#[trigger] codewords@[x])@ == encode_sub_spec(
                        t@,
                        self.k as int,
                        self.n as int,
                        stripe_of(bytes@, self.k as int, x),
                    ),
            decreases stripes - s,
        {
            proof {
                lemma_stripe_bounds(blen as int, self.k as int, s as int);
            }
            let start = s * k2;
            let end = if start + k2 <= blen {
                start + k2
            } else {
                blen
            };
            let piece = &bytes[start..end];
            proof {
                assert(piece@ =~= stripe_of(bytes@, self.k as int, s as int));
            }
            let cw = self.encode_sub(t, piece);
            codewords.push(cw);
            s = s + 1;
        }
        let mut shards: Vec<Shard> = Vec::new();
        let mut v: usize = 0;
        while v < self.wanted_n
            invariant
                shards@.len() == v,
                v <= self.wanted_n,
                codewords@.len() == stripes,
                forall|x: int|
                    0 <= x < stripes ==> (#[trigger] codewords@[x])@ == encode_sub_spec(
                        t@,
                        self.k as int,
                        self.n as int,
                        stripe_of(bytes@, self.k as int, x),
                    ),
                forall|x: int| 0 <= x < v ==> (#[trigger] shards@[x])@.len() == sl,
                forall|x: int, bi: int|
                    0 <= x < v && 0 <= bi < sl ==> (#[trigger] shards@[x]@[bi]) == shard_byte_spec(
                        t@,
                        self.k as int,
                        self.n as int,
                        bytes@,
                        x,
                        bi,
                    ),
            decreases self.wanted_n - v,
        {
            let mut data: Vec<u8> = Vec::new();
            let mut c: usize = 0;
            while c < stripes
                invariant
                    data@.len() == 2 * c,
                    c <= stripes,
                    v < self.wanted_n,
                    codewords@.len() == stripes,
                    forall|x: int|
                        0 <= x < stripes ==> (#[trigger] codewords@[x])@ == encode_sub_spec(
                            t@,
                            self.k as int,
                            self.n as int,
                            stripe_of(bytes@, self.k as int, x),
                        ),
                    forall|bi: int|
                        0 <= bi < 2 * c ==> (#[trigger] data@[bi]) == shard_byte_spec(
                            t@,
                            self.k as int,
                            self.n as int,
                            bytes@,
                            v as int,
                            bi,
                        ),
                decreases stripes - c,
            {
                proof {
                    lemma_codeword_len(t@, self.k as int, self.n as int, stripe_of(bytes@, self.k as int, c as int));
                    lemma_even_pair(c as int);
                }
                let row = &codewords[c];
                let sym: u16 = row[v];
                proof {
                    assert(sym >> 8 < 256 && (sym & 0xFF) < 256) by (bit_vector);
                }
                data.push((sym >> 8) as u8);
                data.push((sym & 0xFF) as u8);
                c = c + 1;
            }
            shards.push(Shard::new(data));
            v = v + 1;
        }
        Ok(shards)
    }
}

/// The codeword of a stripe has `n` symbols.
proof fn lemma_codeword_len(t: TablesView, k: int, n: int, piece: Seq<u8>)
    requires
        n >= 0,
    ensures
        encode_sub_spec(t, k, n, piece).len() == n,
{
}

/// Byte pair `2c, 2c + 1` belongs to stripe `c`, even byte first.
proof fn lemma_even_pair(c: int)
    requires
        c >= 0,
    ensures
        (2 * c) / 2 == c,
        (2 * c) % 2 == 0,
        (2 * c + 1) / 2 == c,
        (2 * c + 1) % 2 == 1,
{
    lemma_fundamental_div_mod_converse(2 * c, 2, c, 0);
    lemma_fundamental_div_mod_converse(2 * c + 1, 2, c, 1);
}

/// A payload of `l >= 1` bytes fills `shard_len(l) / 2` stripes of `2k`
/// bytes: every stripe start lies in the payload, and the last stripe ends
/// at or past its end.
proof fn lemma_stripe_count(l: int, k: int)
    requires
        l >= 1,
        k >= 1,
    ensures
        shard_len_spec(l, k) % 2 == 0,
        2 * k * (shard_len_spec(l, k) / 2 - 1) < l,
        l <= 2 * k * (shard_len_spec(l, k) / 2),
        shard_len_spec(l, k) / 2 >= 1,
{
    let syms = (l + 1) / 2;
    let m = (syms + k - 1) / k;
    lemma_fundamental_div_mod(l + 1, 2);
    lemma_fundamental_div_mod(syms + k - 1, k);
    vstd::arithmetic::mul::lemma_mul_is_commutative(k, m);
    assert(syms <= k * m && k * m <= syms + k - 1);
    assert(m >= 1) by {
        if m <= 0 {
            vstd::arithmetic::mul::lemma_mul_inequality(m, 0, k);
            vstd::arithmetic::mul::lemma_mul_is_commutative(m, k);
        }
    }
    lemma_fundamental_div_mod_converse(2 * m, 2, m, 0);
    assert(k * (m - 1) == k * m - k) by {
        vstd::arithmetic::mul::lemma_mul_is_distributive_sub(k, m, 1);
    }
    assert(2 * k * (m - 1) == 2 * (k * (m - 1))) by {
        vstd::arithmetic::mul::lemma_mul_is_associative(2, k, m - 1);
    }
    assert(2 * k * m == 2 * (k * m)) by {
        vstd::arithmetic::mul::lemma_mul_is_associative(2, k, m);
    }
}

/// Stripe `s` of a payload that fills `s + 1` or more stripes starts
/// inside it.
proof fn lemma_stripe_bounds(l: int, k: int, s: int)
    requires
        l >= 1,
        k >= 1,
        0 <= s < shard_len_spec(l, k) / 2,
    ensures
        2 * k * s < l,
{
    lemma_stripe_count(l, k);
    let m = shard_len_spec(l, k) / 2;
    if 2 * k * s >= l {
        assert(s <= m - 1);
        vstd::arithmetic::mul::lemma_mul_inequality(s, m - 1, 2 * k);
        vstd::arithmetic::mul::lemma_mul_is_commutative(s, 2 * k);
        vstd::arithmetic::mul::lemma_mul_is_commutative(m - 1, 2 * k);
    }
}

} // verus!


verus! {

/// The erasure indicator, one symbol per codeword position, zero-padded
/// to the full field size.
pub open spec fn indicator_spec(er: Seq<bool>) -> Seq<u16> {
    Seq::new(
        65536,
        |i: int|
            if i < er.len() && er[i] {
                1u16
            } else {
                0u16
            },
    )
}

/// The evaluations of the error-locator polynomial, in logarithm form:
/// Walsh transform of the indicator, pointwise multiplication by the
/// Walsh-transformed log table modulo `ONEMASK`, Walsh transform again,
/// and complementation on the erased positions.
pub open spec fn eep_spec(t: TablesView, er: Seq<bool>) -> Seq<u16> {
    let w1 = walsh_spec(indicator_spec(er), 65536);
    let w2 = Seq::new(65536, |i: int| ((w1[i] * t.log_walsh[i]) % 65535) as u16);
    let w3 = walsh_spec(w2, 65536);
    Seq::new(
        65536,
        |i: int|
            if i < er.len() && er[i] {
                (65535 - w3[i]) as u16
            } else {
                w3[i]
            },
    )
}

/// The decoder's in-place pass over one codeword: mask and weight the
/// surviving symbols, inverse transform, the tweaked formal derivative
/// (the derivative sandwiched between the `B`-table multipliers), forward
/// transform, and weighting of the recovered erased data positions.
pub open spec fn decode_main_spec(
    t: TablesView,
    k: int,
    n: int,
    cw: Seq<u16>,
    er: Seq<bool>,
    lw2: Seq<u16>,
) -> Seq<u16> {
    let c1 = Seq::new(
        n as nat,
        |i: int|
            if er[i] {
                0u16
            } else {
                mul_spec(t, cw[i], lw2[i])
            },
    );
    let c2 = iafft_spec(t, c1, n, 0);
    let c3 = Seq::new(n as nat, |i: int| mul_spec(t, c2[i], (65535 - t.b[i / 2]) as u16));
    let c4 = fd_spec(c3, n);
    let c5 = Seq::new(n as nat, |i: int| mul_spec(t, c4[i], t.b[i / 2]));
    let c6 = afft_spec(t, c5, n, 0);
    Seq::new(
        n as nat,
        |i: int|
            if i < k {
                if er[i] {
                    mul_spec(t, c6[i], lw2[i])
                } else {
                    0u16
                }
            } else {
                c6[i]
            },
    )
}

/// The bytes one decoded codeword contributes to the payload: the first
/// `k` symbols, erased positions from the decoder and surviving ones from
/// the received word, big-endian.
pub open spec fn reconstruct_sub_spec(
    t: TablesView,
    k: int,
    n: int,
    cws: Seq<Option<u16>>,
    er: Seq<bool>,
    lw2: Seq<u16>,
) -> Seq<u8> {
    let cw = Seq::new(
        n as nat,
        |i: int|
            match cws[i] {
                Some(s) => s,
                None => 0u16,
            },
    );
    let dec = decode_main_spec(t, k, n, cw, er, lw2);
    let rec = Seq::new(
        k as nat,
        |i: int|
            if er[i] {
                dec[i]
            } else {
                cw[i]
            },
    );
    Seq::new(
        (2 * k) as nat,
        |b: int|
            if b % 2 == 0 {
                (rec[b / 2] >> 8) as u8
            } else {
                (rec[b / 2] & 0xFF) as u8
            },
    )
}

impl ReedSolomon {
    /// Evaluates the error-locator polynomial for an erasure pattern, into
    /// a full-field-size buffer of logarithms.
    #[verifier::loop_isolation(false)]
    pub fn eval_error_polynomial(&self, t: &Tables, erasure: &Vec<bool>, log_walsh2: &mut Vec<u16>)
        requires
            t@.wf_len(),
            self.wf(),
            erasure@.len() == self.n,
            old(log_walsh2)@.len() == 65536,
        ensures
            final(log_walsh2)@ == eep_spec(t@, erasure@),
    {
        proof {
            lemma2_to64();
            assert(log2s(65536) == 16) by {
                reveal_with_fuel(log2s, 18);
            }
        }
        let n = self.n;
        let mut i: usize = 0;
        while i < 65536
            invariant
                log_walsh2@.len() == 65536,
                i <= 65536,
                erasure@.len() == n,
                forall|x: int| 0 <= x < i ==> log_walsh2@[x] == indicator_spec(erasure@)[x],
            decreases 65536 - i,
        {
            if i < n && erasure[i] {
                log_walsh2.set(i, 1);
            } else {
                log_walsh2.set(i, 0);
            }
            i = i + 1;
        }
        proof {
            assert(log_walsh2@ =~= indicator_spec(erasure@));
        }
        walsh(log_walsh2, 65536);
        let ghost w1 = log_walsh2@;
        let mut i2: usize = 0;
        while i2 < 65536
            invariant
                log_walsh2@.len() == 65536,
                i2 <= 65536,
                w1.len() == 65536,
                forall|x: int|
                    0 <= x < i2 ==> log_walsh2@[x] == ((w1[x] * t@.log_walsh[x]) % 65535) as u16,
                forall|x: int| i2 <= x < 65536 ==> log_walsh2@[x] == w1[x],
            decreases 65536 - i2,
        {
            let a: u32 = log_walsh2[i2] as u32;
            let b: u32 = t.log_walsh[i2] as u32;
            proof {
                assert(a as int * b as int <= 65535 * 65535) by (nonlinear_arith)
                    requires
                        a <= 65535 && b <= 65535,
                ;
            }
            let p: u32 = (a * b) % 65535;
            log_walsh2.set(i2, p as u16);
            i2 = i2 + 1;
        }
        proof {
            assert(log_walsh2@ =~= Seq::new(65536, |x: int| ((w1[x] * t@.log_walsh[x]) % 65535) as u16));
        }
        walsh(log_walsh2, 65536);
        let ghost w3 = log_walsh2@;
        let mut i3: usize = 0;
        while i3 < 65536
            invariant
                log_walsh2@.len() == 65536,
                i3 <= 65536,
                w3.len() == 65536,
                erasure@.len() == n,
                forall|x: int| 0 <= x < i3 ==> log_walsh2@[x] == eep_spec(t@, erasure@)[x],
                forall|x: int| i3 <= x < 65536 ==> log_walsh2@[x] == w3[x],
            decreases 65536 - i3,
        {
            if i3 < n && erasure[i3] {
                let c = 65535 - log_walsh2[i3];
                log_walsh2.set(i3, c);
            }
            i3 = i3 + 1;
        }
        proof {
            assert(log_walsh2@ =~= eep_spec(t@, erasure@));
        }
    }

    /// The decoder's main pass, in place over one gathered codeword.
    #[verifier::loop_isolation(false)]
    pub fn decode_main(
        &self,
        t: &Tables,
        codeword: &mut Vec<u16>,
        erasure: &Vec<bool>,
        log_walsh2: &Vec<u16>,
    )
        requires
            t@.wf_len(),
            self.wf(),
            old(codeword)@.len() == self.n,
            erasure@.len() == self.n,
            log_walsh2@.len() == 65536,
        ensures
            final(codeword)@ == decode_main_spec(
                t@,
                self.k as int,
                self.n as int,
                old(codeword)@,
                erasure@,
                log_walsh2@,
            ),
    {
        let n = self.n;
        let k = self.k;
        let ghost cw0 = codeword@;
        let mut i: usize = 0;
        while i < n
            invariant
                codeword@.len() == n,
                i <= n,
                forall|x: int|
                    0 <= x < i ==> codeword@[x] == (if erasure@[x] {
                        0u16
                    } else {
                        mul_spec(t@, cw0[x], log_walsh2@[x])
                    }),
                forall|x: int| i <= x < n ==> codeword@[x] == cw0[x],
            decreases n - i,
        {
            if erasure[i] {
                codeword.set(i, 0);
            } else {
                let m = mul_elt(t, codeword[i], log_walsh2[i]);
                codeword.set(i, m);
            }
            i = i + 1;
        }
        let ghost c1 = Seq::new(
            n as nat,
            |x: int|
                if erasure@[x] {
                    0u16
                } else {
                    mul_spec(t@, cw0[x], log_walsh2@[x])
                },
        );
        proof {
            assert(codeword@ =~= c1);
        }
        inverse_afft(t, codeword, n, 0);
        let ghost c2 = codeword@;
        let mut i2: usize = 0;
        while i2 < n
            invariant
                codeword@.len() == n,
                i2 <= n,
                c2.len() == n,
                forall|x: int|
                    0 <= x < i2 ==> codeword@[x] == mul_spec(t@, c2[x], (65535 - t@.b[x / 2]) as u16),
                forall|x: int| i2 <= x < n ==> codeword@[x] == c2[x],
            decreases n - i2,
        {
            let b = t.b[i2 / 2];
            let m = mul_elt(t, codeword[i2], 65535 - b);
            codeword.set(i2, m);
            i2 = i2 + 1;
        }
        let ghost c3 = Seq::new(n as nat, |x: int| mul_spec(t@, c2[x], (65535 - t@.b[x / 2]) as u16));
        proof {
            assert(codeword@ =~= c3);
        }
        formal_derivative(codeword, n);
        let ghost c4 = codeword@;
        let mut i3: usize = 0;
        while i3 < n
            invariant
                codeword@.len() == n,
                i3 <= n,
                c4.len() == n,
                forall|x: int| 0 <= x < i3 ==> codeword@[x] == mul_spec(t@, c4[x], t@.b[x / 2]),
                forall|x: int| i3 <= x < n ==> codeword@[x] == c4[x],
            decreases n - i3,
        {
            let b = t.b[i3 / 2];
            let m = mul_elt(t, codeword[i3], b);
            codeword.set(i3, m);
            i3 = i3 + 1;
        }
        let ghost c5 = Seq::new(n as nat, |x: int| mul_spec(t@, c4[x], t@.b[x / 2]));
        proof {
            assert(codeword@ =~= c5);
        }
        afft(t, codeword, n, 0);
        let ghost c6 = codeword@;
        let mut i4: usize = 0;
        while i4 < k
            invariant
                codeword@.len() == n,
                i4 <= k,
                c6.len() == n,
                forall|x: int|
                    0 <= x < i4 ==> codeword@[x] == (if erasure@[x] {
                        mul_spec(t@, c6[x], log_walsh2@[x])
                    } else {
                        0u16
                    }),
                forall|x: int| i4 <= x < n ==> codeword@[x] == c6[x],
            decreases k - i4,
        {
            if erasure[i4] {
                let m = mul_elt(t, codeword[i4], log_walsh2[i4]);
                codeword.set(i4, m);
            } else {
                codeword.set(i4, 0);
            }
            i4 = i4 + 1;
        }
        proof {
            assert(codeword@ =~= decode_main_spec(
                t@,
                k as int,
                n as int,
                cw0,
                erasure@,
                log_walsh2@,
            ));
        }
    }

    /// Recovers the `2k` payload bytes of one gathered codeword.
    #[verifier::loop_isolation(false)]
    pub fn reconstruct_sub(
        &self,
        t: &Tables,
        codewords: &Vec<Option<u16>>,
        erasure: &Vec<bool>,
        log_walsh2: &Vec<u16>,
    ) -> (r: Vec<u8>)
        requires
            t@.wf_len(),
            self.wf(),
            2 * self.k <= self.n,
            codewords@.len() == self.n,
            erasure@.len() == self.n,
            log_walsh2@.len() == 65536,
        ensures
            r@ == reconstruct_sub_spec(
                t@,
                self.k as int,
                self.n as int,
                codewords@,
                erasure@,
                log_walsh2@,
            ),
    {
        let n = self.n;
        let k = self.k;
        let ghost cwspec = Seq::new(
            n as nat,
            |i: int|
                match codewords@[i] {
                    Some(s) => s,
                    None => 0u16,
                },
        );
        let mut codeword: Vec<u16> = Vec::new();
        let mut i: usize = 0;
        while i < n
            invariant
                codeword@.len() == i,
                i <= n,
                codewords@.len() == n,
                forall|x: int| 0 <= x < i ==> codeword@[x] == cwspec[x],
            decreases n - i,
        {
            match codewords[i] {
                Some(sym) => {
                    codeword.push(sym);
                },
                None => {
                    codeword.push(0);
                },
            }
            i = i + 1;
        }
        proof {
            assert(codeword@ =~= cwspec);
        }
        let ghost cwv = codeword@;
        self.decode_main(t, &mut codeword, erasure, log_walsh2);
        let mut out: Vec<u8> = Vec::new();
        let ghost rec = Seq::new(
            k as nat,
            |i: int|
                if erasure@[i] {
                    decode_main_spec(t@, k as int, n as int, cwv, erasure@, log_walsh2@)[i]
                } else {
                    cwv[i]
                },
        );
        let mut i2: usize = 0;
        while i2 < k
            invariant
                out@.len() == 2 * i2,
                i2 <= k,
                2 * k <= n,
                codeword@.len() == n,
                codewords@.len() == n,
                erasure@.len() == n,
                codeword@ == decode_main_spec(t@, k as int, n as int, cwv, erasure@, log_walsh2@),
                forall|x: int| 0 <= x < n ==> cwspec[x] == cwv[x],
                forall|b: int|
                    0 <= b < 2 * i2 ==> out@[b] == (if b % 2 == 0 {
                        (rec[b / 2] >> 8) as u8
                    } else {
                        (rec[b / 2] & 0xFF) as u8
                    }),
            decreases k - i2,
        {
            let sym: u16 = if erasure[i2] {
                codeword[i2]
            } else {
                match codewords[i2] {
                    Some(s) => s,
                    None => 0,
                }
            };
            proof {
                lemma_even_pair(i2 as int);
                assert(sym == rec[i2 as int]);
                assert(sym >> 8 < 256 && (sym & 0xFF) < 256) by (bit_vector);
            }
            out.push((sym >> 8) as u8);
            out.push((sym & 0xFF) as u8);
            i2 = i2 + 1;
        }
        proof {
            assert(out@ =~= reconstruct_sub_spec(
                t@,
                k as int,
                n as int,
                codewords@,
                erasure@,
                log_walsh2@,
            ));
        }
        out
    }
}

} // verus!

verus! {

/// The first position holding a shard, searching from `i`; the length if
/// there is none.
pub open spec fn first_some_from(r: Seq<Option<Shard>>, i: int) -> int
    decreases r.len() - i when 0 <= i <= r.len()
{
    if i >= r.len() {
        r.len() as int
    } else if r[i] is Some {
        i
    } else {
        first_some_from(r, i + 1)
    }
}

/// The first position holding a shard, or the length if none does.
pub open spec fn first_some(r: Seq<Option<Shard>>) -> int {
    first_some_from(r, 0)
}

/// The first position holding a shard of a length other than `l`,
/// searching from `i`; the length if there is none.
pub open spec fn first_mismatch_from(r: Seq<Option<Shard>>, l: int, i: int) -> int
    decreases r.len() - i when 0 <= i <= r.len()
{
    if i >= r.len() {
        r.len() as int
    } else if r[i] is Some && r[i]->Some_0@.len() != l {
        i
    } else {
        first_mismatch_from(r, l, i + 1)
    }
}

/// How many of the first `n` positions hold a shard.
pub open spec fn count_some(r: Seq<Option<Shard>>, n: int) -> int
    decreases n,
{
    if n <= 0 {
        0
    } else {
        count_some(r, n - 1) + (if n - 1 < r.len() && r[n - 1] is Some {
            1int
        } else {
            0int
        })
    }
}

/// The byte length of the first received shard.
pub open spec fn recon_shard_len(r: Seq<Option<Shard>>) -> int {
    r[first_some(r)]->Some_0@.len() as int
}

/// The received set is fit for reconstruction: some shard arrived, its
/// length is positive, made of whole symbols, and shared by every shard.
pub open spec fn recon_checks_ok(r: Seq<Option<Shard>>) -> bool {
    let l = recon_shard_len(r);
    &&& first_some(r) < r.len()
    &&& l > 0
    &&& l % 2 == 0
    &&& first_mismatch_from(r, l, 0) == r.len()
}

/// The erasure pattern over the `n` codeword positions: everything not
/// received counts as erased, the tail beyond the received set included.
pub open spec fn erasures_spec(r: Seq<Option<Shard>>, n: int) -> Seq<bool> {
    Seq::new(n as nat, |v: int| !(v < r.len() && r[v] is Some))
}

/// The symbols that the received shards contribute to codeword `si`.
pub open spec fn gather_spec(r: Seq<Option<Shard>>, n: int, si: int) -> Seq<Option<u16>> {
    Seq::new(
        n as nat,
        |v: int|
            if v < r.len() {
                match r[v] {
                    Some(sh) => Some(((sh@[2 * si] as int * 256 + sh@[2 * si + 1]) as u16)),
                    None => None,
                }
            } else {
                None
            },
    )
}

impl ReedSolomon {
    /// Checks that the received set can be reconstructed from: at least
    /// one shard, of positive whole-symbol length, and all of one length.
    /// Returns the shard length in symbols.
    #[verifier::loop_isolation(false)]
    fn verify_reconstructiblity(&self, received: &Vec<Option<Shard>>) -> (r: Result<usize, Error>)
        ensures
            match r {
                Ok(m) => recon_checks_ok(received@) && m == recon_shard_len(received@) / 2,
                Err(e) => {
                    let fs = first_some(received@);
                    let l = recon_shard_len(received@);
                    ||| (e == Error::PayloadSizeIsZero && fs == received@.len())
                    ||| (e == Error::ZeroLengthShards && fs < received@.len() && l == 0)
                    ||| (e == (Error::UndivisableShardLength {
                        shard_length: l as usize,
                        field_bytes: 2,
                    }) && fs < received@.len() && l > 0 && l % 2 != 0)
                    ||| {
                        let fm = first_mismatch_from(received@, l, 0);
                        &&& e == (Error::InconsistentShardLengths {
                            first: l as usize,
                            other: received@[fm]->Some_0@.len() as usize,
                        })
                        &&& fs < received@.len()
                        &&& l > 0
                        &&& l % 2 == 0
                        &&& fm < received@.len()
                    }
                },
            },
    {
        let rlen = received.len();
        let mut fs: usize = 0;
        while fs < rlen
            invariant
                fs <= rlen,
                rlen == received@.len(),
                first_some(received@) == first_some_from(received@, fs as int),
            decreases rlen - fs,
        {
            if received[fs].is_some() {
                break ;
            }
            fs = fs + 1;
        }
        if fs == rlen {
            return Err(Error::PayloadSizeIsZero);
        }
        let l: usize = match &received[fs] {
            Some(sh) => sh.len(),
            None => {
                proof {
                    assert(false);
                }
                0
            },
        };
        if l == 0 {
            return Err(Error::ZeroLengthShards);
        }
        if l % 2 != 0 {
            return Err(Error::UndivisableShardLength { shard_length: l, field_bytes: 2 });
        }
        let mut j: usize = 0;
        while j < rlen
            invariant
                j <= rlen,
                rlen == received@.len(),
                first_some(received@) == fs < rlen,
                recon_shard_len(received@) == l,
                l > 0,
                l % 2 == 0,
                first_mismatch_from(received@, l as int, 0) == first_mismatch_from(
                    received@,
                    l as int,
                    j as int,
                ),
            decreases rlen - j,
        {
            match &received[j] {
                Some(sh) => {
                    let sl = sh.len();
                    if sl != l {
                        return Err(
                            Error::InconsistentShardLengths { first: l, other: sl },
                        );
                    }
                },
                None => {},
            }
            j = j + 1;
        }
        Ok(l / 2)
    }

    /// Reconstructs the payload from the received shards: the stripes are
    /// regathered symbol by symbol, decoded against the common erasure
    /// pattern, and their first `k` symbols concatenated.  The contract
    /// names each rejection: nothing received, empty or ragged or odd
    /// shard lengths, or fewer survivors than data shards.  A descriptor
    /// with more data shards than half the codeword can only take the
    /// shortfall path, as the decoder works on the low-rate layout.
    #[verifier::loop_isolation(false)]
    pub fn reconstruct(&self, t: &Tables, received: Vec<Option<Shard>>) -> (r: Result<
        Vec<u8>,
        Error,
    >)
        requires
            t@.wf_len(),
            self.wf(),
            2 * self.k <= self.n || count_some(received@, self.n as int) < self.k,
        ensures
            match r {
                Ok(bytes) => {
                    let er = erasures_spec(received@, self.n as int);
                    let lw2 = eep_spec(t@, er);
                    let m = recon_shard_len(received@) / 2;
                    &&& recon_checks_ok(received@)
                    &&& count_some(received@, self.n as int) >= self.k
                    &&& bytes@.len() == 2 * self.k * m
                    &&& forall|bi: int|
                        0 <= bi < bytes@.len() ==> (#[trigger] bytes@[bi]) == reconstruct_sub_spec(
                            t@,
                            self.k as int,
                            self.n as int,
                            gather_spec(received@, self.n as int, bi / (2 * self.k as int)),
                            er,
                            lw2,
                        )[bi % (2 * self.k as int)]
                },
                Err(e) => {
                    let fs = first_some(received@);
                    let l = recon_shard_len(received@);
                    ||| (e == Error::PayloadSizeIsZero && fs == received@.len())
                    ||| (e == Error::ZeroLengthShards && fs < received@.len() && l == 0)
                    ||| (e == (Error::UndivisableShardLength {
                        shard_length: l as usize,
                        field_bytes: 2,
                    }) && fs < received@.len() && l > 0 && l % 2 != 0)
                    ||| {
                        let fm = first_mismatch_from(received@, l, 0);
                        &&& e == (Error::InconsistentShardLengths {
                            first: l as usize,
                            other: received@[fm]->Some_0@.len() as usize,
                        })
                        &&& fs < received@.len()
                        &&& l > 0
                        &&& l % 2 == 0
                        &&& fm < received@.len()
                    }
                    ||| (e == (Error::NeedMoreShards {
                        have: count_some(received@, self.n as int) as usize,
                        min: self.k,
                        all: self.n,
                    }) && recon_checks_ok(received@) && count_some(received@, self.n as int)
                        < self.k)
                },
            },
    {
        let n = self.n;
        let k = self.k;
        let m = match self.verify_reconstructiblity(&received) {
            Ok(m) => m,
            Err(e) => {
                return Err(e);
            },
        };
        let rlen = received.len();
        let mut erasure: Vec<bool> = Vec::new();
        let mut v: usize = 0;
        while v < n
            invariant
                erasure@.len() == v,
                v <= n,
                rlen == received@.len(),
                forall|x: int|
                    0 <= x < v ==> erasure@[x] == erasures_spec(received@, n as int)[x],
            decreases n - v,
        {
            if v < rlen {
                erasure.push(!received[v].is_some());
            } else {
                erasure.push(true);
            }
            v = v + 1;
        }
        proof {
            assert(erasure@ =~= erasures_spec(received@, n as int));
        }
        let mut have: usize = 0;
        let mut v2: usize = 0;
        while v2 < n
            invariant
                v2 <= n,
                rlen == received@.len(),
                have == count_some(received@, v2 as int),
                have <= v2,
            decreases n - v2,
        {
            if v2 < rlen && received[v2].is_some() {
                have = have + 1;
            }
            v2 = v2 + 1;
        }
        if have < k {
            return Err(Error::NeedMoreShards { have, min: k, all: n });
        }
        let mut error_poly = zero_vec(65536);
        self.eval_error_polynomial(t, &erasure, &mut error_poly);
        let ghost er = erasures_spec(received@, n as int);
        let ghost lw2 = eep_spec(t@, er);
        let mut acc: Vec<u8> = Vec::new();
        let mut si: usize = 0;
        while si < m
            invariant
                t@.wf_len(),
                self.wf(),
                2 * k <= n,
                k == self.k,
                n == self.n,
                si <= m,
                rlen == received@.len(),
                recon_checks_ok(received@),
                m == recon_shard_len(received@) / 2,
                erasure@ == er,
                error_poly@ == lw2,
                error_poly@.len() == 65536,
                erasure@.len() == n,
                acc@.len() == 2 * k * si,
                forall|bi: int|
                    0 <= bi < acc@.len() ==> (#[trigger] acc@[bi]) == reconstruct_sub_spec(
                        t@,
                        k as int,
                        n as int,
                        gather_spec(received@, n as int, bi / (2 * k as int)),
                        er,
                        lw2,
                    )[bi % (2 * k as int)],
            decreases m - si,
        {
            let mut run: Vec<Option<u16>> = Vec::new();
            let mut v3: usize = 0;
            while v3 < n
                invariant
                    run@.len() == v3,
                    v3 <= n,
                    si < m,
                    rlen == received@.len(),
                    recon_checks_ok(received@),
                    m == recon_shard_len(received@) / 2,
                    forall|x: int|
                        0 <= x < v3 ==> run@[x] == gather_spec(received@, n as int, si as int)[x],
                decreases n - v3,
            {
                if v3 < rlen {
                    match &received[v3] {
                        Some(sh) => {
                            proof {
                                lemma_all_lens(received@, v3 as int);
                            }
                            let dl: usize = sh.data.len();
                            let c0 = sh.data[2 * si];
                            let c1 = sh.data[2 * si + 1];
                            run.push(Some(c0 as u16 * 256 + c1 as u16));
                        },
                        None => {
                            run.push(None);
                        },
                    }
                } else {
                    run.push(None);
                }
                v3 = v3 + 1;
            }
            proof {
                assert(run@ =~= gather_spec(received@, n as int, si as int));
            }
            let mut piece = self.reconstruct_sub(t, &run, &erasure, &error_poly);
            let ghost pre = acc@;
            let ghost pv = piece@;
            acc.append(&mut piece);
            proof {
                assert((2 * k as int) * ((si + 1) as int) == 2 * k * si + 2 * k) by {
                    vstd::arithmetic::mul::lemma_mul_is_distributive_add(
                        2 * k as int,
                        si as int,
                        1,
                    );
                }
                assert forall|bi: int| 2 * k * si <= bi < 2 * k * (si + 1) implies acc@[bi]
                    == reconstruct_sub_spec(
                    t@,
                    k as int,
                    n as int,
                    gather_spec(received@, n as int, bi / (2 * k as int)),
                    er,
                    lw2,
                )[bi % (2 * k as int)] by {
                    vstd::arithmetic::mul::lemma_mul_is_commutative(2 * k as int, si as int);
                    vstd::arithmetic::div_mod::lemma_fundamental_div_mod_converse(
                        2 * k as int * si as int,
                        2 * k as int,
                        si as int,
                        0,
                    );
                    lemma_div_block(bi, 2 * k as int, 2 * k as int * si as int);
                    assert(acc@[bi] == pv[bi - 2 * k * si]);
                }
            }
            si = si + 1;
        }
        Ok(acc)
    }
}

/// Every received shard has the common length once the checks pass.
proof fn lemma_all_lens(r: Seq<Option<Shard>>, v: int)
    requires
        recon_checks_ok(r),
        0 <= v < r.len(),
        r[v] is Some,
    ensures
        r[v]->Some_0@.len() == recon_shard_len(r),
{
    lemma_no_mismatch(r, recon_shard_len(r), 0, v);
}

/// If the first-mismatch search from `i` runs off the end, every shard at
/// or past `i` has length `l`.
proof fn lemma_no_mismatch(r: Seq<Option<Shard>>, l: int, i: int, v: int)
    requires
        0 <= i <= v < r.len(),
        first_mismatch_from(r, l, i) == r.len(),
        r[v] is Some,
    ensures
        r[v]->Some_0@.len() == l,
    decreases v - i,
{
    if i < v {
        lemma_no_mismatch(r, l, i + 1, v);
    }
}

} // verus!

verus! {

/// The smallest power of two at least `n`.
pub open spec fn next_pow2_spec(n: int) -> int
    decreases n,
{
    if n <= 1 {
        1
    } else {
        2 * next_pow2_spec((n + 1) / 2)
    }
}

/// The largest power of two at most `k` (for `k >= 1`).
pub open spec fn prev_pow2_spec(k: int) -> int
    decreases k,
{
    if k <= 1 {
        1
    } else {
        2 * prev_pow2_spec(k / 2)
    }
}

/// A power of two in `[n, 2n)` is the next power of two of `n`.
proof fn lemma_next_pow2_unique(p: int, n: int)
    requires
        is_pow2(p),
        1 <= n <= p,
        p < 2 * n,
    ensures
        p == next_pow2_spec(n),
    decreases n,
{
    if n <= 1 {
        assert(log2s(1) == 0);
        if p > 1 {
            lemma_pow2_squeeze_help(p);
        }
    } else {
        lemma_pow2_even_int(p);
        lemma_next_pow2_unique(p / 2, (n + 1) / 2);
    }
}

/// A power of two in `(k/2, k]` is the previous power of two of `k`.
proof fn lemma_prev_pow2_unique(p: int, k: int)
    requires
        is_pow2(p),
        p <= k,
        k < 2 * p,
    ensures
        p == prev_pow2_spec(k),
    decreases k,
{
    if k <= 1 {
        assert(log2s(1) == 0);
    } else {
        if p == 1 {
            assert(k == 1);
        } else {
            lemma_pow2_even_int(p);
            lemma_prev_pow2_unique(p / 2, k / 2);
        }
    }
}

/// A power of two above one is even, and its half is a power of two.
proof fn lemma_pow2_even_int(p: int)
    requires
        is_pow2(p),
        p >= 2,
    ensures
        p % 2 == 0,
        is_pow2(p / 2),
{
    crate::transforms::lemma_pow2_halves(p);
}

/// No power of two sits strictly between one and two.
proof fn lemma_pow2_squeeze_help(p: int)
    requires
        is_pow2(p),
        p > 1,
    ensures
        p >= 2,
{
}

/// Two powers of two within a factor of two of each other are equal.
proof fn lemma_pow2_squeeze(p: int, q: int)
    requires
        is_pow2(p),
        is_pow2(q),
        p <= q,
        q < 2 * p,
    ensures
        p == q,
{
    let a = log2s(p);
    let b = log2s(q);
    if p < q {
        assert(a < b) by {
            if a >= b {
                if a > b {
                    vstd::arithmetic::power2::lemma_pow2_strictly_increases(b, a);
                }
            }
        }
        vstd::arithmetic::power2::lemma_pow2_strictly_increases(a, (a + 1) as nat);
        if a + 1 < b {
            vstd::arithmetic::power2::lemma_pow2_strictly_increases((a + 1) as nat, b);
        }
        vstd::arithmetic::power2::lemma_pow2_unfold((a + 1) as nat);
    }
}

/// The recovery threshold the crate-level helpers use: one third of the
/// shard count, rounded up.
pub open spec fn payload_threshold(n: int) -> int {
    (n - 1) / 3 + 1
}

/// A third-threshold descriptor always leaves half the codeword for
/// parity, which is what the systematic encoder requires.
proof fn lemma_third_fits(rs: ReedSolomon, n: int, kw: int)
    requires
        rs.wf(),
        n >= 2,
        rs.n >= n,
        kw == payload_threshold(n),
        rs.k <= kw,
    ensures
        2 * rs.k <= rs.n,
{
    lemma_fundamental_div_mod(n - 1, 3);
    assert(3 * kw <= n + 2);
    if 2 * rs.k > rs.n {
        lemma_pow2_squeeze(rs.k as int, rs.n as int);
    }
}

/// Encodes a payload for `validator_count` shards with a recovery
/// threshold of a third of them: the descriptor is
/// `ReedSolomon::new(validator_count, payload_threshold(validator_count))`
/// and the shards are that descriptor's encoding of the payload.
#[verifier::loop_isolation(false)]
pub fn encode(t: &Tables, bytes: &[u8], validator_count: usize) -> (r: Result<Vec<Shard>, Error>)
    requires
        t@.wf_len(),
        bytes@.len() <= usize::MAX / 4,
    ensures
        ({
            let k = prev_pow2_spec(payload_threshold(validator_count as int));
            let n = next_pow2_spec(validator_count as int);
            match r {
                Ok(shards) => {
                    &&& 2 <= validator_count <= 65536
                    &&& bytes@.len() > 0
                    &&& shards@.len() == validator_count
                    &&& forall|v: int|
                        0 <= v < validator_count ==> (#[trigger] shards@[v])@.len()
                            == shard_len_spec(bytes@.len() as int, k)
                    &&& forall|v: int, bi: int|
                        0 <= v < validator_count && 0 <= bi < shard_len_spec(
                            bytes@.len() as int,
                            k,
                        ) ==> (#[trigger] shards@[v]@[bi]) == shard_byte_spec(
                            t@,
                            k,
                            n,
                            bytes@,
                            v,
                            bi,
                        )
                },
                Err(e) => {
                    ||| (e == Error::WantedShardCountTooLow(validator_count) && validator_count
                        < 2)
                    ||| (e == Error::WantedShardCountTooHigh(validator_count) && validator_count
                        > 65536)
                    ||| (e == Error::PayloadSizeIsZero && 2 <= validator_count <= 65536
                        && bytes@.len() == 0)
                },
            }
        }),
{
    if validator_count < 2 {
        return Err(Error::WantedShardCountTooLow(validator_count));
    }
    let kw: usize = (validator_count - 1) / 3 + 1;
    proof {
        vstd::arithmetic::div_mod::lemma_div_nonincreasing(
            validator_count as int - 1,
            3,
        );
    }
    let rs = match ReedSolomon::new(validator_count, kw) {
        Ok(rs) => rs,
        Err(e) => {
            return Err(e);
        },
    };
    proof {
        lemma_third_fits(rs, validator_count as int, kw as int);
        lemma_next_pow2_unique(rs.n as int, validator_count as int);
        lemma_prev_pow2_unique(rs.k as int, kw as int);
    }
    rs.encode(t, bytes)
}

/// Reconstructs a payload encoded by [`encode`] with the same
/// `validator_count`, from whichever shards survive.
#[verifier::loop_isolation(false)]
pub fn reconstruct(t: &Tables, received: Vec<Option<Shard>>, validator_count: usize) -> (r: Result<
    Vec<u8>,
    Error,
>)
    requires
        t@.wf_len(),
    ensures
        ({
            let k = prev_pow2_spec(payload_threshold(validator_count as int));
            let n = next_pow2_spec(validator_count as int);
            let fs = first_some(received@);
            let l = recon_shard_len(received@);
            match r {
                Ok(bytes) => {
                    let er = erasures_spec(received@, n);
                    let lw2 = eep_spec(t@, er);
                    let m = recon_shard_len(received@) / 2;
                    &&& 2 <= validator_count <= 65536
                    &&& recon_checks_ok(received@)
                    &&& count_some(received@, n) >= k
                    &&& bytes@.len() == 2 * k * m
                    &&& forall|bi: int|
                        0 <= bi < bytes@.len() ==> (#[trigger] bytes@[bi]) == reconstruct_sub_spec(
                            t@,
                            k,
                            n,
                            gather_spec(received@, n, bi / (2 * k)),
                            er,
                            lw2,
                        )[bi % (2 * k)]
                },
                Err(e) => {
                    ||| (e == Error::WantedShardCountTooLow(validator_count) && validator_count
                        < 2)
                    ||| (e == Error::WantedShardCountTooHigh(validator_count) && validator_count
                        > 65536)
                    ||| (e == Error::PayloadSizeIsZero && 2 <= validator_count <= 65536 && fs
                        == received@.len())
                    ||| (e == Error::ZeroLengthShards && 2 <= validator_count <= 65536 && fs
                        < received@.len() && l == 0)
                    ||| (e == (Error::UndivisableShardLength {
                        shard_length: l as usize,
                        field_bytes: 2,
                    }) && 2 <= validator_count <= 65536 && fs < received@.len() && l > 0 && l % 2
                        != 0)
                    ||| {
                        let fm = first_mismatch_from(received@, l, 0);
                        &&& e == (Error::InconsistentShardLengths {
                            first: l as usize,
                            other: received@[fm]->Some_0@.len() as usize,
                        })
                        &&& 2 <= validator_count <= 65536
                        &&& fs < received@.len()
                        &&& l > 0
                        &&& l % 2 == 0
                        &&& fm < received@.len()
                    }
                    ||| (e == (Error::NeedMoreShards {
                        have: count_some(received@, n) as usize,
                        min: k as usize,
                        all: n as usize,
                    }) && 2 <= validator_count <= 65536 && recon_checks_ok(received@)
                        && count_some(received@, n) < k)
                },
            }
        }),
{
    if validator_count < 2 {
        return Err(Error::WantedShardCountTooLow(validator_count));
    }
    let kw: usize = (validator_count - 1) / 3 + 1;
    proof {
        vstd::arithmetic::div_mod::lemma_div_nonincreasing(
            validator_count as int - 1,
            3,
        );
    }
    let rs = match ReedSolomon::new(validator_count, kw) {
        Ok(rs) => rs,
        Err(e) => {
            return Err(e);
        },
    };
    proof {
        lemma_third_fits(rs, validator_count as int, kw as int);
        lemma_next_pow2_unique(rs.n as int, validator_count as int);
        lemma_prev_pow2_unique(rs.k as int, kw as int);
    }
    rs.reconstruct(t, received)
}

} // verus!

verus! {

/// Law: encoding is deterministic.  Two shard sets that both satisfy the
/// encoder's contract for one set of tables, one descriptor and one
/// payload are byte-identical.
pub proof fn lemma_encode_deterministic(
    t: TablesView,
    k: int,
    n: int,
    wanted_n: int,
    sl: int,
    bytes: Seq<u8>,
    s1: Seq<Seq<u8>>,
    s2: Seq<Seq<u8>>,
)
    requires
        s1.len() == wanted_n,
        s2.len() == wanted_n,
        forall|v: int| 0 <= v < wanted_n ==> (#[trigger] s1[v]).len() == sl,
        forall|v: int| 0 <= v < wanted_n ==> (#[trigger] s2[v]).len() == sl,
        forall|v: int, bi: int|
            0 <= v < wanted_n && 0 <= bi < sl ==> (#[trigger] s1[v][bi]) == shard_byte_spec(
                t,
                k,
                n,
                bytes,
                v,
                bi,
            ),
        forall|v: int, bi: int|
            0 <= v < wanted_n && 0 <= bi < sl ==> (#[trigger] s2[v][bi]) == shard_byte_spec(
                t,
                k,
                n,
                bytes,
                v,
                bi,
            ),
    ensures
        s1 == s2,
{
    assert forall|v: int| 0 <= v < wanted_n implies s1[v] == s2[v] by {
        assert(s1[v] =~= s2[v]);
    }
    assert(s1 =~= s2);
}

} // verus!

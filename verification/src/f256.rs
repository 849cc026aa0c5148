//! A companion byte field GF(2^8), built the same way as the main field:
//! a generator polynomial for the discrete logs and a Cantor basis for the
//! coordinates.  The basis chain is chosen compatible with the main
//! field's, so that multiplying byte-sized values agrees across the two.

use vstd::prelude::*;

verus! {

/// Tail of the irreducible polynomial x^8 + x^4 + x^3 + x^2 + 1.
pub const GENERATOR8: u8 = 0x1D;

/// All-ones element of the byte field; the sentinel logarithm of zero.
pub const ONEMASK8: u8 = 255;

/// A byte-field element in additive (XOR) form.
#[derive(Clone, Copy, Debug, PartialEq, Eq, Structural)]
pub struct GF2e8(pub u8);

/// A byte-field element in multiplier (discrete logarithm) form.
#[derive(Clone, Copy, Debug, PartialEq, Eq, Structural)]
pub struct Multiplier(pub u8);

/// The mathematical content of [`Tables256`].
pub struct Tables256View {
    pub log: Seq<u8>,
    pub exp: Seq<u8>,
}

impl Tables256View {
    /// Both tables span the byte field.
    pub open spec fn wf_len(self) -> bool {
        &&& self.log.len() == 256
        &&& self.exp.len() == 256
    }

    /// Well-formed byte-field tables: sizes, the exp/log round trips,
    /// the wrap-around entry, and the sentinel as the logarithm of zero.
    pub open spec fn wf(self) -> bool {
        &&& self.wf_len()
        &&& forall|a: int| 1 <= a < 256 ==> self.exp[(#[trigger] self.log[a]) as int] == a
        &&& forall|l: int| 0 <= l < 255 ==> self.log[(#[trigger] self.exp[l]) as int] == l
        &&& self.exp[255] == self.exp[0]
        &&& self.log[0] == 255
    }
}

/// The byte field's log/exp pair, computed once and then only read.
pub struct Tables256 {
    pub log: Vec<u8>,
    pub exp: Vec<u8>,
}

impl View for Tables256 {
    type V = Tables256View;

    open spec fn view(&self) -> Tables256View {
        Tables256View { log: self.log@, exp: self.exp@ }
    }
}

/// What byte-field multiplication by table lookup returns.
pub open spec fn mul8_spec(t: Tables256View, a: u8, m: u8) -> u8 {
    if a == 0 {
        0u8
    } else {
        t.exp[(t.log[a as int] as int + m as int) % 256 + (t.log[a as int] as int + m as int)
            / 256]
    }
}

impl GF2e8 {
    /// The multiplier form of this element; leaky for zero, whose entry is
    /// the sentinel `ONEMASK8`.
    pub fn to_multiplier(self, t: &Tables256) -> (r: Multiplier)
        requires
            t@.wf_len(),
        ensures
            r.0 == t@.log[self.0 as int],
    {
        Multiplier(t.log[self.0 as usize])
    }

    /// Multiply by a constant in multiplier form.
    pub fn mul(self, t: &Tables256, other: Multiplier) -> (r: GF2e8)
        requires
            t@.wf_len(),
        ensures
            r.0 == mul8_spec(t@, self.0, other.0),
    {
        if self.0 == 0 {
            return GF2e8(0);
        }
        let log: u16 = t.log[self.0 as usize] as u16 + other.0 as u16;
        proof {
            assert(log & 0xFF == log % 256 && log >> 8 == log / 256) by (bit_vector);
        }
        let offset: u16 = (log & 0xFF) + (log >> 8);
        GF2e8(t.exp[offset as usize])
    }

    /// Field addition is XOR of the bit patterns.
    pub fn add(self, other: GF2e8) -> (r: GF2e8)
        ensures
            r.0 == self.0 ^ other.0,
    {
        GF2e8(self.0 ^ other.0)
    }
}

impl Multiplier {
    /// Widen to the form used for sums of logarithms.
    pub fn to_wide(self) -> (r: u16)
        ensures
            r == self.0 as u16,
    {
        self.0 as u16
    }

    /// Narrow a wide value back; keeps the low 8 bits.
    pub fn from_wide(x: u16) -> (r: Multiplier)
        ensures
            r.0 == x & 0xFF,
    {
        proof {
            assert(x & 0xFF < 256) by (bit_vector);
        }
        Multiplier((x & 0xFF) as u8)
    }
}

/// A vector of `n` zero bytes.
fn zero_vec8(n: usize) -> (v: Vec<u8>)
    ensures
        v@.len() == n,
        forall|i: int| 0 <= i < n ==> v@[i] == 0u8,
{
    let mut v: Vec<u8> = Vec::new();
    while v.len() < n
        invariant
            v@.len() <= n,
            forall|i: int| 0 <= i < v@.len() ==> v@[i] == 0u8,
        decreases n - v@.len(),
    {
        v.push(0);
    }
    v
}


/// The byte-field Cantor basis constant at index `j`.
pub open spec fn cantor_base8(j: int) -> u8 {
    if j == 0 {
        1
    } else if j == 1 {
        214
    } else if j == 2 {
        152
    } else if j == 3 {
        147
    } else if j == 4 {
        128
    } else if j == 5 {
        80
    } else if j == 6 {
        202
    } else {
        176
    }
}

/// One step of the byte generator's linear feedback register.
pub open spec fn lfsr8_step_spec(s: u16) -> u16 {
    if (s >> 7) != 0 {
        ((s & 0x7F) << 1) ^ 0x1D
    } else {
        s << 1
    }
}

/// The byte register's state after `i` steps from one.
pub open spec fn lfsr8_state_spec(i: int) -> u16
    decreases i,
{
    if i <= 0 {
        1
    } else {
        lfsr8_step_spec(lfsr8_state_spec(i - 1))
    }
}

/// The byte-field polynomial-basis logarithms after `i` register steps.
pub open spec fn exp8_phase1_spec(i: int) -> Seq<u8>
    decreases i,
{
    if i <= 0 {
        Seq::new(256, |x: int| 0u8)
    } else {
        exp8_phase1_spec(i - 1).update(lfsr8_state_spec(i - 1) as int, (i - 1) as u8)
    }
}

/// The finished byte first table: all steps taken, zero entry the sentinel.
pub open spec fn exp8_lfsr_spec() -> Seq<u8> {
    exp8_phase1_spec(255).update(0, 255u8)
}

/// One pass of the byte-field Cantor basis change.
pub open spec fn cantor8_pass_spec(s: Seq<u8>, bi: int) -> Seq<u8> {
    let w = vstd::arithmetic::power2::pow2(bi as nat) as int;
    Seq::new(
        256,
        |idx: int|
            if w <= idx < 2 * w {
                s[idx - w] ^ cantor_base8(bi)
            } else {
                s[idx]
            },
    )
}

/// The byte-field Cantor coordinate map after `bi` passes.
pub open spec fn cantor8_map_spec(bi: int) -> Seq<u8>
    decreases bi,
{
    if bi <= 0 {
        Seq::new(256, |x: int| 0u8)
    } else {
        cantor8_pass_spec(cantor8_map_spec(bi - 1), bi - 1)
    }
}

/// The finished byte log table.
pub open spec fn log8_table_spec() -> Seq<u8> {
    Seq::new(256, |i: int| exp8_lfsr_spec()[cantor8_map_spec(8)[i] as int])
}

/// The inversion of the byte log table after `i` entries.
pub open spec fn exp8_phase4_spec(i: int) -> Seq<u8>
    decreases i,
{
    if i <= 0 {
        exp8_lfsr_spec()
    } else {
        exp8_phase4_spec(i - 1).update(log8_table_spec()[i - 1] as int, (i - 1) as u8)
    }
}

/// The finished byte exp table, wrap-around entry tied down.
pub open spec fn exp8_table_spec() -> Seq<u8> {
    exp8_phase4_spec(256).update(255, exp8_phase4_spec(256)[0])
}

/// The two round trips that make the byte log/exp pair usable.
pub open spec fn logexp8_ok(log: Seq<u8>, exp: Seq<u8>) -> bool {
    &&& forall|a: int| 1 <= a < 256 ==> exp[(#[trigger] log[a]) as int] == a
    &&& forall|l: int| 0 <= l < 255 ==> log[(#[trigger] exp[l]) as int] == l
}

impl Tables256 {
    /// Builds and checks the byte-field tables.  Success is exactly the
    /// round trips holding of the spec-level construction, so the tables
    /// handed out are pinned; `None` never happens with the fixed
    /// constants, which the checks confirm at run time.
    #[verifier::loop_isolation(false)]
    pub fn build() -> (r: Option<Tables256>)
        ensures
            r is Some <==> logexp8_ok(log8_table_spec(), exp8_table_spec()),
            match r {
                Some(t) => {
                    &&& t@.wf()
                    &&& t@.log == log8_table_spec()
                    &&& t@.exp == exp8_table_spec()
                },
                None => true,
            },
    {
        let base8: [u8; 8] = [1, 214, 152, 147, 128, 80, 202, 176];
        proof {
            assert(forall|j: int| 0 <= j < 8 ==> base8@[j] == cantor_base8(j));
        }
        let mut log = zero_vec8(256);
        let mut exp = zero_vec8(256);
        proof {
            assert(exp@ =~= exp8_phase1_spec(0));
            assert(log@ =~= cantor8_map_spec(0));
        }
        let mut state: u16 = 1;
        let mut i: usize = 0;
        while i < 255
            invariant
                log@.len() == 256,
                exp@.len() == 256,
                i <= 255,
                state < 256,
                state == lfsr8_state_spec(i as int),
                exp@ == exp8_phase1_spec(i as int),
            decreases 255 - i,
        {
            exp.set(state as usize, i as u8);
            if (state >> 7) != 0 {
                proof {
                    assert(state & 0x7F < 128) by (bit_vector);
                    assert(((state & 0x7F) << 1u16) < 256 && (((state & 0x7F) << 1u16) ^ 0x1D)
                        < 256) by (bit_vector);
                }
                state = ((state & 0x7F) << 1) ^ 0x1D;
            } else {
                proof {
                    assert(state >> 7 == 0 ==> state < 128) by (bit_vector);
                    assert(state < 128 ==> (state << 1u16) < 256) by (bit_vector);
                }
                state = state << 1;
            }
            i = i + 1;
        }
        exp.set(0, 255);
        proof {
            assert(exp@ == exp8_lfsr_spec());
        }
        let mut bi: usize = 0;
        while bi < 8
            invariant
                log@.len() == 256,
                exp@.len() == 256,
                bi <= 8,
                log@[0] == 0,
                log@ == cantor8_map_spec(bi as int),
            decreases 8 - bi,
        {
            let w: usize = 1usize << bi;
            proof {
                vstd::arithmetic::power2::lemma2_to64();
                vstd::bits::lemma_usize_shl_is_mul(1, bi);
                if bi < 7 {
                    vstd::arithmetic::power2::lemma_pow2_strictly_increases(bi as nat, 7);
                }
            }
            let ghost snap = log@;
            let mut j: usize = 0;
            while j < w
                invariant
                    log@.len() == 256,
                    exp@.len() == 256,
                    j <= w,
                    w + w <= 256,
                    bi < 8,
                    log@[0] == 0,
                    forall|x: int| 0 <= x < w ==> log@[x] == snap[x],
                    forall|x: int| w <= x < w + j ==> log@[x] == (snap[x - w] ^ base8@[bi as int]),
                    forall|x: int| w + j <= x < 256 ==> log@[x] == snap[x],
                decreases w - j,
            {
                let v = log[j] ^ base8[bi];
                log.set(j + w, v);
                j = j + 1;
            }
            proof {
                assert(log@ =~= cantor8_pass_spec(snap, bi as int));
            }
            bi = bi + 1;
        }
        // at index zero the composition writes `exp[0]`, the sentinel
        let mut i2: usize = 0;
        while i2 < 256
            invariant
                log@.len() == 256,
                exp@.len() == 256,
                i2 <= 256,
                i2 == 0 ==> log@[0] == 0,
                i2 >= 1 ==> log@[0] == 255,
                forall|x: int| 0 <= x < i2 ==> log@[x] == log8_table_spec()[x],
                forall|x: int| i2 <= x < 256 ==> log@[x] == cantor8_map_spec(8)[x],
            decreases 256 - i2,
        {
            let v = exp[log[i2] as usize];
            log.set(i2, v);
            i2 = i2 + 1;
        }
        proof {
            assert(log@ =~= log8_table_spec());
        }
        let mut i3: usize = 0;
        while i3 < 256
            invariant
                log@.len() == 256,
                exp@.len() == 256,
                i3 <= 256,
                exp@ == exp8_phase4_spec(i3 as int),
            decreases 256 - i3,
        {
            exp.set(log[i3] as usize, i3 as u8);
            i3 = i3 + 1;
        }
        let e0 = exp[0];
        exp.set(255, e0);
        proof {
            assert(exp@ == exp8_table_spec());
        }
        let mut a: usize = 1;
        while a < 256
            invariant
                log@.len() == 256,
                exp@.len() == 256,
                1 <= a <= 256,
                forall|x: int| 1 <= x < a ==> exp@[(#[trigger] log@[x]) as int] == x,
            decreases 256 - a,
        {
            if exp[log[a] as usize] as usize != a {
                proof {
                    assert(!logexp8_ok(log8_table_spec(), exp8_table_spec())) by {
                        if logexp8_ok(log8_table_spec(), exp8_table_spec()) {
                            assert(exp8_table_spec()[(log8_table_spec()[a as int]) as int]
                                == a as int);
                        }
                    }
                }
                return None;
            }
            a = a + 1;
        }
        let mut l: usize = 0;
        while l < 255
            invariant
                log@.len() == 256,
                exp@.len() == 256,
                l <= 255,
                forall|x: int| 1 <= x < 256 ==> exp@[(#[trigger] log@[x]) as int] == x,
                forall|x: int| 0 <= x < l ==> log@[(#[trigger] exp@[x]) as int] == x,
            decreases 255 - l,
        {
            if log[exp[l] as usize] as usize != l {
                proof {
                    assert(!logexp8_ok(log8_table_spec(), exp8_table_spec())) by {
                        if logexp8_ok(log8_table_spec(), exp8_table_spec()) {
                            assert(log8_table_spec()[(exp8_table_spec()[l as int]) as int]
                                == l as int);
                        }
                    }
                }
                return None;
            }
            l = l + 1;
        }
        proof {
            let tv = Tables256View { log: log@, exp: exp@ };
            assert(tv.log[0] == 255);
            assert(tv.wf());
            assert(tv.log == log8_table_spec() && tv.exp == exp8_table_spec());
            assert(logexp8_ok(log8_table_spec(), exp8_table_spec()));
        }
        Some(Tables256 { log, exp })
    }
}

} // verus!

//! SLHA v2 — the integer side of the Sub-Low Rank Hybrid Attention tile.
//!
//! A tile stores a low-rank latent of `D_C` dimensions as signed INT4
//! (two nibbles per byte, zero-point 8) and a `D_S`-bit sign-LSH residual.
//! The fused attention score is
//!
//! ```text
//! score = <q_coarse, dequant(latent)>  +  lambda * (d_s - 2 * popcount(q_sign ^ B))
//! ```
//!
//! This module holds everything of that score that lives on integers: the
//! nibble codec (`level = nibble - 8`, in `[-8, 7]`), the per-dimension group
//! index, the Hamming distance of the residual and the binary term
//! `d_s - 2 * hamming`, and the WARM rule that drops the binary term.
//! The three real-valued tile parameters (global scale, `lambda`, `sigma_E`)
//! are carried as their IEEE-754 bit patterns; this library never computes on
//! them, apart from ordering `sigma_E` (see `crate::metrics::total_order_key`).
use vstd::prelude::*;
use crate::metrics::{total_key, total_order_key};

verus! {

/// Latent dimensionality stored per tile (INT4).
pub const D_C: usize = 128;

/// Sign-LSH residual width, in bits.
pub const D_S: usize = 256;

/// Bytes used by the INT4 latent block: two 4-bit samples per byte.
pub const LATENT_BYTES: usize = 64;

/// Number of `u64` words in the residual bitmap.
pub const RESIDUAL_WORDS: usize = 4;

/// Number of micro-scaling groups for the INT4 latent (one scale byte each).
pub const N_GROUPS: usize = 8;

/// Latent dimensions per micro-scaling group.
pub const GROUP_DIM: usize = 16;

/// Full-fidelity tile: latent and residual both live.
pub const FLAG_HOT: u16 = 0;

/// Residual paged out: the score uses the latent base only.
pub const FLAG_WARM: u16 = 1;

/// Latent coded with the NF4 codebook instead of uniform INT4.
pub const FLAG_NF4: u16 = 2;

/// A single SLHA v2 context tile (128 bytes in the C layout).
///
/// `scale_bits`, `dynamic_lambda_bits` and `residual_sigma_bits` are the
/// `f32::to_bits` patterns of the global dequantisation scale, of the binary
/// correction weight and of the residual energy estimate.
#[derive(Clone, Copy)]
pub struct SciRustSlhaTile {
    /// Latent base (128 dims) as signed INT4, two nibbles per byte.
    pub latent_kv: [u8; LATENT_BYTES],
    /// Sign residual: 256 bits.
    pub residual_bitmap: [u64; RESIDUAL_WORDS],
    /// Bit pattern of the global INT4 dequantisation scale.
    pub scale_bits: u32,
    /// Bit pattern of the binary-correction weight lambda.
    pub dynamic_lambda_bits: u32,
    /// Bit pattern of the per-tile residual energy estimate sigma_E.
    pub residual_sigma_bits: u32,
    /// Token identifier.
    pub token_id: u32,
    /// Sequence position.
    pub position: u32,
    /// Attention head id.
    pub head_id: u16,
    /// State flags (`FLAG_HOT` / `FLAG_WARM` / `FLAG_NF4`).
    pub flags: u16,
    /// Per-group micro-scaling bytes: `effective_scale(g) = scale * gs[g] / 255`.
    pub group_scales: [u8; N_GROUPS],
}

/// The nibble that codes latent dimension `d` in the packed bytes: the low
/// nibble of byte `d / 2` for even `d`, the high nibble for odd `d`.
pub open spec fn nibble_of(bytes: Seq<u8>, d: int) -> int {
    if d % 2 == 0 {
        bytes[d / 2] as int % 16
    } else {
        bytes[d / 2] as int / 16
    }
}

/// The signed INT4 level of dimension `d`: nibble minus the zero-point 8.
pub open spec fn level_of(bytes: Seq<u8>, d: int) -> int {
    nibble_of(bytes, d) - 8
}

/// A quantised level clamped to the signed INT4 range `[-8, 7]`.
pub open spec fn clamp_level(x: int) -> int {
    if x < -8 {
        -8
    } else if x > 7 {
        7
    } else {
        x
    }
}

/// The nibble that stores a level: `clamp(x) + 8`, in `[0, 15]`.
pub open spec fn nibble_code(x: int) -> int {
    clamp_level(x) + 8
}

/// The packed latent bytes of `D_C` levels.
pub open spec fn pack_spec(levels: Seq<int>) -> Seq<u8> {
    Seq::new(
        LATENT_BYTES as nat,
        |i: int| (nibble_code(levels[2 * i]) + 16 * nibble_code(levels[2 * i + 1])) as u8,
    )
}

/// The `D_C` signed levels that packed latent bytes stand for.
pub open spec fn unpack_spec(bytes: Seq<u8>) -> Seq<int> {
    Seq::new(D_C as nat, |d: int| level_of(bytes, d))
}

/// Number of one bits of a word.
pub open spec fn popcount(x: u64) -> nat
    decreases x,
{
    if x == 0 {
        0
    } else {
        (x % 2) as nat + popcount(x / 2)
    }
}

/// Hamming distance of the first `n` words of two bitmaps.
pub open spec fn hamming_words(a: Seq<u64>, b: Seq<u64>, n: int) -> nat
    decreases n,
{
    if n <= 0 {
        0
    } else {
        hamming_words(a, b, n - 1) + popcount(a[n - 1] ^ b[n - 1])
    }
}

/// Hamming distance of two `D_S`-bit residuals.
pub open spec fn hamming(a: Seq<u64>, b: Seq<u64>) -> nat {
    hamming_words(a, b, RESIDUAL_WORDS as int)
}

/// Dot product of the `±1` sign vectors of the low `n` bits of two words
/// (bit `i` of `a` is `(a / 2^i) % 2`; equal bits give `+1`, different `-1`).
pub open spec fn sign_agreement(a: u64, b: u64, n: nat) -> int
    decreases n,
{
    if n == 0 {
        0
    } else {
        (if a % 2 == b % 2 {
            1int
        } else {
            -1int
        }) + sign_agreement(a / 2, b / 2, (n - 1) as nat)
    }
}

/// Dot product of the `±1` sign vectors of the first `n` words of two bitmaps.
pub open spec fn sign_dot_words(a: Seq<u64>, b: Seq<u64>, n: int) -> int
    decreases n,
{
    if n <= 0 {
        0
    } else {
        sign_dot_words(a, b, n - 1) + sign_agreement(a[n - 1], b[n - 1], 64)
    }
}

/// Dot product of the two `D_S`-dimensional `±1` sign vectors.
pub open spec fn sign_dot(a: Seq<u64>, b: Seq<u64>) -> int {
    sign_dot_words(a, b, RESIDUAL_WORDS as int)
}

/// The binary (sign-LSH) term of the fused score, before the `lambda` weight.
pub open spec fn binary_term_spec(q_sign: Seq<u64>, residual: Seq<u64>) -> int {
    D_S as int - 2 * hamming(q_sign, residual)
}

/// `u64::count_ones` returns the number of one bits of its argument.
pub assume_specification[ u64::count_ones ](x: u64) -> (r: u32)
    ensures
        r as nat == popcount(x),
;

impl SciRustSlhaTile {
    /// True if the WARM flag is set.
    pub open spec fn warm(&self) -> bool {
        self.flags & FLAG_WARM != 0
    }

    /// True if the NF4 flag is set.
    pub open spec fn nf4(&self) -> bool {
        self.flags & FLAG_NF4 != 0
    }

    /// The signed levels of the latent.
    pub open spec fn levels_spec(&self) -> Seq<int> {
        unpack_spec(self.latent_kv@)
    }

    /// True if the residual has been paged out (WARM mode).
    pub fn is_warm(&self) -> (r: bool)
        ensures
            r == self.warm(),
            r == (self.flags % 2 == 1),
    {
        proof {
            lemma_warm_is_bit_zero(*self);
        }
        self.flags & FLAG_WARM != 0
    }

    /// True if the latent is coded with NF4.
    pub fn is_nf4(&self) -> (r: bool)
        ensures
            r == self.nf4(),
    {
        self.flags & FLAG_NF4 != 0
    }

    /// The micro-scaling group byte of dimension `d` (`gs[d / GROUP_DIM]`).
    pub fn group_scale_code(&self, d: usize) -> (r: u8)
        requires
            d < D_C,
        ensures
            r == self.group_scales@[(d / GROUP_DIM) as int],
    {
        self.group_scales[d / GROUP_DIM]
    }

    /// The stored nibble (`0..=15`) of latent dimension `d`.
    pub fn nibble_at(&self, d: usize) -> (r: u8)
        requires
            d < D_C,
        ensures
            r as int == nibble_of(self.latent_kv@, d as int),
            d % 2 == 0 ==> r == self.latent_kv@[(d / 2) as int] % 16,
            d % 2 == 1 ==> r == self.latent_kv@[(d / 2) as int] / 16,
            r < 16,
    {
        let byte = self.latent_kv[d / 2];
        assert(d & 1 == 0 <==> d % 2 == 0) by (bit_vector);
        assert(byte & 0x0F == byte % 16) by (bit_vector);
        assert(byte >> 4 == byte / 16) by (bit_vector);
        if d & 1 == 0 {
            byte & 0x0F
        } else {
            byte >> 4
        }
    }

    /// The signed INT4 level (`nibble - 8`, in `[-8, 7]`) of dimension `d`:
    /// the integer factor of `dequant_at(d) = level * group_scale(d)`.
    pub fn level_at(&self, d: usize) -> (r: i8)
        requires
            d < D_C,
        ensures
            r as int == level_of(self.latent_kv@, d as int),
            d % 2 == 0 ==> r as int == self.latent_kv@[(d / 2) as int] as int % 16 - 8,
            d % 2 == 1 ==> r as int == self.latent_kv@[(d / 2) as int] as int / 16 - 8,
            -8 <= r <= 7,
    {
        let nib = self.nibble_at(d);
        (nib as i8) - 8
    }

    /// All `D_C` signed levels, in dimension order.
    pub fn levels(&self) -> (r: Vec<i8>)
        ensures
            r@.len() == D_C,
            forall|d: int| 0 <= d < D_C ==> r@[d] as int == self.levels_spec()[d],
    {
        let mut out: Vec<i8> = Vec::with_capacity(D_C);
        let mut d: usize = 0;
        while d < D_C
            invariant
                d <= D_C,
                out@.len() == d,
                forall|e: int| 0 <= e < d ==> out@[e] as int == self.levels_spec()[e],
            decreases D_C - d,
        {
            let l = self.level_at(d);
            out.push(l);
            d = d + 1;
        }
        out
    }

    /// Hamming distance between the query sign bits and the residual bitmap.
    pub fn hamming_distance(&self, q_sign: &[u64; RESIDUAL_WORDS]) -> (r: u32)
        ensures
            r as nat == hamming(q_sign@, self.residual_bitmap@),
            r <= D_S,
    {
        let mut h: u32 = 0;
        let mut w: usize = 0;
        while w < RESIDUAL_WORDS
            invariant
                w <= RESIDUAL_WORDS,
                h as nat == hamming_words(q_sign@, self.residual_bitmap@, w as int),
                h <= 64 * w,
            decreases RESIDUAL_WORDS - w,
        {
            let x = q_sign[w] ^ self.residual_bitmap[w];
            proof {
                lemma_popcount_le_64(x);
            }
            h = h + x.count_ones();
            w = w + 1;
        }
        h
    }

    /// The binary term `d_s - 2 * popcount(q_sign ^ B)` of the fused score, that is
    /// the dot product of the two `±1` sign vectors; `lambda` multiplies it.
    pub fn binary_term(&self, q_sign: &[u64; RESIDUAL_WORDS]) -> (r: i32)
        ensures
            r as int == binary_term_spec(q_sign@, self.residual_bitmap@),
            r as int == sign_dot(q_sign@, self.residual_bitmap@),
            -256 <= r <= 256,
    {
        let h = self.hamming_distance(q_sign);
        proof {
            lemma_binary_term_is_sign_dot(q_sign@, self.residual_bitmap@);
        }
        256 - 2 * (h as i32)
    }

    /// The binary contribution the fused score adds to the coarse term:
    /// none in WARM mode, else the binary term (to be weighted by `lambda`).
    pub fn binary_contribution(&self, q_sign: &[u64; RESIDUAL_WORDS]) -> (r: Option<i32>)
        ensures
            self.warm() ==> r is None,
            !self.warm() ==> r == Some(binary_term_spec(q_sign@, self.residual_bitmap@) as i32),
            self.flags % 2 == 1 ==> r is None,
            self.flags % 2 == 0 ==> r is Some && r->0 as int == D_S as int - 2 * hamming(
                q_sign@,
                self.residual_bitmap@,
            ),
    {
        proof {
            lemma_warm_is_bit_zero(*self);
        }
        if self.is_warm() {
            None
        } else {
            Some(self.binary_term(q_sign))
        }
    }

    /// The order key of the tile's residual energy sigma_E (its `f32` total
    /// order): a lower key is a lower-impact tile.
    pub fn impact_key(&self) -> (r: i64)
        ensures
            r as int == total_key(self.residual_sigma_bits),
    {
        total_order_key(self.residual_sigma_bits)
    }
}

/// The nibble that stores a quantised level: clamp to `[-8, 7]`, add 8.
pub fn nibble_for_level(x: i32) -> (r: u8)
    ensures
        r as int == nibble_code(x as int),
        r < 16,
{
    if x < -8 {
        0
    } else if x > 7 {
        15
    } else {
        (x + 8) as u8
    }
}

/// Pack `D_C` quantised levels (already rounded) into signed INT4 nibbles:
/// each level is clamped to `[-8, 7]` and stored as `level + 8`, dimension
/// `2i` in the low nibble and `2i + 1` in the high nibble of byte `i`.
pub fn pack_levels(levels: &[i32; D_C]) -> (packed: [u8; LATENT_BYTES])
    ensures
        packed@ == pack_spec(levels@.map_values(|x: i32| x as int)),
        forall|d: int| 0 <= d < D_C ==> level_of(packed@, d) == clamp_level(levels@[d] as int),
        forall|i: int|
            0 <= i < LATENT_BYTES ==> #[trigger] packed@[i] as int == low_nibble_of_level(
                levels@[2 * i] as int,
            ) + 16 * low_nibble_of_level(levels@[2 * i + 1] as int),
{
    proof {
        lemma_pack_byte_layout(levels@.map_values(|x: i32| x as int));
    }
    let ghost ls = levels@.map_values(|x: i32| x as int);
    let mut out: [u8; LATENT_BYTES] = [0u8; LATENT_BYTES];
    let mut i: usize = 0;
    while i < LATENT_BYTES
        invariant
            i <= LATENT_BYTES,
            ls == levels@.map_values(|x: i32| x as int),
            out@.len() == LATENT_BYTES,
            forall|j: int| 0 <= j < i ==> out@[j] == pack_spec(ls)[j],
        decreases LATENT_BYTES - i,
    {
        let lo = nibble_for_level(levels[2 * i]);
        let hi = nibble_for_level(levels[2 * i + 1]);
        assert(lo | (hi << 4) == lo + 16 * hi) by (bit_vector)
            requires
                lo < 16,
                hi < 16,
        ;
        out[i] = lo | (hi << 4);
        i = i + 1;
    }
    proof {
        assert(out@ =~= pack_spec(ls));
        lemma_unpack_pack(ls);
        assert forall|d: int| 0 <= d < D_C implies level_of(out@, d) == clamp_level(
            levels@[d] as int,
        ) by {
            assert(unpack_spec(out@)[d] == level_of(out@, d));
        }
    }
    out
}

/// `x` clamped to `[-8, 7]`, plus 8: the nibble value of a level, written out.
pub open spec fn low_nibble_of_level(x: int) -> int {
    if x <= -8 {
        0
    } else if x >= 7 {
        15
    } else {
        x + 8
    }
}

/// A tile is WARM exactly when bit 0 of its flags (`FLAG_WARM`) is set; no
/// other flag bit (such as `FLAG_NF4`) makes it WARM.
pub proof fn lemma_warm_is_bit_zero(t: SciRustSlhaTile)
    ensures
        t.warm() <==> t.flags % 2 == 1,
        t.nf4() <==> (t.flags / 2) % 2 == 1,
{
    let f = t.flags;
    assert(f & 1u16 != 0 <==> f % 2 == 1) by (bit_vector);
    assert(f & 2u16 != 0 <==> (f / 2) % 2 == 1) by (bit_vector);
}

/// Latent dimension `d` is stored in byte `d / 2`: even dimensions in its
/// low nibble, odd dimensions in its high nibble, as `level + 8`.
pub proof fn lemma_level_byte_layout(bytes: Seq<u8>, d: int)
    requires
        bytes.len() == LATENT_BYTES,
        0 <= d < D_C,
    ensures
        d % 2 == 0 ==> unpack_spec(bytes)[d] == bytes[d / 2] as int % 16 - 8,
        d % 2 == 1 ==> unpack_spec(bytes)[d] == bytes[d / 2] as int / 16 - 8,
        -8 <= unpack_spec(bytes)[d] <= 7,
{
}

/// Byte `i` of a packed latent holds level `2i` (clamped, plus 8) in its low
/// nibble and level `2i + 1` in its high nibble.
pub proof fn lemma_pack_byte_layout(levels: Seq<int>)
    requires
        levels.len() == D_C,
    ensures
        forall|i: int|
            0 <= i < LATENT_BYTES ==> #[trigger] pack_spec(levels)[i] as int == low_nibble_of_level(
                levels[2 * i],
            ) + 16 * low_nibble_of_level(levels[2 * i + 1]),
        forall|i: int|
            0 <= i < LATENT_BYTES ==> #[trigger] pack_spec(levels)[i] as int % 16 == low_nibble_of_level(
                levels[2 * i],
            ) && pack_spec(levels)[i] as int / 16 == low_nibble_of_level(levels[2 * i + 1]),
{
}

/// A word has at most 64 one bits.
pub proof fn lemma_popcount_le_64(x: u64)
    ensures
        popcount(x) <= 64,
{
    assert(x >> 64u64 == 0) by (bit_vector);
    lemma_popcount_bound(x, 64);
}

proof fn lemma_popcount_bound(x: u64, n: u64)
    requires
        n <= 64,
        x >> n == 0,
    ensures
        popcount(x) <= n,
    decreases n,
{
    if n == 0 {
        assert(x >> 0u64 == 0 ==> x == 0) by (bit_vector);
    } else {
        assert(x >> n == 0 && n > 0 && n <= 64 ==> (x / 2) >> ((n - 1) as u64) == 0) by (bit_vector);
        lemma_popcount_bound(x / 2, (n - 1) as u64);
        lemma_popcount_unfold(x);
    }
}

proof fn lemma_popcount_unfold(x: u64)
    ensures
        popcount(x) == (x % 2) as nat + popcount(x / 2),
{
}

/// For words below `2^n`: `n - 2 * popcount(a ^ b)` is the dot product of
/// the `±1` sign vectors of their `n` low bits.
pub proof fn lemma_hamming_sign_agreement(a: u64, b: u64, n: u64)
    requires
        n <= 64,
        a >> n == 0,
        b >> n == 0,
    ensures
        n - 2 * popcount(a ^ b) == sign_agreement(a, b, n as nat),
    decreases n,
{
    if n == 0 {
        assert(a >> 0u64 == 0 ==> a == 0) by (bit_vector);
        assert(b >> 0u64 == 0 ==> b == 0) by (bit_vector);
        assert(a == 0 && b == 0 ==> a ^ b == 0) by (bit_vector);
    } else {
        let m = (n - 1) as u64;
        assert(a >> n == 0 && n > 0 && n <= 64 ==> (a / 2) >> ((n - 1) as u64) == 0) by (bit_vector);
        assert(b >> n == 0 && n > 0 && n <= 64 ==> (b / 2) >> ((n - 1) as u64) == 0) by (bit_vector);
        lemma_hamming_sign_agreement(a / 2, b / 2, m);
        assert((a ^ b) / 2 == (a / 2) ^ (b / 2)) by (bit_vector);
        assert(a % 2 == b % 2 ==> (a ^ b) % 2 == 0) by (bit_vector);
        assert(a % 2 != b % 2 ==> (a ^ b) % 2 == 1) by (bit_vector);
        lemma_popcount_unfold(a ^ b);
    }
}

/// The binary term `d_s - 2 * hamming` equals the dot product of the two
/// `D_S`-dimensional `±1` sign vectors.
pub proof fn lemma_binary_term_is_sign_dot(q_sign: Seq<u64>, residual: Seq<u64>)
    requires
        q_sign.len() == RESIDUAL_WORDS,
        residual.len() == RESIDUAL_WORDS,
    ensures
        binary_term_spec(q_sign, residual) == sign_dot(q_sign, residual),
{
    assert forall|w: int| 0 <= w < RESIDUAL_WORDS implies 64 - 2 * popcount(q_sign[w] ^ residual[w])
        == sign_agreement(q_sign[w], residual[w], 64) by {
        let a = q_sign[w];
        let b = residual[w];
        assert(a >> 64u64 == 0) by (bit_vector);
        assert(b >> 64u64 == 0) by (bit_vector);
        lemma_hamming_sign_agreement(a, b, 64);
    }
    lemma_words_sum(q_sign, residual, RESIDUAL_WORDS as int);
}

proof fn lemma_words_sum(a: Seq<u64>, b: Seq<u64>, n: int)
    requires
        0 <= n <= a.len(),
        n <= b.len(),
        forall|w: int| 0 <= w < n ==> 64 - 2 * popcount(a[w] ^ b[w]) == sign_agreement(
            a[w],
            b[w],
            64,
        ),
    ensures
        64 * n - 2 * hamming_words(a, b, n) == sign_dot_words(a, b, n),
    decreases n,
{
    if n > 0 {
        lemma_words_sum(a, b, n - 1);
    }
}

/// Unpacking packed levels gives the levels back, clamped to `[-8, 7]`.
pub proof fn lemma_unpack_pack(levels: Seq<int>)
    requires
        levels.len() == D_C,
    ensures
        unpack_spec(pack_spec(levels)) == levels.map_values(|x: int| clamp_level(x)),
{
    let p = pack_spec(levels);
    assert forall|d: int| 0 <= d < D_C implies #[trigger] level_of(p, d) == clamp_level(levels[d]) by {
        let i = d / 2;
        let lo = nibble_code(levels[2 * i]);
        let hi = nibble_code(levels[2 * i + 1]);
        assert(p[i] as int == lo + 16 * hi);
        if d % 2 == 0 {
            assert(d == 2 * i);
        } else {
            assert(d == 2 * i + 1);
        }
    }
    assert(unpack_spec(p) =~= levels.map_values(|x: int| clamp_level(x)));
}

/// Every byte string is the packing of its own levels: the codec loses
/// nothing on stored tiles.
pub proof fn lemma_pack_unpack(bytes: Seq<u8>)
    requires
        bytes.len() == LATENT_BYTES,
    ensures
        pack_spec(unpack_spec(bytes)) == bytes,
{
    let l = unpack_spec(bytes);
    assert forall|i: int| 0 <= i < LATENT_BYTES implies #[trigger] pack_spec(l)[i] == bytes[i] by {
        assert(l[2 * i] == level_of(bytes, 2 * i));
        assert(l[2 * i + 1] == level_of(bytes, 2 * i + 1));
        assert((2 * i) / 2 == i);
        assert((2 * i + 1) / 2 == i);
    }
    assert(pack_spec(l) =~= bytes);
}

} // verus!

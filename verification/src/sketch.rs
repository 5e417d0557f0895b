//! The cardinality sketch behind the approximate accumulator.
//!
//! A fixed array of registers summarizes the multiset of tokens fed to the
//! sketch. Each token is hashed once with a fixed, deterministic hash; the
//! top bits of the hash route the token to a register and the register keeps
//! the greatest rank (position of the first one bit, plus one) ever routed
//! to it. The estimate is the bias-corrected harmonic mean of `2^register`,
//! with a linear-counting regime at the small end and a logarithmic
//! correction at the large end.

use vstd::prelude::*;
use vstd::wrapping::u64_specs;

verus! {

/// Number of registers; chosen for a target relative error near one percent
/// (the error of this register count is about `1.04 / sqrt(16384)`).
pub const REG_COUNT: usize = 16384;

/// The greatest storable rank: one more than the fifty hash bits left after
/// the index bits are taken.
pub const MAX_RANK: u8 = 51;

/// Mask of the fifty hash bits ranked by a register.
pub const LOW_MASK: u64 = 0x3_ffff_ffff_ffff;

pub const FNV_OFFSET: u64 = 0xcbf2_9ce4_8422_2325;

pub const FNV_PRIME: u64 = 0x100_0000_01b3;

/// One byte folded into a running hash state.
pub open spec fn fnv_step(h: u64, b: u8) -> u64 {
    u64_specs::wrapping_mul(h ^ (b as u64), FNV_PRIME)
}

/// One character folded into the hash state, low byte first.
pub open spec fn fnv_char(h: u64, c: char) -> u64 {
    let u = c as u32;
    fnv_step(
        fnv_step(fnv_step(fnv_step(h, (u & 0xff) as u8), ((u >> 8) & 0xff) as u8), ((u >> 16)
            & 0xff) as u8),
        ((u >> 24) & 0xff) as u8,
    )
}

/// The hash state after folding in every character of `s`.
pub open spec fn fnv_fold(s: Seq<char>, h: u64) -> u64
    decreases s.len(),
{
    if s.len() == 0 {
        h
    } else {
        fnv_fold(s.subrange(1, s.len() as int), fnv_char(h, s[0]))
    }
}

/// The final bit-mixing pass over the folded state.
pub open spec fn mix64(h: u64) -> u64 {
    let a = u64_specs::wrapping_mul(h ^ (h >> 33), 0xff51_afd7_ed55_8ccd);
    let b = u64_specs::wrapping_mul(a ^ (a >> 33), 0xc4ce_b9fe_1a85_ec53);
    b ^ (b >> 33)
}

/// The sketch's hash of a token: deterministic, fixed across runs, a
/// function of the token's characters alone.
pub open spec fn hash_of(t: Seq<char>) -> u64 {
    mix64(fnv_fold(t, FNV_OFFSET))
}

fn fnv_char_exec(h: u64, c: char) -> (r: u64)
    ensures
        r == fnv_char(h, c),
{
    let u = c as u32;
    let h1 = (h ^ ((u & 0xff) as u64)).wrapping_mul(FNV_PRIME);
    let h2 = (h1 ^ (((u >> 8) & 0xff) as u64)).wrapping_mul(FNV_PRIME);
    let h3 = (h2 ^ (((u >> 16) & 0xff) as u64)).wrapping_mul(FNV_PRIME);
    let h4 = (h3 ^ (((u >> 24) & 0xff) as u64)).wrapping_mul(FNV_PRIME);
    proof {
        assert((u & 0xff) < 256 && ((u >> 8) & 0xff) < 256 && ((u >> 16) & 0xff) < 256 && ((u
            >> 24) & 0xff) < 256) by (bit_vector);
        assert(((u & 0xff) as u8) as u64 == (u & 0xff) as u64) by (bit_vector);
        assert((((u >> 8) & 0xff) as u8) as u64 == ((u >> 8) & 0xff) as u64) by (bit_vector);
        assert((((u >> 16) & 0xff) as u8) as u64 == ((u >> 16) & 0xff) as u64) by (bit_vector);
        assert((((u >> 24) & 0xff) as u8) as u64 == ((u >> 24) & 0xff) as u64) by (bit_vector);
    }
    h4
}

/// Hashes a token. The result depends on the token's characters alone, so
/// equal tokens hash alike within and across runs.
pub fn hash_token(t: &String) -> (h: u64)
    ensures
        h == hash_of(t@),
{
    let s = t.as_str();
    let n = s.unicode_len();
    let mut h: u64 = FNV_OFFSET;
    let mut i: usize = 0;
    proof {
        assert(t@.subrange(0, n as int) =~= t@);
    }
    while i < n
        invariant
            i <= n,
            n == t@.len(),
            s@ == t@,
            fnv_fold(t@, FNV_OFFSET) == fnv_fold(t@.subrange(i as int, n as int), h),
        decreases n - i,
    {
        let c = s.get_char(i);
        proof {
            let tail = t@.subrange(i as int, n as int);
            assert(tail[0] == t@[i as int]);
            assert(tail.subrange(1, tail.len() as int) =~= t@.subrange(i + 1, n as int));
        }
        h = fnv_char_exec(h, c);
        i = i + 1;
    }
    proof {
        assert(t@.subrange(n as int, n as int) =~= Seq::<char>::empty());
    }
    let a = (h ^ (h >> 33)).wrapping_mul(0xff51_afd7_ed55_8ccd);
    let b = (a ^ (a >> 33)).wrapping_mul(0xc4ce_b9fe_1a85_ec53);
    b ^ (b >> 33)
}

/// The register an observation with hash `h` is routed to.
pub open spec fn reg_index(h: u64) -> int {
    (h >> 50) as int
}

pub open spec fn rank_from(w: u64, i: int) -> int
    decreases i + 1,
{
    if i < 0 {
        51
    } else if w & (1u64 << (i as u64)) != 0 {
        50 - i
    } else {
        rank_from(w, i - 1)
    }
}

/// The rank of the fifty low hash bits: the position of the first one bit
/// counted from the high end, plus one; fifty-one when all are zero.
pub open spec fn rank_of(w: u64) -> int {
    rank_from(w, 49)
}

proof fn lemma_rank_range(w: u64, i: int)
    requires
        -1 <= i <= 49,
    ensures
        1 <= rank_from(w, i) <= 51,
        rank_from(w, i) >= 50 - i,
    decreases i + 1,
{
    if i >= 0 {
        lemma_rank_range(w, i - 1);
    }
}

fn rank_of_low_bits(w: u64) -> (r: u8)
    ensures
        r == rank_of(w),
        1 <= r <= 51,
{
    proof {
        lemma_rank_range(w, 49);
    }
    let mut j: usize = 0;
    while j < 50
        invariant
            j <= 50,
            rank_of(w) == rank_from(w, 49 - j as int),
        decreases 50 - j,
    {
        let bit: u64 = 49 - (j as u64);
        if w & (1u64 << bit) != 0 {
            return (j + 1) as u8;
        }
        j = j + 1;
    }
    51
}

/// Well-formed register state: the full register array, every register
/// within the storable rank range.
pub open spec fn wf_regs(regs: Seq<u8>) -> bool {
    &&& regs.len() == REG_COUNT
    &&& forall|i: int| 0 <= i < regs.len() ==> regs[i] <= MAX_RANK
}

/// The register state holding no token.
pub open spec fn empty_regs() -> Seq<u8> {
    Seq::new(REG_COUNT as nat, |i: int| 0u8)
}

/// One token applied to a register state: the routed register keeps the
/// greater of its value and the token's rank.
pub open spec fn sketch_insert(regs: Seq<u8>, tok: Seq<char>) -> Seq<u8> {
    let h = hash_of(tok);
    let i = reg_index(h);
    let r = rank_of(h & LOW_MASK);
    if regs[i] < r {
        regs.update(i, r as u8)
    } else {
        regs
    }
}

/// Inserting a token the sketch has already absorbed changes nothing: a
/// repeated scalar never moves the estimate.
pub proof fn lemma_sketch_insert_idempotent(regs: Seq<u8>, tok: Seq<char>)
    requires
        wf_regs(regs),
    ensures
        sketch_insert(sketch_insert(regs, tok), tok) == sketch_insert(regs, tok),
{
    let h = hash_of(tok);
    let i = reg_index(h);
    assert(h >> 50 < 16384) by (bit_vector);
}

/// Insertion order is invisible: two tokens reach the same register state
/// in either order, so the estimate is order-insensitive.
pub proof fn lemma_sketch_insert_comm(regs: Seq<u8>, a: Seq<char>, b: Seq<char>)
    requires
        wf_regs(regs),
    ensures
        sketch_insert(sketch_insert(regs, a), b) == sketch_insert(sketch_insert(regs, b), a),
{
    let ha = hash_of(a);
    let hb = hash_of(b);
    let ia = reg_index(ha);
    let ib = reg_index(hb);
    let ra = rank_of(ha & LOW_MASK);
    let rb = rank_of(hb & LOW_MASK);
    assert(ha >> 50 < 16384) by (bit_vector);
    assert(hb >> 50 < 16384) by (bit_vector);
    lemma_rank_range(ha & LOW_MASK, 49);
    lemma_rank_range(hb & LOW_MASK, 49);
    if ia == ib {
        assert(sketch_insert(sketch_insert(regs, a), b) =~= sketch_insert(
            sketch_insert(regs, b),
            a,
        ));
    } else {
        assert(sketch_insert(sketch_insert(regs, a), b) =~= sketch_insert(
            sketch_insert(regs, b),
            a,
        ));
    }
}

/// A cardinality sketch: the register array.
pub struct Sketch {
    regs: Vec<u8>,
}

impl View for Sketch {
    type V = Seq<u8>;

    closed spec fn view(&self) -> Seq<u8> {
        self.regs@
    }
}

impl Sketch {
    /// Well-formedness of the register array.
    pub open spec fn wf(&self) -> bool {
        wf_regs(self@)
    }

    /// A fresh sketch holding no token.
    pub fn new() -> (r: Sketch)
        ensures
            r.wf(),
            r@ == empty_regs(),
    {
        let regs: Vec<u8> = vec![0u8; REG_COUNT];
        let r = Sketch { regs };
        proof {
            assert(r@ =~= empty_regs());
        }
        r
    }

    /// Feeds one token's hash into the sketch.
    pub fn insert(&mut self, tok: &String)
        requires
            old(self).wf(),
        ensures
            final(self).wf(),
            final(self)@ == sketch_insert(old(self)@, tok@),
    {
        let h = hash_token(tok);
        proof {
            assert(h >> 50 < 16384) by (bit_vector);
        }
        let idx = (h >> 50) as usize;
        let r = rank_of_low_bits(h & LOW_MASK);
        if self.regs[idx] < r {
            self.regs.set(idx, r);
        }
    }
}

} // verus!

use vstd::arithmetic::div_mod::lemma_fundamental_div_mod;

verus! {

/// Numerator of the bias-correction constant for this register count.
pub const ALPHA_NUM: u128 = 7213 * 16384;

/// Denominator of the bias-correction constant for this register count.
pub const ALPHA_DEN: u128 = 10000 * 16384 + 10790;

/// The natural logarithm of two in thirty-two bit fixed point.
pub const LN2_Q32: u128 = 2977044472;

pub const P2_32: u128 = 0x1_0000_0000;

pub const P2_51: u128 = 0x8_0000_0000_0000;

pub const P2_62: u128 = 0x4000_0000_0000_0000;

pub const P2_63: u128 = 0x8000_0000_0000_0000;

pub const P2_64: u128 = 0x1_0000_0000_0000_0000;

/// Two to the power `k`.
pub open spec fn p2(k: nat) -> int
    decreases k,
{
    if k == 0 {
        1
    } else {
        2 * p2((k - 1) as nat)
    }
}

proof fn lemma_p2_pos(k: nat)
    ensures
        p2(k) >= 1,
    decreases k,
{
    if k > 0 {
        lemma_p2_pos((k - 1) as nat);
    }
}

proof fn lemma_p2_mono(k1: nat, k2: nat)
    requires
        k1 <= k2,
    ensures
        p2(k1) <= p2(k2),
    decreases k2,
{
    lemma_p2_pos(k1);
    if k1 < k2 {
        lemma_p2_mono(k1, (k2 - 1) as nat);
    }
}

proof fn lemma_div_lower(x: int, d: int, b: int)
    requires
        d >= 1,
        b >= 0,
        x >= b * d,
    ensures
        x / d >= b,
{
    lemma_fundamental_div_mod(x, d);
    if x / d < b {
        assert(d * (x / d) <= d * (b - 1)) by (nonlinear_arith)
            requires
                d >= 1,
                x / d <= b - 1,
        ;
        assert(d * (b - 1) == b * d - d) by (nonlinear_arith);
    }
}

proof fn lemma_div_upper(x: int, d: int, b: int)
    requires
        d >= 1,
        x >= 0,
        x < b * d,
    ensures
        x / d < b,
{
    lemma_fundamental_div_mod(x, d);
    if x / d >= b {
        assert(d * (x / d) >= d * b) by (nonlinear_arith)
            requires
                d >= 1,
                x / d >= b,
        ;
        assert(d * b == b * d) by (nonlinear_arith);
    }
}

/// The harmonic denominator: the sum over the registers of two to the power
/// of the unfilled rank range.
pub open spec fn harmonic_denom(regs: Seq<u8>) -> int
    decreases regs.len(),
{
    if regs.len() == 0 {
        0
    } else {
        harmonic_denom(regs.subrange(0, regs.len() - 1)) + p2(
            (MAX_RANK - regs[regs.len() - 1]) as nat,
        )
    }
}

/// How many registers still hold zero.
pub open spec fn count_zeros(regs: Seq<u8>) -> int
    decreases regs.len(),
{
    if regs.len() == 0 {
        0
    } else {
        count_zeros(regs.subrange(0, regs.len() - 1)) + if regs[regs.len() - 1] == 0 {
            1int
        } else {
            0int
        }
    }
}

proof fn lemma_harmonic_bounds(regs: Seq<u8>)
    requires
        forall|i: int| 0 <= i < regs.len() ==> regs[i] <= MAX_RANK,
    ensures
        harmonic_denom(regs) >= regs.len(),
        harmonic_denom(regs) <= regs.len() * P2_51 as int,
        0 <= count_zeros(regs) <= regs.len(),
    decreases regs.len(),
{
    if regs.len() > 0 {
        let front = regs.subrange(0, regs.len() - 1);
        lemma_harmonic_bounds(front);
        let k = (MAX_RANK - regs[regs.len() - 1]) as nat;
        lemma_p2_pos(k);
        lemma_p2_mono(k, 51);
        lemma_p2_51();
        assert((regs.len() - 1) * P2_51 as int + P2_51 as int == regs.len() * P2_51 as int)
            by (nonlinear_arith);
    }
}

/// The integer part of the base-two logarithm of `num / den`.
pub open spec fn log2_int_part(num: int, den: int) -> int
    decreases num - den,
{
    if den >= 1 && 2 * den <= num {
        1 + log2_int_part(num, 2 * den)
    } else {
        0
    }
}

/// One squaring step of the fixed-point fraction scan.
pub open spec fn frac_y_step(y: int) -> int {
    let z = (y * y) / P2_62 as int;
    if z >= P2_63 as int {
        z / 2
    } else {
        z
    }
}

/// The fraction bit produced by one squaring step.
pub open spec fn frac_bit(y: int) -> int {
    if (y * y) / P2_62 as int >= P2_63 as int {
        1
    } else {
        0
    }
}

/// The `n` fraction bits produced from `y`, most significant first.
pub open spec fn frac_acc(y: int, n: nat) -> int
    decreases n,
{
    if n == 0 {
        0
    } else {
        frac_bit(y) * p2((n - 1) as nat) + frac_acc(frac_y_step(y), (n - 1) as nat)
    }
}

/// The normalized mantissa of `num / den` in sixty-two bit fixed point.
pub open spec fn norm_y(num: int, den: int) -> int {
    (num * P2_62 as int) / (den * p2(log2_int_part(num, den) as nat))
}

/// The base-two logarithm of `num / den` in thirty-two bit fixed point.
pub open spec fn log2_fixed_spec(num: int, den: int) -> int {
    log2_int_part(num, den) * P2_32 as int + frac_acc(norm_y(num, den), 32)
}

/// The linear-counting estimate from `v` zero registers.
pub open spec fn linear_count(v: int) -> int {
    (REG_COUNT as int * log2_fixed_spec(REG_COUNT as int, v) * LN2_Q32 as int + P2_63 as int)
        / P2_64 as int
}

/// The estimate of a register state: the bias-corrected harmonic mean, with
/// linear counting at the small end and the logarithmic correction at the
/// large end, rounded to an integer and saturated to the result width.
pub open spec fn estimate_model(regs: Seq<u8>) -> int {
    let s = harmonic_denom(regs);
    let raw = (ALPHA_NUM as int * REG_COUNT as int * REG_COUNT as int * P2_51 as int) / (
    ALPHA_DEN as int * s);
    let v = count_zeros(regs);
    if raw <= 5 * REG_COUNT as int / 2 && v > 0 {
        linear_count(v)
    } else if raw <= P2_64 as int / 30 {
        raw
    } else if raw < P2_64 as int {
        let e = LN2_Q32 as int * log2_fixed_spec(P2_64 as int, P2_64 as int - raw);
        if e > u64::MAX as int {
            u64::MAX as int
        } else {
            e
        }
    } else {
        u64::MAX as int
    }
}

fn log2_fixed(num: u128, den: u128) -> (r: u128)
    requires
        1 <= den <= num,
        num <= P2_64,
    ensures
        r == log2_fixed_spec(num as int, den as int),
        r < 65 * P2_32,
{
    let mut k: u128 = 0;
    let mut d: u128 = den;
    proof {
        assert(p2(0) == 1);
    }
    while 2 * d <= num
        invariant
            1 <= den <= d <= num,
            num <= P2_64,
            k <= 64,
            d == den * p2(k as nat),
            log2_int_part(num as int, den as int) == k + log2_int_part(num as int, d as int),
        decreases num - d,
    {
        proof {
            lemma_p2_pos(k as nat);
            assert(den * p2((k + 1) as nat) == 2 * (den * p2(k as nat))) by (nonlinear_arith);
            assert(p2((k + 1) as nat) <= den * p2((k + 1) as nat)) by (nonlinear_arith)
                requires
                    den >= 1,
                    p2((k + 1) as nat) >= 0,
            ;
            lemma_p2_pos((k + 1) as nat);
            if k + 1 > 64 {
                lemma_p2_mono(65, (k + 1) as nat);
                lemma_p2_65();
            }
        }
        d = 2 * d;
        k = k + 1;
    }
    proof {
        assert(log2_int_part(num as int, d as int) == 0);
    }
    let y0: u128 = (num * P2_62) / d;
    proof {
        assert((num * P2_62) as int >= (P2_62 as int) * (d as int)) by (nonlinear_arith)
            requires
                num >= d,
                P2_62 >= 1,
        ;
        assert(((num * P2_62) as int) < (P2_63 as int) * (d as int)) by (nonlinear_arith)
            requires
                num < 2 * d,
        ;
        lemma_div_lower((num * P2_62) as int, d as int, P2_62 as int);
        lemma_div_upper((num * P2_62) as int, d as int, P2_63 as int);
    }
    let mut y: u128 = y0;
    let mut f: u128 = 0;
    let mut j: usize = 0;
    proof {
        lemma_p2_pos(32);
        lemma_p2_32();
    }
    while j < 32
        invariant
            j <= 32,
            P2_62 <= y < P2_63,
            f < p2(j as nat),
            f < P2_32,
            frac_acc(y0 as int, 32) == f * p2((32 - j) as nat) + frac_acc(y as int, (32 - j) as nat),
        decreases 32 - j,
    {
        proof {
            assert(y * y < P2_63 * P2_63) by (nonlinear_arith)
                requires
                    y < P2_63,
            ;
            assert(y * y >= P2_62 * P2_62) by (nonlinear_arith)
                requires
                    y >= P2_62,
            ;
        }
        let z: u128 = (y * y) / P2_62;
        proof {
            assert(P2_63 * P2_63 == P2_62 * P2_64) by (nonlinear_arith);
            lemma_div_lower((y * y) as int, P2_62 as int, P2_62 as int);
            lemma_div_upper((y * y) as int, P2_62 as int, P2_64 as int);
        }
        let bit: u128;
        let ghost y_old = y;
        let ghost f_old = f;
        if z >= P2_63 {
            y = z / 2;
            bit = 1;
            proof {
                lemma_div_lower(z as int, 2, P2_62 as int);
                lemma_div_upper(z as int, 2, P2_63 as int);
            }
        } else {
            y = z;
            bit = 0;
        }
        f = 2 * f + bit;
        j = j + 1;
        proof {
            let n = (32 - j) as nat;
            assert(frac_bit(y_old as int) == bit);
            assert(frac_y_step(y_old as int) == y as int);
            assert(frac_acc(y_old as int, (n + 1) as nat) == bit * p2(n) + frac_acc(y as int, n));
            lemma_p2_pos(n);
            assert(p2((n + 1) as nat) == 2 * p2(n));
            assert(f_old * p2((n + 1) as nat) + bit * p2(n) == (2 * f_old + bit) * p2(n))
                by (nonlinear_arith)
                requires
                    p2((n + 1) as nat) == 2 * p2(n),
            ;
            assert((32 - (j - 1)) as nat == (n + 1) as nat);
            assert(frac_acc(y0 as int, 32) == f * p2(n) + frac_acc(y as int, n));
            assert(p2(j as nat) == 2 * p2((j - 1) as nat));
            assert(f < p2(j as nat)) by (nonlinear_arith)
                requires
                    f == 2 * f_old + bit,
                    bit <= 1,
                    f_old < p2((j - 1) as nat),
                    p2(j as nat) == 2 * p2((j - 1) as nat),
            ;
            lemma_p2_mono(j as nat, 32);
            lemma_p2_32();
        }
    }
    proof {
        assert(frac_acc(y as int, 0) == 0);
        assert(f == frac_acc(y0 as int, 32));
        assert(y0 as int == norm_y(num as int, den as int));
    }
    k * P2_32 + f
}

impl Sketch {
    /// The sketch's current cardinality estimate, rounded to the nearest
    /// integer.
    pub fn estimate(&self) -> (e: u64)
        requires
            self.wf(),
        ensures
            e as int == estimate_model(self@),
    {
        let n = self.regs.len();
        let mut s: u128 = 0;
        let mut zeros: usize = 0;
        let mut i: usize = 0;
        proof {
            assert(self@.subrange(0, 0) =~= Seq::<u8>::empty());
            lemma_harmonic_bounds(self@);
        }
        while i < n
            invariant
                i <= n,
                n == self@.len(),
                self.wf(),
                s == harmonic_denom(self@.subrange(0, i as int)),
                zeros == count_zeros(self@.subrange(0, i as int)),
                s <= i * P2_51 as int,
                zeros <= i,
            decreases n - i,
        {
            let r = self.regs[i];
            let sh: u128 = (MAX_RANK - r) as u128;
            let term: u128 = 1u128 << sh;
            proof {
                lemma_shift_is_p2(sh);
                lemma_p2_pos(sh as nat);
                lemma_p2_mono(sh as nat, 51);
                lemma_p2_51();
                let pre = self@.subrange(0, i as int);
                let cur = self@.subrange(0, i + 1);
                assert(cur.subrange(0, cur.len() - 1) =~= pre);
                assert(cur[cur.len() - 1] == self@[i as int]);
                assert((i + 1) * P2_51 as int == i * P2_51 as int + P2_51 as int)
                    by (nonlinear_arith);
            }
            s = s + term;
            if r == 0 {
                zeros = zeros + 1;
            }
            i = i + 1;
        }
        proof {
            assert(self@.subrange(0, n as int) =~= self@);
        }
        proof {
            assert(s >= 16384);
            assert(ALPHA_DEN * s <= ALPHA_DEN * (16384 * P2_51)) by (nonlinear_arith)
                requires
                    s <= 16384 * P2_51,
            ;
            assert(ALPHA_DEN * s >= ALPHA_DEN * 1) by (nonlinear_arith)
                requires
                    s >= 1,
            ;
        }
        let numer: u128 = ALPHA_NUM * 16384 * 16384 * P2_51;
        let denom: u128 = ALPHA_DEN * s;
        let raw: u128 = numer / denom;
        let v = zeros;
        proof {
            assert(5 * (REG_COUNT as int) / 2 == 40960);
        }
        if raw <= 40960 && v > 0 {
            let lf = log2_fixed(16384u128, v as u128);
            proof {
                assert(16384u128 * lf <= 16384 * (65 * P2_32)) by (nonlinear_arith)
                    requires
                        lf < 65 * P2_32,
                ;
            }
            let a1: u128 = 16384u128 * lf;
            proof {
                assert(a1 * LN2_Q32 <= (16384 * (65 * P2_32)) * LN2_Q32) by (nonlinear_arith)
                    requires
                        a1 <= 16384 * (65 * P2_32),
                ;
            }
            let prod: u128 = a1 * LN2_Q32;
            proof {
                assert(prod + P2_63 < (P2_63 as int) * (P2_64 as int)) by (nonlinear_arith)
                    requires
                        prod <= (16384 * (65 * P2_32)) * LN2_Q32,
                ;
                lemma_div_upper((prod + P2_63) as int, P2_64 as int, P2_63 as int);
            }
            let e128: u128 = (prod + P2_63) / P2_64;
            e128 as u64
        } else if raw <= P2_64 / 30 {
            raw as u64
        } else if raw < P2_64 {
            let lf = log2_fixed(P2_64, P2_64 - raw);
            proof {
                assert(LN2_Q32 * lf <= LN2_Q32 * (65 * P2_32)) by (nonlinear_arith)
                    requires
                        lf < 65 * P2_32,
                ;
            }
            let e128: u128 = LN2_Q32 * lf;
            if e128 > 0xffff_ffff_ffff_ffff {
                u64::MAX
            } else {
                e128 as u64
            }
        } else {
            u64::MAX
        }
    }
}

proof fn lemma_p2_51()
    ensures
        p2(51) == P2_51 as int,
{
    lemma_shift_is_p2(51);
    assert(1u128 << 51u128 == 0x8_0000_0000_0000u128) by (bit_vector);
}

proof fn lemma_p2_32()
    ensures
        p2(32) == P2_32 as int,
{
    lemma_shift_is_p2(32);
    assert(1u128 << 32u128 == 0x1_0000_0000u128) by (bit_vector);
}

proof fn lemma_p2_65()
    ensures
        p2(65) == 2 * P2_64 as int,
{
    lemma_shift_is_p2(65);
    assert(1u128 << 65u128 == 0x2_0000_0000_0000_0000u128) by (bit_vector);
}

proof fn lemma_shift_is_p2(k: u128)
    requires
        k <= 100,
    ensures
        1u128 << k == p2(k as nat),
    decreases k,
{
    if k == 0 {
        assert(1u128 << 0u128 == 1) by (bit_vector);
    } else {
        lemma_shift_is_p2((k - 1) as u128);
        assert(1u128 << k == 2 * (1u128 << (k - 1) as u128)) by (bit_vector)
            requires
                1 <= k <= 100,
        ;
    }
}

} // verus!

//! The Poseidon2 diffusion layer for KoalaBear at widths 16 and 24.
//!
//! The internal matrix is 1 + D(v): all ones, plus a diagonal whose first
//! entry is -2 and whose other entries are powers of two. It is applied in
//! Montgomery form, so every output is also scaled by R^-1; this lets each
//! row be summed in a 64-bit integer and reduced once.
use vstd::prelude::*;
use vstd::arithmetic::power2::*;
use vstd::arithmetic::div_mod::*;
use vstd::bits::*;
use crate::field::{KoalaBear, P, all_wf, values_of, p, radix, radix_inv, monty_reduce, fadd, fmul, mpow,
    lin, lin_seq, cong, lemma_cong_add, lemma_cong_scale, lemma_cong_mod, lemma_lin_cong,
    lemma_cong_canonical};

verus! {

/// Sum of a sequence of integers.
pub open spec fn sum(s: Seq<int>) -> int
    decreases s.len(),
{
    if s.len() == 0 {
        0
    } else {
        sum(s.drop_last()) + s.last()
    }
}

proof fn lemma_sum_first(s: Seq<int>)
    requires
        s.len() > 0,
    ensures
        sum(s) == s[0] + sum(s.subrange(1, s.len() as int)),
    decreases s.len(),
{
    if s.len() > 1 {
        lemma_sum_first(s.drop_last());
        assert(s.drop_last().subrange(1, s.len() - 1) =~= s.subrange(1, s.len() as int).drop_last());
    } else {
        assert(s.subrange(1, s.len() as int) =~= Seq::<int>::empty());
        assert(s.drop_last() =~= Seq::<int>::empty());
    }
}

/// Diagonal entry `i` of the internal matrix: p - 2 at index 0, else a power
/// of two given by the shift table.
pub open spec fn diag_entry(shifts: Seq<u8>, i: int) -> int {
    if i == 0 {
        p() - 2
    } else {
        pow2(shifts[i - 1] as nat) as int
    }
}

/// Row `i` of (1 + D(v)) applied to `s`, scaled by R^-1.
pub open spec fn diffusion_row(s: Seq<int>, shifts: Seq<u8>, i: int) -> int {
    ((sum(s) + diag_entry(shifts, i) * s[i]) * radix_inv()) % p()
}

/// The whole diffusion layer on stored values.
pub open spec fn diffusion(s: Seq<int>, shifts: Seq<u8>) -> Seq<int> {
    Seq::new(s.len(), |i: int| diffusion_row(s, shifts, i))
}

/// The shifts for width 16: the diagonal is [-2, 2^0, 2^1, ..., 2^13, 2^15].
pub open spec fn shifts_16() -> Seq<u8> {
    seq![0u8, 1, 2, 3, 4, 5, 6, 7, 8, 9, 10, 11, 12, 13, 15]
}

/// The shifts for width 24: the diagonal is [-2, 2^0, 2^1, ..., 2^21, 2^23].
pub open spec fn shifts_24() -> Seq<u8> {
    seq![0u8, 1, 2, 3, 4, 5, 6, 7, 8, 9, 10, 11, 12, 13, 14, 15, 16, 17, 18, 19, 20, 21, 23]
}

pub fn internal_matrix_diag_16_shifts() -> (r: [u8; 15])
    ensures
        r@ == shifts_16(),
{
    let r: [u8; 15] = [0, 1, 2, 3, 4, 5, 6, 7, 8, 9, 10, 11, 12, 13, 15];
    assert(r@ =~= shifts_16());
    r
}

pub fn internal_matrix_diag_24_shifts() -> (r: [u8; 23])
    ensures
        r@ == shifts_24(),
{
    let r: [u8; 23] = [
        0, 1, 2, 3, 4, 5, 6, 7, 8, 9, 10, 11, 12, 13, 14, 15, 16, 17, 18, 19, 20, 21, 23,
    ];
    assert(r@ =~= shifts_24());
    r
}

/// Multiplies `state` by the internal matrix 1 + D(v) in Montgomery form,
/// where v = [-2, 2^shifts[0], 2^shifts[1], ...]: one reduction per entry.
pub fn permute_mut<const N: usize>(state: &mut [KoalaBear; N], shifts: &[u8])
    requires
        1 <= N <= 256,
        shifts@.len() == N - 1,
        forall|k: int| 0 <= k < shifts@.len() ==> #[trigger] shifts@[k] < 32,
        all_wf(old(state)@),
    ensures
        all_wf(final(state)@),
        values_of(final(state)@) == diffusion(values_of(old(state)@), shifts@),
{
    let ghost s = values_of(state@);
    let mut part_sum: u64 = 0;
    let mut i: usize = 1;
    while i < N
        invariant
            1 <= i <= N <= 256,
            state@ == old(state)@,
            s == values_of(state@),
            all_wf(state@),
            part_sum == sum(s.subrange(1, i as int)),
            part_sum <= (i - 1) * p(),
        decreases N - i,
    {
        assert(s.subrange(1, i + 1).drop_last() =~= s.subrange(1, i as int));
        assert(state@[i as int].wf());
        part_sum = part_sum + state[i].value as u64;
        i = i + 1;
    }
    proof {
        lemma_sum_first(s);
        assert(s.subrange(1, N as int) =~= s.subrange(1, s.len() as int));
    }
    let full_sum: u64 = part_sum + (state[0].value as u64);
    assert(state@[0].wf());
    let neg0 = state[0].neg();
    let s0: u64 = part_sum + neg0.value as u64;
    proof {
        // -2 x0 + x0 == -x0: one reduction covers the first row.
        let t = sum(s) + (p() - 2) * s[0];
        assert(sum(s) == s[0] + part_sum);
        assert(s0 as int % p() == t % p()) by {
            if s[0] == 0 {
                lemma_small_mod(0, p() as nat);
                assert(t == s0);
            } else {
                lemma_fundamental_div_mod_converse(-s[0], p(), -1, p() - s[0]);
                assert(neg0.value == p() - s[0]);
                assert(t == s0 + (s[0] - 1) * p()) by (nonlinear_arith)
                    requires
                        t == sum(s) + (p() - 2) * s[0],
                        sum(s) == s[0] + part_sum,
                        s0 == part_sum + neg0.value,
                        neg0.value == p() - s[0],
                ;
                lemma_mod_multiples_vanish(s[0] - 1, s0 as int, p());
            }
        }
        lemma_mul_mod_noop_left(s0 as int, radix_inv(), p());
        lemma_mul_mod_noop_left(t, radix_inv(), p());
    }
    state[0] = KoalaBear { value: monty_reduce(s0) };
    let mut i: usize = 1;
    while i < N
        invariant
            1 <= i <= N <= 256,
            shifts@.len() == N - 1,
            forall|k: int| 0 <= k < shifts@.len() ==> #[trigger] shifts@[k] < 32,
            s == values_of(old(state)@),
            all_wf(old(state)@),
            state@.len() == N,
            full_sum == sum(s),
            full_sum <= N * p(),
            forall|j: int| 0 <= j < i ==> #[trigger] state@[j].wf(),
            forall|j: int| 0 <= j < i ==> #[trigger] state@[j].value == diffusion_row(s, shifts@, j),
            forall|j: int| i <= j < N ==> #[trigger] state@[j] == old(state)@[j],
        decreases N - i,
    {
        let sh: u8 = shifts[i - 1];
        assert(old(state)@[i as int].wf());
        let x: u64 = state[i].value as u64;
        proof {
            lemma_pow2_strictly_increases(sh as nat, 32);
            lemma2_to64();
            assert(x * pow2(sh as nat) < p() * 0x1_0000_0000) by (nonlinear_arith)
                requires
                    x < p(),
                    pow2(sh as nat) < 0x1_0000_0000,
            ;
            lemma_u64_shl_is_mul(x, sh as u64);
            assert(full_sum + x * pow2(sh as nat) < radix() * p()) by (nonlinear_arith)
                requires
                    full_sum <= 256 * p(),
                    x < p(),
                    pow2(sh as nat) <= 0x8000_0000,
            ;
        }
        let si: u64 = full_sum + (x << (sh as u64));
        proof {
            assert(x == s[i as int]);
            assert(diag_entry(shifts@, i as int) == pow2(sh as nat));
            assert(si == sum(s) + diag_entry(shifts@, i as int) * s[i as int]) by (nonlinear_arith)
                requires
                    si == full_sum + x * pow2(sh as nat),
                    full_sum == sum(s),
                    x == s[i as int],
                    diag_entry(shifts@, i as int) == pow2(sh as nat),
            ;
        }
        state[i] = KoalaBear { value: monty_reduce(si) };
        i = i + 1;
    }
    proof {
        assert(values_of(state@) =~= diffusion(s, shifts@));
    }
}

/// Row `i` of a dense matrix whose rows are all ones, but for the entry
/// 1 + diag[i] on the diagonal, applied to `s` and scaled by R^-1.
pub open spec fn dense_row(s: Seq<int>, diag: Seq<int>, i: int) -> int {
    (sum(Seq::new(s.len(), |j: int| (if j == i { 1 + diag[i] } else { 1 }) * s[j])) * radix_inv())
        % p()
}

/// The diagonal v of the internal matrix, entry by entry.
pub open spec fn diag_of(shifts: Seq<u8>) -> Seq<int> {
    Seq::new(shifts.len() + 1, |i: int| diag_entry(shifts, i))
}

proof fn lemma_sum_bump(s: Seq<int>, i: int, c: int)
    requires
        0 <= i < s.len(),
    ensures
        sum(s.update(i, s[i] + c)) == sum(s) + c,
    decreases s.len(),
{
    if i < s.len() - 1 {
        lemma_sum_bump(s.drop_last(), i, c);
        assert(s.update(i, s[i] + c).drop_last() =~= s.drop_last().update(i, s[i] + c));
    } else {
        assert(s.update(i, s[i] + c).drop_last() =~= s.drop_last());
    }
}

/// The shift-based diffusion layer equals the product of the state with the
/// dense matrix 1 + D(v), computed with a general multiplication per entry.
pub proof fn lemma_diffusion_matches_dense(s: Seq<int>, shifts: Seq<u8>)
    requires
        s.len() == shifts.len() + 1,
    ensures
        forall|i: int|
            0 <= i < s.len() ==> #[trigger] diffusion(s, shifts)[i] == dense_row(
                s,
                diag_of(shifts),
                i,
            ),
{
    assert forall|i: int| 0 <= i < s.len() implies #[trigger] diffusion(s, shifts)[i] == dense_row(
        s,
        diag_of(shifts),
        i,
    ) by {
        let d = diag_entry(shifts, i);
        let row = Seq::new(s.len(), |j: int| (if j == i { 1 + diag_of(shifts)[i] } else { 1 }) * s[j]);
        assert((1 + d) * s[i] == s[i] + d * s[i]) by (nonlinear_arith);
        assert(row =~= s.update(i, s[i] + d * s[i]));
        lemma_sum_bump(s, i, d * s[i]);
    }
}

proof fn lemma_sum_lin(a: int, b: int, x: Seq<int>, y: Seq<int>)
    requires
        x.len() == y.len(),
    ensures
        cong(sum(lin_seq(a, x, b, y)), a * sum(x) * radix_inv() + b * sum(y) * radix_inv()),
    decreases x.len(),
{
    let ri = radix_inv();
    let v = lin_seq(a, x, b, y);
    if x.len() == 0 {
        assert(a * 0 * ri + b * 0 * ri == 0) by (nonlinear_arith);
    } else {
        let n = x.len() - 1;
        lemma_sum_lin(a, b, x.drop_last(), y.drop_last());
        assert(v.drop_last() =~= lin_seq(a, x.drop_last(), b, y.drop_last()));
        let sx = sum(x.drop_last());
        let sy = sum(y.drop_last());
        lemma_lin_cong(a, x[n], b, y[n]);
        lemma_cong_add(
            sum(v.drop_last()),
            a * sx * ri + b * sy * ri,
            v[n],
            a * x[n] * ri + b * y[n] * ri,
        );
        assert(a * sx * ri + b * sy * ri + (a * x[n] * ri + b * y[n] * ri) == a * (sx + x[n]) * ri
            + b * (sy + y[n]) * ri) by (nonlinear_arith);
    }
}

/// The diffusion layer is linear: it maps a * x + b * y to
/// a * f(x) + b * f(y), for field scalars a, b and states x, y.
pub proof fn lemma_diffusion_linear(a: int, x: Seq<int>, b: int, y: Seq<int>, shifts: Seq<u8>)
    requires
        x.len() == y.len(),
        x.len() == shifts.len() + 1,
    ensures
        diffusion(lin_seq(a, x, b, y), shifts) == lin_seq(
            a,
            diffusion(x, shifts),
            b,
            diffusion(y, shifts),
        ),
{
    let ri = radix_inv();
    let v = lin_seq(a, x, b, y);
    lemma_sum_lin(a, b, x, y);
    assert forall|i: int| 0 <= i < x.len() implies #[trigger] diffusion(v, shifts)[i] == lin_seq(
        a,
        diffusion(x, shifts),
        b,
        diffusion(y, shifts),
    )[i] by {
        let d = diag_entry(shifts, i);
        let sx = sum(x);
        let sy = sum(y);
        let ux = sx + d * x[i];
        let uy = sy + d * y[i];
        let rx = diffusion_row(x, shifts, i);
        let ry = diffusion_row(y, shifts, i);
        // Left: (sum(v) + d * v[i]) * R^-1.
        lemma_lin_cong(a, x[i], b, y[i]);
        lemma_cong_scale(v[i], a * x[i] * ri + b * y[i] * ri, d, 1);
        assert(d * v[i] * 1 == d * v[i]) by (nonlinear_arith);
        let dv = d * (a * x[i] * ri + b * y[i] * ri) * 1;
        lemma_cong_add(sum(v), a * sx * ri + b * sy * ri, d * v[i], dv);
        let big = a * sx * ri + b * sy * ri + dv;
        lemma_cong_scale(sum(v) + d * v[i], big, 1, ri);
        assert(1 * (sum(v) + d * v[i]) * ri == (sum(v) + d * v[i]) * ri) by (nonlinear_arith);
        lemma_cong_mod((sum(v) + d * v[i]) * ri);
        // Right: a * rx + b * ry, with rx = ux * R^-1 and ry = uy * R^-1.
        lemma_lin_cong(a, rx, b, ry);
        lemma_cong_mod(ux * ri);
        lemma_cong_mod(uy * ri);
        lemma_cong_scale(rx, ux * ri, a, ri);
        lemma_cong_scale(ry, uy * ri, b, ri);
        lemma_cong_add(a * rx * ri, a * (ux * ri) * ri, b * ry * ri, b * (uy * ri) * ri);
        let ar = a * ri;
        let br = b * ri;
        let xi = x[i];
        let yi = y[i];
        assert(a * sx * ri == ar * sx) by (nonlinear_arith)
            requires
                ar == a * ri,
        ;
        assert(b * sy * ri == br * sy) by (nonlinear_arith)
            requires
                br == b * ri,
        ;
        assert(dv == d * (ar * xi) + d * (br * yi)) by (nonlinear_arith)
            requires
                dv == d * (a * xi * ri + b * yi * ri) * 1,
                ar == a * ri,
                br == b * ri,
        ;
        assert(ar * ux == ar * sx + d * (ar * xi)) by (nonlinear_arith)
            requires
                ux == sx + d * xi,
        ;
        assert(br * uy == br * sy + d * (br * yi)) by (nonlinear_arith)
            requires
                uy == sy + d * yi,
        ;
        assert(big == ar * ux + br * uy);
        assert(1 * big * ri == a * (ux * ri) * ri + b * (uy * ri) * ri) by (nonlinear_arith)
            requires
                big == ar * ux + br * uy,
                ar == a * ri,
                br == b * ri,
        ;
        lemma_cong_canonical(diffusion(v, shifts)[i], lin(a, rx, b, ry));
    }
    assert(diffusion(v, shifts) =~= lin_seq(a, diffusion(x, shifts), b, diffusion(y, shifts)));
}

/// One internal round: add the round constant to the first entry, raise it to
/// the power `d`, then apply the diffusion layer.
pub open spec fn internal_round(s: Seq<int>, rc: int, shifts: Seq<u8>, d: nat) -> Seq<int> {
    diffusion(s.update(0, mpow(fadd(s[0], rc), d)), shifts)
}

/// The internal rounds, one per round constant, in order.
pub open spec fn internal_rounds(s: Seq<int>, rcs: Seq<int>, shifts: Seq<u8>, d: nat) -> Seq<int>
    decreases rcs.len(),
{
    if rcs.len() == 0 {
        s
    } else {
        internal_round(internal_rounds(s, rcs.drop_last(), shifts, d), rcs.last(), shifts, d)
    }
}

/// The shift table of the given width.
pub open spec fn shifts_of_width(n: nat) -> Seq<u8> {
    if n == 16 {
        shifts_16()
    } else {
        shifts_24()
    }
}

/// Marker for the constants of the vectorised backends; the scalar layers
/// carry none.
#[derive(Debug, Clone, Default)]
pub struct Poseidon2KoalaBearPackedConstants;

/// The internal (partial) rounds of Poseidon2 over KoalaBear.
#[derive(Debug, Clone, Default)]
pub struct DiffusionMatrixKoalaBear;

impl DiffusionMatrixKoalaBear {
    /// Runs the internal rounds on a state of width 16 or 24: for each round
    /// constant, the S-box x^D on the first entry after adding the constant,
    /// then the diffusion layer.
    pub fn permute_state<const N: usize, const D: u64>(
        &self,
        state: &mut [KoalaBear; N],
        internal_constants: &[KoalaBear],
    )
        requires
            N == 16 || N == 24,
            all_wf(old(state)@),
            all_wf(internal_constants@),
        ensures
            all_wf(final(state)@),
            values_of(final(state)@) == internal_rounds(
                values_of(old(state)@),
                values_of(internal_constants@),
                shifts_of_width(N as nat),
                D as nat,
            ),
    {
        let shifts16 = internal_matrix_diag_16_shifts();
        let shifts24 = internal_matrix_diag_24_shifts();
        let ghost s = values_of(state@);
        let ghost rcs = values_of(internal_constants@);
        let mut k: usize = 0;
        while k < internal_constants.len()
            invariant
                N == 16 || N == 24,
                shifts16@ == shifts_16(),
                shifts24@ == shifts_24(),
                k <= internal_constants@.len(),
                rcs == values_of(internal_constants@),
                all_wf(internal_constants@),
                all_wf(state@),
                values_of(state@) == internal_rounds(
                    s,
                    rcs.subrange(0, k as int),
                    shifts_of_width(N as nat),
                    D as nat,
                ),
            decreases internal_constants@.len() - k,
        {
            let ghost before = values_of(state@);
            assert(state@[0].wf());
            assert(internal_constants@[k as int].wf());
            let x = state[0].add(internal_constants[k]).exp_u64(D);
            state[0] = x;
            assert(values_of(state@) =~= before.update(0, mpow(fadd(before[0], rcs[k as int]), D as nat)));
            if N == 16 {
                permute_mut(state, shifts16.as_slice());
            } else {
                permute_mut(state, shifts24.as_slice());
            }
            assert(rcs.subrange(0, k + 1).drop_last() =~= rcs.subrange(0, k as int));
            k = k + 1;
        }
        assert(rcs.subrange(0, k as int) =~= rcs);
    }
}

/// Entry `r` of the 4 x 4 matrix [[2, 3, 1, 1], [1, 2, 3, 1], [1, 1, 2, 3],
/// [3, 1, 1, 2]] applied to the four entries of `s` from `base`.
pub open spec fn mat4_entry(s: Seq<int>, base: int, r: int) -> int {
    let x0 = s[base];
    let x1 = s[base + 1];
    let x2 = s[base + 2];
    let x3 = s[base + 3];
    (if r == 0 {
        2 * x0 + 3 * x1 + x2 + x3
    } else if r == 1 {
        x0 + 2 * x1 + 3 * x2 + x3
    } else if r == 2 {
        x0 + x1 + 2 * x2 + 3 * x3
    } else {
        3 * x0 + x1 + x2 + 2 * x3
    }) % p()
}

/// The 4 x 4 matrix applied to each chunk of four.
pub open spec fn mat4_chunks(s: Seq<int>) -> Seq<int> {
    Seq::new(s.len(), |i: int| mat4_entry(s, i - i % 4, i % 4))
}

/// Sum of m[k], m[k + 4], ..., m[k + 4 (n - 1)].
pub open spec fn column_sum(m: Seq<int>, k: int, n: nat) -> int
    decreases n,
{
    if n == 0 {
        0
    } else {
        column_sum(m, k, (n - 1) as nat) + m[4 * (n - 1) + k]
    }
}

/// The light MDS layer: the 4 x 4 matrix on each chunk, then each entry
/// plus the sum of its column over all chunks.
pub open spec fn mds_light(s: Seq<int>) -> Seq<int> {
    let m = mat4_chunks(s);
    Seq::new(s.len(), |i: int| (m[i] + column_sum(m, i % 4, s.len() / 4)) % p())
}

/// One external round: add the round constants, raise each entry to the
/// power `d`, then the light MDS layer.
pub open spec fn external_round(s: Seq<int>, c: Seq<int>, d: nat) -> Seq<int> {
    mds_light(Seq::new(s.len(), |i: int| mpow(fadd(s[i], c[i]), d)))
}

/// The external rounds, one per constant row, in order.
pub open spec fn external_rounds(s: Seq<int>, cs: Seq<Seq<int>>, d: nat) -> Seq<int>
    decreases cs.len(),
{
    if cs.len() == 0 {
        s
    } else {
        external_round(external_rounds(s, cs.drop_last(), d), cs.last(), d)
    }
}

/// Stored values of each row of round constants.
pub open spec fn rows_of<const WIDTH: usize>(cs: Seq<[KoalaBear; WIDTH]>) -> Seq<Seq<int>> {
    Seq::new(cs.len(), |r: int| values_of(cs[r]@))
}

pub open spec fn rows_wf<const WIDTH: usize>(cs: Seq<[KoalaBear; WIDTH]>) -> bool {
    forall|r: int| 0 <= r < cs.len() ==> all_wf(#[trigger] cs[r]@)
}

/// Applies the light MDS layer in place.
fn mds_light_permutation<const WIDTH: usize>(state: &mut [KoalaBear; WIDTH])
    requires
        WIDTH == 16 || WIDTH == 24,
        all_wf(old(state)@),
    ensures
        all_wf(final(state)@),
        values_of(final(state)@) == mds_light(values_of(old(state)@)),
{
    let ghost s = values_of(state@);
    let ghost m = mat4_chunks(s);
    let chunks: usize = WIDTH / 4;
    let mut c: usize = 0;
    while c < chunks
        invariant
            WIDTH == 16 || WIDTH == 24,
            chunks == WIDTH / 4,
            c <= chunks,
            s == values_of(old(state)@),
            m == mat4_chunks(s),
            all_wf(state@),
            forall|j: int| 0 <= j < 4 * c ==> #[trigger] values_of(state@)[j] == m[j],
            forall|j: int| 4 * c <= j < WIDTH ==> #[trigger] values_of(state@)[j] == s[j],
        decreases chunks - c,
    {
        let base: usize = 4 * c;
        assert(state@[base as int].wf() && state@[base + 1].wf() && state@[base + 2].wf() && state@[base + 3].wf());
        assert(values_of(state@)[base as int] == s[base as int]);
        assert(values_of(state@)[base + 1] == s[base + 1]);
        assert(values_of(state@)[base + 2] == s[base + 2]);
        assert(values_of(state@)[base + 3] == s[base + 3]);
        let x0: u64 = state[base].value as u64;
        let x1: u64 = state[base + 1].value as u64;
        let x2: u64 = state[base + 2].value as u64;
        let x3: u64 = state[base + 3].value as u64;
        let pp: u64 = P as u64;
        let ghost before = values_of(state@);
        state[base] = KoalaBear { value: ((2 * x0 + 3 * x1 + x2 + x3) % pp) as u32 };
        state[base + 1] = KoalaBear { value: ((x0 + 2 * x1 + 3 * x2 + x3) % pp) as u32 };
        state[base + 2] = KoalaBear { value: ((x0 + x1 + 2 * x2 + 3 * x3) % pp) as u32 };
        state[base + 3] = KoalaBear { value: ((3 * x0 + x1 + x2 + 2 * x3) % pp) as u32 };
        proof {
            assert forall|j: int| base <= j < base + 4 implies #[trigger] values_of(state@)[j] == m[j] by {
                lemma_fundamental_div_mod_converse(j, 4, c as int, j - base);
            }
            assert forall|j: int| 0 <= j < WIDTH implies (j < base || j >= base + 4) ==> #[trigger] values_of(state@)[j] == before[j] by {}
        }
        c = c + 1;
    }
    let mut sums: [u64; 4] = [0, 0, 0, 0];
    let mut c: usize = 0;
    while c < chunks
        invariant
            WIDTH == 16 || WIDTH == 24,
            chunks == WIDTH / 4,
            c <= chunks,
            all_wf(state@),
            forall|j: int| 0 <= j < WIDTH ==> #[trigger] values_of(state@)[j] == m[j],
            forall|k: int| 0 <= k < 4 ==> #[trigger] sums@[k] == column_sum(m, k, c as nat),
            forall|k: int| 0 <= k < 4 ==> #[trigger] sums@[k] <= c * p(),
        decreases chunks - c,
    {
        let mut k: usize = 0;
        while k < 4
            invariant
                WIDTH == 16 || WIDTH == 24,
                chunks == WIDTH / 4,
                c < chunks,
                k <= 4,
                all_wf(state@),
                forall|j: int| 0 <= j < WIDTH ==> #[trigger] values_of(state@)[j] == m[j],
                forall|q: int| 0 <= q < k ==> #[trigger] sums@[q] == column_sum(m, q, (c + 1) as nat),
                forall|q: int| 0 <= q < k ==> #[trigger] sums@[q] <= (c + 1) * p(),
                forall|q: int| k <= q < 4 ==> #[trigger] sums@[q] == column_sum(m, q, c as nat),
                forall|q: int| k <= q < 4 ==> #[trigger] sums@[q] <= c * p(),
            decreases 4 - k,
        {
            let idx: usize = 4 * c + k;
            assert(state@[idx as int].wf());
            assert(values_of(state@)[idx as int] == m[idx as int]);
            sums[k] = sums[k] + state[idx].value as u64;
            k = k + 1;
        }
        c = c + 1;
    }
    let ghost after_m = state@;
    let mut i: usize = 0;
    while i < WIDTH
        invariant
            WIDTH == 16 || WIDTH == 24,
            chunks == WIDTH / 4,
            i <= WIDTH,
            all_wf(state@),
            s == values_of(old(state)@),
            m == mat4_chunks(s),
            forall|k: int| 0 <= k < 4 ==> #[trigger] sums@[k] == column_sum(m, k, chunks as nat),
            forall|k: int| 0 <= k < 4 ==> #[trigger] sums@[k] <= chunks * p(),
            forall|j: int| i <= j < WIDTH ==> #[trigger] values_of(state@)[j] == m[j],
            forall|j: int| 0 <= j < i ==> #[trigger] values_of(state@)[j] == mds_light(s)[j],
        decreases WIDTH - i,
    {
        assert(state@[i as int].wf());
        assert(values_of(state@)[i as int] == m[i as int]);
        let ghost before = values_of(state@);
        let k: usize = i % 4;
        assert(sums@[k as int] == column_sum(m, k as int, chunks as nat));
        assert(sums@[k as int] <= chunks * p());
        let v: u64 = (state[i].value as u64 + sums[k]) % (P as u64);
        assert(v == mds_light(s)[i as int]);
        state[i] = KoalaBear { value: v as u32 };
        assert(values_of(state@) =~= before.update(i as int, v as int));
        i = i + 1;
    }
    assert(values_of(state@) =~= mds_light(s));
}

/// Runs the given external rounds on `state`.
fn external_permute_rounds<const WIDTH: usize, const D: u64>(
    state: &mut [KoalaBear; WIDTH],
    constants: &[[KoalaBear; WIDTH]],
)
    requires
        WIDTH == 16 || WIDTH == 24,
        all_wf(old(state)@),
        rows_wf(constants@),
    ensures
        all_wf(final(state)@),
        values_of(final(state)@) == external_rounds(
            values_of(old(state)@),
            rows_of(constants@),
            D as nat,
        ),
{
    let ghost s = values_of(state@);
    let ghost cs = rows_of(constants@);
    let mut r: usize = 0;
    while r < constants.len()
        invariant
            WIDTH == 16 || WIDTH == 24,
            r <= constants@.len(),
            cs == rows_of(constants@),
            rows_wf(constants@),
            all_wf(state@),
            values_of(state@) == external_rounds(s, cs.subrange(0, r as int), D as nat),
        decreases constants@.len() - r,
    {
        let ghost before = values_of(state@);
        let row: &[KoalaBear; WIDTH] = &constants[r];
        assert(all_wf(constants@[r as int]@));
        let mut i: usize = 0;
        while i < WIDTH
            invariant
                i <= WIDTH,
                all_wf(state@),
                all_wf(row@),
                cs[r as int] == values_of(row@),
                forall|j: int| 0 <= j < i ==> #[trigger] values_of(state@)[j] == mpow(fadd(before[j], cs[r as int][j]), D as nat),
                forall|j: int| i <= j < WIDTH ==> #[trigger] values_of(state@)[j] == before[j],
            decreases WIDTH - i,
        {
            assert(state@[i as int].wf() && row@[i as int].wf());
            assert(values_of(state@)[i as int] == before[i as int]);
            let ghost b2 = values_of(state@);
            let x = state[i].add(row[i]).exp_u64(D);
            state[i] = x;
            assert(values_of(state@) =~= b2.update(i as int, x.value as int));
            i = i + 1;
        }
        assert(values_of(state@) =~= Seq::new(before.len(), |j: int| mpow(fadd(before[j], cs[r as int][j]), D as nat)));
        mds_light_permutation(state);
        assert(cs.subrange(0, r + 1).drop_last() =~= cs.subrange(0, r as int));
        r = r + 1;
    }
    assert(cs.subrange(0, r as int) =~= cs);
}

/// The external (full) rounds of Poseidon2 over KoalaBear, which hold a
/// state as an array of one row.
#[derive(Debug, Clone, Default)]
pub struct MDSLightPermutationKoalaBear;

impl MDSLightPermutationKoalaBear {
    /// Wraps a state as an array of one row.
    pub fn to_internal_rep<const WIDTH: usize>(&self, state: [KoalaBear; WIDTH]) -> (r: [[KoalaBear; WIDTH]; 1])
        ensures
            r@ == seq![state],
    {
        let r = [state];
        assert(r@ =~= seq![state]);
        r
    }

    /// The initial external rounds: the light MDS layer, then one round per
    /// row of constants.
    pub fn permute_state_initial<const WIDTH: usize, const D: u64>(
        &self,
        state: &mut [KoalaBear; WIDTH],
        initial_external_constants: &[[KoalaBear; WIDTH]],
    )
        requires
            WIDTH == 16 || WIDTH == 24,
            all_wf(old(state)@),
            rows_wf(initial_external_constants@),
        ensures
            all_wf(final(state)@),
            values_of(final(state)@) == external_rounds(
                mds_light(values_of(old(state)@)),
                rows_of(initial_external_constants@),
                D as nat,
            ),
    {
        mds_light_permutation(state);
        external_permute_rounds::<WIDTH, D>(state, initial_external_constants);
    }

    /// The final external rounds: one round per row of constants.
    pub fn permute_state_final<const WIDTH: usize, const D: u64>(
        &self,
        state: &mut [KoalaBear; WIDTH],
        final_external_constants: &[[KoalaBear; WIDTH]],
    )
        requires
            WIDTH == 16 || WIDTH == 24,
            all_wf(old(state)@),
            rows_wf(final_external_constants@),
        ensures
            all_wf(final(state)@),
            values_of(final(state)@) == external_rounds(
                values_of(old(state)@),
                rows_of(final_external_constants@),
                D as nat,
            ),
    {
        external_permute_rounds::<WIDTH, D>(state, final_external_constants);
    }

    /// Takes the single row back out.
    pub fn to_output_rep<const WIDTH: usize>(&self, state: [[KoalaBear; WIDTH]; 1]) -> (r: [KoalaBear; WIDTH])
        ensures
            r == state@[0],
    {
        state[0]
    }
}

} // verus!

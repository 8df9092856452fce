//! A Reed-Solomon based MDS permutation over KoalaBear.
//!
//! The input is read as the evaluations of a polynomial of degree below N on
//! the subgroup of order N, and the output is its evaluations on a coset of
//! that subgroup. Systematic Reed-Solomon codes are MDS, so this map is MDS.
use vstd::prelude::*;
use vstd::arithmetic::power2::*;
use vstd::arithmetic::div_mod::*;
use vstd::arithmetic::mul::*;
use vstd::bits::*;
use crate::field::{
    KoalaBear, all_wf, values_of, p, radix, fadd, fsub, fmul, mpow, lin, lin_seq, lemma_lin_fadd,
    lemma_lin_fsub, lemma_lin_fmul,
};

verus! {

/// The index `i` with its low `k` bits reversed.
pub open spec fn rev_bits(i: nat, k: nat) -> nat
    decreases k,
{
    if k == 0 {
        0
    } else {
        (i % 2) * pow2((k - 1) as nat) + rev_bits(i / 2, (k - 1) as nat)
    }
}

/// The base-2 logarithm of a power of two.
pub open spec fn log_of(n: nat) -> nat {
    choose|k: nat| pow2(k) == n
}

pub open spec fn is_pow2(n: nat) -> bool {
    exists|k: nat| pow2(k) == n
}

/// `s` permuted so that entry `i` is taken from index `rev_bits(i, log2 |s|)`.
pub open spec fn bit_reversed<T>(s: Seq<T>) -> Seq<T> {
    Seq::new(s.len(), |i: int| s[rev_bits(i as nat, log_of(s.len())) as int])
}

proof fn lemma_log_of(k: nat)
    ensures
        log_of(pow2(k)) == k,
        is_pow2(pow2(k)),
{
    let c = log_of(pow2(k));
    assert(pow2(c) == pow2(k));
    if c < k {
        lemma_pow2_strictly_increases(c, k);
    } else if c > k {
        lemma_pow2_strictly_increases(k, c);
    }
}

/// Relies on p3_util::log2_strict_usize: the exponent of a power of two. It
/// panics on any other input.
#[verifier::external_body]
fn log2_strict(n: usize) -> (r: usize)
    requires
        is_pow2(n as nat),
    ensures
        pow2(r as nat) == n,
        r as nat == log_of(n as nat),
{
    p3_util::log2_strict_usize(n)
}

/// Relies on p3_util::reverse_slice_index_bits: permutes a slice whose length
/// is a power of two (or zero) so that each index is swapped with its bit
/// reversal.
#[verifier::external_body]
fn reverse_index_bits(vals: &mut Vec<KoalaBear>)
    requires
        old(vals)@.len() == 0 || is_pow2(old(vals)@.len()),
    ensures
        final(vals)@ == bit_reversed(old(vals)@),
{
    p3_util::reverse_slice_index_bits(vals.as_mut_slice())
}

// ---------------------------------------------------------------------------
// Butterflies.

/// New value at the upper position of a butterfly.
pub open spec fn hi_out(x: int, y: int, free: bool, t: int, dit: bool) -> int {
    if free || !dit {
        fadd(x, y)
    } else {
        fadd(x, fmul(y, t))
    }
}

/// New value at the lower position of a butterfly.
pub open spec fn lo_out(x: int, y: int, free: bool, t: int, dit: bool) -> int {
    if free {
        fsub(x, y)
    } else if dit {
        fsub(x, fmul(y, t))
    } else {
        fmul(fsub(x, y), t)
    }
}

/// hi, lo := hi + lo, hi - lo.
fn twiddle_free_butterfly<const N: usize>(values: &mut [KoalaBear; N], hi: usize, lo: usize)
    requires
        hi < N,
        lo < N,
        hi != lo,
        all_wf(old(values)@),
    ensures
        all_wf(final(values)@),
        values_of(final(values)@) == values_of(old(values)@).update(
            hi as int,
            fadd(old(values)@[hi as int].value as int, old(values)@[lo as int].value as int),
        ).update(
            lo as int,
            fsub(old(values)@[hi as int].value as int, old(values)@[lo as int].value as int),
        ),
{
    assert(values@[hi as int].wf() && values@[lo as int].wf());
    let x = values[hi];
    let y = values[lo];
    values[hi] = x.add(y);
    values[lo] = x.sub(y);
    assert(values_of(values@) =~= values_of(old(values)@).update(hi as int, fadd(x.value as int, y.value as int)).update(lo as int, fsub(x.value as int, y.value as int)));
}

/// Decimation in frequency: hi, lo := hi + lo, (hi - lo) * t.
fn dif_butterfly<const N: usize>(values: &mut [KoalaBear; N], hi: usize, lo: usize, t: KoalaBear)
    requires
        hi < N,
        lo < N,
        hi != lo,
        t.wf(),
        all_wf(old(values)@),
    ensures
        all_wf(final(values)@),
        values_of(final(values)@) == values_of(old(values)@).update(
            hi as int,
            fadd(old(values)@[hi as int].value as int, old(values)@[lo as int].value as int),
        ).update(
            lo as int,
            fmul(
                fsub(old(values)@[hi as int].value as int, old(values)@[lo as int].value as int),
                t.value as int,
            ),
        ),
{
    assert(values@[hi as int].wf() && values@[lo as int].wf());
    let x = values[hi];
    let y = values[lo];
    values[hi] = x.add(y);
    values[lo] = x.sub(y).mul(t);
    assert(values_of(values@) =~= values_of(old(values)@).update(hi as int, fadd(x.value as int, y.value as int)).update(lo as int, fmul(fsub(x.value as int, y.value as int), t.value as int)));
}

/// Decimation in time: hi, lo := hi + lo * t, hi - lo * t.
fn dit_butterfly<const N: usize>(values: &mut [KoalaBear; N], hi: usize, lo: usize, t: KoalaBear)
    requires
        hi < N,
        lo < N,
        hi != lo,
        t.wf(),
        all_wf(old(values)@),
    ensures
        all_wf(final(values)@),
        values_of(final(values)@) == values_of(old(values)@).update(
            hi as int,
            fadd(
                old(values)@[hi as int].value as int,
                fmul(old(values)@[lo as int].value as int, t.value as int),
            ),
        ).update(
            lo as int,
            fsub(
                old(values)@[hi as int].value as int,
                fmul(old(values)@[lo as int].value as int, t.value as int),
            ),
        ),
{
    assert(values@[hi as int].wf() && values@[lo as int].wf());
    let x = values[hi];
    let lo_t = values[lo].mul(t);
    values[hi] = x.add(lo_t);
    values[lo] = x.sub(lo_t);
    assert(values_of(values@) =~= values_of(old(values)@).update(hi as int, fadd(x.value as int, lo_t.value as int)).update(lo as int, fsub(x.value as int, lo_t.value as int)));
}

/// Runs one butterfly on each pair (hi, hi + half) of the block that starts at
/// `start`: the twiddle-free one where `free` holds, else the
/// decimation-in-time one where `dit` holds, else the decimation-in-frequency
/// one.
fn butterfly_block<const N: usize>(
    values: &mut [KoalaBear; N],
    start: usize,
    half: usize,
    t: KoalaBear,
    free: bool,
    dit: bool,
)
    requires
        start + 2 * half <= N,
        t.wf(),
        all_wf(old(values)@),
    ensures
        all_wf(final(values)@),
        forall|j: int|
            0 <= j < N && (j < start || j >= start + 2 * half) ==> #[trigger] values_of(
                final(values)@,
            )[j] == values_of(old(values)@)[j],
        forall|j: int|
            start <= j < start + half ==> #[trigger] values_of(final(values)@)[j] == hi_out(
                values_of(old(values)@)[j],
                values_of(old(values)@)[j + half],
                free,
                t.value as int,
                dit,
            ),
        forall|j: int|
            start + half <= j < start + 2 * half ==> #[trigger] values_of(final(values)@)[j]
                == lo_out(
                values_of(old(values)@)[j - half],
                values_of(old(values)@)[j],
                free,
                t.value as int,
                dit,
            ),
{
    let ghost s = values_of(values@);
    let end: usize = start + half;
    let mut hi: usize = start;
    while hi < end
        invariant
            start <= hi <= end,
            end == start + half,
            start + 2 * half <= N,
            t.wf(),
            all_wf(values@),
            s == values_of(old(values)@),
            forall|j: int|
                0 <= j < N && (j < start || j >= start + 2 * half || (hi <= j < end) || (hi + half
                    <= j < start + 2 * half)) ==> #[trigger] values_of(values@)[j] == s[j],
            forall|j: int|
                start <= j < hi ==> #[trigger] values_of(values@)[j] == hi_out(
                    s[j],
                    s[j + half],
                    free,
                    t.value as int,
                    dit,
                ),
            forall|j: int|
                start + half <= j < hi + half ==> #[trigger] values_of(values@)[j] == lo_out(
                    s[j - half],
                    s[j],
                    free,
                    t.value as int,
                    dit,
                ),
        decreases end - hi,
    {
        let lo: usize = hi + half;
        assert(values_of(values@)[hi as int] == s[hi as int]);
        assert(values_of(values@)[lo as int] == s[lo as int]);
        if free {
            twiddle_free_butterfly(values, hi, lo);
        } else if dit {
            dit_butterfly(values, hi, lo, t);
        } else {
            dif_butterfly(values, hi, lo, t);
        }
        hi = hi + 1;
    }
}

/// Entry `j` of one butterfly layer with half-block size `half`: block b
/// pairs (j, j + half) for its first half, using twiddle tw[b], or none for
/// the first block.
pub open spec fn layer_entry(v: Seq<int>, j: int, half: nat, tw: Seq<int>, dit: bool) -> int {
    let b = j / (2 * half as int);
    let o = j % (2 * half as int);
    if o < half {
        hi_out(v[j], v[j + half], b == 0, tw[b], dit)
    } else {
        lo_out(v[j - half], v[j], b == 0, tw[b], dit)
    }
}

/// One butterfly layer on stored values.
pub open spec fn layer(v: Seq<int>, half: nat, tw: Seq<int>, dit: bool) -> Seq<int> {
    Seq::new(v.len(), |j: int| layer_entry(v, j, half, tw, dit))
}

proof fn lemma_pow2_split(a: nat, b: nat)
    ensures
        pow2(a + b) == pow2(a) * pow2(b),
        pow2(a) > 0,
        pow2(b) > 0,
{
    lemma_pow2_adds(a, b);
    lemma_pow2_pos(a);
    lemma_pow2_pos(b);
}

/// One layer of a Bowers network, with decimation-in-time butterflies where
/// `dit` holds and decimation-in-frequency ones otherwise.
fn bowers_layer<const N: usize>(
    values: &mut [KoalaBear; N],
    log_n: usize,
    log_half_block_size: usize,
    twiddles: &Vec<KoalaBear>,
    dit: bool,
)
    requires
        pow2(log_n as nat) == N,
        log_half_block_size < log_n,
        twiddles@.len() == N / 2,
        all_wf(twiddles@),
        all_wf(old(values)@),
    ensures
        all_wf(final(values)@),
        values_of(final(values)@) == layer(
            values_of(old(values)@),
            pow2(log_half_block_size as nat),
            values_of(twiddles@),
            dit,
        ),
{
    let ghost s = values_of(values@);
    let ghost tw = values_of(twiddles@);
    let ghost h = log_half_block_size as nat;
    let ghost rest = (log_n - log_half_block_size - 1) as nat;
    proof {
        lemma_pow2_split(h, 1);
        lemma_pow2_split(h + 1, rest);
        lemma_pow2_split(1, (log_n - 1) as nat);
        lemma2_to64();
        if log_n > 64 {
            lemma_pow2_strictly_increases(64, log_n as nat);
        }
        lemma_pow2_strictly_increases(h, log_n as nat);
        if h + 1 < log_n {
            lemma_pow2_strictly_increases(h + 1, log_n as nat);
        }
        assert(pow2(h + 1) <= N);
        lemma_u64_shl_is_mul(1, log_half_block_size as u64);
        assert(pow2(1) == 2);
    }
    let half_block_size: usize = (1u64 << (log_half_block_size as u64)) as usize;
    let block_size: usize = 2 * half_block_size;
    let num_blocks: usize = N / block_size;
    let ghost half = half_block_size as nat;
    proof {
        assert(block_size == pow2(h + 1));
        lemma_div_multiples_vanish(pow2(rest) as int, block_size as int);
        assert(N == pow2(rest) * block_size) by {
            lemma_mul_is_commutative(pow2(rest) as int, block_size as int);
        }
        assert(num_blocks == pow2(rest));
        assert(N / 2 == pow2((log_n - 1) as nat)) by {
            lemma_div_multiples_vanish(pow2((log_n - 1) as nat) as int, 2);
        }
        if rest > 0 {
            lemma_pow2_split(h, rest);
            assert((h + rest) + 1 == log_n);
        }
        assert(num_blocks <= N / 2) by (nonlinear_arith)
            requires
                N == num_blocks * block_size,
                block_size >= 2,
        ;
    }
    let ghost big = layer(s, half, tw, dit);
    butterfly_block(values, 0, half_block_size, KoalaBear::one(), true, dit);
    proof {
        assert forall|j: int| 0 <= j < block_size implies #[trigger] values_of(values@)[j]
            == big[j] by {
            lemma_fundamental_div_mod_converse(j, block_size as int, 0, j);
        }
    }
    let mut block: usize = 1;
    while block < num_blocks
        invariant
            1 <= block <= num_blocks,
            N == num_blocks * block_size,
            block_size == 2 * half_block_size,
            half == half_block_size,
            num_blocks <= twiddles@.len(),
            half_block_size >= 1,
            tw == values_of(twiddles@),
            all_wf(twiddles@),
            all_wf(values@),
            s == values_of(old(values)@),
            big == layer(s, half, tw, dit),
            values@.len() == N,
            big.len() == N,
            forall|j: int| 0 <= j < block * block_size ==> #[trigger] values_of(values@)[j] == big[j],
            forall|j: int| block * block_size <= j < N ==> #[trigger] values_of(values@)[j] == s[j],
        decreases num_blocks - block,
    {
        assert(twiddles@[block as int].wf());
        let twiddle = twiddles[block];
        assert(block * block_size + block_size <= N) by (nonlinear_arith)
            requires
                block < num_blocks,
                N == num_blocks * block_size,
        ;
        let block_start: usize = block * block_size;
        let ghost before = values_of(values@);
        butterfly_block(values, block_start, half_block_size, twiddle, false, dit);
        proof {
            assert forall|j: int| 0 <= j < block_start + block_size implies #[trigger] values_of(
                values@,
            )[j] == big[j] by {
                if j >= block_start {
                    lemma_fundamental_div_mod_converse(
                        j,
                        block_size as int,
                        block as int,
                        j - block_start,
                    );
                    assert(before[j] == s[j]);
                    if j < block_start + half_block_size {
                        assert(before[j + half] == s[j + half]);
                    } else {
                        assert(before[j - half] == s[j - half]);
                    }
                }
            }
            assert((block + 1) * block_size == block_start + block_size) by (nonlinear_arith)
                requires
                    block_start == block * block_size,
            ;
        }
        block = block + 1;
    }
    proof {
        assert(values_of(values@) =~= big);
    }
}

/// One layer of a Bowers G network.
fn bowers_g_layer<const N: usize>(
    values: &mut [KoalaBear; N],
    log_n: usize,
    log_half_block_size: usize,
    twiddles: &Vec<KoalaBear>,
)
    requires
        pow2(log_n as nat) == N,
        log_half_block_size < log_n,
        twiddles@.len() == N / 2,
        all_wf(twiddles@),
        all_wf(old(values)@),
    ensures
        all_wf(final(values)@),
        values_of(final(values)@) == layer(
            values_of(old(values)@),
            pow2(log_half_block_size as nat),
            values_of(twiddles@),
            false,
        ),
{
    bowers_layer(values, log_n, log_half_block_size, twiddles, false);
}

/// One layer of a Bowers G^T network.
fn bowers_g_t_layer<const N: usize>(
    values: &mut [KoalaBear; N],
    log_n: usize,
    log_half_block_size: usize,
    twiddles: &Vec<KoalaBear>,
)
    requires
        pow2(log_n as nat) == N,
        log_half_block_size < log_n,
        twiddles@.len() == N / 2,
        all_wf(twiddles@),
        all_wf(old(values)@),
    ensures
        all_wf(final(values)@),
        values_of(final(values)@) == layer(
            values_of(old(values)@),
            pow2(log_half_block_size as nat),
            values_of(twiddles@),
            true,
        ),
{
    bowers_layer(values, log_n, log_half_block_size, twiddles, true);
}

/// The first `k` layers of a Bowers G network, half-block sizes 1, 2, 4, ...
pub open spec fn g_net(v: Seq<int>, tw: Seq<int>, k: nat) -> Seq<int>
    decreases k,
{
    if k == 0 {
        v
    } else {
        layer(g_net(v, tw, (k - 1) as nat), pow2((k - 1) as nat), tw, false)
    }
}

/// The first `k` layers of a Bowers G^T network on 2^log_n entries, half-block
/// sizes 2^(log_n - 1), 2^(log_n - 2), ...
pub open spec fn g_t_net(v: Seq<int>, tw: Seq<int>, log_n: nat, k: nat) -> Seq<int>
    decreases k,
{
    if k == 0 {
        v
    } else {
        layer(g_t_net(v, tw, log_n, (k - 1) as nat), pow2((log_n - k) as nat), tw, true)
    }
}

/// Executes the Bowers G network: a DFT that takes its input in bit-reversed
/// order.
fn bowers_g<const N: usize>(values: &mut [KoalaBear; N], twiddles: &Vec<KoalaBear>)
    requires
        is_pow2(N as nat),
        twiddles@.len() == N / 2,
        all_wf(twiddles@),
        all_wf(old(values)@),
    ensures
        all_wf(final(values)@),
        values_of(final(values)@) == g_net(
            values_of(old(values)@),
            values_of(twiddles@),
            log_of(N as nat),
        ),
{
    let log_n = log2_strict(N);
    let mut log_half_block_size: usize = 0;
    while log_half_block_size < log_n
        invariant
            log_half_block_size <= log_n,
            pow2(log_n as nat) == N,
            log_n == log_of(N as nat),
            twiddles@.len() == N / 2,
            all_wf(twiddles@),
            all_wf(values@),
            values_of(values@) == g_net(
                values_of(old(values)@),
                values_of(twiddles@),
                log_half_block_size as nat,
            ),
        decreases log_n - log_half_block_size,
    {
        bowers_g_layer(values, log_n, log_half_block_size, twiddles);
        log_half_block_size = log_half_block_size + 1;
    }
}

/// Executes the Bowers G^T network: an inverse DFT without the rescaling by
/// 1/N, whose output is in bit-reversed order.
fn bowers_g_t<const N: usize>(values: &mut [KoalaBear; N], twiddles: &Vec<KoalaBear>)
    requires
        is_pow2(N as nat),
        twiddles@.len() == N / 2,
        all_wf(twiddles@),
        all_wf(old(values)@),
    ensures
        all_wf(final(values)@),
        values_of(final(values)@) == g_t_net(
            values_of(old(values)@),
            values_of(twiddles@),
            log_of(N as nat),
            log_of(N as nat),
        ),
{
    let log_n = log2_strict(N);
    let mut k: usize = 0;
    while k < log_n
        invariant
            k <= log_n,
            pow2(log_n as nat) == N,
            log_n == log_of(N as nat),
            twiddles@.len() == N / 2,
            all_wf(twiddles@),
            all_wf(values@),
            values_of(values@) == g_t_net(
                values_of(old(values)@),
                values_of(twiddles@),
                log_n as nat,
                k as nat,
            ),
        decreases log_n - k,
    {
        bowers_g_t_layer(values, log_n, log_n - 1 - k, twiddles);
        k = k + 1;
    }
}

/// Elementwise product of stored values.
pub open spec fn scale(v: Seq<int>, w: Seq<int>) -> Seq<int> {
    Seq::new(v.len(), |i: int| fmul(v[i], w[i]))
}

/// The first `n` powers of `b`, in stored form.
pub open spec fn powers_seq(b: int, n: nat) -> Seq<int> {
    Seq::new(n, |i: int| mpow(b, i as nat))
}

/// `b` squared `k` times.
pub open spec fn square_iter(b: int, k: nat) -> int
    decreases k,
{
    if k == 0 {
        b
    } else {
        fmul(square_iter(b, (k - 1) as nat), square_iter(b, (k - 1) as nat))
    }
}

/// Stored form of the multiplicative generator 3, which is also the coset
/// shift.
pub open spec fn generator_stored() -> int {
    (3 * radix()) % p()
}

/// Stored form of the root of unity of order 2^log_n used by the tables:
/// 3^127 has order 2^24, and squaring it 24 - log_n times leaves order 2^log_n.
pub open spec fn root_of_unity(log_n: nat) -> int {
    square_iter(mpow(generator_stored(), 127), (24 - log_n) as nat)
}

/// Stored form of the inverse root: root^(2^log_n - 1).
pub open spec fn root_of_unity_inv(log_n: nat) -> int {
    mpow(root_of_unity(log_n), (pow2(log_n) - 1) as nat)
}

/// The first `n` powers of `base`.
fn powers(base: KoalaBear, n: usize) -> (r: Vec<KoalaBear>)
    requires
        base.wf(),
    ensures
        all_wf(r@),
        values_of(r@) == powers_seq(base.value as int, n as nat),
{
    let mut r: Vec<KoalaBear> = Vec::new();
    let mut acc = KoalaBear::one();
    let mut i: usize = 0;
    while i < n
        invariant
            i <= n,
            base.wf(),
            acc.wf(),
            acc.value == mpow(base.value as int, i as nat),
            r@.len() == i,
            all_wf(r@),
            forall|j: int| 0 <= j < i ==> #[trigger] r@[j].value == mpow(base.value as int, j as nat),
        decreases n - i,
    {
        r.push(acc);
        acc = acc.mul(base);
        i = i + 1;
    }
    assert(values_of(r@) =~= powers_seq(base.value as int, n as nat));
    r
}

proof fn lemma_rev_bits_bound(i: nat, k: nat)
    ensures
        rev_bits(i, k) < pow2(k),
    decreases k,
{
    if k == 0 {
        lemma2_to64();
    } else {
        lemma_rev_bits_bound(i / 2, (k - 1) as nat);
        lemma_pow2_unfold(k);
        let a = i % 2;
        assert(a * pow2((k - 1) as nat) <= pow2((k - 1) as nat)) by (nonlinear_arith)
            requires
                a <= 1,
        ;
    }
}

proof fn lemma_bit_reversed_values(s: Seq<KoalaBear>)
    requires
        all_wf(s),
        s.len() == 0 || is_pow2(s.len()),
    ensures
        values_of(bit_reversed(s)) == bit_reversed(values_of(s)),
        all_wf(bit_reversed(s)),
{
    if s.len() > 0 {
        let k = log_of(s.len());
        assert forall|i: int| 0 <= i < s.len() implies 0 <= #[trigger] rev_bits(i as nat, k) < s.len() by {
            lemma_rev_bits_bound(i as nat, k);
        }
    }
    assert(values_of(bit_reversed(s)) =~= bit_reversed(values_of(s)));
}

/// A Reed-Solomon based MDS permutation of width N, a power of two.
///
/// The tables are fixed at construction: the twiddles of the forward and
/// inverse networks, and the coset weights, each bit-reversed.
#[derive(Clone, Debug)]
pub struct CosetMds<const N: usize> {
    fft_twiddles: Vec<KoalaBear>,
    ifft_twiddles: Vec<KoalaBear>,
    weights: [KoalaBear; N],
}

impl<const N: usize> CosetMds<N> {
    pub closed spec fn fft_twiddles_view(&self) -> Seq<int> {
        values_of(self.fft_twiddles@)
    }

    pub closed spec fn ifft_twiddles_view(&self) -> Seq<int> {
        values_of(self.ifft_twiddles@)
    }

    pub closed spec fn weights_view(&self) -> Seq<int> {
        values_of(self.weights@)
    }

    pub closed spec fn wf(&self) -> bool {
        &&& is_pow2(N as nat)
        &&& self.fft_twiddles@.len() == N / 2
        &&& self.ifft_twiddles@.len() == N / 2
        &&& all_wf(self.fft_twiddles@)
        &&& all_wf(self.ifft_twiddles@)
        &&& all_wf(self.weights@)
    }

    /// The tables that construction gives for width N.
    pub open spec fn has_default_tables(&self) -> bool {
        let log_n = log_of(N as nat);
        &&& self.fft_twiddles_view() == bit_reversed(
            powers_seq(root_of_unity(log_n), (N / 2) as nat),
        )
        &&& self.ifft_twiddles_view() == bit_reversed(
            powers_seq(root_of_unity_inv(log_n), (N / 2) as nat),
        )
        &&& self.weights_view() == bit_reversed(powers_seq(generator_stored(), N as nat))
    }

    /// The permutation on stored values: the G^T network with the inverse
    /// twiddles, the coset weights, then the G network.
    pub open spec fn spec_permute(&self, v: Seq<int>) -> Seq<int> {
        let log_n = log_of(N as nat);
        g_net(
            scale(g_t_net(v, self.ifft_twiddles_view(), log_n, log_n), self.weights_view()),
            self.fft_twiddles_view(),
            log_n,
        )
    }

    /// Builds the tables for width N. N must be a power of two no larger than
    /// 2^24, the largest power of two dividing p - 1.
    pub fn default() -> (r: Self)
        requires
            is_pow2(N as nat),
            N <= 0x100_0000,
        ensures
            r.wf(),
            r.has_default_tables(),
    {
        let log_n = log2_strict(N);
        proof {
            if log_n > 24 {
                lemma_pow2_strictly_increases(24, log_n as nat);
                lemma2_to64();
            }
            if log_n > 0 {
                lemma_pow2_unfold(log_n as nat);
                assert(N / 2 == pow2((log_n - 1) as nat));
                lemma_log_of((log_n - 1) as nat);
            } else {
                lemma2_to64();
            }
        }
        let generator = KoalaBear::from_canonical_u32(3);
        let mut root = generator.exp_u64(127);
        let ghost base = root.value as int;
        let mut k: usize = 0;
        while k < 24 - log_n
            invariant
                log_n <= 24,
                k <= 24 - log_n,
                root.wf(),
                root.value == square_iter(base, k as nat),
            decreases 24 - log_n - k,
        {
            root = root.mul(root);
            k = k + 1;
        }
        let root_inv = root.exp_u64((N - 1) as u64);
        let mut fft_twiddles = powers(root, N / 2);
        let mut ifft_twiddles = powers(root_inv, N / 2);
        let ghost fft0 = fft_twiddles@;
        let ghost ifft0 = ifft_twiddles@;
        assert(fft_twiddles@.len() == values_of(fft_twiddles@).len());
        assert(ifft_twiddles@.len() == values_of(ifft_twiddles@).len());
        assert(N / 2 == 0 || is_pow2((N / 2) as nat));
        reverse_index_bits(&mut fft_twiddles);
        reverse_index_bits(&mut ifft_twiddles);
        let mut weights_vec = powers(generator, N);
        let ghost w0 = weights_vec@;
        assert(weights_vec@.len() == values_of(weights_vec@).len());
        reverse_index_bits(&mut weights_vec);
        proof {
            lemma_bit_reversed_values(fft0);
            lemma_bit_reversed_values(ifft0);
            lemma_bit_reversed_values(w0);
        }
        let mut weights: [KoalaBear; N] = [KoalaBear { value: 0 }; N];
        let mut i: usize = 0;
        while i < N
            invariant
                i <= N,
                weights_vec@.len() == N,
                all_wf(weights_vec@),
                forall|j: int| 0 <= j < i ==> #[trigger] weights@[j] == weights_vec@[j],
            decreases N - i,
        {
            weights[i] = weights_vec[i];
            i = i + 1;
        }
        assert(weights@ =~= weights_vec@);
        CosetMds { fft_twiddles, ifft_twiddles, weights }
    }

    /// Applies the permutation in place.
    pub fn permute_mut(&self, values: &mut [KoalaBear; N])
        requires
            self.wf(),
            all_wf(old(values)@),
        ensures
            all_wf(final(values)@),
            values_of(final(values)@) == self.spec_permute(values_of(old(values)@)),
    {
        // Inverse DFT, without the bit reversal and the rescaling by 1/N.
        bowers_g_t(values, &self.ifft_twiddles);
        let ghost mid = values_of(values@);
        // Multiply by the powers of the coset shift.
        let mut i: usize = 0;
        while i < N
            invariant
                i <= N,
                self.wf(),
                all_wf(values@),
                mid.len() == N,
                self.weights_view().len() == N,
                forall|j: int| 0 <= j < i ==> #[trigger] values_of(values@)[j] == fmul(mid[j], self.weights_view()[j]),
                forall|j: int| i <= j < N ==> #[trigger] values_of(values@)[j] == mid[j],
            decreases N - i,
        {
            assert(values@[i as int].wf() && self.weights@[i as int].wf());
            let ghost before = values_of(values@);
            let x = values[i].mul(self.weights[i]);
            values[i] = x;
            assert(values_of(values@) =~= before.update(i as int, x.value as int));
            assert(self.weights_view()[i as int] == self.weights@[i as int].value as int);
            assert(before[i as int] == mid[i as int]);
            i = i + 1;
        }
        assert(values_of(values@) =~= scale(mid, self.weights_view()));
        // DFT, taking its input in bit-reversed order.
        bowers_g(values, &self.fft_twiddles);
    }

    /// Returns the permutation of `input`.
    pub fn permute(&self, input: [KoalaBear; N]) -> (r: [KoalaBear; N])
        requires
            self.wf(),
            all_wf(input@),
        ensures
            all_wf(r@),
            values_of(r@) == self.spec_permute(values_of(input@)),
    {
        let mut input = input;
        self.permute_mut(&mut input);
        input
    }
}

/// Constructing twice for the same width gives the same tables.
pub proof fn lemma_construction_repeatable<const N: usize>(a: CosetMds<N>, b: CosetMds<N>)
    requires
        a.has_default_tables(),
        b.has_default_tables(),
    ensures
        a.fft_twiddles_view() == b.fft_twiddles_view(),
        a.ifft_twiddles_view() == b.ifft_twiddles_view(),
        a.weights_view() == b.weights_view(),
{
}

proof fn lemma_hi_out_lin(a: int, b: int, x1: int, y1: int, x2: int, y2: int, free: bool, t: int, dit: bool)
    ensures
        hi_out(lin(a, x1, b, y1), lin(a, x2, b, y2), free, t, dit) == lin(
            a,
            hi_out(x1, x2, free, t, dit),
            b,
            hi_out(y1, y2, free, t, dit),
        ),
{
    if free || !dit {
        lemma_lin_fadd(a, b, x1, y1, x2, y2);
    } else {
        lemma_lin_fmul(a, b, x2, y2, t);
        lemma_lin_fadd(a, b, x1, y1, fmul(x2, t), fmul(y2, t));
    }
}

proof fn lemma_lo_out_lin(a: int, b: int, x1: int, y1: int, x2: int, y2: int, free: bool, t: int, dit: bool)
    ensures
        lo_out(lin(a, x1, b, y1), lin(a, x2, b, y2), free, t, dit) == lin(
            a,
            lo_out(x1, x2, free, t, dit),
            b,
            lo_out(y1, y2, free, t, dit),
        ),
{
    if free {
        lemma_lin_fsub(a, b, x1, y1, x2, y2);
    } else if dit {
        lemma_lin_fmul(a, b, x2, y2, t);
        lemma_lin_fsub(a, b, x1, y1, fmul(x2, t), fmul(y2, t));
    } else {
        lemma_lin_fsub(a, b, x1, y1, x2, y2);
        lemma_lin_fmul(a, b, fsub(x1, x2), fsub(y1, y2), t);
    }
}

/// A butterfly layer is linear.
proof fn lemma_layer_lin(a: int, b: int, x: Seq<int>, y: Seq<int>, half: nat, tw: Seq<int>, dit: bool)
    requires
        x.len() == y.len(),
        half > 0,
        x.len() % (2 * half) == 0,
    ensures
        layer(lin_seq(a, x, b, y), half, tw, dit) == lin_seq(
            a,
            layer(x, half, tw, dit),
            b,
            layer(y, half, tw, dit),
        ),
{
    let v = lin_seq(a, x, b, y);
    let w = 2 * half;
    let m = x.len() / w;
    lemma_fundamental_div_mod(x.len() as int, w as int);
    assert forall|j: int| 0 <= j < x.len() implies #[trigger] layer(v, half, tw, dit)[j] == lin_seq(
        a,
        layer(x, half, tw, dit),
        b,
        layer(y, half, tw, dit),
    )[j] by {
        let q = j / (w as int);
        let o = j % (w as int);
        lemma_fundamental_div_mod(j, w as int);
        lemma_mod_pos_bound(j, w as int);
        lemma_div_pos_is_pos(j, w as int);
        if o < half {
            assert(j + half < x.len()) by (nonlinear_arith)
                requires
                    j == w * q + o,
                    0 <= o < half,
                    w == 2 * half,
                    x.len() == w * m,
                    j < x.len(),
                    q >= 0,
            ;
            lemma_hi_out_lin(a, b, x[j], y[j], x[j + half], y[j + half], q == 0, tw[q], dit);
        } else {
            assert(j - half >= 0) by (nonlinear_arith)
                requires
                    j == w * q + o,
                    o >= half,
                    q >= 0,
                    w > 0,
            ;
            lemma_lo_out_lin(a, b, x[j - half], y[j - half], x[j], y[j], q == 0, tw[q], dit);
        }
    }
    assert(layer(v, half, tw, dit) =~= lin_seq(a, layer(x, half, tw, dit), b, layer(y, half, tw, dit)));
}

proof fn lemma_pow2_divides(k: nat, n: nat)
    requires
        k <= n,
    ensures
        pow2(n) % pow2(k) == 0,
        pow2(k) > 0,
{
    lemma_pow2_split(k, (n - k) as nat);
    lemma_mod_multiples_basic(pow2((n - k) as nat) as int, pow2(k) as int);
    lemma_mul_is_commutative(pow2((n - k) as nat) as int, pow2(k) as int);
}

proof fn lemma_g_net_lin(a: int, b: int, x: Seq<int>, y: Seq<int>, tw: Seq<int>, log_n: nat, k: nat)
    requires
        x.len() == y.len(),
        x.len() == pow2(log_n),
        k <= log_n,
    ensures
        g_net(lin_seq(a, x, b, y), tw, k) == lin_seq(a, g_net(x, tw, k), b, g_net(y, tw, k)),
        g_net(x, tw, k).len() == x.len(),
        g_net(y, tw, k).len() == x.len(),
    decreases k,
{
    if k > 0 {
        let k1 = (k - 1) as nat;
        lemma_g_net_lin(a, b, x, y, tw, log_n, k1);
        lemma_pow2_unfold(k);
        lemma_pow2_divides(k, log_n);
        lemma_layer_lin(a, b, g_net(x, tw, k1), g_net(y, tw, k1), pow2(k1), tw, false);
    }
}

proof fn lemma_g_t_net_lin(a: int, b: int, x: Seq<int>, y: Seq<int>, tw: Seq<int>, log_n: nat, k: nat)
    requires
        x.len() == y.len(),
        x.len() == pow2(log_n),
        k <= log_n,
    ensures
        g_t_net(lin_seq(a, x, b, y), tw, log_n, k) == lin_seq(
            a,
            g_t_net(x, tw, log_n, k),
            b,
            g_t_net(y, tw, log_n, k),
        ),
        g_t_net(x, tw, log_n, k).len() == x.len(),
        g_t_net(y, tw, log_n, k).len() == x.len(),
    decreases k,
{
    if k > 0 {
        let k1 = (k - 1) as nat;
        let h = (log_n - k) as nat;
        lemma_g_t_net_lin(a, b, x, y, tw, log_n, k1);
        lemma_pow2_unfold(h + 1);
        lemma_pow2_divides(h + 1, log_n);
        lemma_layer_lin(a, b, g_t_net(x, tw, log_n, k1), g_t_net(y, tw, log_n, k1), pow2(h), tw, true);
    }
}

proof fn lemma_scale_lin(a: int, b: int, x: Seq<int>, y: Seq<int>, w: Seq<int>)
    requires
        x.len() == y.len(),
    ensures
        scale(lin_seq(a, x, b, y), w) == lin_seq(a, scale(x, w), b, scale(y, w)),
{
    assert forall|i: int| 0 <= i < x.len() implies #[trigger] scale(lin_seq(a, x, b, y), w)[i] == lin_seq(
        a,
        scale(x, w),
        b,
        scale(y, w),
    )[i] by {
        lemma_lin_fmul(a, b, x[i], y[i], w[i]);
    }
    assert(scale(lin_seq(a, x, b, y), w) =~= lin_seq(a, scale(x, w), b, scale(y, w)));
}

/// The coset MDS permutation is linear: it maps a * x + b * y to
/// a * f(x) + b * f(y), for field scalars a, b and states x, y.
pub proof fn lemma_coset_mds_linear<const N: usize>(
    mds: CosetMds<N>,
    a: int,
    x: Seq<int>,
    b: int,
    y: Seq<int>,
)
    requires
        mds.wf(),
        x.len() == N,
        y.len() == N,
    ensures
        mds.spec_permute(lin_seq(a, x, b, y)) == lin_seq(
            a,
            mds.spec_permute(x),
            b,
            mds.spec_permute(y),
        ),
{
    let log_n = log_of(N as nat);
    assert(pow2(log_n) == N);
    let it = mds.ifft_twiddles_view();
    lemma_g_t_net_lin(a, b, x, y, it, log_n, log_n);
    let gx = g_t_net(x, it, log_n, log_n);
    let gy = g_t_net(y, it, log_n, log_n);
    lemma_scale_lin(a, b, gx, gy, mds.weights_view());
    lemma_g_net_lin(
        a,
        b,
        scale(gx, mds.weights_view()),
        scale(gy, mds.weights_view()),
        mds.fft_twiddles_view(),
        log_n,
        log_n,
    );
}

} // verus!

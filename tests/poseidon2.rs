use koala_mds::field::{KoalaBear, P};
use koala_mds::poseidon2::{
    internal_matrix_diag_16_shifts, internal_matrix_diag_24_shifts, permute_mut,
    DiffusionMatrixKoalaBear, MDSLightPermutationKoalaBear,
};
use rand::{RngCore, SeedableRng};
use rand_xoshiro::Xoroshiro128Plus;

type F = KoalaBear;

/// Draws a field element the way the round-constant generator does: the top
/// 31 bits of a 32-bit draw, taken as a Montgomery-form value when below p.
fn sample(rng: &mut Xoroshiro128Plus) -> F {
    loop {
        let next_u31 = rng.next_u32() >> 1;
        if next_u31 < P {
            return KoalaBear { value: next_u31 };
        }
    }
}

fn sample_row<const WIDTH: usize>(rng: &mut Xoroshiro128Plus) -> [F; WIDTH] {
    let mut row = [F::zero(); WIDTH];
    for x in row.iter_mut() {
        *x = sample(rng);
    }
    row
}

/// Poseidon2 with 8 full rounds and `rounds_p` partial rounds, constants
/// drawn from Xoroshiro128Plus seeded with 1.
fn poseidon2_koalabear<const WIDTH: usize, const D: u64>(input: &mut [F; WIDTH], rounds_p: usize) {
    let mut rng = Xoroshiro128Plus::seed_from_u64(1);
    let initial: Vec<[F; WIDTH]> = (0..4).map(|_| sample_row::<WIDTH>(&mut rng)).collect();
    let terminal: Vec<[F; WIDTH]> = (0..4).map(|_| sample_row::<WIDTH>(&mut rng)).collect();
    let internal: Vec<F> = (0..rounds_p).map(|_| sample(&mut rng)).collect();

    let external = MDSLightPermutationKoalaBear;
    let rep = external.to_internal_rep(*input);
    let mut state = external.to_output_rep(rep);
    external.permute_state_initial::<WIDTH, D>(&mut state, &initial);
    DiffusionMatrixKoalaBear.permute_state::<WIDTH, D>(&mut state, &internal);
    external.permute_state_final::<WIDTH, D>(&mut state, &terminal);
    *input = state;
}

fn canonical<const WIDTH: usize>(xs: [u32; WIDTH]) -> [F; WIDTH] {
    xs.map(F::from_canonical_u32)
}

#[test]
fn test_poseidon2_width_16_random() {
    let mut input: [F; 16] = canonical([
        894848333, 1437655012, 1200606629, 1690012884, 71131202, 1749206695, 1717947831,
        120589055, 19776022, 42382981, 1831865506, 724844064, 171220207, 1299207443, 227047920,
        1783754913,
    ]);

    let expected: [F; 16] = canonical([
        575479740, 1350824762, 2117880331, 1034350182, 1722317281, 988412135, 1272198010,
        2022533539, 1465703323, 648698653, 439658904, 878238659, 1163940027, 287402877,
        685135400, 1397893936,
    ]);

    poseidon2_koalabear::<16, 3>(&mut input, 20);
    assert_eq!(input, expected);
}

#[test]
fn test_poseidon2_width_24_random() {
    let mut input: [F; 24] = canonical([
        886409618, 1327899896, 1902407911, 591953491, 648428576, 1844789031, 1198336108,
        355597330, 1799586834, 59617783, 790334801, 1968791836, 559272107, 31054313,
        1042221543, 474748436, 135686258, 263665994, 1962340735, 1741539604, 2026927696,
        449439011, 1131357108, 50869465,
    ]);

    let expected: [F; 24] = canonical([
        960059210, 1580868478, 1801196597, 904704071, 855821469, 1913275695, 1509383446,
        1044214192, 627721401, 905385372, 1577681198, 1162796264, 2082498994, 488108023,
        909588461, 1160073886, 1386956787, 10169827, 1492928499, 843558832, 580466197,
        1008002900, 1086108283, 697296755,
    ]);

    poseidon2_koalabear::<24, 3>(&mut input, 23);
    assert_eq!(input, expected);
}

const PR: u64 = P as u64;

fn pow_mod(mut b: u64, mut e: u64) -> u64 {
    let mut r = 1u64;
    b %= PR;
    while e > 0 {
        if e & 1 == 1 {
            r = r * b % PR;
        }
        b = b * b % PR;
        e >>= 1;
    }
    r
}

/// Dense reference: (1 + D(v)) times the state, over canonical values, with
/// v[0] = -2 and v[i] = 2^shift[i - 1]; then scaled by 2^-32 as the
/// Montgomery-form layer is.
fn dense_reference(state: &[u64], shifts: &[u8]) -> Vec<u64> {
    let n = state.len();
    let r_inv = pow_mod(pow_mod(2, 32), PR - 2);
    (0..n)
        .map(|i| {
            let v = if i == 0 { PR - 2 } else { pow_mod(2, shifts[i - 1] as u64) };
            let mut acc = 0u64;
            for j in 0..n {
                let m = if i == j { (1 + v) % PR } else { 1 };
                acc = (acc + m * state[j]) % PR;
            }
            acc * r_inv % PR
        })
        .collect()
}

fn check_diffusion_against_dense<const N: usize>(shifts: &[u8], seed: u64) {
    let mut rng = Xoroshiro128Plus::seed_from_u64(seed);
    for _ in 0..64 {
        let mut state = [F::zero(); N];
        for x in state.iter_mut() {
            *x = F::from_canonical_u32((rng.next_u32() >> 1) % P);
        }
        let before: Vec<u64> = state.iter().map(|x| x.as_canonical_u32() as u64).collect();
        permute_mut(&mut state, shifts);
        let after: Vec<u64> = state.iter().map(|x| x.as_canonical_u32() as u64).collect();
        assert_eq!(after, dense_reference(&before, shifts));
    }
}

#[test]
fn diffusion_16_matches_dense_matrix() {
    check_diffusion_against_dense::<16>(&internal_matrix_diag_16_shifts(), 7);
}

#[test]
fn diffusion_24_matches_dense_matrix() {
    check_diffusion_against_dense::<24>(&internal_matrix_diag_24_shifts(), 8);
}

#[test]
fn diffusion_is_deterministic() {
    let mut a = [F::zero(); 16];
    for (i, x) in a.iter_mut().enumerate() {
        *x = F::from_canonical_u32(1000 + 77 * i as u32);
    }
    let mut b = a;
    permute_mut(&mut a, &internal_matrix_diag_16_shifts());
    permute_mut(&mut b, &internal_matrix_diag_16_shifts());
    assert_eq!(a, b);
}

#[test]
fn diffusion_of_zero_is_zero_and_of_one_hot() {
    let mut z = [F::zero(); 16];
    permute_mut(&mut z, &internal_matrix_diag_16_shifts());
    assert_eq!(z, [F::zero(); 16]);

    // A single 1 at index 3 gives the column (1, ..., 1 + 2^2, ..., 1) scaled by 2^-32.
    let mut e = [F::zero(); 16];
    e[3] = F::from_canonical_u32(1);
    permute_mut(&mut e, &internal_matrix_diag_16_shifts());
    let r_inv = pow_mod(pow_mod(2, 32), PR - 2) as u32;
    for (i, x) in e.iter().enumerate() {
        let want = if i == 3 { (5 * r_inv as u64 % PR) as u32 } else { r_inv };
        assert_eq!(x.as_canonical_u32(), want);
    }
}

#[test]
fn diffusion_is_linear() {
    let shifts = internal_matrix_diag_24_shifts();
    let mut rng = Xoroshiro128Plus::seed_from_u64(3);
    let mut x = [F::zero(); 24];
    let mut y = [F::zero(); 24];
    for i in 0..24 {
        x[i] = sample(&mut rng);
        y[i] = sample(&mut rng);
    }
    let a = sample(&mut rng);
    let b = sample(&mut rng);
    let mut comb = [F::zero(); 24];
    for i in 0..24 {
        comb[i] = a.mul(x[i]).add(b.mul(y[i]));
    }
    permute_mut(&mut x, &shifts);
    permute_mut(&mut y, &shifts);
    permute_mut(&mut comb, &shifts);
    for i in 0..24 {
        assert_eq!(comb[i], a.mul(x[i]).add(b.mul(y[i])));
    }
}

#[test]
fn representation_round_trip() {
    let layer = MDSLightPermutationKoalaBear;
    let state = canonical([5u32; 16]);
    let rep = layer.to_internal_rep(state);
    assert_eq!(rep[0], state);
    assert_eq!(layer.to_output_rep(rep), state);
}

#[test]
fn internal_rounds_without_constants_leave_state() {
    let state = canonical([9u32; 24]);
    let mut s = state;
    DiffusionMatrixKoalaBear.permute_state::<24, 3>(&mut s, &[]);
    assert_eq!(s, state);
}

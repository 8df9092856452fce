use koala_mds::coset_mds::CosetMds;
use koala_mds::field::{KoalaBear, P};
use rand::{thread_rng, Rng};

type F = KoalaBear;
const PR: u64 = P as u64;

fn pow_mod(mut b: u64, mut e: u64) -> u64 {
    let mut r = 1u64;
    b %= PR;
    while e > 0 {
        if e & 1 == 1 {
            r = r * b % PR;
        }
        b = b * b % PR;
        e >>= 1;
    }
    r
}

/// Naive coset low-degree extension over canonical values: interpolate on the
/// subgroup of order n, evaluate on 3 times that subgroup, times n.
fn naive_coset_lde_times_n(evals: &[u64]) -> Vec<u64> {
    let n = evals.len() as u64;
    let w = pow_mod(3, (PR - 1) / n);
    let w_inv = pow_mod(w, PR - 2);
    let n_inv = pow_mod(n, PR - 2);
    let coeffs: Vec<u64> = (0..n)
        .map(|k| {
            let mut acc = 0u64;
            for (j, &a) in evals.iter().enumerate() {
                acc = (acc + a * pow_mod(w_inv, j as u64 * k)) % PR;
            }
            acc * n_inv % PR
        })
        .collect();
    (0..n)
        .map(|i| {
            let x = 3 * pow_mod(w, i) % PR;
            let mut acc = 0u64;
            for (k, &c) in coeffs.iter().enumerate() {
                acc = (acc + c * pow_mod(x, k as u64)) % PR;
            }
            acc * n % PR
        })
        .collect()
}

fn check_against_naive<const N: usize>(input: [u32; N]) {
    let mut arr: [F; N] = input.map(F::from_canonical_u32);
    let expected = naive_coset_lde_times_n(&input.map(|x| x as u64));
    CosetMds::<N>::default().permute_mut(&mut arr);
    let got: Vec<u64> = arr.iter().map(|x| x.as_canonical_u32() as u64).collect();
    assert_eq!(expected, got);
}

#[test]
fn matches_naive() {
    const N: usize = 8;
    let mut rng = thread_rng();
    let mut arr = [0u32; N];
    for x in arr.iter_mut() {
        *x = rng.gen_range(0..P);
    }
    check_against_naive(arr);
}

#[test]
fn matches_naive_fixed_inputs() {
    check_against_naive([1, 2, 3, 4, 5, 6, 7, 8]);
    check_against_naive([0, 0, 0, 0]);
    check_against_naive([P - 1, 17]);
    check_against_naive([42]);
    let mut big = [0u32; 16];
    for (i, x) in big.iter_mut().enumerate() {
        *x = (i as u32 * 123_456_789) % P;
    }
    check_against_naive(big);
}

#[test]
fn permute_agrees_with_permute_mut() {
    let mds = CosetMds::<8>::default();
    let input = [3u32, 1, 4, 1, 5, 9, 2, 6].map(F::from_canonical_u32);
    let mut a = input;
    mds.permute_mut(&mut a);
    assert_eq!(mds.permute(input), a);
    let mut b = input;
    mds.permute_mut(&mut b);
    assert_eq!(a, b);
}

#[test]
fn construction_is_repeatable() {
    let a = CosetMds::<16>::default();
    let b = CosetMds::<16>::default();
    assert_eq!(format!("{:?}", a), format!("{:?}", b));
}

#[test]
fn constant_input_maps_to_scaled_constant() {
    // A constant polynomial c evaluates to c on the coset, times n.
    let mds = CosetMds::<8>::default();
    let out = mds.permute([F::from_canonical_u32(5); 8]);
    for x in out.iter() {
        assert_eq!(x.as_canonical_u32(), 40);
    }
}

/// Determinant over canonical values by Gaussian elimination.
fn det(mut m: Vec<Vec<u64>>) -> u64 {
    let n = m.len();
    let mut d = 1u64;
    for c in 0..n {
        let Some(piv) = (c..n).find(|&r| m[r][c] != 0) else {
            return 0;
        };
        if piv != c {
            m.swap(piv, c);
            d = (PR - d) % PR;
        }
        d = d * m[c][c] % PR;
        let inv = pow_mod(m[c][c], PR - 2);
        for r in c + 1..n {
            let f = m[r][c] * inv % PR;
            for k in c..n {
                m[r][k] = (m[r][k] + PR - f * m[c][k] % PR) % PR;
            }
        }
    }
    d
}

#[test]
fn every_square_submatrix_is_nonsingular() {
    const N: usize = 4;
    let mds = CosetMds::<N>::default();
    // Column j of the matrix is the image of the j-th unit vector.
    let mut mat = vec![vec![0u64; N]; N];
    for j in 0..N {
        let mut e = [F::zero(); N];
        e[j] = F::from_canonical_u32(1);
        let col = mds.permute(e);
        for i in 0..N {
            mat[i][j] = col[i].as_canonical_u32() as u64;
        }
    }
    for rows in 1u32..(1 << N) {
        for cols in 1u32..(1 << N) {
            if rows.count_ones() != cols.count_ones() {
                continue;
            }
            let sub: Vec<Vec<u64>> = (0..N)
                .filter(|r| rows >> r & 1 == 1)
                .map(|r| (0..N).filter(|c| cols >> c & 1 == 1).map(|c| mat[r][c]).collect())
                .collect();
            assert_ne!(det(sub), 0);
        }
    }
}

#[test]
fn coset_mds_is_linear() {
    let mds = CosetMds::<8>::default();
    let x = [11u32, 22, 33, 44, 55, 66, 77, 88].map(F::from_canonical_u32);
    let y = [P - 1, 5, 0, 9, 1 << 20, 3, 3, 1].map(F::from_canonical_u32);
    let a = F::from_canonical_u32(123);
    let b = F::from_canonical_u32(P - 7);
    let mut comb = [F::zero(); 8];
    for i in 0..8 {
        comb[i] = a.mul(x[i]).add(b.mul(y[i]));
    }
    let fx = mds.permute(x);
    let fy = mds.permute(y);
    let fc = mds.permute(comb);
    for i in 0..8 {
        assert_eq!(fc[i], a.mul(fx[i]).add(b.mul(fy[i])));
    }
}

use quant_algos::bitcodec::BitCodec;
use quant_algos::zq::Zq;
use quant_algos::{LWEBitCiphertext, LWEStringCiphertext, LWESystem, Params, PubKeyTy};
use rand::{Rng, SeedableRng};
use rand_chacha::ChaCha20Rng;
use rand_distr::{Distribution, Normal};

/// n = 16, q = 509 (prime, with n^2 = 256 < q < 512 = 2n^2), m ~ (1+eps)(n+1)log2(q)
/// rounded up, sigma chosen so sigma*sqrt(m) is comfortably under q/4.
fn toy_params() -> (usize, usize, u64, f64) {
    (16, 200, 509, 2.0)
}

/// Draws the samples of a key (secret, matrix, rounded Gaussian errors) and builds the key.
fn key_gen_with_rng<R: Rng>(rng: &mut R, n: usize, m: usize, q: u64, sigma: f64) -> LWESystem {
    let secret: Vec<u64> = (0..n).map(|_| rng.gen_range(0..q)).collect();
    let matrix: Vec<Vec<u64>> = (0..m)
        .map(|_| (0..n).map(|_| rng.gen_range(0..q)).collect())
        .collect();
    let sampler = Normal::new(0.0, sigma).expect("sigma must be finite and > 0");
    let errors: Vec<i64> = (0..m).map(|_| sampler.sample(rng).round() as i64).collect();
    LWESystem::key_gen_from_samples(n, m, q, &secret, &matrix, &errors).expect("valid parameters")
}

/// Draws a non-empty mask and encrypts one bit with it.
fn encrypt_bit_with_rng<R: Rng>(
    rng: &mut R,
    public_key: &PubKeyTy,
    params: Params,
    x_bit: bool,
) -> LWEBitCiphertext {
    let mask = loop {
        let mask: Vec<bool> = (0..params.m()).map(|_| rng.gen_bool(0.5)).collect();
        if mask.iter().any(|&b| b) {
            break mask;
        }
    };
    LWESystem::encrypt_bit_with_mask(public_key, params, &mask, x_bit)
}

fn encrypt<R: Rng, T: BitCodec>(
    rng: &mut R,
    public_key: &PubKeyTy,
    params: Params,
    x: T,
) -> LWEStringCiphertext {
    x.to_bits()
        .into_iter()
        .map(|b| encrypt_bit_with_rng(rng, public_key, params, b))
        .collect()
}

#[test]
fn round_trip_encrypts_and_decrypts_correctly() {
    let mut rng = ChaCha20Rng::seed_from_u64(42);
    let (n, m, q, sigma) = toy_params();
    let lwe = key_gen_with_rng(&mut rng, n, m, q, sigma);

    for trial in 0..200 {
        let bit = trial % 2 == 0;
        let ct = encrypt_bit_with_rng(&mut rng, lwe.public_key(), lwe.params(), bit);
        let decrypted = lwe.decrypt_bit(ct);
        assert_eq!(decrypted, bit, "round trip failed on trial {trial}");
    }
}

#[test]
fn failure_rate_matches_prediction() {
    let mut rng = ChaCha20Rng::seed_from_u64(99);
    let (n, m, q, sigma) = toy_params();
    let lwe = key_gen_with_rng(&mut rng, n, m, q, sigma);

    let trials = 5000;
    let mut failures = 0;
    for i in 0..trials {
        let bit = i % 2 == 0;
        let ct = encrypt_bit_with_rng(&mut rng, lwe.public_key(), lwe.params(), bit);
        if lwe.decrypt_bit(ct) != bit {
            failures += 1;
        }
    }

    let empirical_rate = failures as f64 / trials as f64;
    assert!(
        empirical_rate < 0.01,
        "failure rate too high: {failures}/{trials} = {empirical_rate}"
    );
}

/// An all-zero `a` makes the decision depend only on `b`: this pins down the
/// boundary behaviour at q/4 and 3q/4.
#[test]
fn decrypt_boundary_behavior() {
    let mut rng = ChaCha20Rng::seed_from_u64(1);
    let (n, _m, q, sigma) = toy_params();
    let lwe = key_gen_with_rng(&mut rng, n, 10, q, sigma);
    let zero_a = vec![Zq::new(0, q); n];

    let just_below = Zq::new(q / 4 - 1, q);
    assert_eq!(lwe.decrypt_bit((zero_a.clone(), just_below)), false);

    let at_lower_boundary = Zq::new(q / 4, q);
    assert_eq!(lwe.decrypt_bit((zero_a.clone(), at_lower_boundary)), true);

    let at_upper_boundary = Zq::new((3 * q) / 4, q);
    assert_eq!(lwe.decrypt_bit((zero_a.clone(), at_upper_boundary)), true);

    let just_above = Zq::new((3 * q) / 4 + 1, q);
    assert_eq!(lwe.decrypt_bit((zero_a, just_above)), false);
}

#[test]
fn encryptions_of_same_bit_are_randomized() {
    let mut rng = ChaCha20Rng::seed_from_u64(5);
    let (n, m, q, sigma) = toy_params();
    let lwe = key_gen_with_rng(&mut rng, n, m, q, sigma);

    let ct1 = encrypt_bit_with_rng(&mut rng, lwe.public_key(), lwe.params(), true);
    let ct2 = encrypt_bit_with_rng(&mut rng, lwe.public_key(), lwe.params(), true);

    assert_ne!(
        ct1, ct2,
        "two encryptions of the same bit produced identical ciphertexts"
    );
}

#[test]
fn single_row_ciphertext_decrypts_as_zero() {
    let mut rng = ChaCha20Rng::seed_from_u64(3);
    let (n, m, q, sigma) = toy_params();
    let lwe = key_gen_with_rng(&mut rng, n, m, q, sigma);

    for i in 0..lwe.public_key().len().min(20) {
        let (row, b) = lwe.public_key()[i].clone();
        let decoded = lwe.decrypt_bit((row, b));
        assert!(decoded == false, "row {i} failed as a standalone ciphertext");
    }
}

const TEST_STR: &str = "This is a very long string that we want to \
                split across multiple lines in our source code \
                so it does not cause formatting issues.";

#[test]
fn string_check() {
    let mut rng = ChaCha20Rng::seed_from_u64(42);
    let (n, m, q, sigma) = toy_params();
    let lwe = key_gen_with_rng(&mut rng, n, m, q, sigma);

    let ct = encrypt(&mut rng, lwe.public_key(), lwe.params(), TEST_STR.to_string());
    println!("{:?}", ct);
    let decrypted: String = lwe.decrypt(ct).unwrap_or_default();
    println!("{:?}", decrypted);
    if decrypted != TEST_STR {
        println!("Expected '{}' but got '{}' instead", TEST_STR, decrypted);
        assert_ne!(decrypted, TEST_STR);
    }
}

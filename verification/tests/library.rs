use quant_algos::analysis::{find_prime_in_range, is_prime, priv_key_bytes, pub_key_bytes};
use quant_algos::bitcodec::BitCodec;
use quant_algos::ring::{decode_bits, encode_bits, Rq};
use quant_algos::zq::{dot, Zq};
use quant_algos::LWESystem;

fn zq7(v: u64) -> Zq<u64> {
    Zq::new(v, 7)
}

fn vals(v: &[Zq<u64>]) -> Vec<u64> {
    v.iter().map(|z| z.value()).collect()
}

#[test]
fn zq_new_reduces_modulo_q() {
    assert_eq!(Zq::new(10u64, 7).value(), 3);
    assert_eq!(Zq::new(10u64, 7).modulus(), 7);
    assert_eq!(Zq::new(u64::MAX, 10).value(), 5);
    assert_eq!(Zq::new(40u32, 13).value(), 1);
}

#[test]
fn zq_from_signed_is_euclidean() {
    assert_eq!(Zq::from_signed(-1, 7u64).value(), 6);
    assert_eq!(Zq::from_signed(-14, 7u64).value(), 0);
    assert_eq!(Zq::from_signed(i64::MIN, 3u64).value(), 1);
    assert_eq!(Zq::from_signed(9, 7u32).value(), 2);
}

#[test]
fn zq_to_signed_is_centred() {
    assert_eq!(zq7(5).to_signed(), -2);
    assert_eq!(zq7(3).to_signed(), 3);
    assert_eq!(Zq::new(4u64, 8).to_signed(), 4);
    assert_eq!(Zq::new(5u64, 8).to_signed(), -3);
    assert_eq!(Zq::new(u64::MAX - 1, u64::MAX).to_signed(), -1);
}

#[test]
fn zq_signed_round_trip() {
    for v in 0..7 {
        let z = zq7(v);
        assert_eq!(Zq::from_signed(z.to_signed(), 7), z);
    }
    let big = Zq::new(1u64 << 63, u64::MAX);
    assert_eq!(Zq::from_signed(big.to_signed(), u64::MAX), big);
}

#[test]
fn zq_operations() {
    assert_eq!((zq7(5) + zq7(4)).value(), 2);
    assert_eq!((zq7(2) - zq7(5)).value(), 4);
    assert_eq!((zq7(5) * zq7(4)).value(), 6);
    assert_eq!((-zq7(3)).value(), 4);
    assert_eq!((-zq7(0)).value(), 0);
    let q = u64::MAX;
    assert_eq!((Zq::new(q - 1, q) * Zq::new(q - 1, q)).value(), 1);
    assert_eq!((Zq::new(q - 1, q) + Zq::new(q - 1, q)).value(), q - 2);
}

#[test]
fn zq_add_then_sub_gives_back() {
    for a in 0..7 {
        for b in 0..7 {
            assert_eq!((zq7(a) + zq7(b)) - zq7(b), zq7(a));
        }
    }
}

#[test]
fn zq_dot_and_vector_add() {
    let l: Vec<Zq<u64>> = vec![zq7(1), zq7(2), zq7(3)];
    let r: Vec<Zq<u64>> = vec![zq7(4), zq7(5), zq7(6)];
    assert_eq!(dot(&l, &r, 7).value(), 4);
    assert_eq!(dot(&[], &[], 7u64).value(), 0);
    assert_eq!(vals(&quant_algos::zq::add(&l, &r)), vec![5, 0, 2]);
}

fn rq17(c: &[u64]) -> Rq<u64> {
    Rq { coeffs: c.iter().map(|&v| Zq::new(v, 17)).collect() }
}

#[test]
fn ring_zero_and_accessors() {
    let z = Rq::zero(4, 17u64);
    assert_eq!(z.n(), 4);
    assert_eq!(z.modulus(), 17);
    assert_eq!(vals(&z.coeffs), vec![0, 0, 0, 0]);
}

#[test]
fn ring_add_and_sub() {
    let a = rq17(&[1, 16, 5]);
    let b = rq17(&[16, 16, 12]);
    assert_eq!(vals(&a.add(&b).coeffs), vec![0, 15, 0]);
    assert_eq!(vals(&a.sub(&b).coeffs), vec![2, 0, 10]);
    assert_eq!(a.add(&b).sub(&b), a);
}

#[test]
fn ring_mul_is_negacyclic() {
    // (1 + 2x)(3 + 4x) = 3 + 10x + 8x^2 = -5 + 10x, as x^2 = -1
    assert_eq!(vals(&rq17(&[1, 2]).mul(&rq17(&[3, 4])).coeffs), vec![12, 10]);
    // x * x = -1
    assert_eq!(vals(&rq17(&[0, 1]).mul(&rq17(&[0, 1])).coeffs), vec![16, 0]);
    // x^2 * x^2 = x^4 = -1 with n = 4
    assert_eq!(vals(&rq17(&[0, 0, 1, 0]).mul(&rq17(&[0, 0, 1, 0])).coeffs), vec![16, 0, 0, 0]);
    let a = rq17(&[3, 1, 4, 1]);
    let b = rq17(&[5, 9, 2, 6]);
    assert_eq!(a.mul(&b), b.mul(&a));
}

#[test]
fn encode_then_decode_bits() {
    let bits = [true, false, true];
    let poly = encode_bits(&bits, 4, 17u64);
    assert_eq!(vals(&poly.coeffs), vec![8, 0, 8, 0]);
    assert_eq!(decode_bits(&poly), vec![true, false, true, false]);
}

#[test]
fn decode_thresholds() {
    // q = 17: q/4 = 4, 3q/4 = 12
    let poly = rq17(&[3, 4, 12, 13]);
    assert_eq!(decode_bits(&poly), vec![false, true, true, false]);
    // q = 3 < 4: q/4 = 0, so a zero coefficient decodes to true
    let small = encode_bits(&[false], 1, 3u64);
    assert_eq!(decode_bits(&small), vec![true]);
}

#[test]
fn uint_bits_are_msb_first() {
    assert_eq!(5u8.to_bits(), vec![false, false, false, false, false, true, false, true]);
    assert_eq!(u8::from_bits(&5u8.to_bits()), Ok(5));
    assert_eq!(0x8001u16.to_bits()[0], true);
    assert_eq!(0x8001u16.to_bits()[15], true);
    assert_eq!(u16::from_bits(&0x8001u16.to_bits()), Ok(0x8001));
    assert_eq!(u32::from_bits(&0xdead_beefu32.to_bits()), Ok(0xdead_beef));
    assert_eq!(u64::from_bits(&u64::MAX.to_bits()), Ok(u64::MAX));
    assert_eq!(u64::MAX.to_bits().len(), 64);
}

#[test]
fn uint_wrong_length_is_rejected() {
    assert_eq!(u8::from_bits(&[true; 7]), Err("Wrong bit length for u8".to_string()));
    assert_eq!(u16::from_bits(&[true; 8]), Err("Wrong bit length for u16".to_string()));
    assert_eq!(u32::from_bits(&[]), Err("Wrong bit length for u32".to_string()));
    assert_eq!(u64::from_bits(&[false; 65]), Err("Wrong bit length for u64".to_string()));
}

#[test]
fn string_bits_round_trip() {
    let s = "héllo, wörld".to_string();
    let bits = s.to_bits();
    assert_eq!(bits.len(), 32 + 8 * s.as_bytes().len());
    assert_eq!(u32::from_bits(&bits[0..32]), Ok(s.as_bytes().len() as u32));
    assert_eq!(String::from_bits(&bits), Ok(s));
    assert_eq!(String::from_bits(&String::new().to_bits()), Ok(String::new()));
}

#[test]
fn string_bad_bits_are_rejected() {
    assert_eq!(
        String::from_bits(&[false; 31]),
        Err("Expected >=32-bit prefix, got 31".to_string())
    );
    let mut bits = 1u32.to_bits();
    assert_eq!(
        String::from_bits(&bits),
        Err("Length prefix says 1 (expected total of 40), but got 32 bits".to_string())
    );
    bits.extend(0xffu8.to_bits());
    assert!(String::from_bits(&bits).is_err());
    let mut ok = 1u32.to_bits();
    ok.extend(b'A'.to_bits());
    assert_eq!(String::from_bits(&ok), Ok("A".to_string()));
}

#[test]
fn primality() {
    let primes: Vec<u64> = (0..30).filter(|&v| is_prime(v)).collect();
    assert_eq!(primes, vec![2, 3, 5, 7, 11, 13, 17, 19, 23, 29]);
    assert!(!is_prime(10609));
    assert!(is_prime(10613));
    assert!(is_prime(4294967291));
    assert!(!is_prime(4294967291 * 3));
}

#[test]
fn prime_search_in_range() {
    assert_eq!(find_prime_in_range(0), None);
    assert_eq!(find_prime_in_range(1), Some(2));
    assert_eq!(find_prime_in_range(2), Some(5));
    assert_eq!(find_prime_in_range(4), Some(17));
    assert_eq!(find_prime_in_range(103), Some(10613));
}

fn small_key() -> LWESystem {
    let secret = [3u64, 15];
    let matrix = vec![vec![1u64, 2], vec![5, 6]];
    let errors = [1i64, -2];
    LWESystem::key_gen_from_samples(2, 2, 11, &secret, &matrix, &errors).unwrap()
}

#[test]
fn key_from_samples_is_exact() {
    let lwe = small_key();
    assert_eq!(vals(lwe.private_key()), vec![3, 4]);
    let pk = lwe.public_key();
    assert_eq!(vals(&pk[0].0), vec![1, 2]);
    assert_eq!(vals(&pk[1].0), vec![5, 6]);
    // <s, a_0> = 11 = 0, plus 1; <s, a_1> = 39 = 6, centred -5, minus 2: -7 = 4
    assert_eq!(pk[0].1.value(), 1);
    assert_eq!(pk[1].1.value(), 4);
    assert_eq!(lwe.params().n(), 2);
    assert_eq!(lwe.params().m(), 2);
    assert_eq!(lwe.params().q(), 11);
}

#[test]
fn key_from_samples_rejects() {
    // q < n^2
    assert!(LWESystem::key_gen_from_samples(4, 0, 11, &[0, 0, 0, 0], &[], &[]).is_none());
    // the centred inner product plus the error overflows i64
    let r = LWESystem::key_gen_from_samples(1, 1, 11, &[1], &[vec![1]], &[i64::MAX]);
    assert!(r.is_none());
    let r = LWESystem::key_gen_from_samples(1, 1, 11, &[0], &[vec![1]], &[i64::MAX]);
    assert!(r.is_some());
}

#[test]
fn key_from_no_samples_with_zero_modulus() {
    let lwe = LWESystem::key_gen_from_samples(0, 0, 0, &[], &[], &[]).unwrap();
    assert_eq!(lwe.params().q(), 0);
    assert!(lwe.public_key().is_empty());
    assert!(lwe.private_key().is_empty());
}

#[test]
fn encrypt_with_mask_is_exact() {
    let lwe = small_key();
    let (a, b) = LWESystem::encrypt_bit_with_mask(lwe.public_key(), lwe.params(), &[true, true], true);
    assert_eq!(vals(&a), vec![6, 8]);
    assert_eq!(b.value(), 10);
    assert_eq!(lwe.decrypt_bit((a, b)), true);
    let (a, b) = LWESystem::encrypt_bit_with_mask(lwe.public_key(), lwe.params(), &[false, true], false);
    assert_eq!(vals(&a), vec![5, 6]);
    assert_eq!(b.value(), 4);
    assert_eq!(lwe.decrypt_bit((a, b)), false);
}

#[test]
fn decrypt_values_of_bit_strings() {
    let lwe = small_key();
    let bits = 0xa5u8.to_bits();
    let ct: Vec<_> = bits
        .iter()
        .map(|&bit| LWESystem::encrypt_bit_with_mask(lwe.public_key(), lwe.params(), &[true, false], bit))
        .collect();
    assert_eq!(lwe.decrypt::<u8>(ct.clone()), Ok(0xa5));
    assert!(lwe.decrypt::<u16>(ct).is_err());
}

#[test]
fn key_sizes() {
    let lwe = small_key();
    let s = std::mem::size_of::<Zq<u64>>();
    assert_eq!(pub_key_bytes(lwe.public_key()), 2 * (2 * s + s));
    assert_eq!(priv_key_bytes(lwe.private_key()), 2 * s);
}

#[test]
fn key_rows_decrypt_to_zero() {
    let lwe = small_key();
    for (row, b) in lwe.public_key().clone() {
        assert_eq!(lwe.decrypt_bit((row, b)), false);
    }
}

#[test]
fn decrypt_encrypt_with_small_key_noise() {
    // noises 1 and -2 add up to 3 < 101/4
    let secret = [3u64, 15];
    let matrix = vec![vec![1u64, 2], vec![5, 6]];
    let lwe = LWESystem::key_gen_from_samples(2, 2, 101, &secret, &matrix, &[1, -2]).unwrap();
    for mask in [[true, false], [false, true], [true, true]] {
        for bit in [false, true] {
            let ct = LWESystem::encrypt_bit_with_mask(lwe.public_key(), lwe.params(), &mask, bit);
            assert_eq!(lwe.decrypt_bit(ct), bit);
        }
    }
}

#[test]
fn masks_and_bit_strings() {
    assert!(!quant_algos::mask_selects_any(&[]));
    assert!(!quant_algos::mask_selects_any(&[false, false]));
    assert!(quant_algos::mask_selects_any(&[false, true]));
    let lwe = small_key();
    let bits = [true, false, true];
    let masks = vec![vec![true, true], vec![false, true], vec![true, false]];
    let ct = LWESystem::encrypt_bits_with_masks(lwe.public_key(), lwe.params(), &bits, &masks);
    assert_eq!(ct.len(), 3);
    assert_eq!(vals(&ct[0].0), vec![6, 8]);
    assert_eq!(ct[0].1.value(), 10);
    assert_eq!(vals(&ct[1].0), vec![5, 6]);
    assert_eq!(ct[1].1.value(), 4);
    for (c, &bit) in ct.into_iter().zip(bits.iter()) {
        assert_eq!(lwe.decrypt_bit(c), bit);
    }
}

#[test]
fn ring_mul_is_associative() {
    let a = rq17(&[3, 1, 4]);
    let b = rq17(&[1, 5, 9]);
    let c = rq17(&[2, 6, 5]);
    assert_eq!(a.mul(&b).mul(&c), a.mul(&b.mul(&c)));
}

#[test]
fn single_row_key_encrypts_its_row() {
    let lwe = LWESystem::key_gen_from_samples(2, 1, 11, &[3, 15], &[vec![7, 9]], &[2]).unwrap();
    let (row, b0) = lwe.public_key()[0].clone();
    let (a, b) = LWESystem::encrypt_bit_with_mask(lwe.public_key(), lwe.params(), &[true], false);
    assert_eq!(a, row);
    assert_eq!(b, b0);
    let (a, b) = LWESystem::encrypt_bit_with_mask(lwe.public_key(), lwe.params(), &[true], true);
    assert_eq!(a, row);
    assert_eq!(b, b0 + Zq::new(5, 11));
}

#[test]
fn element_and_key_text() {
    assert_eq!(Zq::new(20u64, 17).debug_text(), "3 (mod 17)");
    assert_eq!(Zq::new(0u32, 5).debug_text(), "0 (mod 5)");
    assert_eq!(Zq::new(u64::MAX - 1, u64::MAX).debug_text(), format!("{} (mod {})", u64::MAX - 1, u64::MAX));
    assert_eq!(rq17(&[3, 18]).debug_text(), "Rq { coeffs: [3 (mod 17), 1 (mod 17)] }");
    assert_eq!(Rq::<u64> { coeffs: vec![] }.debug_text(), "Rq { coeffs: [] }");
    let lwe = small_key();
    assert_eq!(
        lwe.debug_text(),
        "Public Key: [([1 (mod 11), 2 (mod 11)], 1 (mod 11)), ([5 (mod 11), 6 (mod 11)], 4 (mod 11))]\n\
         Private Key: [3 (mod 11), 4 (mod 11)]"
    );
    let empty = LWESystem::key_gen_from_samples(0, 0, 0, &[], &[], &[]).unwrap();
    assert_eq!(empty.debug_text(), "Public Key: []\nPrivate Key: []");
}

#[test]
fn decrypt_reports_decoding_errors() {
    let lwe = small_key();
    let ct: Vec<_> = [true, false, true]
        .iter()
        .map(|&bit| LWESystem::encrypt_bit_with_mask(lwe.public_key(), lwe.params(), &[true, false], bit))
        .collect();
    assert_eq!(lwe.decrypt::<u16>(ct.clone()), Err("Wrong bit length for u16".to_string()));
    assert_eq!(lwe.decrypt::<String>(ct), Err("Expected >=32-bit prefix, got 3".to_string()));
}

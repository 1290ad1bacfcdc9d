use mimcge::cipher::Cipher;
use mimcge::codec::{to_binary, to_decimal};
use mimcge::mimc::MiMC;
use mimcge::mimc_5::MiMC5;
use mimcge::mimc_general::MiMCGn;
use mimcge::random::{generate_random_bits, generate_round_constants};

fn round_trips(exponent: u128, block_size: u32) {
    let cipher = MiMCGn::new(exponent, block_size, None).unwrap();
    for _ in 0..3 {
        let plaintext = generate_random_bits(block_size);
        let key = generate_random_bits(block_size);
        let ciphertext = cipher.encrypt(&plaintext, &key).unwrap();
        assert_eq!(ciphertext.len(), block_size as usize);
        assert_eq!(cipher.decrypt(&ciphertext, &key).unwrap(), plaintext);
    }
}

#[test]
fn round_trip_in_every_field_with_exponent_3() {
    for block_size in [5, 11, 17, 25, 31, 33, 47, 61, 83, 101, 125, 127] {
        round_trips(3, block_size);
    }
}

#[test]
fn round_trip_in_the_field_of_even_width() {
    round_trips(2, 8);
    round_trips(7, 8);
}

#[test]
fn round_trip_with_other_exponents() {
    round_trips(5, 5);
    round_trips(7, 11);
    round_trips(11, 33);
    round_trips(17, 125);
    round_trips(5, 127);
    round_trips(257, 61);
}

#[test]
fn round_trip_of_every_pair_in_the_smallest_field() {
    let constants = vec![vec![0; 5], vec![0, 0, 1, 0, 1], vec![1, 0, 1, 1, 0], vec![1, 0, 0, 0, 0]];
    let cipher = MiMCGn::with_round_constants(3, 5, &constants).unwrap();
    for p in 0..32 {
        for k in 0..32 {
            let plaintext = to_binary(p, 5);
            let key = to_binary(k, 5);
            assert_eq!(cipher.decrypt(&cipher.encrypt(&plaintext, &key).unwrap(), &key).unwrap(), plaintext);
        }
    }
}

#[test]
fn encryption_permutes_the_smallest_field() {
    let constants = vec![vec![0; 5], vec![0, 0, 1, 0, 1], vec![1, 0, 1, 1, 0], vec![1, 0, 0, 0, 0]];
    let cipher = MiMCGn::with_round_constants(3, 5, &constants).unwrap();
    let key = to_binary(29, 5);
    let mut seen = [false; 32];
    for p in 0..32 {
        let c = to_decimal(&cipher.encrypt(&to_binary(p, 5), &key).unwrap()) as usize;
        assert!(!seen[c]);
        seen[c] = true;
    }
}

#[test]
fn mimc_round_trip_with_drawn_constants() {
    for block_size in [5, 17, 31, 127] {
        let cipher = MiMC::new(block_size).unwrap();
        let plaintext = generate_random_bits(block_size);
        let key = generate_random_bits(block_size);
        assert_eq!(cipher.decrypt(&cipher.encrypt(&plaintext, &key).unwrap(), &key).unwrap(), plaintext);
    }
}

#[test]
fn mimc_5_round_trip_with_drawn_constants() {
    for block_size in [5, 17, 33, 61] {
        let cipher = MiMC5::new(block_size).unwrap();
        let plaintext = generate_random_bits(block_size);
        let key = generate_random_bits(block_size);
        assert_eq!(cipher.decrypt(&cipher.encrypt(&plaintext, &key).unwrap(), &key).unwrap(), plaintext);
    }
}

#[test]
fn mimc_5_vector_in_the_field_of_width_17() {
    let constants = vec![to_binary(0, 17), to_binary(3, 17), to_binary(4, 17)];
    let cipher = MiMC5::with_round_constants(17, &constants).unwrap();
    assert_eq!(cipher.encrypt(&to_binary(1, 17), &to_binary(2, 17)).unwrap(), to_binary(26193, 17));
    assert_eq!(cipher.decrypt(&to_binary(26193, 17), &to_binary(2, 17)).unwrap(), to_binary(1, 17));
    assert_eq!(cipher.t(), 4);
}

#[test]
fn general_vectors_from_integers() {
    let constants = vec![to_binary(0, 11), to_binary(773, 11), to_binary(996, 11), to_binary(1417, 11)];
    let cipher = MiMCGn::with_round_constants(7, 11, &constants).unwrap();
    assert_eq!(cipher.encrypt(&to_binary(1868, 11), &to_binary(1362, 11)).unwrap(), to_binary(1962, 11));
    let wide: Vec<Vec<u8>> = [0u128, 4167564917, 2955227280, 6014621339, 7070376341, 3894014214, 5647237025, 681616375, 6711229718, 2588429073]
        .iter()
        .map(|c| to_binary(*c, 33))
        .collect();
    let cipher = MiMCGn::with_round_constants(11, 33, &wide).unwrap();
    assert_eq!(
        cipher.encrypt(&to_binary(2121644265, 33), &to_binary(2704582896, 33)).unwrap(),
        to_binary(6523462206, 33)
    );
}

#[test]
fn what_a_cipher_is_made_of() {
    let constants = vec![vec![0; 5], vec![0, 0, 1, 0, 1], vec![1, 0, 1, 1, 0], vec![1, 0, 0, 0, 0]];
    let cipher = MiMCGn::with_round_constants(3, 5, &constants).unwrap();
    assert_eq!(cipher.exponent(), 3);
    assert_eq!(cipher.block_size(), 5);
    assert_eq!(cipher.field(), 32);
    assert_eq!(cipher.t(), 2);
    assert_eq!(cipher.decryption_exponent(), 21);
    assert_eq!(cipher.rounds(), 4);
    assert_eq!(cipher.round_constants(), &constants);
    assert_eq!(cipher.round_constants_decimal(), vec![0, 5, 22, 16]);
    let mimc = MiMC::with_round_constants(5, &constants).unwrap();
    assert_eq!(mimc.block_size(), 5);
    assert_eq!(mimc.field(), 32);
    assert_eq!(mimc.rounds(), 4);
    assert_eq!(mimc.round_constants(), &constants);
    assert_eq!(mimc.round_constants_decimal(), vec![0, 5, 22, 16]);
}

#[test]
fn drawn_constants_start_with_zero() {
    let constants = generate_round_constants(4, 5);
    assert_eq!(constants.len(), 4);
    assert_eq!(constants[0], vec![0; 5]);
    assert!(constants.iter().all(|c| c.len() == 5 && c.iter().all(|&b| b <= 1)));
    assert_eq!(generate_round_constants(0, 5), vec![vec![0; 5]]);
    assert_eq!(generate_round_constants(1, 17), vec![vec![0; 17]]);
}

#[test]
fn drawn_bits_are_bits_and_vary() {
    let bits = generate_random_bits(127);
    assert_eq!(bits.len(), 127);
    assert!(bits.iter().all(|&b| b <= 1));
    assert!(generate_random_bits(0).is_empty());
    // 2048 draws that all give the same bit would mean a generator that is stuck
    let many = generate_random_bits(2048);
    assert!(many.contains(&0) && many.contains(&1));
}

#[test]
fn rounds_derived_and_reduced() {
    assert_eq!(MiMCGn::new(3, 5, None).unwrap().rounds(), 4);
    assert_eq!(MiMCGn::new(3, 5, Some(1)).unwrap().rounds(), 3);
    assert_eq!(MiMCGn::new(3, 5, Some(3)).unwrap().rounds(), 1);
    assert_eq!(MiMCGn::new(3, 5, Some(4)).unwrap().rounds(), 1);
    assert_eq!(MiMCGn::new(2, 8, None).unwrap().rounds(), 8);
    assert_eq!(MiMCGn::new(17, 125, Some(10)).unwrap().rounds(), 21);
    assert_eq!(MiMC::new(17).unwrap().rounds(), 11);
    assert_eq!(MiMC5::new(17).unwrap().rounds(), 8);
    let cipher = MiMCGn::new(3, 5, Some(2)).unwrap();
    assert_eq!(cipher.round_constants().len(), 2);
    assert_eq!(cipher.round_constants()[0], vec![0; 5]);
}

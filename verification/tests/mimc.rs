use mimcge::cipher::Cipher;
use mimcge::codec::to_binary;
use mimcge::mimc::MiMC;

#[test]
fn mimc_encrypt_small() {
    // 0, 5, 22, 16
    let round_constants = vec![vec![0;5], vec![0,0,1,0,1], vec![1,0,1,1,0], vec![1,0,0,0,0]];
    let cipher = MiMC::with_round_constants(5, &round_constants).unwrap();
    // Plaintext 15, key 29, ciphertext 7
    assert_eq!(cipher.encrypt(&vec![0,1,1,1,1], &vec![1,1,1,0,1]).unwrap(), vec![0,0,1,1,1]);
}

#[test]
fn mimc_decrypt_small() {
    // 0, 5, 22, 16
    let round_constants = vec![vec![0;5], vec![0,0,1,0,1], vec![1,0,1,1,0], vec![1,0,0,0,0]];
    let cipher = MiMC::with_round_constants(5, &round_constants).unwrap();
    // Ciphertext 7, key 29, ciphertext 15
    assert_eq!(cipher.decrypt(&vec![0,0,1,1,1], &vec![1,1,1,0,1]).unwrap(), vec![0,1,1,1,1]);
}

#[test]
fn encrypt_big() {
    // 0, 95538, 91070, 126210, 32213, 108263, 108425, 32325, 51166, 52563, 123364
    let round_constants = vec![vec![0;17], to_binary(95538, 17),
                               to_binary(91070, 17), to_binary(126210, 17),
                               to_binary(32213, 17), to_binary(108263, 17),
                               to_binary(108425, 17), to_binary(32325, 17),
                               to_binary(51166, 17), to_binary(52563, 17),
                               to_binary(123364, 17)];
    let cipher = MiMC::with_round_constants(17, &round_constants).unwrap();
    // Plaintext 29321, key 17597, ciphertext 77574
    assert_eq!(cipher.encrypt(&to_binary(29321, 17), &to_binary(17597, 17)).unwrap(), to_binary(77574, 17));
}

#[test]
fn decrypt_big() {
    // 0, 95538, 91070, 126210, 32213, 108263, 108425, 32325, 51166, 52563, 123364
    let round_constants = vec![vec![0;17], to_binary(95538, 17),
                               to_binary(91070, 17), to_binary(126210, 17),
                               to_binary(32213, 17), to_binary(108263, 17),
                               to_binary(108425, 17), to_binary(32325, 17),
                               to_binary(51166, 17), to_binary(52563, 17),
                               to_binary(123364, 17)];
    let cipher = MiMC::with_round_constants(17, &round_constants).unwrap();
    // Plaintext 29321, key 17597, ciphertext 77574
    assert_eq!(cipher.decrypt(&to_binary(77574, 17), &to_binary(17597, 17)).unwrap(), to_binary(29321, 17));
}

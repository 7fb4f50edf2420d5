use libenigma::cipher::{Cipher, CipherError, Decode, Encode};
use libenigma::common::Character;

#[test]
fn cipher_codec() {
    let cipher = Cipher::from_str("EKMFLGDQVZNTOWYHXUSPAIBRCJ").unwrap();
    ('A'..='Z')
        .into_iter()
        .map(|c| Character::try_from(c).unwrap())
        .for_each(|c| {
            let ciphertext = cipher.encode(c);
            let plaintext = cipher.decode(ciphertext);
            assert_eq!(c, plaintext)
        })
}

#[test]
fn length_too_small() {
    match Cipher::from_str("AZ") {
        Ok(_) => {
            panic!("Should not be able to construct cipher less than 26 chacaters in length")
        }
        Err(_) => (),
    }
}

#[test]
fn length_too_big() {
    match Cipher::from_str("ZYXWVUTSRQPONMLKJIHGFEDCBAA") {
        Ok(_) => {
            panic!("Should not be able to construct cipher greater than 26 chacaters in length")
        }
        Err(_) => (),
    }
}

#[test]
fn no_duplicates() {
    match Cipher::from_str("AAAAAAAAAAAAAAAAAAAAAAAAAA") {
        Ok(_) => panic!("Cipher should contain unique characters"),
        Err(_) => (),
    }
}

#[test]
fn only_alphabetics() {
    match Cipher::from_str("1234567890*+-;'!@#$%^&*()_") {
        Ok(_) => {
            panic!("Should not be able to construct cipher with non-alphabetic characters")
        }
        Err(_) => (),
    }
}

#[test]
fn cipher_errors_are_distinct() {
    assert_eq!(Cipher::from_str("ZYXWVUTSRQPONMLKJIHGFEDCB").err(), Some(CipherError::TooFew(25)));
    assert_eq!(Cipher::from_str("ZYXWVUTSRQPONMLKJIHGFEDCBAA").err(), Some(CipherError::TooMany(27)));
    assert_eq!(Cipher::from_str("AAAAAAAAAAAAAAAAAAAAAAAAAA").err(), Some(CipherError::Unique));
    assert_eq!(Cipher::from_str("ABC1EFGHIJKLMNOPQRSTUVWX-Z").err(), Some(CipherError::Charset('1')));
    assert_eq!(Cipher::from_str("").err(), Some(CipherError::TooFew(0)));
}

#[test]
fn cipher_substitutes_and_inverts() {
    let cipher = Cipher::from_str("ekmflgdqvzntowyhxuspaibrcj").unwrap();
    let a = Character::try_from('A').unwrap();
    let b = Character::try_from('B').unwrap();
    assert_eq!(cipher.encode(a).to_char(), 'E');
    assert_eq!(cipher.encode(b).to_char(), 'K');
    assert_eq!(cipher.decode(a).to_char(), 'U');
    assert_eq!(cipher.decode(Character::try_from('J').unwrap()).to_char(), 'Z');
}

#[test]
fn cipher_from_characters() {
    let letters: Vec<Character> = "ZYXWVUTSRQPONMLKJIHGFEDCBA"
        .chars()
        .map(|c| Character::try_from(c).unwrap())
        .collect();
    let cipher = Cipher::try_from(letters).unwrap();
    assert_eq!(cipher.encode(Character::try_from('C').unwrap()).to_char(), 'X');
    let mut repeated: Vec<Character> = "ZYXWVUTSRQPONMLKJIHGFEDCBA"
        .chars()
        .map(|c| Character::try_from(c).unwrap())
        .collect();
    repeated[3] = Character::try_from('Z').unwrap();
    assert_eq!(Cipher::try_from(repeated).err(), Some(CipherError::Unique));
}

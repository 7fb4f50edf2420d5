use libenigma::cipher::{CipherError, Encode};
use libenigma::common::Character;
use libenigma::reflector::{Reflector, ReflectorError, Reflectors};

#[test]
fn construct_a() {
    let _ = Reflector::from(Reflectors::A);
}

#[test]
fn construct_b() {
    let _ = Reflector::from(Reflectors::B);
}

#[test]
fn construct_c() {
    let _ = Reflector::from(Reflectors::C);
}

#[test]
fn reflector_codec() {
    let reflector = Reflector::from(Reflectors::A);

    ('A'..='Z')
        .into_iter()
        .map(|c| Character::try_from(c).unwrap())
        .for_each(|c| {
            let ciphertext = reflector.encode(c);
            let plaintext = reflector.encode(ciphertext);

            assert_eq!(c, plaintext)
        })
}

#[test]
fn catalog_reflectors_have_no_fixed_point() {
    for r in [Reflectors::A, Reflectors::B, Reflectors::C] {
        let reflector = Reflector::from(r);
        for c in 'A'..='Z' {
            let c = Character::try_from(c).unwrap();
            let once = reflector.encode(c);
            assert_ne!(once, c);
            assert_eq!(reflector.encode(once), c);
        }
    }
    let b = Reflector::from(Reflectors::B);
    assert_eq!(b.encode(Character::try_from('A').unwrap()).to_char(), 'Y');
}

#[test]
fn reflector_with_fixed_point_is_refused() {
    // An involution that keeps Z in place.
    assert_eq!(
        Reflector::new("BADCFEHGJILKNMPORQTSVUXWYZ").err(),
        Some(ReflectorError::Reflectivity)
    );
    // A bijection that is not an involution.
    assert_eq!(
        Reflector::new("BCDEFGHIJKLMNOPQRSTUVWXYZA").err(),
        Some(ReflectorError::Reflectivity)
    );
    assert_eq!(
        Reflector::new("BADC").err(),
        Some(ReflectorError::Cipher(CipherError::TooFew(4)))
    );
    assert!(Reflector::new("BADCFEHGJILKNMPORQTSVUXWZY").is_ok());
}

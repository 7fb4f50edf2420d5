use libenigma::cipher::{Cipher, Encode};
use libenigma::common::{Character, ParsingError, Position};
use libenigma::rotor::{Rotor, RotorConfig, RotorError, Rotors};

#[test]
fn rotorconfig_codec() {
    let _r = || Rotor::new("ABCDEFGHIJKLMNOPQRSTUVWXYZ", &['A'], 'A').unwrap();

    let rc =
        RotorConfig::try_from([(Rotors::I, 'B'), (Rotors::IV, 'N'), (Rotors::III, 'X')]).unwrap();

    let a = Character::try_from('A').unwrap();

    let t = |n: usize| {
        let ct = rc.encode_at(a, n);
        let pt = rc.decode_at(ct, n);
        assert_eq!(a, pt)
    };

    t(1);
    t(26);
    t(53);
    t(1_000_000);
}

#[test]
fn num_advances() {
    let r = Rotor::new("ABCDEFGHIJKLMNOPQRSTUVWXYZ", &['A'], 'A').unwrap();

    {
        let advances_lt_1_rot = r.get_num_advances(1);
        assert_eq!(1, advances_lt_1_rot);
    }

    {
        let advances_eq_1_rot = r.get_num_advances(26);
        assert_eq!(advances_eq_1_rot, 2)
    }

    {
        let advances_gt_1_rot = r.get_num_advances(53);
        assert_eq!(advances_gt_1_rot, 4)
    }
}

#[test]
fn construct_i() {
    let _ = Rotor::try_from((Rotors::I, 'A'));
}

#[test]
fn construct_ii() {
    let _ = Rotor::try_from((Rotors::II, 'A'));
}

#[test]
fn construct_iii() {
    let _ = Rotor::try_from((Rotors::III, 'A'));
}

#[test]
fn construct_iv() {
    let _ = Rotor::try_from((Rotors::IV, 'A'));
}

#[test]
fn construct_v() {
    let _ = Rotor::try_from((Rotors::V, 'A'));
}

#[test]
fn construct_vi() {
    let _ = Rotor::try_from((Rotors::VI, 'A'));
}

#[test]
fn construct_vii() {
    let _ = Rotor::try_from((Rotors::VII, 'A'));
}

#[test]
fn construct_viii() {
    let _ = Rotor::try_from((Rotors::VIII, 'A'));
}

#[test]
fn construct_all_positions() {
    ('A'..='Z').into_iter().for_each(|c| {
        let _ = Rotor::try_from((Rotors::I, c));
    })
}

#[test]
fn rotor_codec() {
    let _r = Rotor::new("ABCDEFGHIJKLMNOPQRSTUVWXYZ", &['A'], 'B').unwrap();

    let r = Rotor::try_from((Rotors::I, 'B')).unwrap();
    (0..=1000).into_iter().for_each(|n| {
        ('A'..='Z')
            .into_iter()
            .map(|c| Character::try_from(c).unwrap())
            .for_each(|plaintext| {
                let ciphertext = r.encode_at(plaintext, n);
                let res = r.decode_at(ciphertext, n);

                println!("{n}: {}-{}-{}", plaintext.to_char(), ciphertext.to_char(), res.to_char());

                assert_eq!(plaintext, res);
            });
    })
}

#[test]
fn every_catalog_rotor_builds() {
    for v in [
        Rotors::I,
        Rotors::II,
        Rotors::III,
        Rotors::IV,
        Rotors::V,
        Rotors::VI,
        Rotors::VII,
        Rotors::VIII,
    ] {
        for p in 'A'..='Z' {
            assert!(Rotor::try_from((v, p)).is_ok());
        }
    }
    assert_eq!(
        Rotor::try_from((Rotors::II, '7')).err(),
        Some(RotorError::Position(ParsingError::Charset('7')))
    );
}

#[test]
fn stepping_matches_one_step_at_a_time() {
    let rotor = Rotor::try_from((Rotors::I, 'B')).unwrap();
    let wiring = Cipher::from_str("EKMFLGDQVZNTOWYHXUSPAIBRCJ").unwrap();
    for c in 'A'..='Z' {
        let c = Character::try_from(c).unwrap();
        let mut position = Position::from_letter('B').unwrap();
        for n in 0..=1000usize {
            let naive = wiring.encode(c + position);
            assert_eq!(rotor.encode_at(c, n), naive);
            position.advance();
        }
    }
}

#[test]
fn advances_of_a_catalog_rotor() {
    let r = Rotor::try_from((Rotors::I, 'B')).unwrap();
    let got: Vec<usize> = [0, 1, 25, 26, 27, 52, 53, 1000]
        .iter()
        .map(|n| r.get_num_advances(*n))
        .collect();
    assert_eq!(got, vec![1, 1, 1, 2, 2, 3, 3, 39]);
}

#[test]
fn notch_one_step_past_base() {
    let r = Rotor::new("ABCDEFGHIJKLMNOPQRSTUVWXYZ", &['B'], 'A').unwrap();
    let got: Vec<usize> = [0, 1, 2, 25, 26, 27, 28, 52, 53, 54]
        .iter()
        .map(|n| r.get_num_advances(*n))
        .collect();
    assert_eq!(got, vec![1, 1, 1, 1, 2, 2, 3, 3, 3, 4]);
}

#[test]
fn rotor_errors_are_distinct() {
    assert_eq!(
        Rotor::new("ABCDEFGHIJKLMNOPQRSTUVWXY", &['A'], 'A').err(),
        Some(RotorError::Cipher(libenigma::cipher::CipherError::TooFew(25)))
    );
    assert_eq!(
        Rotor::new("ABCDEFGHIJKLMNOPQRSTUVWXYZ", &['A', '%'], 'A').err(),
        Some(RotorError::Notch(ParsingError::Charset('%')))
    );
    assert_eq!(
        Rotor::new("ABCDEFGHIJKLMNOPQRSTUVWXYZ", &['M', 'm'], 'A').err(),
        Some(RotorError::RepeatedNotch)
    );
    assert_eq!(
        Rotor::new("ABCDEFGHIJKLMNOPQRSTUVWXYZ", &['M'], '?').err(),
        Some(RotorError::Position(ParsingError::Charset('?')))
    );
}

#[test]
fn same_rotor_twice_is_refused() {
    assert_eq!(
        RotorConfig::try_from([(Rotors::I, 'A'), (Rotors::II, 'X'), (Rotors::I, 'N')]).err(),
        Some(RotorError::RotorCount)
    );
    assert_eq!(
        RotorConfig::try_from([(Rotors::I, 'A'), (Rotors::II, '1'), (Rotors::IV, 'N')]).err(),
        Some(RotorError::Position(ParsingError::Charset('1')))
    );
}

#[test]
fn rotor_shifts_by_position() {
    let r = Rotor::new("ABCDEFGHIJKLMNOPQRSTUVWXYZ", &['A'], 'C').unwrap();
    let a = Character::try_from('A').unwrap();
    assert_eq!(r.encode_at(a, 0).to_char(), 'C');
    assert_eq!(r.encode_at(a, 24).to_char(), 'A');
    assert_eq!(r.decode_at(a, 1).to_char(), 'X');
}

#[test]
fn chain_with_notch_one_step_past_base() {
    // Rotor I has its notch at Q; starting at P puts it one step ahead.
    let first = Rotor::try_from((Rotors::I, 'P')).unwrap();
    let got: Vec<usize> = [0, 1, 26, 42, 43].iter().map(|n| first.get_num_advances(*n)).collect();
    assert_eq!(got, vec![1, 1, 2, 2, 3]);
    let rc = RotorConfig::try_from([(Rotors::I, 'P'), (Rotors::II, 'A'), (Rotors::III, 'A')]).unwrap();
    for n in [0usize, 1, 26, 42, 43, 500] {
        for c in 'A'..='Z' {
            let c = Character::try_from(c).unwrap();
            assert_eq!(rc.decode_at(rc.encode_at(c, n), n), c);
        }
    }
}

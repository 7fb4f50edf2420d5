use libenigma::common::{Character, ParsingError};
use libenigma::config::{Config, ConfigError};
use libenigma::enigma::Enigma;
use libenigma::plugboard::{PlugboardError, Plugboard, Plugs};
use libenigma::reflector::Reflectors;
use libenigma::rotor::{RotorConfig, RotorError, Rotors};

fn construct_enigma() -> Enigma {
    let rotors: RotorConfig =
        RotorConfig::try_from([(Rotors::I, 'A'), (Rotors::II, 'X'), (Rotors::IV, 'N')]).unwrap();
    let plugs = Plugs::try_from(vec![]).unwrap();
    let plugboard: Plugboard = Plugboard::try_from(plugs).unwrap();
    let reflector: Reflectors = Reflectors::B;

    Enigma::new(rotors, plugboard, reflector)
}

fn config(plugs: Vec<(char, char)>) -> Config {
    Config {
        reflector: Reflectors::C,
        rotors: [(Rotors::III, 'Q'), (Rotors::VI, 'e'), (Rotors::VIII, 'Z')],
        plugs,
    }
}

#[test]
fn enigma_codec() {
    let e = construct_enigma();
    (0..1000).into_iter().for_each(|n| {
        ('A'..='Z')
            .into_iter()
            .map(|c| Character::try_from(c).unwrap())
            .for_each(|c| {
                let ct = e.encode_at(c, n);
                let pt = e.encode_at(ct, n);
                assert_eq!(pt, c)
            })
    })
}

#[test]
fn codec_string() {
    let plaintext = String::from("THE QUICK BROWN FOX JUMPED OVER THE LAZY DOG");
    let e = construct_enigma();

    let ciphertext = e.encode(&plaintext);
    let result = e.encode(&ciphertext);

    assert_eq!(plaintext, result)
}

#[test]
fn known_ciphertext() {
    let e = construct_enigma();
    let plaintext = String::from("THE QUICK BROWN FOX JUMPED OVER THE LAZY DOG");
    assert_eq!(e.encode(&plaintext), "ELZ SEZSU NHYMS AXG TDQLUT MCPK SOT EIHG SHC");
    assert_eq!(e.encode(&String::from("AAAAAAAAAA")), "KFQKPJVKEQ");
}

#[test]
fn mixed_case_and_punctuation() {
    let e = construct_enigma();
    let out = e.encode(&String::from("Hello, World!"));
    assert_eq!(out, "RNBCY, GMBGU!");
    assert_eq!(e.encode(&String::from("12 é ß")), "12 é ß");
    assert_eq!(e.encode(&String::new()), "");
}

#[test]
fn never_encodes_a_letter_to_itself() {
    let e = construct_enigma();
    for n in [0usize, 1, 25, 26, 675, 676, 17_576, 1_000_000] {
        for c in 'A'..='Z' {
            let c = Character::try_from(c).unwrap();
            assert_ne!(e.encode_at(c, n), c);
        }
    }
}

#[test]
fn all_letter_round_trip() {
    let e = construct_enigma();
    let plaintext: String = (0..5000).map(|i| (b'A' + (i * 7 % 26) as u8) as char).collect();
    let ciphertext = e.encode(&plaintext);
    assert_ne!(ciphertext, plaintext);
    assert_eq!(e.encode(&ciphertext), plaintext);
}

#[test]
fn parallel_matches_sequential() {
    let e = construct_enigma();
    let plaintext: String = (0..120_000usize)
        .map(|i| if i % 11 == 10 { ' ' } else { (b'A' + ((i * 31 + i / 26) % 26) as u8) as char })
        .collect();
    let parallel = e.encode(&plaintext);
    let sequential = e.encode_sequential(&plaintext);
    assert_eq!(parallel.len(), plaintext.len());
    assert_eq!(parallel, sequential);
}

#[test]
fn machine_from_config() {
    let e = Enigma::try_from(config(vec![('A', 'M'), ('f', 'T')])).unwrap();
    let plaintext = String::from("ATTACK AT DAWN");
    let ciphertext = e.encode(&plaintext);
    assert_ne!(ciphertext, plaintext);
    assert_eq!(e.encode(&ciphertext), plaintext);
}

#[test]
fn config_errors_are_distinct() {
    let mut repeated = config(vec![]);
    repeated.rotors = [(Rotors::III, 'Q'), (Rotors::III, 'E'), (Rotors::VIII, 'Z')];
    assert_eq!(
        Enigma::try_from(repeated).err(),
        Some(ConfigError::Rotor(RotorError::RotorCount))
    );
    assert_eq!(
        Enigma::try_from(config(vec![('A', '3')])).err(),
        Some(ConfigError::Character(ParsingError::Charset('3')))
    );
    assert_eq!(
        Enigma::try_from(config(vec![('A', 'a')])).err(),
        Some(ConfigError::Plug(PlugboardError::Duplicate))
    );
    assert_eq!(
        Enigma::try_from(config(vec![('A', 'B'), ('B', 'C')])).err(),
        Some(ConfigError::Plug(PlugboardError::Mapping))
    );
    let eleven: Vec<(char, char)> = "ABCDEFGHIJKLMNOPQRSTUV"
        .chars()
        .collect::<Vec<char>>()
        .chunks(2)
        .map(|p| (p[0], p[1]))
        .collect();
    assert_eq!(
        Enigma::try_from(config(eleven)).err(),
        Some(ConfigError::Plug(PlugboardError::TooMany(11)))
    );
}

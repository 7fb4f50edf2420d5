use libenigma::common::{Character, ParsingError, Position};

#[test]
fn construct_uppercase() {
    ('A'..='Z').into_iter().for_each(|c| {
        Character::try_from(c).unwrap();
    })
}

#[test]
fn construct_lowercase() {
    ('a'..='z').into_iter().for_each(|c| {
        Character::try_from(c).unwrap();
    })
}

#[test]
fn add_position() {
    ('A'..='Z')
        .into_iter()
        .map(|c| Character::try_from(c).unwrap())
        .for_each(|c| {
            (0..25)
                .into_iter()
                .map(|n| Position::try_from(n).unwrap())
                .for_each(|n| {
                    let _ = c + n;
                })
        })
}

#[test]
fn sub_position() {
    let chars: Vec<Character> = ('A'..='Z')
        .into_iter()
        .map(|c| Character::try_from(c).unwrap())
        .collect();

    let positions: Vec<Position> = (0..=25)
        .into_iter()
        .map(|n| Position::try_from(n).unwrap())
        .collect();

    let expected_val = |c: isize, n: isize| -> usize {
        if c >= n {
            (c - n).try_into().unwrap()
        } else {
            (26 + c - n).try_into().unwrap()
        }
    };

    let t = |c: char, n: isize| {
        let c: isize = (c as u8 - b'A').into();
        let r: Character = chars[c as usize] - positions[n as usize];
        let i = expected_val(c, n);
        println!("{c} {} {i}", r.to_char());
        assert_eq!(r, chars[i])
    };

    (0..=25)
        .into_iter()
        .for_each(|n| ('A'..='Z').into_iter().for_each(|c| t(c, n)))
}

#[test]
fn ca_pz_spot_test() {
    let p = Position::try_from(25).unwrap();
    let c = Character::try_from('A').unwrap();
    assert!(c + p == Character::try_from('Z').unwrap())
}

#[test]
fn cb_pz_bound_wrap() {
    let p = Position::try_from(25).unwrap();
    let c = Character::try_from('B').unwrap();
    assert!(c + p == Character::try_from('A').unwrap())
}

#[test]
fn construct_0_25() {
    (0..=25).into_iter().for_each(|n| {
        Position::try_from(n).unwrap();
    })
}

#[test]
fn too_large() {
    match Position::try_from(26) {
        Ok(_) => panic!("Should not be able to construct position larger than 25"),
        Err(_) => (),
    }
}

#[test]
fn add() {
    (0..25).into_iter().for_each(|n| {
        let p = Position::try_from(n).unwrap();
        let r = p + 1;
        assert!(r == Position::try_from(n + 1).unwrap())
    })
}

#[test]
fn add_wrap() {
    let p = Position::try_from(25).unwrap();
    let r = p + 1;
    assert!(r == Position::try_from(0).unwrap())
}

#[test]
fn lowercase_becomes_uppercase() {
    let c = Character::try_from('q').unwrap();
    assert_eq!(c.to_char(), 'Q');
    assert_eq!(c.get_offset(), 16);
    assert_eq!(c.to_string(), "Q");
}

#[test]
fn non_letters_are_refused() {
    assert_eq!(Character::try_from('1'), Err(ParsingError::Charset('1')));
    assert_eq!(Character::try_from('é'), Err(ParsingError::Charset('é')));
    assert_eq!(Position::try_from(200), Err(ParsingError::InvalidPosition(200)));
    assert_eq!(Position::from_letter('*'), Err(ParsingError::Charset('*')));
    assert_eq!(Position::from_letter('c').unwrap().get_offset(), 2);
}

#[test]
fn add_large_offset() {
    let p = Position::try_from(3).unwrap();
    let r = p + usize::MAX;
    assert_eq!(r.get_offset() as usize, (3 + usize::MAX % 26) % 26);
    let q = Position::try_from(20).unwrap() + 32;
    assert_eq!(q.get_offset(), 0);
}

#[test]
fn advance_wraps() {
    let mut p = Position::try_from(24).unwrap();
    p.advance();
    assert_eq!(p.get_offset(), 25);
    p.advance();
    assert_eq!(p.get_offset(), 0);
}

#[test]
fn character_plus_position() {
    let c = Character::try_from('X').unwrap();
    assert_eq!((c + Position::try_from(5).unwrap()).to_char(), 'C');
    assert_eq!((c - Position::try_from(25).unwrap()).to_char(), 'Y');
}

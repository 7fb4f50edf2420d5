use itertools::Itertools;
use vstd::prelude::*;
use vstd::std_specs::iter::IteratorSpec;
use vstd::arithmetic::div_mod::lemma_add_mod_noop;
use vstd::set_lib::{lemma_int_range, lemma_len_subset, lemma_map_size, lemma_subset_equality, set_int_range};

verus! {

/// One letter of the machine's alphabet, always upper case.
#[derive(PartialEq, Eq, Structural, Clone, Copy, Debug, Hash)]
pub struct Character(char);

/// A displacement of a rotor, 0 to 25.
#[derive(PartialEq, Eq, Structural, Clone, Copy, Debug, Hash)]
pub struct Position(u8);

/// Why a character or a number is not a letter or a position.
#[derive(PartialEq, Eq, Structural, Clone, Copy, Debug)]
pub enum ParsingError {
    Charset(char),
    InvalidPosition(usize),
}

/// A letter of either case.
pub open spec fn is_letter(c: char) -> bool {
    ('A' <= c && c <= 'Z') || ('a' <= c && c <= 'z')
}

/// The place of a letter in the alphabet, case ignored.
pub open spec fn letter_index(c: char) -> int {
    if 'a' <= c && c <= 'z' {
        c as int - 'a' as int
    } else {
        c as int - 'A' as int
    }
}

/// The upper-case letter at a place of the alphabet.
pub open spec fn letter_of(i: int) -> char {
    (i + 'A' as int) as char
}

impl Character {
    /// The character's place in the alphabet: 0 for `A`, 25 for `Z`.
    pub closed spec fn index(self) -> int {
        self.0 as int - 'A' as int
    }

    pub open spec fn wf(self) -> bool {
        0 <= self.index() < 26
    }

    pub closed spec fn from_index(i: int) -> Character {
        Character(letter_of(i))
    }

    pub broadcast proof fn lemma_from_index(i: int)
        requires
            0 <= i < 26,
        ensures
            #[trigger] Character::from_index(i).index() == i,
    {
    }

    /// Two characters are equal when they stand at the same place.
    pub broadcast proof fn lemma_index_injective(a: Character, b: Character)
        ensures
            #[trigger] a.index() == #[trigger] b.index() ==> a == b,
    {
    }

    /// Builds the character at place `offset` of the alphabet.
    pub fn from_offset(offset: u8) -> (r: Character)
        requires
            offset < 26,
        ensures
            r.wf(),
            r.index() == offset,
    {
        Character((offset + 65u8) as char)
    }

    /// Accepts a letter of either case and keeps it upper case.
    pub fn try_from(value: char) -> (r: Result<Character, ParsingError>)
        ensures
            r is Ok <==> is_letter(value),
            r matches Ok(c) ==> c.wf() && c.index() == letter_index(value),
            r matches Err(e) ==> e == ParsingError::Charset(value),
    {
        if 'A' <= value && value <= 'Z' {
            Ok(Character(value))
        } else if 'a' <= value && value <= 'z' {
            let upper: u8 = (value as u8) - 32;
            Ok(Character(upper as char))
        } else {
            Err(ParsingError::Charset(value))
        }
    }

    pub fn get_offset(&self) -> (r: u8)
        requires
            self.wf(),
        ensures
            r as int == self.index(),
    {
        (self.0 as u8) - 65u8
    }

    /// The upper-case letter this character stands for.
    pub fn to_char(self) -> (r: char)
        requires
            self.wf(),
        ensures
            r == letter_of(self.index()),
            is_letter(r),
            letter_index(r) == self.index(),
    {
        self.0
    }

    pub fn to_string(&self) -> (r: String)
        requires
            self.wf(),
        ensures
            r@ == seq![letter_of(self.index())],
    {
        char_to_string(self.0)
    }
}

/// Relies on `char::to_string`: a string of the one character.
#[verifier::external_body]
fn char_to_string(c: char) -> (r: String)
    ensures
        r@ == seq![c],
{
    c.to_string()
}

impl Position {
    pub closed spec fn index(self) -> int {
        self.0 as int
    }

    pub open spec fn wf(self) -> bool {
        0 <= self.index() < 26
    }

    pub closed spec fn from_index(i: int) -> Position {
        Position(i as u8)
    }

    pub broadcast proof fn lemma_from_index(i: int)
        requires
            0 <= i < 26,
        ensures
            #[trigger] Position::from_index(i).index() == i,
    {
    }

    pub broadcast proof fn lemma_index_nonneg(p: Position)
        ensures
            0 <= #[trigger] p.index(),
    {
    }

    pub fn try_from(value: u8) -> (r: Result<Position, ParsingError>)
        ensures
            r is Ok <==> value < 26,
            r matches Ok(p) ==> p.wf() && p.index() == value,
            r matches Err(e) ==> e == ParsingError::InvalidPosition(value as usize),
    {
        if value < 26 {
            Ok(Position(value))
        } else {
            Err(ParsingError::InvalidPosition(value as usize))
        }
    }

    /// Reads a position written as a letter of either case: `A` is 0.
    pub fn from_letter(value: char) -> (r: Result<Position, ParsingError>)
        ensures
            r is Ok <==> is_letter(value),
            r matches Ok(p) ==> p.wf() && p.index() == letter_index(value),
            r matches Err(e) ==> e == ParsingError::Charset(value),
    {
        match Character::try_from(value) {
            Ok(c) => Ok(Position(c.get_offset())),
            Err(e) => Err(e),
        }
    }

    pub fn get_offset(&self) -> (r: u8)
        ensures
            r as int == self.index(),
    {
        self.0
    }

    /// Turns the position one step on, from 25 back to 0.
    pub fn advance(&mut self)
        requires
            old(self).wf(),
        ensures
            final(self).wf(),
            final(self).index() == (old(self).index() + 1) % 26,
    {
        if self.0 >= 25 {
            self.0 = 0;
        } else {
            self.0 = self.0 + 1;
        }
    }
}

impl core::ops::Add<usize> for Position {
    type Output = Position;

    fn add(self, rhs: usize) -> (r: Position) {
        proof {
            lemma_add_mod_noop(self.0 as int, rhs as int, 26);
        }
        let offset: usize = (self.0 as usize % 26 + rhs % 26) % 26;
        Position(offset as u8)
    }
}

impl vstd::std_specs::ops::AddSpecImpl<usize> for Position {
    open spec fn obeys_add_spec() -> bool {
        true
    }

    open spec fn add_req(self, rhs: usize) -> bool {
        true
    }

    open spec fn add_spec(self, rhs: usize) -> Position {
        Position::from_index((self.index() + rhs) % 26)
    }
}

impl core::ops::Add<Position> for Character {
    type Output = Character;

    fn add(self, rhs: Position) -> (r: Character) {
        let offset: u8 = (rhs.0 % 26 + self.get_offset()) % 26;
        Character::from_offset(offset)
    }
}

impl vstd::std_specs::ops::AddSpecImpl<Position> for Character {
    open spec fn obeys_add_spec() -> bool {
        true
    }

    open spec fn add_req(self, rhs: Position) -> bool {
        self.wf()
    }

    open spec fn add_spec(self, rhs: Position) -> Character {
        Character::from_index((self.index() + rhs.index()) % 26)
    }
}

impl core::ops::Sub<Position> for Character {
    type Output = Character;

    fn sub(self, rhs: Position) -> (r: Character) {
        let c: u8 = self.get_offset();
        let p: u8 = rhs.0 % 26;
        if c >= p {
            Character::from_offset(c - p)
        } else {
            Character::from_offset(26 - p + c)
        }
    }
}

impl vstd::std_specs::ops::SubSpecImpl<Position> for Character {
    open spec fn obeys_sub_spec() -> bool {
        true
    }

    open spec fn sub_req(self, rhs: Position) -> bool {
        self.wf()
    }

    open spec fn sub_spec(self, rhs: Position) -> Character {
        Character::from_index((self.index() - rhs.index()) % 26)
    }
}

} // verus!

verus! {

/// Relies on `Itertools::unique` of itertools, which yields each distinct value
/// once: the count is the number of distinct values.
#[verifier::external_body]
pub(crate) fn count_distinct(values: &Vec<u8>) -> (r: usize)
    ensures
        r == values@.to_set().len(),
{
    values.iter().unique().count()
}

/// The characters of a string, in order.
pub(crate) fn chars_of(s: &str) -> (r: Vec<char>)
    ensures
        r@ == s@,
{
    broadcast use {vstd::string::axiom_spec_iter, vstd::string::next_postcondition};

    let mut it = s.chars();
    let mut out: Vec<char> = Vec::new();
    loop
        invariant
            out@ + it.remaining() == s@,
            it.obeys_prophetic_iter_laws(),
            it.decrease() is Some,
        ensures
            out@ == s@,
        decreases it.decrease()->0,
    {
        match it.next() {
            Some(c) => out.push(c),
            None => {
                assert(out@ =~= out@ + it.remaining());
                break;
            },
        }
    }
    out
}

/// Relies on collecting `char`s into a `String`: the characters in order.
#[verifier::external_body]
pub(crate) fn string_of(chars: &Vec<char>) -> (r: String)
    ensures
        r@ == chars@,
{
    chars.iter().collect()
}

/// The distinct values of a sequence whose values are all below `bound` number
/// at most `bound`; with exactly `bound` distinct values every one below
/// `bound` occurs.
pub proof fn lemma_distinct_below(s: Seq<u8>, bound: int)
    requires
        0 <= bound <= 256,
        forall|i: int| 0 <= i < s.len() ==> (#[trigger] s[i] as int) < bound,
    ensures
        s.to_set().len() <= bound,
        s.to_set().len() == bound ==> forall|x: u8| (x as int) < bound ==> #[trigger] s.contains(x),
{
    let r = Set::new(|x: u8| (x as int) < bound);
    let f = |x: u8| x as int;
    let ints = set_int_range(0, bound);
    lemma_int_range(0, bound);
    assert(r.map(f) =~= ints) by {
        assert forall|j: int| ints.contains(j) implies r.map(f).contains(j) by {
            assert(r.contains(j as u8));
            assert(f(j as u8) == j);
        }
    }
    assert(vstd::relations::injective_on(f, r));
    assert(r.finite()) by {
        let g = |j: int| j as u8;
        assert(ints.map(g) =~= r) by {
            assert forall|x: u8| r.contains(x) implies ints.map(g).contains(x) by {
                assert(ints.contains(x as int));
            }
        }
        ints.lemma_map_finite(g);
    }
    lemma_map_size(r, ints, f);
    let set = s.to_set();
    assert(set.subset_of(r));
    lemma_len_subset(set, r);
    if set.len() == bound {
        lemma_subset_equality(set, r);
        assert forall|x: u8| (x as int) < bound implies #[trigger] s.contains(x) by {
            assert(r.contains(x));
            assert(set.contains(x));
        }
    }
}

} // verus!

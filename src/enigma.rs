use crate::cipher::{preimage, Decode, Encode};
use crate::common::{chars_of, is_letter, letter_index, letter_of, string_of, Character};
use crate::plugboard::Plugboard;
use crate::reflector::{lemma_reflector, Reflector, Reflectors};
use crate::rotor::{lemma_chain_round_trip, RotorConfig, MAX_INDEX};
use rayon::iter::{IndexedParallelIterator, IntoParallelRefIterator, ParallelIterator};
use vstd::prelude::*;

verus! {

broadcast use {Character::lemma_from_index, Character::lemma_index_injective};

/// The whole machine: plugboard, rotor chain and reflector. It never
/// changes once built; the index of a character in the message says how far
/// the rotors have turned.
pub struct Enigma {
    rotors: RotorConfig,
    plugboard: Plugboard,
    reflector: Reflector,
}

impl Enigma {
    pub closed spec fn rotors(&self) -> RotorConfig {
        self.rotors
    }

    pub closed spec fn plugboard(&self) -> Plugboard {
        self.plugboard
    }

    pub closed spec fn reflector(&self) -> Reflector {
        self.reflector
    }

    pub open spec fn wf(&self) -> bool {
        self.rotors().wf() && self.plugboard().wf() && self.reflector().wf()
    }

    /// The place of the output for the letter at place `c` and index `n`.
    pub open spec fn spec_encode_at(&self, c: int, n: int) -> int {
        let p = self.plugboard();
        let r = self.rotors();
        preimage(p.table(), r.spec_decode_at(self.reflector().table()[r.spec_encode_at(p.table()[c], n)], n))
    }

    /// What the machine makes of one character of a message at index `n`:
    /// a letter of either case is encoded and comes out upper case, anything
    /// else passes through.
    pub open spec fn encode_char(&self, c: char, n: int) -> char {
        if is_letter(c) {
            letter_of(self.spec_encode_at(letter_index(c), n))
        } else {
            c
        }
    }

    /// A whole message, each character encoded at its own index.
    pub open spec fn spec_encode(&self, s: Seq<char>) -> Seq<char> {
        Seq::new(s.len(), |i: int| self.encode_char(s[i], i))
    }

    pub fn new(rotors: RotorConfig, plugboard: Plugboard, reflector: Reflectors) -> (e: Enigma)
        requires
            rotors.wf(),
            plugboard.wf(),
        ensures
            e.wf(),
            e.rotors() == rotors,
            e.plugboard() == plugboard,
            e.reflector().table() == crate::cipher::table_of(reflector.spec_wiring()),
    {
        let reflector = Reflector::from(reflector);
        Enigma { rotors, plugboard, reflector }
    }

    /// Encodes one letter as the machine would after `n` key presses.
    pub fn encode_at(&self, c: Character, n: usize) -> (r: Character)
        requires
            self.wf(),
            c.wf(),
            n <= MAX_INDEX,
        ensures
            r.wf(),
            r.index() == self.spec_encode_at(c.index(), n as int),
    {
        let plugboard_enc = self.plugboard.encode(c);
        let rotor_enc = self.rotors.encode_at(plugboard_enc, n);
        let reflector_enc = self.reflector.encode(rotor_enc);
        let rotor_dec = self.rotors.decode_at(reflector_enc, n);
        self.plugboard.decode(rotor_dec)
    }

    /// Encodes the character at index `n` of a message.
    pub fn encode_char_at(&self, c: char, n: usize) -> (r: char)
        requires
            self.wf(),
            n <= MAX_INDEX,
        ensures
            r == self.encode_char(c, n as int),
    {
        match Character::try_from(c) {
            Ok(plain) => self.encode_at(plain, n).to_char(),
            Err(_) => c,
        }
    }

    /// Encodes a message, its characters shared out among worker threads.
    pub fn encode(&self, s: &String) -> (r: String)
        requires
            self.wf(),
            s@.len() <= MAX_INDEX,
        ensures
            r@ == self.spec_encode(s@),
    {
        let chars = chars_of(s.as_str());
        let out = encode_all_parallel(self, &chars);
        string_of(&out)
    }

    /// Encodes a message one character after another.
    pub fn encode_sequential(&self, s: &String) -> (r: String)
        requires
            self.wf(),
            s@.len() <= MAX_INDEX,
        ensures
            r@ == self.spec_encode(s@),
    {
        let chars = chars_of(s.as_str());
        let mut out: Vec<char> = Vec::new();
        let mut n: usize = 0;
        while n < chars.len()
            invariant
                self.wf(),
                chars@ == s@,
                chars@.len() <= MAX_INDEX,
                n <= chars@.len(),
                out@ == self.spec_encode(chars@).take(n as int),
            decreases chars@.len() - n,
        {
            let c = self.encode_char_at(chars[n], n);
            out.push(c);
            proof {
                assert(out@ =~= self.spec_encode(chars@).take(n + 1));
            }
            n = n + 1;
        }
        proof {
            assert(out@ =~= self.spec_encode(chars@));
        }
        string_of(&out)
    }
}

/// Relies on rayon's indexed parallel iterators: `enumerate` pairs each
/// character with its index, and `collect` into a `Vec` keeps the order of
/// the input, so entry `n` is what `encode_char_at` gives for character `n`.
#[verifier::external_body]
fn encode_all_parallel(e: &Enigma, chars: &Vec<char>) -> (r: Vec<char>)
    requires
        e.wf(),
        chars@.len() <= MAX_INDEX,
    ensures
        r@ == e.spec_encode(chars@),
{
    chars.par_iter().enumerate().map(|(n, c)| e.encode_char_at(*c, n)).collect()
}

/// The machine is reciprocal: at any index, encoding the output gives the
/// input back.
pub proof fn lemma_reciprocal(e: &Enigma, c: int, n: int)
    requires
        e.wf(),
        0 <= c < 26,
    ensures
        0 <= e.spec_encode_at(c, n) < 26,
        e.spec_encode_at(e.spec_encode_at(c, n), n) == c,
{
    let p = e.plugboard();
    let r = e.rotors();
    let f = e.reflector();
    p.lemma_wf();
    let x1 = p.table()[c];
    lemma_chain_round_trip(&r, x1, n);
    let x2 = r.spec_encode_at(x1, n);
    lemma_reflector(&f, x2);
    let x3 = f.table()[x2];
    lemma_chain_round_trip(&r, x3, n);
    let x4 = r.spec_decode_at(x3, n);
    let y = preimage(p.table(), x4);
    assert(p.table()[y] == x4);
    lemma_chain_round_trip(&r, x4, n);
}

/// Encoding a message twice gives it back, when it holds no lower-case letter.
pub proof fn lemma_message_round_trip(e: &Enigma, s: Seq<char>)
    requires
        e.wf(),
        forall|i: int| 0 <= i < s.len() ==> !('a' <= #[trigger] s[i] && s[i] <= 'z'),
    ensures
        e.spec_encode(e.spec_encode(s)) == s,
{
    let once = e.spec_encode(s);
    assert forall|i: int| 0 <= i < s.len() implies #[trigger] e.spec_encode(once)[i] == s[i] by {
        if is_letter(s[i]) {
            let c = letter_index(s[i]);
            lemma_reciprocal(e, c, i);
            let d = e.spec_encode_at(c, i);
            assert(letter_of(d) as int == d + 65);
            assert(is_letter(once[i]));
            assert(letter_index(once[i]) == d);
        }
    }
    assert(e.spec_encode(once) =~= s);
}

} // verus!

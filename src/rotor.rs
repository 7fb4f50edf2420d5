use crate::cipher::{
    all_letters, cipher_error, inverse_checked, lemma_valid_by_inverse, first_non_letter, is_permutation, preimage, table_of, valid_table,
    Cipher, CipherError, Decode, Encode,
};
use crate::common::{
    count_distinct, is_letter, lemma_distinct_below, letter_index, Character, ParsingError,
    Position,
};
use vstd::prelude::*;

verus! {

broadcast use {
    Character::lemma_from_index,
    Character::lemma_index_injective,
    Position::lemma_from_index,
    Position::lemma_index_nonneg,
};

/// The largest message index accepted: up to it, the advance counts of all
/// three rotors fit in a `usize`.
pub const MAX_INDEX: usize = usize::MAX - 128;

/// The offset of a rotor with base position `base` after `n` steps.
pub open spec fn offset_after(base: int, n: int) -> int {
    (base + n) % 26
}

/// The offset of a rotor with base position `base` turned one step at a time, `n` times.
pub open spec fn stepped(base: int, n: nat) -> int
    decreases n,
{
    if n == 0 {
        base
    } else {
        (stepped(base, (n - 1) as nat) + 1) % 26
    }
}

/// How many of the notches stand at or after position `p`.
pub open spec fn count_at_or_after(notches: Seq<int>, p: int) -> int
    decreases notches.len(),
{
    if notches.len() == 0 {
        0
    } else {
        count_at_or_after(notches.drop_last(), p) + if p <= notches.last() {
            1int
        } else {
            0int
        }
    }
}

/// How many of the notches stand before position `p`.
pub open spec fn count_before(notches: Seq<int>, p: int) -> int
    decreases notches.len(),
{
    if notches.len() == 0 {
        0
    } else {
        count_before(notches.drop_last(), p) + if notches.last() < p {
            1int
        } else {
            0int
        }
    }
}

/// How many times the next rotor advances while a rotor with base position
/// `base` and the given notches is stepped `n` times.
pub open spec fn advances(base: int, notches: Seq<int>, n: int) -> int {
    let r = n / 26;
    r * notches.len() + count_at_or_after(notches, base) + if r > 0 {
        count_before(notches, n % 26)
    } else {
        0
    }
}

proof fn lemma_counts_bounded(notches: Seq<int>, p: int)
    ensures
        0 <= count_at_or_after(notches, p) <= notches.len(),
        0 <= count_before(notches, p) <= notches.len(),
    decreases notches.len(),
{
    if notches.len() > 0 {
        lemma_counts_bounded(notches.drop_last(), p);
    }
}

/// The naive model, one step at a time, lands where the closed form says.
pub proof fn lemma_stepped(base: int, n: nat)
    requires
        0 <= base < 26,
    ensures
        stepped(base, n) == offset_after(base, n as int),
    decreases n,
{
    if n > 0 {
        lemma_stepped(base, (n - 1) as nat);
        assert(((base + n - 1) % 26 + 1) % 26 == (base + n) % 26) by {
            vstd::arithmetic::div_mod::lemma_add_mod_noop(base + n - 1, 1, 26);
        }
    }
}

/// Why a rotor or a rotor chain cannot be built. `RotorCount` is for a
/// chain that does not hold three distinct rotors.
#[derive(PartialEq, Eq, Structural, Clone, Copy, Debug)]
pub enum RotorError {
    Cipher(CipherError),
    Notch(ParsingError),
    RepeatedNotch,
    Position(ParsingError),
    RotorCount,
}

/// One rotor: a substitution, the notches at which it carries the next
/// rotor on, and the position it starts from.
pub struct Rotor {
    position: Position,
    cipher: Cipher,
    notches: Vec<Position>,
}

impl Rotor {
    pub closed spec fn base(&self) -> int {
        self.position.index()
    }

    pub closed spec fn table(&self) -> Seq<int> {
        self.cipher@
    }

    pub closed spec fn notches(&self) -> Seq<int> {
        self.notches@.map_values(|p: Position| p.index())
    }

    pub closed spec fn wf(&self) -> bool {
        &&& self.position.wf()
        &&& self.cipher.wf()
        &&& self.notches@.len() <= 26
        &&& forall|k: int| 0 <= k < self.notches@.len() ==> (#[trigger] self.notches@[k]).wf()
    }

    pub proof fn lemma_wf(&self)
        requires
            self.wf(),
        ensures
            0 <= self.base() < 26,
            is_permutation(self.table()),
            self.notches().len() <= 26,
            forall|j: int| 0 <= j < 26 ==> 0 <= #[trigger] preimage(self.table(), j) < 26 && self.table()[preimage(self.table(), j)] == j,
            forall|i: int| 0 <= i < 26 ==> #[trigger] preimage(self.table(), self.table()[i]) == i,
    {
        self.cipher.lemma_permutation();
    }

    /// The place of the output for input place `c` after `n` steps.
    pub open spec fn spec_encode_at(&self, c: int, n: int) -> int {
        self.table()[(c + offset_after(self.base(), n)) % 26]
    }

    /// The place of the input that gives output place `c` after `n` steps.
    pub open spec fn spec_decode_at(&self, c: int, n: int) -> int {
        (preimage(self.table(), c) - offset_after(self.base(), n)) % 26
    }

    pub open spec fn spec_advances(&self, n: int) -> int {
        advances(self.base(), self.notches(), n)
    }

    pub fn encode_at(&self, c: Character, n: usize) -> (r: Character)
        requires
            self.wf(),
            c.wf(),
        ensures
            r.wf(),
            r.index() == self.spec_encode_at(c.index(), n as int),
    {
        let offset: Position = self.position + n;
        self.cipher.encode(c + offset)
    }

    pub fn decode_at(&self, c: Character, n: usize) -> (r: Character)
        requires
            self.wf(),
            c.wf(),
        ensures
            r.wf(),
            r.index() == self.spec_decode_at(c.index(), n as int),
    {
        let offset: Position = self.position + n;
        let dec = self.cipher.decode(c);
        dec - offset
    }

    /// How many times the next rotor advances while this one is stepped `n` times.
    pub fn get_num_advances(&self, n: usize) -> (r: usize)
        requires
            self.wf(),
            n <= usize::MAX - 52,
        ensures
            r == self.spec_advances(n as int),
            r <= n + 52,
    {
        let r: usize = n / 26;
        let base: u8 = self.position.get_offset();
        let last: u8 = (n % 26) as u8;
        let mut left: usize = 0;
        let mut past: usize = 0;
        let mut i: usize = 0;
        while i < self.notches.len()
            invariant
                i <= self.notches@.len(),
                self.notches@.len() <= 26,
                base as int == self.base(),
                last as int == n as int % 26,
                left as int == count_at_or_after(self.notches().take(i as int), base as int),
                past as int == count_before(self.notches().take(i as int), last as int),
                left <= i,
                past <= i,
            decreases self.notches@.len() - i,
        {
            let notch: u8 = self.notches[i].get_offset();
            proof {
                assert(self.notches().take(i + 1).drop_last() =~= self.notches().take(i as int));
            }
            if base <= notch {
                left = left + 1;
            }
            if notch < last {
                past = past + 1;
            }
            i = i + 1;
        }
        proof {
            assert(self.notches().take(self.notches@.len() as int) =~= self.notches());
            assert(r * self.notches@.len() <= n) by (nonlinear_arith)
                requires
                    r == n / 26,
                    self.notches@.len() <= 26,
            ;
        }
        let mut result: usize = r * self.notches.len() + left;
        if r > 0 {
            result = result + past;
        }
        result
    }
}

/// Stepping a rotor with the closed form and stepping it one position at a
/// time give the same substitution.
pub proof fn lemma_step_equivalence(rotor: &Rotor, c: int, n: nat)
    requires
        rotor.wf(),
    ensures
        rotor.spec_encode_at(c, n as int) == rotor.table()[(c + stepped(rotor.base(), n)) % 26],
{
    rotor.lemma_wf();
    lemma_stepped(rotor.base(), n);
}

/// Decoding at the same step undoes encoding, and the other way round.
pub proof fn lemma_rotor_round_trip(rotor: &Rotor, c: int, n: int)
    requires
        rotor.wf(),
        0 <= c < 26,
    ensures
        0 <= rotor.spec_encode_at(c, n) < 26,
        0 <= rotor.spec_decode_at(c, n) < 26,
        rotor.spec_decode_at(rotor.spec_encode_at(c, n), n) == c,
        rotor.spec_encode_at(rotor.spec_decode_at(c, n), n) == c,
{
    rotor.lemma_wf();
    let o = offset_after(rotor.base(), n);
    let i = (c + o) % 26;
    assert(((c + o) % 26 - o) % 26 == c) by {
        vstd::arithmetic::div_mod::lemma_sub_mod_noop(c + o, o, 26);
    }
    let p = preimage(rotor.table(), c);
    assert(((p - o) % 26 + o) % 26 == p) by {
        vstd::arithmetic::div_mod::lemma_add_mod_noop(p - o, o, 26);
    }
}

/// `e` reports the first notch letter of `s` that is not a letter.
pub open spec fn notch_error(s: Seq<char>, e: ParsingError) -> bool {
    match e {
        ParsingError::Charset(x) => first_non_letter(s, x),
        ParsingError::InvalidPosition(_) => false,
    }
}

/// The rotors of the historical machine.
#[derive(PartialEq, Eq, Structural, Clone, Copy, Debug, Hash)]
pub enum Rotors {
    I,
    II,
    III,
    IV,
    V,
    VI,
    VII,
    VIII,
}

impl Rotors {
    /// The rotor's wiring: entry `i` is the substitute for the letter at place `i`.
    pub open spec fn spec_wiring(self) -> Seq<char> {
        match self {
            Rotors::I => "EKMFLGDQVZNTOWYHXUSPAIBRCJ"@,
            Rotors::II => "AJDKSIRUXBLHWTMCQGZNPYFVOE"@,
            Rotors::III => "BDFHJLCPRTXVZNYEIWGAKMUSQO"@,
            Rotors::IV => "ESOVPZJAYQUIRHXLNFTGKDCMWB"@,
            Rotors::V => "VZBRGITYUPSDNHLXAWMJQOFECK"@,
            Rotors::VI => "JPGVOUMFYQBENHZRDKASXLICTW"@,
            Rotors::VII => "NZJHGRCXMYSWBOUFAIVLPEKQDT"@,
            Rotors::VIII => "FKQHTLXOCBJSPDZRAMEWNIUYGV"@,
        }
    }

    pub fn wiring(self) -> (r: &'static str)
        ensures
            r@ == self.spec_wiring(),
    {
        match self {
            Rotors::I => "EKMFLGDQVZNTOWYHXUSPAIBRCJ",
            Rotors::II => "AJDKSIRUXBLHWTMCQGZNPYFVOE",
            Rotors::III => "BDFHJLCPRTXVZNYEIWGAKMUSQO",
            Rotors::IV => "ESOVPZJAYQUIRHXLNFTGKDCMWB",
            Rotors::V => "VZBRGITYUPSDNHLXAWMJQOFECK",
            Rotors::VI => "JPGVOUMFYQBENHZRDKASXLICTW",
            Rotors::VII => "NZJHGRCXMYSWBOUFAIVLPEKQDT",
            Rotors::VIII => "FKQHTLXOCBJSPDZRAMEWNIUYGV",
        }
    }

    /// The letters at which the rotor carries the next one on.
    pub open spec fn spec_notches(self) -> Seq<char> {
        match self {
            Rotors::I => seq!['Q'],
            Rotors::II => seq!['E'],
            Rotors::III => seq!['V'],
            Rotors::IV => seq!['J'],
            Rotors::V => seq!['Z'],
            Rotors::VI => seq!['Z', 'M'],
            Rotors::VII => seq!['Z', 'M'],
            Rotors::VIII => seq!['Z', 'M'],
        }
    }

    pub fn notch_letters(self) -> (r: Vec<char>)
        ensures
            r@ == self.spec_notches(),
    {
        let r = match self {
            Rotors::I => vec!['Q'],
            Rotors::II => vec!['E'],
            Rotors::III => vec!['V'],
            Rotors::IV => vec!['J'],
            Rotors::V => vec!['Z'],
            Rotors::VI => vec!['Z', 'M'],
            Rotors::VII => vec!['Z', 'M'],
            Rotors::VIII => vec!['Z', 'M'],
        };
        proof {
            assert(r@ =~= self.spec_notches());
        }
        r
    }

    pub open spec fn spec_id(self) -> int {
        match self {
            Rotors::I => 0,
            Rotors::II => 1,
            Rotors::III => 2,
            Rotors::IV => 3,
            Rotors::V => 4,
            Rotors::VI => 5,
            Rotors::VII => 6,
            Rotors::VIII => 7,
        }
    }

    /// A number that tells the rotors apart.
    pub fn id(self) -> (r: u8)
        ensures
            r as int == self.spec_id(),
    {
        match self {
            Rotors::I => 0,
            Rotors::II => 1,
            Rotors::III => 2,
            Rotors::IV => 3,
            Rotors::V => 4,
            Rotors::VI => 5,
            Rotors::VII => 6,
            Rotors::VIII => 7,
        }
    }

    pub proof fn lemma_id_injective(a: Rotors, b: Rotors)
        ensures
            a.spec_id() == b.spec_id() ==> a == b,
    {
    }

    /// Every wiring of the catalog is a valid table, and its notches are
    /// distinct letters.
    pub proof fn lemma_catalog(self)
        ensures
            valid_table(self.spec_wiring()),
            all_letters(self.spec_notches()),
            table_of(self.spec_notches()).no_duplicates(),
    {
        // Each wiring is checked against its inverse wiring, written out
        // beside it, one entry at a time.
        reveal_with_fuel(inverse_checked, 27);
        match self {
            Rotors::I => {
                reveal_strlit("EKMFLGDQVZNTOWYHXUSPAIBRCJ");
                reveal_strlit("UWYGADFPVZBECKMTHXSLRINQOJ");
                lemma_valid_by_inverse("EKMFLGDQVZNTOWYHXUSPAIBRCJ"@, "UWYGADFPVZBECKMTHXSLRINQOJ"@);
            },
            Rotors::II => {
                reveal_strlit("AJDKSIRUXBLHWTMCQGZNPYFVOE");
                reveal_strlit("AJPCZWRLFBDKOTYUQGENHXMIVS");
                lemma_valid_by_inverse("AJDKSIRUXBLHWTMCQGZNPYFVOE"@, "AJPCZWRLFBDKOTYUQGENHXMIVS"@);
            },
            Rotors::III => {
                reveal_strlit("BDFHJLCPRTXVZNYEIWGAKMUSQO");
                reveal_strlit("TAGBPCSDQEUFVNZHYIXJWLRKOM");
                lemma_valid_by_inverse("BDFHJLCPRTXVZNYEIWGAKMUSQO"@, "TAGBPCSDQEUFVNZHYIXJWLRKOM"@);
            },
            Rotors::IV => {
                reveal_strlit("ESOVPZJAYQUIRHXLNFTGKDCMWB");
                reveal_strlit("HZWVARTNLGUPXQCEJMBSKDYOIF");
                lemma_valid_by_inverse("ESOVPZJAYQUIRHXLNFTGKDCMWB"@, "HZWVARTNLGUPXQCEJMBSKDYOIF"@);
            },
            Rotors::V => {
                reveal_strlit("VZBRGITYUPSDNHLXAWMJQOFECK");
                reveal_strlit("QCYLXWENFTZOSMVJUDKGIARPHB");
                lemma_valid_by_inverse("VZBRGITYUPSDNHLXAWMJQOFECK"@, "QCYLXWENFTZOSMVJUDKGIARPHB"@);
            },
            Rotors::VI => {
                reveal_strlit("JPGVOUMFYQBENHZRDKASXLICTW");
                reveal_strlit("SKXQLHCNWARVGMEBJPTYFDZUIO");
                lemma_valid_by_inverse("JPGVOUMFYQBENHZRDKASXLICTW"@, "SKXQLHCNWARVGMEBJPTYFDZUIO"@);
            },
            Rotors::VII => {
                reveal_strlit("NZJHGRCXMYSWBOUFAIVLPEKQDT");
                reveal_strlit("QMGYVPEDRCWTIANUXFKZOSLHJB");
                lemma_valid_by_inverse("NZJHGRCXMYSWBOUFAIVLPEKQDT"@, "QMGYVPEDRCWTIANUXFKZOSLHJB"@);
            },
            Rotors::VIII => {
                reveal_strlit("FKQHTLXOCBJSPDZRAMEWNIUYGV");
                reveal_strlit("QJINSAYDVKBFRUHMCPLEWZTGXO");
                lemma_valid_by_inverse("FKQHTLXOCBJSPDZRAMEWNIUYGV"@, "QJINSAYDVKBFRUHMCPLEWZTGXO"@);
            },
        }
        assert forall|i: int| 0 <= i < self.spec_notches().len() implies #[trigger] is_letter(self.spec_notches()[i]) by {}
    }
}

impl Rotor {
    /// Builds a rotor from its wiring, its notch letters and its starting letter.
    pub fn new(c: &str, n: &[char], p: char) -> (r: Result<Rotor, RotorError>)
        ensures
            r is Ok <==> valid_table(c@) && all_letters(n@) && table_of(n@).no_duplicates() && is_letter(p),
            r matches Ok(rot) ==> rot.wf() && rot.table() == table_of(c@) && rot.notches() == table_of(n@)
                && rot.base() == letter_index(p),
            r matches Err(RotorError::Cipher(e)) ==> cipher_error(c@, e),
            r matches Err(RotorError::Notch(e)) ==> valid_table(c@) && notch_error(n@, e),
            r matches Err(RotorError::RepeatedNotch) ==> valid_table(c@) && all_letters(n@)
                && !table_of(n@).no_duplicates(),
            r matches Err(RotorError::Position(e)) ==> valid_table(c@) && all_letters(n@)
                && table_of(n@).no_duplicates() && !is_letter(p) && e == ParsingError::Charset(p),
            !(r matches Err(RotorError::RotorCount)),
    {
        let cipher = match Cipher::from_str(c) {
            Ok(cipher) => cipher,
            Err(e) => {
                return Err(RotorError::Cipher(e));
            },
        };
        let mut notches: Vec<Position> = Vec::new();
        let mut offsets: Vec<u8> = Vec::new();
        let mut i: usize = 0;
        while i < n.len()
            invariant
                valid_table(c@),
                cipher.wf(),
                cipher@ == table_of(c@),
                i <= n@.len(),
                notches@.len() == i,
                offsets@.len() == i,
                all_letters(n@.take(i as int)),
                forall|k: int| 0 <= k < i ==> (#[trigger] notches@[k]).wf()
                    && notches@[k].index() == letter_index(n@[k]) && offsets@[k] as int == notches@[k].index(),
            decreases n@.len() - i,
        {
            match Position::from_letter(n[i]) {
                Ok(notch) => {
                    offsets.push(notch.get_offset());
                    notches.push(notch);
                },
                Err(e) => {
                    proof {
                        assert(all_letters(n@.take(i as int)));
                        assert(first_non_letter(n@, n@[i as int]));
                    }
                    return Err(RotorError::Notch(e));
                },
            }
            proof {
                assert forall|k: int| 0 <= k < i + 1 implies #[trigger] is_letter(n@.take(i + 1)[k]) by {
                    if k < i {
                        assert(n@.take(i + 1)[k] == n@.take(i as int)[k]);
                    }
                }
            }
            i = i + 1;
        }
        proof {
            assert(n@.take(n@.len() as int) =~= n@);
            assert(table_of(n@) =~= notches@.map_values(|p: Position| p.index()));
            assert forall|k: int| 0 <= k < offsets@.len() implies (#[trigger] offsets@[k] as int) < 26 by {
                assert(notches@[k].wf());
            }
            lemma_distinct_below(offsets@, 26);
            if table_of(n@).no_duplicates() {
                assert(offsets@.no_duplicates()) by {
                    assert forall|a: int, b: int| 0 <= a < offsets@.len() && 0 <= b < offsets@.len() && a != b
                        implies offsets@[a] != offsets@[b] by {
                        assert(table_of(n@)[a] != table_of(n@)[b]);
                    }
                }
                offsets@.unique_seq_to_set();
            }
        }
        if count_distinct(&offsets) != offsets.len() {
            return Err(RotorError::RepeatedNotch);
        }
        proof {
            offsets@.lemma_no_dup_set_cardinality();
            assert forall|a: int, b: int| 0 <= a < offsets@.len() && 0 <= b < offsets@.len() && a != b
                implies table_of(n@)[a] != table_of(n@)[b] by {
                assert(offsets@[a] != offsets@[b]);
            }
        }
        let position = match Position::from_letter(p) {
            Ok(position) => position,
            Err(e) => {
                return Err(RotorError::Position(e));
            },
        };
        Ok(Rotor { position, cipher, notches })
    }

    /// Builds a rotor of the catalog, starting at the given letter.
    pub fn try_from(value: (Rotors, char)) -> (r: Result<Rotor, RotorError>)
        ensures
            r is Ok <==> is_letter(value.1),
            r matches Ok(rot) ==> rot.wf() && rot.table() == table_of(value.0.spec_wiring())
                && rot.notches() == table_of(value.0.spec_notches()) && rot.base() == letter_index(value.1),
            r matches Err(e) ==> e == RotorError::Position(ParsingError::Charset(value.1)),
    {
        proof {
            value.0.lemma_catalog();
        }
        let (variant, position) = value;
        let notches = variant.notch_letters();
        Rotor::new(variant.wiring(), notches.as_slice(), position)
    }
}

/// The rotor of the catalog `variant` starting at the letter `p`.
pub open spec fn is_catalog_rotor(rotor: Rotor, variant: Rotors, p: char) -> bool {
    &&& rotor.wf()
    &&& rotor.table() == table_of(variant.spec_wiring())
    &&& rotor.notches() == table_of(variant.spec_notches())
    &&& rotor.base() == letter_index(p)
}

/// No rotor of the catalog is used twice.
pub open spec fn distinct_rotors(value: [(Rotors, char); 3]) -> bool {
    &&& value@[0].0 != value@[1].0
    &&& value@[0].0 != value@[2].0
    &&& value@[1].0 != value@[2].0
}

/// The chain of three rotors, the first one stepped once per character.
pub struct RotorConfig(Vec<Rotor>);

impl RotorConfig {
    pub closed spec fn rotors(&self) -> Seq<Rotor> {
        self.0@
    }

    pub closed spec fn wf(&self) -> bool {
        &&& self.0@.len() == 3
        &&& forall|k: int| 0 <= k < 3 ==> (#[trigger] self.0@[k]).wf()
    }

    pub proof fn lemma_wf(&self)
        requires
            self.wf(),
        ensures
            self.rotors().len() == 3,
            forall|k: int| 0 <= k < 3 ==> (#[trigger] self.rotors()[k]).wf(),
    {
    }

    /// The steps of the second rotor after `n` steps of the first.
    pub open spec fn second_steps(&self, n: int) -> int {
        self.rotors()[0].spec_advances(n)
    }

    /// The steps of the third rotor after `n` steps of the first.
    pub open spec fn third_steps(&self, n: int) -> int {
        self.rotors()[1].spec_advances(self.second_steps(n))
    }

    pub open spec fn spec_encode_at(&self, c: int, n: int) -> int {
        let r = self.rotors();
        r[2].spec_encode_at(
            r[1].spec_encode_at(r[0].spec_encode_at(c, n), self.second_steps(n)),
            self.third_steps(n),
        )
    }

    pub open spec fn spec_decode_at(&self, c: int, n: int) -> int {
        let r = self.rotors();
        r[0].spec_decode_at(
            r[1].spec_decode_at(r[2].spec_decode_at(c, self.third_steps(n)), self.second_steps(n)),
            n,
        )
    }

    pub fn encode_at(&self, c: Character, n: usize) -> (r: Character)
        requires
            self.wf(),
            c.wf(),
            n <= MAX_INDEX,
        ensures
            r.wf(),
            r.index() == self.spec_encode_at(c.index(), n as int),
    {
        let encode_first_rotor = self.0[0].encode_at(c, n);
        let n1 = self.0[0].get_num_advances(n);
        let encode_second_rotor = self.0[1].encode_at(encode_first_rotor, n1);
        let n2 = self.0[1].get_num_advances(n1);
        self.0[2].encode_at(encode_second_rotor, n2)
    }

    pub fn decode_at(&self, c: Character, n: usize) -> (r: Character)
        requires
            self.wf(),
            c.wf(),
            n <= MAX_INDEX,
        ensures
            r.wf(),
            r.index() == self.spec_decode_at(c.index(), n as int),
    {
        let n1 = self.0[0].get_num_advances(n);
        let n2 = self.0[1].get_num_advances(n1);
        let decode_third_rotor = self.0[2].decode_at(c, n2);
        let decode_second_rotor = self.0[1].decode_at(decode_third_rotor, n1);
        self.0[0].decode_at(decode_second_rotor, n)
    }

    /// Builds the chain from three distinct rotors of the catalog and their
    /// starting letters.
    pub fn try_from(value: [(Rotors, char); 3]) -> (r: Result<RotorConfig, RotorError>)
        ensures
            r is Ok <==> distinct_rotors(value) && forall|k: int| 0 <= k < 3 ==> is_letter(#[trigger] value@[k].1),
            r matches Ok(rc) ==> rc.wf() && forall|k: int|
                0 <= k < 3 ==> is_catalog_rotor(#[trigger] rc.rotors()[k], value@[k].0, value@[k].1),
            r matches Err(e) ==> (e == RotorError::RotorCount <==> !distinct_rotors(value)),
            r matches Err(e) ==> (e is RotorCount || e is Position),
            r matches Err(RotorError::Position(e)) ==> exists|k: int|
                0 <= k < 3 && !is_letter(#[trigger] value@[k].1) && e == ParsingError::Charset(value@[k].1),
    {
        let ids: Vec<u8> = vec![value[0].0.id(), value[1].0.id(), value[2].0.id()];
        proof {
            Rotors::lemma_id_injective(value@[0].0, value@[1].0);
            Rotors::lemma_id_injective(value@[0].0, value@[2].0);
            Rotors::lemma_id_injective(value@[1].0, value@[2].0);
            if distinct_rotors(value) {
                assert(ids@.no_duplicates());
                ids@.unique_seq_to_set();
            }
        }
        if count_distinct(&ids) != 3 {
            return Err(RotorError::RotorCount);
        }
        proof {
            ids@.lemma_no_dup_set_cardinality();
            assert(ids@[0] != ids@[1] && ids@[0] != ids@[2] && ids@[1] != ids@[2]);
        }
        let mut rotors: Vec<Rotor> = Vec::new();
        let mut i: usize = 0;
        while i < 3
            invariant
                i <= 3,
                rotors@.len() == i,
                distinct_rotors(value),
                forall|k: int| 0 <= k < i ==> is_letter(#[trigger] value@[k].1),
                forall|k: int| 0 <= k < i ==> is_catalog_rotor(#[trigger] rotors@[k], value@[k].0, value@[k].1),
            decreases 3 - i,
        {
            match Rotor::try_from(value[i]) {
                Ok(rotor) => rotors.push(rotor),
                Err(e) => {
                    return Err(e);
                },
            }
            i = i + 1;
        }
        Ok(RotorConfig(rotors))
    }
}

/// The rotor chain's reverse pass undoes its forward pass, and the other way round.
pub proof fn lemma_chain_round_trip(rc: &RotorConfig, c: int, n: int)
    requires
        rc.wf(),
        0 <= c < 26,
    ensures
        0 <= rc.spec_encode_at(c, n) < 26,
        0 <= rc.spec_decode_at(c, n) < 26,
        rc.spec_decode_at(rc.spec_encode_at(c, n), n) == c,
        rc.spec_encode_at(rc.spec_decode_at(c, n), n) == c,
{
    rc.lemma_wf();
    let r = rc.rotors();
    let n1 = rc.second_steps(n);
    let n2 = rc.third_steps(n);
    let a = r[0].spec_encode_at(c, n);
    lemma_rotor_round_trip(&r[0], c, n);
    let b = r[1].spec_encode_at(a, n1);
    lemma_rotor_round_trip(&r[1], a, n1);
    lemma_rotor_round_trip(&r[2], b, n2);
    let x = r[2].spec_decode_at(c, n2);
    lemma_rotor_round_trip(&r[2], c, n2);
    let y = r[1].spec_decode_at(x, n1);
    lemma_rotor_round_trip(&r[1], x, n1);
    lemma_rotor_round_trip(&r[0], y, n);
}

} // verus!

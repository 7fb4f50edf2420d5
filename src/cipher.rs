use crate::common::{chars_of, count_distinct, is_letter, lemma_distinct_below, letter_index, Character};
use vstd::prelude::*;

verus! {

broadcast use {Character::lemma_from_index, Character::lemma_index_injective};

/// Something that substitutes one character for another.
pub trait Encode {
    /// The value is ready to encode.
    spec fn encodes(&self) -> bool;

    /// The place of the substitute for the character at place `c`.
    spec fn encode_spec(&self, c: int) -> int;

    fn encode(&self, c: Character) -> (r: Character)
        requires
            self.encodes(),
            c.wf(),
        ensures
            r.wf(),
            r.index() == self.encode_spec(c.index()),
    ;
}

/// Something that undoes a substitution.
pub trait Decode {
    /// The value is ready to decode.
    spec fn decodes(&self) -> bool;

    /// The place of the character whose substitute stands at place `c`.
    spec fn decode_spec(&self, c: int) -> int;

    fn decode(&self, c: Character) -> (r: Character)
        requires
            self.decodes(),
            c.wf(),
        ensures
            r.wf(),
            r.index() == self.decode_spec(c.index()),
    ;
}

/// A substitution of the 26 letters: entry `i` is the place of the
/// substitute for the letter at place `i`, and each place occurs once.
pub open spec fn is_permutation(t: Seq<int>) -> bool {
    &&& t.len() == 26
    &&& forall|i: int| 0 <= i < 26 ==> 0 <= #[trigger] t[i] < 26
    &&& forall|i: int, j: int| 0 <= i < 26 && 0 <= j < 26 && #[trigger] t[i] == #[trigger] t[j] ==> i == j
    &&& forall|j: int| 0 <= j < 26 ==> #[trigger] t.contains(j)
}

/// The place that a substitution sends to `j`.
pub open spec fn preimage(t: Seq<int>, j: int) -> int {
    choose|i: int| 0 <= i < 26 && t[i] == j
}

/// The places of the letters of a table written as text.
pub open spec fn table_of(s: Seq<char>) -> Seq<int> {
    s.map_values(|c: char| letter_index(c))
}

pub open spec fn all_letters(s: Seq<char>) -> bool {
    forall|i: int| 0 <= i < s.len() ==> #[trigger] is_letter(s[i])
}

/// `x` is the first character of `s` that is not a letter.
pub open spec fn first_non_letter(s: Seq<char>, x: char) -> bool {
    exists|i: int|
        0 <= i < s.len() && s[i] == x && !is_letter(s[i]) && all_letters(#[trigger] s.take(i))
}

/// A text that `Cipher::from_str` accepts.
pub open spec fn valid_table(s: Seq<char>) -> bool {
    all_letters(s) && s.len() == 26 && table_of(s).no_duplicates()
}

/// `e` is the error that `Cipher::from_str` reports for the text `s`.
pub open spec fn cipher_error(s: Seq<char>, e: CipherError) -> bool {
    match e {
        CipherError::Charset(x) => first_non_letter(s, x),
        CipherError::TooFew(n) => all_letters(s) && s.len() < 26 && n == s.len(),
        CipherError::TooMany(n) => all_letters(s) && s.len() > 26 && n == s.len(),
        CipherError::Unique => all_letters(s) && s.len() == 26 && !table_of(s).no_duplicates(),
    }
}

/// The first `k` entries of `s` are upper-case letters and `inv` undoes them:
/// a check that unfolds entry by entry on a fixed table.
pub open spec fn inverse_checked(s: Seq<char>, inv: Seq<char>, k: nat) -> bool
    decreases k,
{
    if k == 0 {
        true
    } else {
        let i = k - 1;
        &&& inverse_checked(s, inv, (k - 1) as nat)
        &&& 'A' <= s[i] && s[i] <= 'Z'
        &&& 'A' <= inv[i] && inv[i] <= 'Z'
        &&& inv[s[i] as int - 'A' as int] as int - 'A' as int == i
        &&& s[inv[i] as int - 'A' as int] as int - 'A' as int == i
    }
}

pub proof fn lemma_inverse_checked_upto(s: Seq<char>, inv: Seq<char>, k: nat)
    requires
        s.len() == 26,
        inv.len() == 26,
        k <= 26,
        inverse_checked(s, inv, k),
    ensures
        forall|i: int| 0 <= i < k ==> 'A' <= #[trigger] s[i] && s[i] <= 'Z',
        forall|i: int| 0 <= i < k ==> 'A' <= #[trigger] inv[i] && inv[i] <= 'Z',
        forall|i: int| 0 <= i < k ==> inv[#[trigger] s[i] as int - 'A' as int] as int - 'A' as int == i,
    decreases k,
{
    if k > 0 {
        lemma_inverse_checked_upto(s, inv, (k - 1) as nat);
    }
}

/// A table with a checked inverse is a valid table.
pub proof fn lemma_valid_by_inverse(s: Seq<char>, inv: Seq<char>)
    requires
        s.len() == 26,
        inv.len() == 26,
        inverse_checked(s, inv, 26),
    ensures
        valid_table(s),
{
    lemma_inverse_checked_upto(s, inv, 26);
    let t = table_of(s);
    assert forall|a: int, b: int| 0 <= a < t.len() && 0 <= b < t.len() && a != b implies t[a] != t[b] by {
        if t[a] == t[b] {
            assert(s[a] == s[b]);
        }
    }
    assert forall|i: int| 0 <= i < s.len() implies #[trigger] is_letter(s[i]) by {}
}

/// Why a text is not a substitution table: a character that is not a
/// letter, too few or too many letters, or a letter used twice.
#[derive(PartialEq, Eq, Structural, Clone, Copy, Debug)]
pub enum CipherError {
    Charset(char),
    TooFew(usize),
    TooMany(usize),
    Unique,
}

/// A bijective substitution over the alphabet, with its inverse.
pub struct Cipher {
    forward: Vec<u8>,
    backward: Vec<u8>,
}

impl View for Cipher {
    type V = Seq<int>;

    closed spec fn view(&self) -> Seq<int> {
        self.forward@.map_values(|x: u8| x as int)
    }
}

impl Cipher {
    pub closed spec fn wf(&self) -> bool {
        &&& self.forward@.len() == 26
        &&& self.backward@.len() == 26
        &&& forall|i: int| 0 <= i < 26 ==> #[trigger] self.forward@[i] < 26
        &&& forall|i: int| 0 <= i < 26 ==> #[trigger] self.backward@[i] < 26
        &&& forall|i: int|
            0 <= i < 26 ==> self.backward@[#[trigger] self.forward@[i] as int] as int == i
        &&& forall|j: int|
            0 <= j < 26 ==> self.forward@[#[trigger] self.backward@[j] as int] as int == j
    }

    pub proof fn lemma_permutation(&self)
        requires
            self.wf(),
        ensures
            is_permutation(self@),
            forall|j: int| 0 <= j < 26 ==> 0 <= #[trigger] preimage(self@, j) < 26 && self@[preimage(self@, j)] == j,
            forall|i: int| 0 <= i < 26 ==> #[trigger] preimage(self@, self@[i]) == i,
    {
        assert forall|j: int| 0 <= j < 26 implies #[trigger] self@.contains(j) by {
            assert(self@[self.backward@[j] as int] == j);
        }
        assert forall|j: int| 0 <= j < 26 implies 0 <= #[trigger] preimage(self@, j) < 26 && self@[preimage(self@, j)] == j by {
            assert(self@[self.backward@[j] as int] == j);
        }
        assert forall|i: int| 0 <= i < 26 implies #[trigger] preimage(self@, self@[i]) == i by {
            let k = preimage(self@, self@[i]);
            assert(self@[self.backward@[self@[i]] as int] == self@[i]);
            assert(self.backward@[self.forward@[k] as int] as int == k);
        }
    }

    /// Reads a table of 26 letters; entry `i` substitutes the letter at place `i`.
    pub fn from_str(s: &str) -> (r: Result<Cipher, CipherError>)
        ensures
            r is Ok <==> valid_table(s@),
            r matches Ok(c) ==> c.wf() && c@ == table_of(s@),
            r matches Err(e) ==> cipher_error(s@, e),
    {
        let chars = chars_of(s);
        let mut letters: Vec<Character> = Vec::new();
        let mut i: usize = 0;
        while i < chars.len()
            invariant
                chars@ == s@,
                i <= chars@.len(),
                letters@.len() == i,
                all_letters(s@.take(i as int)),
                forall|k: int| 0 <= k < i ==> (#[trigger] letters@[k]).wf() && letters@[k].index() == letter_index(s@[k]),
            decreases chars.len() - i,
        {
            match Character::try_from(chars[i]) {
                Ok(c) => letters.push(c),
                Err(_) => {
                    proof {
                        assert(first_non_letter(s@, s@[i as int]));
                    }
                    return Err(CipherError::Charset(chars[i]));
                },
            }
            proof {
                assert forall|k: int| 0 <= k < i + 1 implies #[trigger] is_letter(s@.take(i + 1)[k]) by {
                    if k < i {
                        assert(s@.take(i + 1)[k] == s@.take(i as int)[k]);
                    }
                }
            }
            i = i + 1;
        }
        proof {
            assert(s@.take(s@.len() as int) =~= s@);
        }
        if chars.len() < 26 {
            return Err(CipherError::TooFew(chars.len()));
        }
        if chars.len() > 26 {
            return Err(CipherError::TooMany(chars.len()));
        }
        let r = Cipher::try_from(letters);
        proof {
            assert(table_of(s@) =~= letters@.map_values(|c: Character| c.index()));
        }
        r
    }

    /// Builds a cipher from 26 characters; entry `i` substitutes the letter at place `i`.
    pub fn try_from(value: Vec<Character>) -> (r: Result<Cipher, CipherError>)
        requires
            forall|k: int| 0 <= k < value@.len() ==> (#[trigger] value@[k]).wf(),
        ensures
            r is Ok <==> value@.len() == 26 && value@.map_values(|c: Character| c.index()).no_duplicates(),
            r matches Ok(c) ==> c.wf() && c@ == value@.map_values(|c: Character| c.index()),
            r matches Err(CipherError::TooFew(n)) ==> value@.len() < 26 && n == value@.len(),
            r matches Err(CipherError::TooMany(n)) ==> value@.len() > 26 && n == value@.len(),
            r matches Err(CipherError::Unique) ==> value@.len() == 26
                && !value@.map_values(|c: Character| c.index()).no_duplicates(),
            !(r matches Err(CipherError::Charset(_))),
    {
        let ghost t = value@.map_values(|c: Character| c.index());
        if value.len() < 26 {
            return Err(CipherError::TooFew(value.len()));
        }
        if value.len() > 26 {
            return Err(CipherError::TooMany(value.len()));
        }
        let mut forward: Vec<u8> = Vec::new();
        let mut i: usize = 0;
        while i < 26
            invariant
                value@.len() == 26,
                forall|k: int| 0 <= k < 26 ==> (#[trigger] value@[k]).wf(),
                i <= 26,
                forward@.len() == i,
                forall|k: int| 0 <= k < i ==> #[trigger] forward@[k] as int == value@[k].index(),
            decreases 26 - i,
        {
            forward.push(value[i].get_offset());
            i = i + 1;
        }
        let distinct = count_distinct(&forward);
        proof {
            assert forall|k: int| 0 <= k < forward@.len() implies (#[trigger] forward@[k] as int) < 26 by {
                assert(value@[k].wf());
            }
            lemma_distinct_below(forward@, 26);
            if t.no_duplicates() {
                assert(forward@.no_duplicates()) by {
                    assert forall|a: int, b: int| 0 <= a < 26 && 0 <= b < 26 && a != b implies forward@[a] != forward@[b] by {
                        assert(t[a] != t[b]);
                    }
                }
                forward@.unique_seq_to_set();
            }
        }
        if distinct != 26 {
            return Err(CipherError::Unique);
        }
        proof {
            forward@.lemma_no_dup_set_cardinality();
            assert forall|a: int, b: int| 0 <= a < 26 && 0 <= b < 26 && a != b implies t[a] != t[b] by {
                assert(forward@[a] != forward@[b]);
            }
        }
        let mut backward: Vec<u8> = vec![0u8; 26];
        let mut j: usize = 0;
        while j < 26
            invariant
                forward@.len() == 26,
                backward@.len() == 26,
                forward@.no_duplicates(),
                forall|k: int| 0 <= k < 26 ==> (#[trigger] forward@[k] as int) < 26,
                forall|k: int| 0 <= k < 26 ==> (#[trigger] backward@[k] as int) < 26,
                j <= 26,
                forall|k: int| 0 <= k < j ==> backward@[#[trigger] forward@[k] as int] as int == k,
            decreases 26 - j,
        {
            let slot = forward[j] as usize;
            backward.set(slot, j as u8);
            proof {
                assert forall|k: int| 0 <= k < j + 1 implies backward@[#[trigger] forward@[k] as int] as int == k by {
                    if k < j {
                        assert(forward@[k] != forward@[j as int]);
                    }
                }
            }
            j = j + 1;
        }
        let cipher = Cipher { forward, backward };
        proof {
            assert forall|x: int| 0 <= x < 26 implies cipher.forward@[#[trigger] cipher.backward@[x] as int] as int == x by {
                assert(forward@.contains(x as u8));
                let k = choose|k: int| 0 <= k < 26 && forward@[k] == x as u8;
                assert(backward@[forward@[k] as int] as int == k);
            }
            assert(cipher@ =~= t);
        }
        Ok(cipher)
    }
}

impl Encode for Cipher {
    open spec fn encodes(&self) -> bool {
        self.wf()
    }

    open spec fn encode_spec(&self, c: int) -> int {
        self@[c]
    }

    fn encode(&self, c: Character) -> (r: Character) {
        let i = c.get_offset() as usize;
        Character::from_offset(self.forward[i])
    }
}

impl Decode for Cipher {
    open spec fn decodes(&self) -> bool {
        self.wf()
    }

    open spec fn decode_spec(&self, c: int) -> int {
        preimage(self@, c)
    }

    fn decode(&self, c: Character) -> (r: Character) {
        let j = c.get_offset() as usize;
        proof {
            self.lemma_permutation();
            assert(self@[self.backward@[j as int] as int] == j);
        }
        Character::from_offset(self.backward[j])
    }
}

} // verus!

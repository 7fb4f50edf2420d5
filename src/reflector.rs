use crate::cipher::{
    cipher_error, inverse_checked, is_permutation, lemma_valid_by_inverse, table_of, valid_table,
    Cipher, CipherError, Encode,
};
use crate::common::Character;
use vstd::prelude::*;

verus! {

broadcast use {Character::lemma_from_index, Character::lemma_index_injective};

/// Every letter is sent to another one, and back again by the same table.
pub open spec fn is_reflective(t: Seq<int>) -> bool {
    &&& t.len() == 26
    &&& forall|i: int| 0 <= i < 26 ==> 0 <= #[trigger] t[i] < 26
    &&& forall|i: int| 0 <= i < 26 ==> t[#[trigger] t[i]] == i
    &&& forall|i: int| 0 <= i < 26 ==> #[trigger] t[i] != i
}

/// No entry among the first `k` of `s` stands at its own place: a check
/// that unfolds entry by entry on a fixed table.
pub open spec fn fixed_point_free_checked(s: Seq<char>, k: nat) -> bool
    decreases k,
{
    if k == 0 {
        true
    } else {
        fixed_point_free_checked(s, (k - 1) as nat) && s[k - 1] as int - 'A' as int != k - 1
    }
}

proof fn lemma_fixed_point_free_upto(s: Seq<char>, k: nat)
    requires
        k <= s.len(),
        fixed_point_free_checked(s, k),
    ensures
        forall|i: int| 0 <= i < k ==> #[trigger] s[i] as int - 'A' as int != i,
    decreases k,
{
    if k > 0 {
        lemma_fixed_point_free_upto(s, (k - 1) as nat);
    }
}

/// Why a table cannot be a reflector: it is no substitution, or it keeps a
/// letter in place or does not swap letters in pairs.
#[derive(PartialEq, Eq, Structural, Clone, Copy, Debug)]
pub enum ReflectorError {
    Cipher(CipherError),
    Reflectivity,
}

/// The reflectors of the historical machine. Each is a substitution whose
/// swaps go both ways; it does not move.
#[derive(PartialEq, Eq, Structural, Clone, Copy, Debug, Hash)]
pub enum Reflectors {
    A,
    B,
    C,
}

impl Reflectors {
    pub open spec fn spec_wiring(self) -> Seq<char> {
        match self {
            Reflectors::A => "EJMZALYXVBWFCRQUONTSPIKHGD"@,
            Reflectors::B => "YRUHQSLDPXNGOKMIEBFZCWVJAT"@,
            Reflectors::C => "FVPJIAOYEDRZXWGCTKUQSBNMHL"@,
        }
    }

    pub fn wiring(self) -> (r: &'static str)
        ensures
            r@ == self.spec_wiring(),
    {
        match self {
            Reflectors::A => "EJMZALYXVBWFCRQUONTSPIKHGD",
            Reflectors::B => "YRUHQSLDPXNGOKMIEBFZCWVJAT",
            Reflectors::C => "FVPJIAOYEDRZXWGCTKUQSBNMHL",
        }
    }

    /// Every wiring of the catalog is a valid, reflective table.
    pub proof fn lemma_catalog(self)
        ensures
            valid_table(self.spec_wiring()),
            is_reflective(table_of(self.spec_wiring())),
    {
        reveal_with_fuel(inverse_checked, 27);
        reveal_with_fuel(fixed_point_free_checked, 27);
        let s = self.spec_wiring();
        match self {
            Reflectors::A => {
                reveal_strlit("EJMZALYXVBWFCRQUONTSPIKHGD");
            },
            Reflectors::B => {
                reveal_strlit("YRUHQSLDPXNGOKMIEBFZCWVJAT");
            },
            Reflectors::C => {
                reveal_strlit("FVPJIAOYEDRZXWGCTKUQSBNMHL");
            },
        }
        assert(inverse_checked(s, s, 26));
        assert(fixed_point_free_checked(s, 26));
        lemma_valid_by_inverse(s, s);
        lemma_fixed_point_free_upto(s, 26);
        crate::cipher::lemma_inverse_checked_upto(s, s, 26);
        let t = table_of(s);
        assert forall|i: int| 0 <= i < 26 implies t[#[trigger] t[i]] == i by {
            assert('A' <= s[i] && s[i] <= 'Z');
        }
    }
}

/// The fixed substitution that sends the signal back through the rotors.
pub struct Reflector {
    cipher: Cipher,
}

impl Reflector {
    pub closed spec fn table(&self) -> Seq<int> {
        self.cipher@
    }

    pub closed spec fn wf(&self) -> bool {
        self.cipher.wf() && is_reflective(self.cipher@)
    }

    pub proof fn lemma_wf(&self)
        requires
            self.wf(),
        ensures
            is_reflective(self.table()),
            is_permutation(self.table()),
    {
        self.cipher.lemma_permutation();
    }

    /// Builds a reflector from a table of 26 letters.
    pub fn new(s: &str) -> (r: Result<Reflector, ReflectorError>)
        ensures
            r is Ok <==> valid_table(s@) && is_reflective(table_of(s@)),
            r matches Ok(refl) ==> refl.wf() && refl.table() == table_of(s@),
            r matches Err(ReflectorError::Cipher(e)) ==> cipher_error(s@, e),
            r matches Err(ReflectorError::Reflectivity) ==> valid_table(s@) && !is_reflective(table_of(s@)),
    {
        let cipher = match Cipher::from_str(s) {
            Ok(cipher) => cipher,
            Err(e) => {
                return Err(ReflectorError::Cipher(e));
            },
        };
        proof {
            cipher.lemma_permutation();
        }
        let mut i: u8 = 0;
        while i < 26
            invariant
                cipher.wf(),
                valid_table(s@),
                cipher@ == table_of(s@),
                is_permutation(cipher@),
                i <= 26,
                forall|k: int| 0 <= k < i ==> cipher@[#[trigger] cipher@[k]] == k && cipher@[k] != k,
            decreases 26 - i,
        {
            let c = Character::from_offset(i);
            let t = cipher.encode(c);
            let back = cipher.encode(t);
            if back.get_offset() != i || t.get_offset() == i {
                proof {
                    let k = i as int;
                    assert(!(cipher@[cipher@[k]] == k && cipher@[k] != k));
                }
                return Err(ReflectorError::Reflectivity);
            }
            i = i + 1;
        }
        Ok(Reflector { cipher })
    }

    /// The reflector of the catalog.
    pub fn from(r: Reflectors) -> (refl: Reflector)
        ensures
            refl.wf(),
            refl.table() == table_of(r.spec_wiring()),
    {
        proof {
            r.lemma_catalog();
        }
        match Reflector::new(r.wiring()) {
            Ok(refl) => refl,
            Err(_) => vstd::pervasive::unreached(),
        }
    }
}

impl Encode for Reflector {
    open spec fn encodes(&self) -> bool {
        self.wf()
    }

    open spec fn encode_spec(&self, c: int) -> int {
        self.table()[c]
    }

    /// Passes a character through the reflector; passing the result through
    /// again gives the character back.
    fn encode(&self, c: Character) -> (r: Character) {
        self.cipher.encode(c)
    }
}

/// Every reflector sends each letter to another letter, and reflecting twice
/// gives the letter back.
pub proof fn lemma_reflector(refl: &Reflector, c: int)
    requires
        refl.wf(),
        0 <= c < 26,
    ensures
        0 <= refl.encode_spec(c) < 26,
        refl.encode_spec(refl.encode_spec(c)) == c,
        refl.encode_spec(c) != c,
{
    refl.lemma_wf();
}

/// The reflectors of the catalog all have that property.
pub proof fn lemma_catalog_reflector(r: Reflectors, c: int)
    requires
        0 <= c < 26,
    ensures
        ({
            let t = table_of(r.spec_wiring());
            0 <= t[c] < 26 && t[t[c]] == c && t[c] != c
        }),
{
    r.lemma_catalog();
}

} // verus!

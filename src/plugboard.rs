use crate::cipher::{is_permutation, preimage, Cipher, CipherError, Decode, Encode};
use crate::common::{count_distinct, lemma_distinct_below, Character};
use vstd::prelude::*;

verus! {

broadcast use {Character::lemma_from_index, Character::lemma_index_injective};

/// The letters that a list of plugs uses, two per plug, in order.
pub open spec fn plug_letters(pairs: Seq<(int, int)>) -> Seq<int>
    decreases pairs.len(),
{
    if pairs.len() == 0 {
        Seq::empty()
    } else {
        plug_letters(pairs.drop_last()).push(pairs.last().0).push(pairs.last().1)
    }
}

/// Where the plugs send the letter at place `c`: to its partner, or nowhere.
pub open spec fn plugged(pairs: Seq<(int, int)>, c: int) -> int
    decreases pairs.len(),
{
    if pairs.len() == 0 {
        c
    } else if c == pairs.last().0 {
        pairs.last().1
    } else if c == pairs.last().1 {
        pairs.last().0
    } else {
        plugged(pairs.drop_last(), c)
    }
}

/// The table of the plugboard that the plugs make.
pub open spec fn plug_table(pairs: Seq<(int, int)>) -> Seq<int> {
    Seq::new(26, |c: int| plugged(pairs, c))
}

proof fn lemma_plug_letters_len(pairs: Seq<(int, int)>)
    ensures
        plug_letters(pairs).len() == 2 * pairs.len(),
    decreases pairs.len(),
{
    if pairs.len() > 0 {
        lemma_plug_letters_len(pairs.drop_last());
    }
}

/// A letter that no plug uses stays, and one that a plug uses goes to a
/// letter of the plugs.
proof fn lemma_plugged_moves(pairs: Seq<(int, int)>, c: int)
    ensures
        plugged(pairs, c) == c || plug_letters(pairs).contains(plugged(pairs, c)),
        !plug_letters(pairs).contains(c) ==> plugged(pairs, c) == c,
    decreases pairs.len(),
{
    if pairs.len() > 0 {
        let prefix = pairs.drop_last();
        lemma_plug_letters_len(prefix);
        lemma_plugged_moves(prefix, c);
        let l = plug_letters(pairs);
        let lp = plug_letters(prefix);
        assert(l[lp.len() as int] == pairs.last().0);
        assert(l[lp.len() as int + 1] == pairs.last().1);
        if lp.contains(plugged(prefix, c)) {
            let k = choose|k: int| 0 <= k < lp.len() && lp[k] == plugged(prefix, c);
            assert(l[k] == lp[k]);
        }
        if lp.contains(c) {
            let k = choose|k: int| 0 <= k < lp.len() && lp[k] == c;
            assert(l[k] == lp[k]);
        }
    }
}

/// With no letter used twice, the plugs make an involution of the alphabet.
proof fn lemma_plugged_involution(pairs: Seq<(int, int)>, c: int)
    requires
        plug_letters(pairs).no_duplicates(),
        forall|k: int| 0 <= k < plug_letters(pairs).len() ==> 0 <= #[trigger] plug_letters(pairs)[k] < 26,
        0 <= c < 26,
    ensures
        0 <= plugged(pairs, c) < 26,
        plugged(pairs, plugged(pairs, c)) == c,
    decreases pairs.len(),
{
    if pairs.len() > 0 {
        let prefix = pairs.drop_last();
        let (a, b) = pairs.last();
        let l = plug_letters(pairs);
        let lp = plug_letters(prefix);
        lemma_plug_letters_len(prefix);
        let n = lp.len() as int;
        assert(l[n] == a && l[n + 1] == b);
        assert(a != b) by {
            assert(l[n] != l[n + 1]);
        }
        assert(0 <= a < 26 && 0 <= b < 26) by {
            assert(0 <= l[n] < 26);
            assert(0 <= l[n + 1] < 26);
        }
        assert(lp.no_duplicates()) by {
            assert forall|i: int, j: int| 0 <= i < n && 0 <= j < n && i != j implies lp[i] != lp[j] by {
                assert(l[i] == lp[i] && l[j] == lp[j]);
            }
        }
        assert forall|k: int| 0 <= k < lp.len() implies 0 <= #[trigger] lp[k] < 26 by {
            assert(l[k] == lp[k]);
        }
        assert(!lp.contains(a) && !lp.contains(b)) by {
            if lp.contains(a) {
                let k = choose|k: int| 0 <= k < n && lp[k] == a;
                assert(l[k] == lp[k]);
            }
            if lp.contains(b) {
                let k = choose|k: int| 0 <= k < n && lp[k] == b;
                assert(l[k] == lp[k]);
            }
        }
        if c != a && c != b {
            lemma_plugged_involution(prefix, c);
            let d = plugged(prefix, c);
            lemma_plugged_moves(prefix, c);
            assert(d != a && d != b);
        }
    }
}

/// Why plugs cannot be used: more than ten of them, a letter used by two
/// plugs, or a plug that joins a letter to itself.
#[derive(PartialEq, Eq, Structural, Clone, Copy, Debug)]
pub enum PlugboardError {
    TooMany(usize),
    Mapping,
    Duplicate,
}

/// One cable of the plugboard: it swaps two distinct letters.
#[derive(Debug)]
pub struct Plug(Character, Character);

impl Plug {
    pub closed spec fn pair(&self) -> (int, int) {
        (self.0.index(), self.1.index())
    }

    pub closed spec fn wf(&self) -> bool {
        self.0.wf() && self.1.wf() && self.0.index() != self.1.index()
    }

    pub proof fn lemma_wf(&self)
        requires
            self.wf(),
        ensures
            0 <= self.pair().0 < 26,
            0 <= self.pair().1 < 26,
            self.pair().0 != self.pair().1,
    {
    }

    pub fn try_from(value: (Character, Character)) -> (r: Result<Plug, PlugboardError>)
        requires
            value.0.wf(),
            value.1.wf(),
        ensures
            r is Ok <==> value.0 != value.1,
            r matches Ok(p) ==> p.wf() && p.pair() == (value.0.index(), value.1.index()),
            r matches Err(e) ==> e == PlugboardError::Duplicate,
    {
        if value.0 == value.1 {
            Err(PlugboardError::Duplicate)
        } else {
            Ok(Plug(value.0, value.1))
        }
    }
}

/// At most ten plugs, no letter used by two of them.
#[derive(Debug)]
pub struct Plugs(Vec<Plug>);

/// The letter pairs of a list of plugs.
pub open spec fn pairs_of(plugs: Seq<Plug>) -> Seq<(int, int)> {
    plugs.map_values(|p: Plug| p.pair())
}

impl Plugs {
    pub closed spec fn pairs(&self) -> Seq<(int, int)> {
        pairs_of(self.0@)
    }

    pub closed spec fn wf(&self) -> bool {
        &&& self.0@.len() <= 10
        &&& forall|k: int| 0 <= k < self.0@.len() ==> (#[trigger] self.0@[k]).wf()
        &&& plug_letters(self.pairs()).no_duplicates()
    }

    pub proof fn lemma_wf(&self)
        requires
            self.wf(),
        ensures
            self.pairs().len() <= 10,
            plug_letters(self.pairs()).no_duplicates(),
            forall|k: int| 0 <= k < plug_letters(self.pairs()).len() ==> 0 <= #[trigger] plug_letters(self.pairs())[k] < 26,
    {
        self.lemma_letters_in_range(self.0@.len() as int);
        assert(self.0@.take(self.0@.len() as int) =~= self.0@);
    }

    proof fn lemma_letters_in_range(&self, i: int)
        requires
            0 <= i <= self.0@.len(),
            forall|k: int| 0 <= k < self.0@.len() ==> (#[trigger] self.0@[k]).wf(),
        ensures
            forall|k: int| 0 <= k < plug_letters(pairs_of(self.0@.take(i))).len() ==>
                0 <= #[trigger] plug_letters(pairs_of(self.0@.take(i)))[k] < 26,
        decreases i,
    {
        if i > 0 {
            self.lemma_letters_in_range(i - 1);
            assert(pairs_of(self.0@.take(i)).drop_last() =~= pairs_of(self.0@.take(i - 1)));
            self.0@[i - 1].lemma_wf();
            lemma_plug_letters_len(pairs_of(self.0@.take(i - 1)));
        }
    }

    pub fn try_from(value: Vec<Plug>) -> (r: Result<Plugs, PlugboardError>)
        requires
            forall|k: int| 0 <= k < value@.len() ==> (#[trigger] value@[k]).wf(),
        ensures
            r is Ok <==> value@.len() <= 10 && plug_letters(pairs_of(value@)).no_duplicates(),
            r matches Ok(p) ==> p.wf() && p.pairs() == pairs_of(value@),
            r matches Err(PlugboardError::TooMany(n)) ==> value@.len() > 10 && n == value@.len(),
            r matches Err(PlugboardError::Mapping) ==> value@.len() <= 10
                && !plug_letters(pairs_of(value@)).no_duplicates(),
            !(r matches Err(PlugboardError::Duplicate)),
    {
        let len = value.len();
        if len > 10 {
            return Err(PlugboardError::TooMany(len));
        }
        let mut letters: Vec<u8> = Vec::new();
        let mut i: usize = 0;
        while i < len
            invariant
                len == value@.len(),
                forall|k: int| 0 <= k < value@.len() ==> (#[trigger] value@[k]).wf(),
                i <= len,
                letters@.map_values(|x: u8| x as int) == plug_letters(pairs_of(value@.take(i as int))),
                forall|k: int| 0 <= k < letters@.len() ==> (#[trigger] letters@[k] as int) < 26,
            decreases len - i,
        {
            let plug = &value[i];
            letters.push(plug.0.get_offset());
            letters.push(plug.1.get_offset());
            proof {
                assert(pairs_of(value@.take(i + 1)).drop_last() =~= pairs_of(value@.take(i as int)));
                assert(letters@.map_values(|x: u8| x as int) =~= plug_letters(pairs_of(value@.take(i + 1))));
            }
            i = i + 1;
        }
        let ghost flat = plug_letters(pairs_of(value@));
        proof {
            assert(value@.take(len as int) =~= value@);
            lemma_distinct_below(letters@, 26);
            if flat.no_duplicates() {
                assert(letters@.no_duplicates()) by {
                    assert forall|a: int, b: int| 0 <= a < letters@.len() && 0 <= b < letters@.len() && a != b
                        implies letters@[a] != letters@[b] by {
                        assert(flat[a] != flat[b]);
                    }
                }
                letters@.unique_seq_to_set();
            }
        }
        if count_distinct(&letters) != letters.len() {
            return Err(PlugboardError::Mapping);
        }
        proof {
            letters@.lemma_no_dup_set_cardinality();
            assert forall|a: int, b: int| 0 <= a < flat.len() && 0 <= b < flat.len() && a != b
                implies flat[a] != flat[b] by {
                assert(letters@[a] != letters@[b]);
            }
        }
        Ok(Plugs(value))
    }
}

/// The substitution that the plugs make, applied before and after the rotors.
pub struct Plugboard {
    cipher: Cipher,
}

impl Plugboard {
    pub closed spec fn table(&self) -> Seq<int> {
        self.cipher@
    }

    pub closed spec fn wf(&self) -> bool {
        &&& self.cipher.wf()
        &&& forall|c: int| 0 <= c < 26 ==> self.cipher@[#[trigger] self.cipher@[c]] == c
    }

    pub proof fn lemma_wf(&self)
        requires
            self.wf(),
        ensures
            is_permutation(self.table()),
            forall|c: int| 0 <= c < 26 ==> self.table()[#[trigger] self.table()[c]] == c,
            forall|j: int| 0 <= j < 26 ==> 0 <= #[trigger] preimage(self.table(), j) < 26 && self.table()[preimage(self.table(), j)] == j,
            forall|i: int| 0 <= i < 26 ==> #[trigger] preimage(self.table(), self.table()[i]) == i,
    {
        self.cipher.lemma_permutation();
    }

    /// Builds the plugboard: each plug swaps its two letters, every other
    /// letter stays.
    pub fn try_from(value: Plugs) -> (r: Result<Plugboard, CipherError>)
        requires
            value.wf(),
        ensures
            r matches Ok(pb) && pb.wf() && pb.table() == plug_table(value.pairs()),
    {
        proof {
            value.lemma_wf();
        }
        let ghost pairs = value.pairs();
        let mut table: Vec<u8> = Vec::new();
        let mut c: u8 = 0;
        while c < 26
            invariant
                c <= 26,
                table@.len() == c,
                forall|k: int| 0 <= k < c ==> #[trigger] table@[k] == k,
            decreases 26 - c,
        {
            table.push(c);
            c = c + 1;
        }
        let plugs = &value.0;
        let mut i: usize = 0;
        while i < plugs.len()
            invariant
                value.wf(),
                pairs == value.pairs(),
                plugs@ == value.0@,
                i <= plugs@.len(),
                table@.len() == 26,
                forall|k: int| 0 <= k < 26 ==> #[trigger] table@[k] as int == plugged(pairs.take(i as int), k),
            decreases plugs@.len() - i,
        {
            let a = plugs[i].0.get_offset();
            let b = plugs[i].1.get_offset();
            proof {
                plugs@[i as int].lemma_wf();
            }
            table.set(a as usize, b);
            table.set(b as usize, a);
            proof {
                assert(pairs.take(i + 1).drop_last() =~= pairs.take(i as int));
                assert(pairs.take(i + 1).last() == (a as int, b as int));
            }
            i = i + 1;
        }
        proof {
            assert(pairs.take(plugs@.len() as int) =~= pairs);
        }
        let mut letters: Vec<Character> = Vec::new();
        let mut k: usize = 0;
        while k < 26
            invariant
                table@.len() == 26,
                forall|j: int| 0 <= j < 26 ==> #[trigger] table@[j] as int == plugged(pairs, j),
                plug_letters(pairs).no_duplicates(),
                forall|j: int| 0 <= j < plug_letters(pairs).len() ==> 0 <= #[trigger] plug_letters(pairs)[j] < 26,
                k <= 26,
                letters@.len() == k,
                forall|j: int| 0 <= j < k ==> (#[trigger] letters@[j]).wf() && letters@[j].index() == table@[j],
            decreases 26 - k,
        {
            proof {
                lemma_plugged_involution(pairs, k as int);
            }
            letters.push(Character::from_offset(table[k]));
            k = k + 1;
        }
        let ghost t = letters@.map_values(|c: Character| c.index());
        proof {
            assert forall|a: int, b: int| 0 <= a < 26 && 0 <= b < 26 && a != b implies t[a] != t[b] by {
                lemma_plugged_involution(pairs, a);
                lemma_plugged_involution(pairs, b);
            }
            assert(t =~= plug_table(pairs));
            assert forall|c: int| 0 <= c < 26 implies t[#[trigger] t[c]] == c by {
                lemma_plugged_involution(pairs, c);
            }
        }
        match Cipher::try_from(letters) {
            Ok(cipher) => Ok(Plugboard { cipher }),
            Err(e) => Err(e),
        }
    }
}

impl Encode for Plugboard {
    open spec fn encodes(&self) -> bool {
        self.wf()
    }

    open spec fn encode_spec(&self, c: int) -> int {
        self.table()[c]
    }

    fn encode(&self, c: Character) -> (r: Character) {
        self.cipher.encode(c)
    }
}

impl Decode for Plugboard {
    open spec fn decodes(&self) -> bool {
        self.wf()
    }

    open spec fn decode_spec(&self, c: int) -> int {
        preimage(self.table(), c)
    }

    fn decode(&self, c: Character) -> (r: Character) {
        self.cipher.decode(c)
    }
}

/// The plugboard's substitution is its own inverse, so decoding through it
/// is the same as encoding.
pub proof fn lemma_plugboard_involution(pb: &Plugboard, c: int)
    requires
        pb.wf(),
        0 <= c < 26,
    ensures
        0 <= pb.encode_spec(c) < 26,
        pb.encode_spec(pb.encode_spec(c)) == c,
        pb.decode_spec(c) == pb.encode_spec(c),
{
    pb.lemma_wf();
    let t = pb.table();
    assert(t[preimage(t, c)] == c);
    assert(t[t[c]] == c);
}

} // verus!

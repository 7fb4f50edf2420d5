use crate::cipher::table_of;
use crate::common::{is_letter, letter_index, Character, ParsingError};
use crate::enigma::Enigma;
use crate::plugboard::{pairs_of, plug_letters, plug_table, Plug, Plugboard, PlugboardError, Plugs};
use crate::reflector::Reflectors;
use crate::rotor::{distinct_rotors, is_catalog_rotor, RotorConfig, RotorError, Rotors};
use vstd::prelude::*;

verus! {

broadcast use Character::lemma_index_injective;

/// The settings of a machine: which reflector, which rotors at which
/// starting letters, and which letter pairs the plugboard swaps.
pub struct Config {
    pub reflector: Reflectors,
    pub rotors: [(Rotors, char); 3],
    pub plugs: Vec<(char, char)>,
}

/// Why a configuration does not describe a machine.
#[derive(PartialEq, Eq, Structural, Clone, Copy, Debug)]
pub enum ConfigError {
    Rotor(RotorError),
    Character(ParsingError),
    Plug(PlugboardError),
}

/// The letter pairs of the plugs, as places in the alphabet.
pub open spec fn config_pairs(plugs: Seq<(char, char)>) -> Seq<(int, int)> {
    plugs.map_values(|p: (char, char)| (letter_index(p.0), letter_index(p.1)))
}

pub open spec fn valid_rotor_settings(rotors: [(Rotors, char); 3]) -> bool {
    distinct_rotors(rotors) && forall|k: int| 0 <= k < 3 ==> is_letter(#[trigger] rotors@[k].1)
}

/// Every plug joins two letters.
pub open spec fn plugs_are_letters(plugs: Seq<(char, char)>) -> bool {
    forall|i: int| 0 <= i < plugs.len() ==> is_letter((#[trigger] plugs[i]).0) && is_letter(plugs[i].1)
}

/// No plug joins a letter to itself.
pub open spec fn plugs_are_pairs(plugs: Seq<(char, char)>) -> bool {
    forall|i: int| 0 <= i < plugs.len() ==> letter_index((#[trigger] plugs[i]).0) != letter_index(plugs[i].1)
}

pub open spec fn valid_config(c: Config) -> bool {
    &&& valid_rotor_settings(c.rotors)
    &&& plugs_are_letters(c.plugs@)
    &&& plugs_are_pairs(c.plugs@)
    &&& c.plugs@.len() <= 10
    &&& plug_letters(config_pairs(c.plugs@)).no_duplicates()
}

impl Enigma {
    /// Builds the machine that a configuration describes.
    pub fn try_from(value: Config) -> (r: Result<Enigma, ConfigError>)
        ensures
            r is Ok <==> valid_config(value),
            r matches Ok(e) ==> {
                &&& e.wf()
                &&& e.reflector().table() == table_of(value.reflector.spec_wiring())
                &&& forall|k: int| 0 <= k < 3 ==> is_catalog_rotor(
                    #[trigger] e.rotors().rotors()[k],
                    value.rotors@[k].0,
                    value.rotors@[k].1,
                )
                &&& e.plugboard().table() == plug_table(config_pairs(value.plugs@))
            },
            r matches Err(ConfigError::Rotor(_)) ==> !valid_rotor_settings(value.rotors),
            r matches Err(ConfigError::Character(e)) ==> valid_rotor_settings(value.rotors) && exists|i: int|
                0 <= i < value.plugs@.len() && ({
                    let (a, b) = #[trigger] value.plugs@[i];
                    (e == ParsingError::Charset(a) && !is_letter(a)) || (e == ParsingError::Charset(b)
                        && !is_letter(b))
                }),
            r matches Err(ConfigError::Plug(PlugboardError::Duplicate)) ==> valid_rotor_settings(value.rotors)
                && exists|i: int| 0 <= i < value.plugs@.len() && ({
                    let (a, b) = #[trigger] value.plugs@[i];
                    is_letter(a) && is_letter(b) && letter_index(a) == letter_index(b)
                }),
            r matches Err(ConfigError::Plug(PlugboardError::TooMany(n))) ==> valid_rotor_settings(value.rotors)
                && plugs_are_letters(value.plugs@) && plugs_are_pairs(value.plugs@) && n == value.plugs@.len()
                && n > 10,
            r matches Err(ConfigError::Plug(PlugboardError::Mapping)) ==> valid_rotor_settings(value.rotors)
                && plugs_are_letters(value.plugs@) && plugs_are_pairs(value.plugs@) && value.plugs@.len() <= 10
                && !plug_letters(config_pairs(value.plugs@)).no_duplicates(),
    {
        let rotor_config = match RotorConfig::try_from(value.rotors) {
            Ok(rc) => rc,
            Err(e) => {
                return Err(ConfigError::Rotor(e));
            },
        };
        let mut plugs: Vec<Plug> = Vec::new();
        let mut i: usize = 0;
        while i < value.plugs.len()
            invariant
                i <= value.plugs@.len(),
                plugs@.len() == i,
                valid_rotor_settings(value.rotors),
                plugs_are_letters(value.plugs@.take(i as int)),
                plugs_are_pairs(value.plugs@.take(i as int)),
                forall|k: int| 0 <= k < i ==> (#[trigger] plugs@[k]).wf(),
                pairs_of(plugs@) == config_pairs(value.plugs@.take(i as int)),
            decreases value.plugs@.len() - i,
        {
            let (l, r) = value.plugs[i];
            let left = match Character::try_from(l) {
                Ok(c) => c,
                Err(e) => {
                    return Err(ConfigError::Character(e));
                },
            };
            let right = match Character::try_from(r) {
                Ok(c) => c,
                Err(e) => {
                    return Err(ConfigError::Character(e));
                },
            };
            let plug = match Plug::try_from((left, right)) {
                Ok(p) => p,
                Err(e) => {
                    proof {
                        assert(value.plugs@[i as int] == (l, r));
                        assert(left == right);
                    }
                    return Err(ConfigError::Plug(e));
                },
            };
            let ghost before = plugs@;
            plugs.push(plug);
            proof {
                assert(plugs@ == before.push(plug));
                assert forall|k: int| 0 <= k < i implies pairs_of(plugs@)[k] == pairs_of(before)[k] by {}
                assert(pairs_of(plugs@)[i as int] == (letter_index(l), letter_index(r)));
                let t = value.plugs@.take(i + 1);
                assert(t.drop_last() =~= value.plugs@.take(i as int));
                assert(t[i as int] == (l, r));
                assert(left != right);
                assert forall|k: int| 0 <= k < t.len() implies is_letter((#[trigger] t[k]).0) && is_letter(t[k].1)
                    && letter_index(t[k].0) != letter_index(t[k].1) by {
                    if k < i {
                        assert(t[k] == value.plugs@.take(i as int)[k]);
                    }
                }
                assert forall|k: int| 0 <= k < i implies config_pairs(t)[k] == config_pairs(value.plugs@.take(i as int))[k] by {
                    assert(t[k] == value.plugs@.take(i as int)[k]);
                }
                assert(pairs_of(plugs@) =~= config_pairs(t));
            }
            i = i + 1;
        }
        proof {
            assert(value.plugs@.take(value.plugs@.len() as int) =~= value.plugs@);
        }
        let plugs = match Plugs::try_from(plugs) {
            Ok(p) => p,
            Err(e) => {
                return Err(ConfigError::Plug(e));
            },
        };
        let plugboard = match Plugboard::try_from(plugs) {
            Ok(pb) => pb,
            Err(_) => vstd::pervasive::unreached(),
        };
        Ok(Enigma::new(rotor_config, plugboard, value.reflector))
    }
}

} // verus!

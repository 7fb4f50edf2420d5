//! A rotor cipher machine over the 26 letters: plugboard, a chain of three
//! rotors, and a reflector. The rotor offsets for the character at index `n`
//! of a message are computed in closed form, so every character can be
//! encoded on its own and a message can be encoded in parallel.

pub mod cipher;
pub mod common;
pub mod config;
pub mod enigma;
pub mod plugboard;
pub mod reflector;
pub mod rotor;

//! A bit-exact model of the three-rotor Enigma cipher machine together with a
//! ciphertext-only attack on it.
//!
//! [`enigma`] holds the machine itself: rotors, reflectors, the plugboard and
//! the stepping and substitution of one letter at a time. [`analysis`] holds the
//! three search stages that recover a key from a ciphertext, and the fitness
//! functions that drive them. [`text`] holds what both ask of a text: that it
//! is made of upper-case letters.
pub mod analysis;
pub mod enigma;
pub mod text;

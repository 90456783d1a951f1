//! The cipher machine: rotor and reflector wirings, the plugboard, and the
//! stepping and substitution performed for every letter.
use crate::text::{
    clear_string, is_upper, is_upper_text, lemma_upper_text_bytes, letter_char, letter_index,
    push_char,
};
use vstd::prelude::*;
use vstd::string::StringExecFns;

verus! {

/// A letter index is a value in `0..26`, where 0 stands for `A` and 25 for `Z`.
pub open spec fn is_letter(c: int) -> bool {
    0 <= c < 26
}

/// The table that maps every letter index to itself.
pub open spec fn identity_table() -> Seq<u8> {
    Seq::new(26, |i: int| i as u8)
}

/// A table with one entry per letter, each entry a letter index.
pub open spec fn is_table(w: Seq<u8>) -> bool {
    &&& w.len() == 26
    &&& forall|i: int| 0 <= i < 26 ==> #[trigger] w[i] < 26
}

/// `b` undoes `f` and `f` undoes `b`: the two tables are permutations of the
/// alphabet and inverse to each other.
pub open spec fn are_inverse_tables(f: Seq<u8>, b: Seq<u8>) -> bool {
    &&& is_table(f)
    &&& is_table(b)
    &&& forall|i: int| 0 <= i < 26 ==> b[#[trigger] f[i] as int] == i
    &&& forall|i: int| 0 <= i < 26 ==> f[#[trigger] b[i] as int] == i
}

/// A table that is its own inverse.
pub open spec fn is_involution(w: Seq<u8>) -> bool {
    &&& is_table(w)
    &&& forall|i: int| 0 <= i < 26 ==> w[#[trigger] w[i] as int] == i
}

/// The table that a row of 26 upper-case letters stands for.
pub open spec fn table_of_letters(letters: Seq<char>) -> Seq<u8> {
    Seq::new(26, |i: int| letter_index(letters[i]) as u8)
}

/// The wheels that can be put into the machine.
#[derive(Debug, Copy, Clone, PartialEq, Eq, Structural)]
pub enum RotorId {
    I,
    II,
    III,
    IV,
    V,
    VI,
    VII,
    VIII,
    Identity,
}

impl RotorId {
    /// The wiring of the wheel, written as the letters that `A..Z` are
    /// replaced by on the way towards the reflector.
    pub open spec fn letters(self) -> Seq<char> {
        match self {
            RotorId::I => seq![
                'E', 'K', 'M', 'F', 'L', 'G', 'D', 'Q', 'V', 'Z', 'N', 'T', 'O',
                'W', 'Y', 'H', 'X', 'U', 'S', 'P', 'A', 'I', 'B', 'R', 'C', 'J',
            ],
            RotorId::II => seq![
                'A', 'J', 'D', 'K', 'S', 'I', 'R', 'U', 'X', 'B', 'L', 'H', 'W',
                'T', 'M', 'C', 'Q', 'G', 'Z', 'N', 'P', 'Y', 'F', 'V', 'O', 'E',
            ],
            RotorId::III => seq![
                'B', 'D', 'F', 'H', 'J', 'L', 'C', 'P', 'R', 'T', 'X', 'V', 'Z',
                'N', 'Y', 'E', 'I', 'W', 'G', 'A', 'K', 'M', 'U', 'S', 'Q', 'O',
            ],
            RotorId::IV => seq![
                'E', 'S', 'O', 'V', 'P', 'Z', 'J', 'A', 'Y', 'Q', 'U', 'I', 'R',
                'H', 'X', 'L', 'N', 'F', 'T', 'G', 'K', 'D', 'C', 'M', 'W', 'B',
            ],
            RotorId::V => seq![
                'V', 'Z', 'B', 'R', 'G', 'I', 'T', 'Y', 'U', 'P', 'S', 'D', 'N',
                'H', 'L', 'X', 'A', 'W', 'M', 'J', 'Q', 'O', 'F', 'E', 'C', 'K',
            ],
            RotorId::VI => seq![
                'J', 'P', 'G', 'V', 'O', 'U', 'M', 'F', 'Y', 'Q', 'B', 'E', 'N',
                'H', 'Z', 'R', 'D', 'K', 'A', 'S', 'X', 'L', 'I', 'C', 'T', 'W',
            ],
            RotorId::VII => seq![
                'N', 'Z', 'J', 'H', 'G', 'R', 'C', 'X', 'M', 'Y', 'S', 'W', 'B',
                'O', 'U', 'F', 'A', 'I', 'V', 'L', 'P', 'E', 'K', 'Q', 'D', 'T',
            ],
            RotorId::VIII => seq![
                'F', 'K', 'Q', 'H', 'T', 'L', 'X', 'O', 'C', 'B', 'J', 'S', 'P',
                'D', 'Z', 'R', 'A', 'M', 'E', 'W', 'N', 'I', 'U', 'Y', 'G', 'V',
            ],
            RotorId::Identity => seq![
                'A', 'B', 'C', 'D', 'E', 'F', 'G', 'H', 'I', 'J', 'K', 'L', 'M',
                'N', 'O', 'P', 'Q', 'R', 'S', 'T', 'U', 'V', 'W', 'X', 'Y', 'Z',
            ],
        }
    }

    /// The wiring of the wheel on the way back from the reflector.
    pub open spec fn return_letters(self) -> Seq<char> {
        match self {
            RotorId::I => seq![
                'U', 'W', 'Y', 'G', 'A', 'D', 'F', 'P', 'V', 'Z', 'B', 'E', 'C',
                'K', 'M', 'T', 'H', 'X', 'S', 'L', 'R', 'I', 'N', 'Q', 'O', 'J',
            ],
            RotorId::II => seq![
                'A', 'J', 'P', 'C', 'Z', 'W', 'R', 'L', 'F', 'B', 'D', 'K', 'O',
                'T', 'Y', 'U', 'Q', 'G', 'E', 'N', 'H', 'X', 'M', 'I', 'V', 'S',
            ],
            RotorId::III => seq![
                'T', 'A', 'G', 'B', 'P', 'C', 'S', 'D', 'Q', 'E', 'U', 'F', 'V',
                'N', 'Z', 'H', 'Y', 'I', 'X', 'J', 'W', 'L', 'R', 'K', 'O', 'M',
            ],
            RotorId::IV => seq![
                'H', 'Z', 'W', 'V', 'A', 'R', 'T', 'N', 'L', 'G', 'U', 'P', 'X',
                'Q', 'C', 'E', 'J', 'M', 'B', 'S', 'K', 'D', 'Y', 'O', 'I', 'F',
            ],
            RotorId::V => seq![
                'Q', 'C', 'Y', 'L', 'X', 'W', 'E', 'N', 'F', 'T', 'Z', 'O', 'S',
                'M', 'V', 'J', 'U', 'D', 'K', 'G', 'I', 'A', 'R', 'P', 'H', 'B',
            ],
            RotorId::VI => seq![
                'S', 'K', 'X', 'Q', 'L', 'H', 'C', 'N', 'W', 'A', 'R', 'V', 'G',
                'M', 'E', 'B', 'J', 'P', 'T', 'Y', 'F', 'D', 'Z', 'U', 'I', 'O',
            ],
            RotorId::VII => seq![
                'Q', 'M', 'G', 'Y', 'V', 'P', 'E', 'D', 'R', 'C', 'W', 'T', 'I',
                'A', 'N', 'U', 'X', 'F', 'K', 'Z', 'O', 'S', 'L', 'H', 'J', 'B',
            ],
            RotorId::VIII => seq![
                'Q', 'J', 'I', 'N', 'S', 'A', 'Y', 'D', 'V', 'K', 'B', 'F', 'R',
                'U', 'H', 'M', 'C', 'P', 'L', 'E', 'W', 'Z', 'T', 'G', 'X', 'O',
            ],
            RotorId::Identity => seq![
                'A', 'B', 'C', 'D', 'E', 'F', 'G', 'H', 'I', 'J', 'K', 'L', 'M',
                'N', 'O', 'P', 'Q', 'R', 'S', 'T', 'U', 'V', 'W', 'X', 'Y', 'Z',
            ],
        }
    }

    /// The substitution towards the reflector as a table of letter indices.
    pub open spec fn forward_table(self) -> Seq<u8> {
        table_of_letters(self.letters())
    }

    /// The substitution back from the reflector as a table of letter indices.
    pub open spec fn backward_table(self) -> Seq<u8> {
        table_of_letters(self.return_letters())
    }

    /// Whether a wheel of this kind standing at `position` carries the next
    /// wheel along on the following key press.
    pub open spec fn notch_at(self, position: int) -> bool {
        match self {
            RotorId::I => position == 16,
            RotorId::II => position == 4,
            RotorId::III => position == 21,
            RotorId::IV => position == 9,
            RotorId::V => position == 25,
            RotorId::VI => position == 12 || position == 25,
            RotorId::VII => position == 12 || position == 25,
            RotorId::VIII => position == 12 || position == 25,
            RotorId::Identity => position == 0,
        }
    }

    /// The name of the wheel.
    pub open spec fn name_text(self) -> Seq<char> {
        match self {
            RotorId::I => "I"@,
            RotorId::II => "II"@,
            RotorId::III => "III"@,
            RotorId::IV => "IV"@,
            RotorId::V => "V"@,
            RotorId::VI => "VI"@,
            RotorId::VII => "VII"@,
            RotorId::VIII => "VIII"@,
            RotorId::Identity => "Identity"@,
        }
    }

    /// The two tables of every wheel are permutations of the alphabet and
    /// inverse to each other.
    pub proof fn lemma_tables_inverse(self)
        ensures
            are_inverse_tables(self.forward_table(), self.backward_table()),
    {
    }

    /// The name of the wheel, as it is written in a key.
    pub fn name(self) -> (r: &'static str)
        ensures
            r@ == self.name_text(),
    {
        match self {
            RotorId::I => "I",
            RotorId::II => "II",
            RotorId::III => "III",
            RotorId::IV => "IV",
            RotorId::V => "V",
            RotorId::VI => "VI",
            RotorId::VII => "VII",
            RotorId::VIII => "VIII",
            RotorId::Identity => "Identity",
        }
    }

    /// Whether a wheel of this kind standing at `position` is at a notch.
    pub fn is_at_notch(self, position: u8) -> (r: bool)
        ensures
            r == self.notch_at(position as int),
    {
        match self {
            RotorId::I => position == 16,
            RotorId::II => position == 4,
            RotorId::III => position == 21,
            RotorId::IV => position == 9,
            RotorId::V => position == 25,
            RotorId::VI => position == 12 || position == 25,
            RotorId::VII => position == 12 || position == 25,
            RotorId::VIII => position == 12 || position == 25,
            RotorId::Identity => position == 0,
        }
    }

    /// The table of the wheel on the way towards the reflector.
    pub fn forward_wiring(self) -> (w: [u8; 26])
        ensures
            w@ == self.forward_table(),
    {
        match self {
            RotorId::I => [
                4, 10, 12, 5, 11, 6, 3, 16, 21, 25, 13, 19, 14,
                22, 24, 7, 23, 20, 18, 15, 0, 8, 1, 17, 2, 9,
            ],
            RotorId::II => [
                0, 9, 3, 10, 18, 8, 17, 20, 23, 1, 11, 7, 22,
                19, 12, 2, 16, 6, 25, 13, 15, 24, 5, 21, 14, 4,
            ],
            RotorId::III => [
                1, 3, 5, 7, 9, 11, 2, 15, 17, 19, 23, 21, 25,
                13, 24, 4, 8, 22, 6, 0, 10, 12, 20, 18, 16, 14,
            ],
            RotorId::IV => [
                4, 18, 14, 21, 15, 25, 9, 0, 24, 16, 20, 8, 17,
                7, 23, 11, 13, 5, 19, 6, 10, 3, 2, 12, 22, 1,
            ],
            RotorId::V => [
                21, 25, 1, 17, 6, 8, 19, 24, 20, 15, 18, 3, 13,
                7, 11, 23, 0, 22, 12, 9, 16, 14, 5, 4, 2, 10,
            ],
            RotorId::VI => [
                9, 15, 6, 21, 14, 20, 12, 5, 24, 16, 1, 4, 13,
                7, 25, 17, 3, 10, 0, 18, 23, 11, 8, 2, 19, 22,
            ],
            RotorId::VII => [
                13, 25, 9, 7, 6, 17, 2, 23, 12, 24, 18, 22, 1,
                14, 20, 5, 0, 8, 21, 11, 15, 4, 10, 16, 3, 19,
            ],
            RotorId::VIII => [
                5, 10, 16, 7, 19, 11, 23, 14, 2, 1, 9, 18, 15,
                3, 25, 17, 0, 12, 4, 22, 13, 8, 20, 24, 6, 21,
            ],
            RotorId::Identity => [
                0, 1, 2, 3, 4, 5, 6, 7, 8, 9, 10, 11, 12,
                13, 14, 15, 16, 17, 18, 19, 20, 21, 22, 23, 24, 25,
            ],
        }
    }

    /// The table of the wheel on the way back from the reflector.
    pub fn backward_wiring(self) -> (w: [u8; 26])
        ensures
            w@ == self.backward_table(),
    {
        match self {
            RotorId::I => [
                20, 22, 24, 6, 0, 3, 5, 15, 21, 25, 1, 4, 2,
                10, 12, 19, 7, 23, 18, 11, 17, 8, 13, 16, 14, 9,
            ],
            RotorId::II => [
                0, 9, 15, 2, 25, 22, 17, 11, 5, 1, 3, 10, 14,
                19, 24, 20, 16, 6, 4, 13, 7, 23, 12, 8, 21, 18,
            ],
            RotorId::III => [
                19, 0, 6, 1, 15, 2, 18, 3, 16, 4, 20, 5, 21,
                13, 25, 7, 24, 8, 23, 9, 22, 11, 17, 10, 14, 12,
            ],
            RotorId::IV => [
                7, 25, 22, 21, 0, 17, 19, 13, 11, 6, 20, 15, 23,
                16, 2, 4, 9, 12, 1, 18, 10, 3, 24, 14, 8, 5,
            ],
            RotorId::V => [
                16, 2, 24, 11, 23, 22, 4, 13, 5, 19, 25, 14, 18,
                12, 21, 9, 20, 3, 10, 6, 8, 0, 17, 15, 7, 1,
            ],
            RotorId::VI => [
                18, 10, 23, 16, 11, 7, 2, 13, 22, 0, 17, 21, 6,
                12, 4, 1, 9, 15, 19, 24, 5, 3, 25, 20, 8, 14,
            ],
            RotorId::VII => [
                16, 12, 6, 24, 21, 15, 4, 3, 17, 2, 22, 19, 8,
                0, 13, 20, 23, 5, 10, 25, 14, 18, 11, 7, 9, 1,
            ],
            RotorId::VIII => [
                16, 9, 8, 13, 18, 0, 24, 3, 21, 10, 1, 5, 17,
                20, 7, 12, 2, 15, 11, 4, 22, 25, 19, 6, 23, 14,
            ],
            RotorId::Identity => [
                0, 1, 2, 3, 4, 5, 6, 7, 8, 9, 10, 11, 12,
                13, 14, 15, 16, 17, 18, 19, 20, 21, 22, 23, 24, 25,
            ],
        }
    }
}

/// The reflectors that can close the circuit behind the leftmost wheel.
#[derive(Debug, Copy, Clone, PartialEq, Eq, Structural)]
pub enum ReflectorId {
    B,
    C,
    Identity,
}

impl ReflectorId {
    /// The wiring of the reflector, written as the letters that `A..Z` are
    /// replaced by.
    pub open spec fn letters(self) -> Seq<char> {
        match self {
            ReflectorId::B => seq![
                'Y', 'R', 'U', 'H', 'Q', 'S', 'L', 'D', 'P', 'X', 'N', 'G', 'O',
                'K', 'M', 'I', 'E', 'B', 'F', 'Z', 'C', 'W', 'V', 'J', 'A', 'T',
            ],
            ReflectorId::C => seq![
                'F', 'V', 'P', 'J', 'I', 'A', 'O', 'Y', 'E', 'D', 'R', 'Z', 'X',
                'W', 'G', 'C', 'T', 'K', 'U', 'Q', 'S', 'B', 'N', 'M', 'H', 'L',
            ],
            ReflectorId::Identity => seq![
                'Z', 'Y', 'X', 'W', 'V', 'U', 'T', 'S', 'R', 'Q', 'P', 'O', 'N',
                'M', 'L', 'K', 'J', 'I', 'H', 'G', 'F', 'E', 'D', 'C', 'B', 'A',
            ],
        }
    }

    /// The substitution of the reflector as a table of letter indices.
    pub open spec fn table(self) -> Seq<u8> {
        table_of_letters(self.letters())
    }

    /// Every reflector pairs the letters up: sending a letter through it twice
    /// gives the letter back, and no letter is sent to itself.
    pub proof fn lemma_reflector_pairs(self)
        ensures
            is_involution(self.table()),
            forall|x: int| 0 <= x < 26 ==> #[trigger] self.table()[x] != x,
    {
    }

    /// The table of the reflector.
    pub fn wiring(self) -> (w: [u8; 26])
        ensures
            w@ == self.table(),
    {
        match self {
            ReflectorId::B => [
                24, 17, 20, 7, 16, 18, 11, 3, 15, 23, 13, 6, 14,
                10, 12, 8, 4, 1, 5, 25, 2, 22, 21, 9, 0, 19,
            ],
            ReflectorId::C => [
                5, 21, 15, 9, 8, 0, 14, 24, 4, 3, 17, 25, 23,
                22, 6, 2, 19, 10, 20, 16, 18, 1, 13, 12, 7, 11,
            ],
            ReflectorId::Identity => [
                25, 24, 23, 22, 21, 20, 19, 18, 17, 16, 15, 14, 13,
                12, 11, 10, 9, 8, 7, 6, 5, 4, 3, 2, 1, 0,
            ],
        }
    }

    /// The letter that the reflector sends `c` back as.
    pub fn forward(self, c: u8) -> (r: u8)
        requires
            c < 26,
        ensures
            r == self.table()[c as int],
            r < 26,
    {
        let w = self.wiring();
        w[c as usize]
    }
}

/// The substitution of one wheel: the table is entered at the letter moved on
/// by the wheel's offset, and the offset is taken off again on leaving.
pub open spec fn encypher_spec(c: int, pos: int, ring: int, mapping: Seq<u8>) -> int {
    let shift = (pos - ring) % 26;
    let idx = (c + shift) % 26;
    (mapping[idx] - shift) % 26
}

/// A wheel as plain values: its kind, the position it stands at and its ring
/// setting.
pub struct RotorView {
    pub id: RotorId,
    pub position: int,
    pub ring: int,
}

impl RotorView {
    /// Position and ring setting are letter indices.
    pub open spec fn wf(self) -> bool {
        is_letter(self.position) && is_letter(self.ring)
    }

    /// The substitution on the way towards the reflector.
    pub open spec fn forward(self, c: int) -> int {
        encypher_spec(c, self.position, self.ring, self.id.forward_table())
    }

    /// The substitution on the way back from the reflector.
    pub open spec fn backward(self, c: int) -> int {
        encypher_spec(c, self.position, self.ring, self.id.backward_table())
    }

    /// Whether the wheel stands at one of its notches.
    pub open spec fn at_notch(self) -> bool {
        self.id.notch_at(self.position)
    }

    /// The wheel moved on by one position.
    pub open spec fn turned(self) -> RotorView {
        RotorView { id: self.id, position: (self.position + 1) % 26, ring: self.ring }
    }

    /// On every wheel, at every position and ring setting, the way back undoes
    /// the way forward and the way forward undoes the way back.
    pub proof fn lemma_forward_backward(self, c: int)
        requires
            self.wf(),
            is_letter(c),
        ensures
            is_letter(self.forward(c)),
            is_letter(self.backward(c)),
            self.backward(self.forward(c)) == c,
            self.forward(self.backward(c)) == c,
    {
        let f = self.id.forward_table();
        let b = self.id.backward_table();
        self.id.lemma_tables_inverse();
        lemma_encypher_inverse(c, self.position, self.ring, f, b);
        lemma_encypher_inverse(c, self.position, self.ring, b, f);
    }
}

/// Reducing a value modulo 26 that is at most one turn off takes one
/// comparison and one addition or subtraction.
proof fn lemma_wrap(x: int)
    requires
        -26 <= x < 52,
    ensures
        x % 26 == if x < 0 {
            x + 26
        } else if x < 26 {
            x
        } else {
            x - 26
        },
{
}

/// Through a pair of inverse tables, at one position and ring setting, the
/// second substitution undoes the first.
pub proof fn lemma_encypher_inverse(c: int, pos: int, ring: int, f: Seq<u8>, b: Seq<u8>)
    requires
        is_letter(c),
        is_letter(pos),
        is_letter(ring),
        are_inverse_tables(f, b),
    ensures
        is_letter(encypher_spec(c, pos, ring, f)),
        encypher_spec(encypher_spec(c, pos, ring, f), pos, ring, b) == c,
{
    let shift = (pos - ring) % 26;
    let idx = (c + shift) % 26;
    let v = f[idx] as int;
    assert(0 <= v < 26);
    let r = (v - shift) % 26;
    assert((r + shift) % 26 == v);
    assert(b[v] == idx);
    assert((idx - shift) % 26 == c);
}

/// The decimal digit for a number below ten.
pub open spec fn digit_char(d: int) -> char {
    (d + '0' as int) as char
}

/// A number below a hundred, written in decimal digits without a leading
/// zero.
pub open spec fn number_text(n: int) -> Seq<char> {
    if n < 10 {
        seq![digit_char(n)]
    } else {
        seq![digit_char(n / 10), digit_char(n % 10)]
    }
}

/// A wheel written out: its name, its position and its ring setting, with a
/// blank between them.
pub open spec fn rotor_text(r: RotorView) -> Seq<char> {
    r.id.name_text() + seq![' '] + number_text(r.position) + seq![' '] + number_text(r.ring)
}

/// Writes a number below a hundred at the end of a string.
fn push_number(s: &mut String, n: u8)
    requires
        n < 100,
    ensures
        final(s)@ == old(s)@ + number_text(n as int),
{
    if n >= 10 {
        push_char(s, (n / 10 + 48u8) as char);
    }
    push_char(s, (n % 10 + 48u8) as char);
}

/// One wheel in the machine.
#[derive(Debug, Clone, Copy)]
pub struct Rotor {
    id: RotorId,
    rotor_position: u8,
    ring_setting: u8,
}

impl View for Rotor {
    type V = RotorView;

    closed spec fn view(&self) -> RotorView {
        RotorView {
            id: self.id,
            position: self.rotor_position as int,
            ring: self.ring_setting as int,
        }
    }
}

impl Rotor {
    /// Position and ring setting of a wheel are letter indices, always.
    #[verifier::type_invariant]
    pub open spec fn inv(self) -> bool {
        self@.wf()
    }

    /// A wheel of the given kind at the given position, with the given ring
    /// setting.
    pub fn new(id: RotorId, rotor_position: u8, ring_setting: u8) -> (r: Self)
        requires
            rotor_position < 26,
            ring_setting < 26,
        ensures
            r@ == (RotorView { id, position: rotor_position as int, ring: ring_setting as int }),
    {
        Self { id, rotor_position, ring_setting }
    }

    /// Whether the wheel stands at one of its notches.
    pub fn is_at_notch(&self) -> (r: bool)
        ensures
            r == self@.at_notch(),
    {
        self.id.is_at_notch(self.rotor_position)
    }

    /// Moves the wheel on by one position; behind `Z` comes `A`.
    pub fn turnover(&mut self)
        ensures
            final(self)@ == old(self)@.turned(),
    {
        proof {
            use_type_invariant(&*self);
        }
        let next: u8 = self.rotor_position + 1;
        self.rotor_position = if next <= 25 {
            next
        } else {
            next - 26
        };
    }

    /// The substitution of a wheel at position `pos` with ring setting `ring`
    /// through the table `mapping`, without a division.
    pub fn encypher(c: u8, pos: u8, ring: u8, mapping: &[u8; 26]) -> (r: u8)
        requires
            c < 26,
            pos < 26,
            ring < 26,
            is_table(mapping@),
        ensures
            r == encypher_spec(c as int, pos as int, ring as int, mapping@),
            r < 26,
    {
        let shift: u8 = if pos >= ring {
            pos - ring
        } else {
            pos + 26 - ring
        };
        let sum: u8 = c + shift;
        let idx: u8 = if sum <= 25 {
            sum
        } else {
            sum - 26
        };
        let val: u8 = mapping[idx as usize];
        proof {
            lemma_wrap(pos - ring);
            lemma_wrap(c + shift);
            lemma_wrap(val - shift);
        }
        if val >= shift {
            val - shift
        } else {
            val + 26 - shift
        }
    }

    /// The substitution of the wheel on the way towards the reflector.
    pub fn forward(&self, c: u8) -> (r: u8)
        requires
            c < 26,
        ensures
            r == self@.forward(c as int),
            r < 26,
    {
        proof {
            use_type_invariant(self);
        }
        let w = self.id.forward_wiring();
        Self::encypher(c, self.rotor_position, self.ring_setting, &w)
    }

    /// The substitution of the wheel on the way back from the reflector.
    pub fn backward(&self, c: u8) -> (r: u8)
        requires
            c < 26,
        ensures
            r == self@.backward(c as int),
            r < 26,
    {
        proof {
            use_type_invariant(self);
        }
        let w = self.id.backward_wiring();
        Self::encypher(c, self.rotor_position, self.ring_setting, &w)
    }

    /// Writes the wheel at the end of a string: name, position and ring
    /// setting.
    pub fn write_to(&self, s: &mut String)
        ensures
            final(s)@ == old(s)@ + rotor_text(self@),
    {
        proof {
            use_type_invariant(self);
        }
        s.append(self.id.name());
        push_char(s, ' ');
        push_number(s, self.rotor_position);
        push_char(s, ' ');
        push_number(s, self.ring_setting);
    }

    /// The kind of the wheel.
    pub fn id(&self) -> (r: &RotorId)
        ensures
            *r == self@.id,
    {
        &self.id
    }

    /// The position the wheel stands at.
    pub fn rotor_position(&self) -> (r: u8)
        ensures
            r == self@.position,
            r < 26,
    {
        proof {
            use_type_invariant(self);
        }
        self.rotor_position
    }

    /// The ring setting of the wheel.
    pub fn ring_setting(&self) -> (r: u8)
        ensures
            r == self@.ring,
            r < 26,
    {
        proof {
            use_type_invariant(self);
        }
        self.ring_setting
    }

    /// Puts the wheel at another position.
    pub fn set_rotor_position(&mut self, rotor_position: u8)
        requires
            rotor_position < 26,
        ensures
            final(self)@ == (RotorView { position: rotor_position as int, ..old(self)@ }),
    {
        proof {
            use_type_invariant(&*self);
        }
        self.rotor_position = rotor_position;
    }

    /// Gives the wheel another ring setting.
    pub fn set_ring_setting(&mut self, ring_setting: u8)
        requires
            ring_setting < 26,
        ensures
            final(self)@ == (RotorView { ring: ring_setting as int, ..old(self)@ }),
    {
        proof {
            use_type_invariant(&*self);
        }
        self.ring_setting = ring_setting;
    }
}

/// The letter `c` is one of the two ends of the cable `p`.
pub open spec fn pair_uses(p: (char, char), c: char) -> bool {
    p.0 == c || p.1 == c
}

/// The letter `c` is an end of one of the first `n` cables.
pub open spec fn letter_used(pairs: Seq<(char, char)>, n: int, c: char) -> bool {
    exists|j: int| 0 <= j < n && pair_uses(#[trigger] pairs[j], c)
}

/// Both ends of the cable are upper-case letters.
pub open spec fn pair_is_upper(p: (char, char)) -> bool {
    is_upper(p.0) && is_upper(p.1)
}

/// Neither end of cable `k` is an end of an earlier cable.
pub open spec fn pair_is_fresh(pairs: Seq<(char, char)>, k: int) -> bool {
    !letter_used(pairs, k, pairs[k].0) && !letter_used(pairs, k, pairs[k].1)
}

/// A list of cables that a plugboard can be built from: upper-case letters
/// only, and no letter in more than one cable.
pub open spec fn valid_connections(pairs: Seq<(char, char)>) -> bool {
    forall|k: int|
        0 <= k < pairs.len() ==> pair_is_upper(#[trigger] pairs[k]) && pair_is_fresh(pairs, k)
}

/// The table `w` with one more cable plugged in.
pub open spec fn plug(w: Seq<u8>, p: (char, char)) -> Seq<u8> {
    w.update(letter_index(p.0), letter_index(p.1) as u8).update(
        letter_index(p.1),
        letter_index(p.0) as u8,
    )
}

/// The table that a list of cables stands for: every letter is mapped to
/// itself, then the two ends of each cable are mapped to each other.
pub open spec fn decode_spec(pairs: Seq<(char, char)>) -> Seq<u8>
    decreases pairs.len(),
{
    if pairs.len() == 0 {
        identity_table()
    } else {
        plug(decode_spec(pairs.drop_last()), pairs.last())
    }
}

/// The cables of a table among the letters below `n`, each named once by its
/// lower end, in the order of the lower ends.
pub open spec fn connections_upto(w: Seq<u8>, n: int) -> Seq<(char, char)>
    decreases n,
{
    if n <= 0 {
        Seq::empty()
    } else {
        let rest = connections_upto(w, n - 1);
        if n - 1 < w[n - 1] {
            rest.push((letter_char(n - 1), letter_char(w[n - 1] as int)))
        } else {
            rest
        }
    }
}

/// The list of cables that a table stands for.
pub open spec fn connections_of(w: Seq<u8>) -> Seq<(char, char)> {
    connections_upto(w, 26)
}

/// The front of a valid list of cables is a valid list of cables.
pub proof fn lemma_valid_prefix(pairs: Seq<(char, char)>, n: int)
    requires
        valid_connections(pairs),
        0 <= n <= pairs.len(),
    ensures
        valid_connections(pairs.take(n)),
{
    let prefix = pairs.take(n);
    assert forall|k: int| 0 <= k < prefix.len() implies pair_is_upper(#[trigger] prefix[k])
        && pair_is_fresh(prefix, k) by {
        assert(prefix[k] == pairs[k]);
        assert(pair_is_fresh(pairs, k));
        if letter_used(prefix, k, prefix[k].0) {
            let j = choose|j: int| 0 <= j < k && pair_uses(#[trigger] prefix[j], prefix[k].0);
            assert(pair_uses(pairs[j], pairs[k].0));
        }
        if letter_used(prefix, k, prefix[k].1) {
            let j = choose|j: int| 0 <= j < k && pair_uses(#[trigger] prefix[j], prefix[k].1);
            assert(pair_uses(pairs[j], pairs[k].1));
        }
    }
}

/// The table of a valid list of cables is its own inverse, and it maps every
/// letter that no cable ends in to itself.
pub proof fn lemma_decode_involution(pairs: Seq<(char, char)>)
    requires
        valid_connections(pairs),
    ensures
        is_involution(decode_spec(pairs)),
        forall|x: int|
            0 <= x < 26 && !letter_used(pairs, pairs.len() as int, letter_char(x))
                ==> #[trigger] decode_spec(pairs)[x] == x,
    decreases pairs.len(),
{
    let d = decode_spec(pairs);
    if pairs.len() > 0 {
        let n = pairs.len() - 1;
        let prefix = pairs.drop_last();
        assert(prefix == pairs.take(n));
        lemma_valid_prefix(pairs, n);
        lemma_decode_involution(prefix);
        let d0 = decode_spec(prefix);
        let p = pairs.last();
        let a = letter_index(p.0);
        let b = letter_index(p.1);
        assert(pair_is_upper(pairs[n]) && pair_is_fresh(pairs, n));
        assert(letter_char(a) == p.0 && letter_char(b) == p.1);
        assert(!letter_used(prefix, n, p.0)) by {
            if letter_used(prefix, n, p.0) {
                let j = choose|j: int| 0 <= j < n && pair_uses(#[trigger] prefix[j], p.0);
                assert(pair_uses(pairs[j], p.0));
            }
        }
        assert(!letter_used(prefix, n, p.1)) by {
            if letter_used(prefix, n, p.1) {
                let j = choose|j: int| 0 <= j < n && pair_uses(#[trigger] prefix[j], p.1);
                assert(pair_uses(pairs[j], p.1));
            }
        }
        assert(d0[a] == a && d0[b] == b);
        assert forall|x: int| 0 <= x < 26 implies #[trigger] d[x] < 26 && d[d[x] as int] == x by {
            if x != a && x != b {
                assert(d[x] == d0[x]);
                assert(d0[d0[x] as int] == x);
            }
        }
        assert forall|x: int|
            0 <= x < 26 && !letter_used(pairs, pairs.len() as int, letter_char(x)) implies #[trigger] d[x]
            == x by {
            assert(!pair_uses(pairs[n], letter_char(x)));
            if letter_used(prefix, n, letter_char(x)) {
                let j = choose|j: int| 0 <= j < n && pair_uses(#[trigger] prefix[j], letter_char(x));
                assert(pair_uses(pairs[j], letter_char(x)));
            }
            assert(d0[x] == x);
        }
    }
}

/// What holds of a cable that was found among the letters below `n`: it is
/// named by its lower end, which is below `n`, and the table maps that end to
/// the other.
pub open spec fn is_cable_below(w: Seq<u8>, n: int, p: (char, char)) -> bool {
    &&& pair_is_upper(p)
    &&& letter_index(p.0) < n
    &&& letter_index(p.0) < letter_index(p.1)
    &&& w[letter_index(p.0)] == letter_index(p.1)
}

/// The cables found among the letters below `n` form a valid list, and the
/// table of that list agrees with `w` wherever a letter below `n` is
/// concerned and maps every other letter to itself.
pub proof fn lemma_connections_upto(w: Seq<u8>, n: int)
    requires
        is_involution(w),
        0 <= n <= 26,
    ensures
        forall|k: int|
            0 <= k < connections_upto(w, n).len() ==> is_cable_below(
                w,
                n,
                #[trigger] connections_upto(w, n)[k],
            ),
        valid_connections(connections_upto(w, n)),
        decode_spec(connections_upto(w, n)).len() == 26,
        forall|x: int|
            0 <= x < 26 ==> #[trigger] decode_spec(connections_upto(w, n))[x] == (if x < n || w[x]
                < n {
                w[x]
            } else {
                x as u8
            }),
    decreases n,
{
    let ps = connections_upto(w, n);
    if n > 0 {
        let i = n - 1;
        let ps0 = connections_upto(w, i);
        lemma_connections_upto(w, i);
        let d0 = decode_spec(ps0);
        let wi = w[i] as int;
        assert(w[w[i] as int] == i);
        if i < wi {
            let p = (letter_char(i), letter_char(wi));
            assert(ps == ps0.push(p));
            assert(ps.drop_last() == ps0);
            assert(ps.last() == p);
            assert(letter_index(p.0) == i && letter_index(p.1) == wi);
            assert forall|k: int| 0 <= k < ps.len() implies is_cable_below(w, n, #[trigger] ps[k]) by {
                if k < ps0.len() {
                    assert(is_cable_below(w, i, ps0[k]));
                }
            }
            assert forall|k: int| 0 <= k < ps.len() implies pair_is_upper(#[trigger] ps[k])
                && pair_is_fresh(ps, k) by {
                assert(is_cable_below(w, n, ps[k]));
                if k < ps0.len() {
                    assert(pair_is_upper(ps0[k]) && pair_is_fresh(ps0, k));
                    if letter_used(ps, k, ps[k].0) {
                        let j = choose|j: int| 0 <= j < k && pair_uses(#[trigger] ps[j], ps[k].0);
                        assert(pair_uses(ps0[j], ps0[k].0));
                    }
                    if letter_used(ps, k, ps[k].1) {
                        let j = choose|j: int| 0 <= j < k && pair_uses(#[trigger] ps[j], ps[k].1);
                        assert(pair_uses(ps0[j], ps0[k].1));
                    }
                } else {
                    if letter_used(ps, k, p.0) {
                        let j = choose|j: int| 0 <= j < k && pair_uses(#[trigger] ps[j], p.0);
                        assert(is_cable_below(w, i, ps0[j]));
                        let a = letter_index(ps0[j].0);
                        assert(w[w[a] as int] == a);
                        assert(false);
                    }
                    if letter_used(ps, k, p.1) {
                        let j = choose|j: int| 0 <= j < k && pair_uses(#[trigger] ps[j], p.1);
                        assert(is_cable_below(w, i, ps0[j]));
                        let a = letter_index(ps0[j].0);
                        assert(w[w[a] as int] == a);
                        assert(false);
                    }
                }
            }
            assert(decode_spec(ps) == plug(d0, p));
            assert forall|x: int| 0 <= x < 26 implies #[trigger] decode_spec(ps)[x] == (if x < n
                || w[x] < n {
                w[x]
            } else {
                x as u8
            }) by {
                assert(w[w[x] as int] == x);
                assert(d0[x] == (if x < i || w[x] < i {
                    w[x]
                } else {
                    x as u8
                }));
            }
        } else {
            assert(ps == ps0);
            assert forall|k: int| 0 <= k < ps.len() implies is_cable_below(w, n, #[trigger] ps[k]) by {
                assert(is_cable_below(w, i, ps0[k]));
            }
            assert forall|x: int| 0 <= x < 26 implies #[trigger] decode_spec(ps)[x] == (if x < n
                || w[x] < n {
                w[x]
            } else {
                x as u8
            }) by {
                assert(w[w[x] as int] == x);
                assert(d0[x] == (if x < i || w[x] < i {
                    w[x]
                } else {
                    x as u8
                }));
            }
        }
    } else {
        assert(ps =~= Seq::empty());
    }
}

/// Reading the cables off a table and plugging them in again gives the same
/// table.
pub proof fn lemma_connections_decode(w: Seq<u8>)
    requires
        is_involution(w),
    ensures
        valid_connections(connections_of(w)),
        decode_spec(connections_of(w)) == w,
{
    lemma_connections_upto(w, 26);
}

/// Building a plugboard from a valid list of cables, reading its cables off
/// and building a plugboard from those gives the first plugboard again.
pub proof fn lemma_decode_round_trip(pairs: Seq<(char, char)>)
    requires
        valid_connections(pairs),
    ensures
        valid_connections(connections_of(decode_spec(pairs))),
        decode_spec(connections_of(decode_spec(pairs))) == decode_spec(pairs),
{
    lemma_decode_involution(pairs);
    lemma_connections_decode(decode_spec(pairs));
}

/// A valid list of cables stays valid when a cable is added whose ends are
/// upper-case letters that no cable of the list ends in.
pub proof fn lemma_valid_push(pairs: Seq<(char, char)>, p: (char, char))
    requires
        valid_connections(pairs),
        pair_is_upper(p),
        !letter_used(pairs, pairs.len() as int, p.0),
        !letter_used(pairs, pairs.len() as int, p.1),
    ensures
        valid_connections(pairs.push(p)),
        decode_spec(pairs.push(p)) == plug(decode_spec(pairs), p),
{
    let next = pairs.push(p);
    assert(next.drop_last() == pairs);
    assert forall|k: int| 0 <= k < next.len() implies pair_is_upper(#[trigger] next[k])
        && pair_is_fresh(next, k) by {
        if k < pairs.len() {
            assert(pair_is_upper(pairs[k]) && pair_is_fresh(pairs, k));
        }
        if letter_used(next, k, next[k].0) {
            let j = choose|j: int| 0 <= j < k && pair_uses(#[trigger] next[j], next[k].0);
            assert(pair_uses(pairs[j], next[k].0));
        }
        if letter_used(next, k, next[k].1) {
            let j = choose|j: int| 0 <= j < k && pair_uses(#[trigger] next[j], next[k].1);
            assert(pair_uses(pairs[j], next[k].1));
        }
    }
}

/// Every cable of the list joins two different letters.
pub open spec fn joins_different_letters(pairs: Seq<(char, char)>) -> bool {
    forall|k: int| 0 <= k < pairs.len() ==> (#[trigger] pairs[k]).0 != pairs[k].1
}

/// Where every cable joins two different letters, a letter that the table
/// maps to itself is an end of no cable.
pub proof fn lemma_unplugged_unused(pairs: Seq<(char, char)>, x: int)
    requires
        valid_connections(pairs),
        joins_different_letters(pairs),
        0 <= x < 26,
        decode_spec(pairs)[x] == x,
    ensures
        !letter_used(pairs, pairs.len() as int, letter_char(x)),
    decreases pairs.len(),
{
    if pairs.len() > 0 {
        let n = pairs.len() - 1;
        let prefix = pairs.drop_last();
        assert(prefix == pairs.take(n));
        lemma_valid_prefix(pairs, n);
        lemma_decode_involution(prefix);
        let d0 = decode_spec(prefix);
        let p = pairs.last();
        let a = letter_index(p.0);
        let b = letter_index(p.1);
        assert(pair_is_upper(pairs[n]) && pair_is_fresh(pairs, n));
        assert(pairs[n].0 != pairs[n].1);
        assert(a != b);
        assert(x != a && x != b);
        assert(d0[x] == x);
        assert forall|k: int| 0 <= k < prefix.len() implies (#[trigger] prefix[k]).0
            != prefix[k].1 by {
            assert(pairs[k].0 != pairs[k].1);
        }
        lemma_unplugged_unused(prefix, x);
        if letter_used(pairs, pairs.len() as int, letter_char(x)) {
            let j = choose|j: int|
                0 <= j < pairs.len() && pair_uses(#[trigger] pairs[j], letter_char(x));
            if j < n {
                assert(pair_uses(prefix[j], letter_char(x)));
            }
        }
    }
}

/// The cables read off a table each join two different letters.
pub proof fn lemma_connections_proper(w: Seq<u8>)
    requires
        is_involution(w),
    ensures
        joins_different_letters(connections_of(w)),
{
    lemma_connections_upto(w, 26);
}

/// Plugging a cable into two letters that no cable ends in adds one cable to
/// those that are read off the table, once the lower end of the cable is
/// among the letters looked at.
pub proof fn lemma_plug_adds_a_cable(w: Seq<u8>, p: (char, char), n: int)
    requires
        is_involution(w),
        pair_is_upper(p),
        p.0 != p.1,
        w[letter_index(p.0)] == letter_index(p.0),
        w[letter_index(p.1)] == letter_index(p.1),
        0 <= n <= 26,
    ensures
        connections_upto(plug(w, p), n).len() == connections_upto(w, n).len() + if letter_index(
            p.0,
        ) < n || letter_index(p.1) < n {
            1int
        } else {
            0int
        },
    decreases n,
{
    if n > 0 {
        lemma_plug_adds_a_cable(w, p, n - 1);
        let a = letter_index(p.0);
        let b = letter_index(p.1);
        let i = n - 1;
        let plugged = plug(w, p);
        assert(w[w[i] as int] == i);
        assert(plugged[i] == if i == a {
            b as u8
        } else if i == b {
            a as u8
        } else {
            w[i]
        });
    }
}

/// A table has as many cables as the list it was made from, where every
/// cable of the list joins two different letters.
pub proof fn lemma_cable_count(pairs: Seq<(char, char)>)
    requires
        valid_connections(pairs),
        joins_different_letters(pairs),
    ensures
        connections_of(decode_spec(pairs)).len() == pairs.len(),
    decreases pairs.len(),
{
    if pairs.len() > 0 {
        let n = pairs.len() - 1;
        let prefix = pairs.drop_last();
        assert(prefix == pairs.take(n));
        lemma_valid_prefix(pairs, n);
        assert forall|k: int| 0 <= k < prefix.len() implies (#[trigger] prefix[k]).0
            != prefix[k].1 by {
            assert(pairs[k].0 != pairs[k].1);
        }
        lemma_cable_count(prefix);
        lemma_decode_involution(prefix);
        let p = pairs.last();
        assert(pair_is_upper(pairs[n]) && pair_is_fresh(pairs, n));
        assert(pairs[n].0 != pairs[n].1);
        assert(letter_char(letter_index(p.0)) == p.0 && letter_char(letter_index(p.1)) == p.1);
        assert(!letter_used(prefix, n, p.0)) by {
            if letter_used(prefix, n, p.0) {
                let j = choose|j: int| 0 <= j < n && pair_uses(#[trigger] prefix[j], p.0);
                assert(pair_uses(pairs[j], p.0));
            }
        }
        assert(!letter_used(prefix, n, p.1)) by {
            if letter_used(prefix, n, p.1) {
                let j = choose|j: int| 0 <= j < n && pair_uses(#[trigger] prefix[j], p.1);
                assert(pair_uses(pairs[j], p.1));
            }
        }
        lemma_plug_adds_a_cable(decode_spec(prefix), p, 26);
    } else {
        lemma_no_cables(26);
    }
}

/// No cables are read off the table that maps every letter to itself.
proof fn lemma_no_cables(n: int)
    requires
        0 <= n <= 26,
    ensures
        connections_upto(identity_table(), n).len() == 0,
    decreases n,
{
    if n > 0 {
        lemma_no_cables(n - 1);
    }
}

/// A list of cables written out: the two letters of each cable side by side,
/// and a blank between one cable and the next.
pub open spec fn connections_text(pairs: Seq<(char, char)>) -> Seq<char>
    decreases pairs.len(),
{
    if pairs.len() == 0 {
        Seq::empty()
    } else if pairs.len() == 1 {
        seq![pairs[0].0, pairs[0].1]
    } else {
        connections_text(pairs.drop_last()) + seq![' ', pairs.last().0, pairs.last().1]
    }
}

/// Why a list of cables was turned down.
#[derive(Debug, Copy, Clone, PartialEq, Eq, Structural)]
pub enum PlugboardError {
    /// The cable at this index of the list has an end that is no upper-case
    /// letter.
    InvalidCharacter(usize),
    /// The cable at this index of the list ends in a letter that an earlier
    /// cable already ends in.
    DuplicatePlug(usize),
}

/// The plugboard: letters joined in pairs by cables, and swapped on the way
/// in and on the way out.
#[derive(Debug, Clone, Copy)]
pub struct Plugboard {
    wiring: [u8; 26],
}

impl View for Plugboard {
    type V = Seq<u8>;

    closed spec fn view(&self) -> Seq<u8> {
        self.wiring@
    }
}

impl Plugboard {
    /// A plugboard swaps letters in pairs, always.
    #[verifier::type_invariant]
    pub open spec fn inv(self) -> bool {
        is_involution(self@)
    }

    /// The plugboard with the given cables plugged in. The list of cables has
    /// to be valid; [`Plugboard::check_connections`] says whether it is.
    pub fn new(connections: &[(char, char)]) -> (p: Self)
        requires
            valid_connections(connections@),
        ensures
            p@ == decode_spec(connections@),
    {
        Self { wiring: Self::decode_plugboard(connections) }
    }

    /// The table of a plugboard without cables.
    pub fn identity() -> (wiring: [u8; 26])
        ensures
            wiring@ == identity_table(),
    {
        let mut wiring: [u8; 26] = [0; 26];
        let mut i: u8 = 0;
        while i < 26
            invariant
                i <= 26,
                forall|k: int| 0 <= k < i ==> wiring@[k] == k,
            decreases 26 - i,
        {
            wiring[i as usize] = i;
            i += 1;
        }
        wiring
    }

    /// Builds the table of a list of cables. The list has to be valid;
    /// [`Plugboard::check_connections`] says whether it is.
    pub fn decode_plugboard(connections: &[(char, char)]) -> (wiring: [u8; 26])
        requires
            valid_connections(connections@),
        ensures
            wiring@ == decode_spec(connections@),
            is_involution(wiring@),
    {
        match Self::decode_checked(connections) {
            Ok(wiring) => wiring,
            Err(_) => vstd::pervasive::unreached(),
        }
    }

    /// Says whether a list of cables is valid, and if it is not, which cable
    /// is the first that cannot be plugged in, and why.
    pub fn check_connections(connections: &[(char, char)]) -> (r: Result<(), PlugboardError>)
        ensures
            match r {
                Ok(_) => valid_connections(connections@),
                Err(PlugboardError::InvalidCharacter(k)) => {
                    &&& k < connections@.len()
                    &&& valid_connections(connections@.take(k as int))
                    &&& !pair_is_upper(connections@[k as int])
                },
                Err(PlugboardError::DuplicatePlug(k)) => {
                    &&& k < connections@.len()
                    &&& valid_connections(connections@.take(k as int))
                    &&& pair_is_upper(connections@[k as int])
                    &&& !pair_is_fresh(connections@, k as int)
                },
            },
    {
        match Self::decode_checked(connections) {
            Ok(_) => Ok(()),
            Err(fault) => Err(fault),
        }
    }

    /// Plugs the cables of a list in one after the other, looking at each
    /// before it is plugged in, and stops at the first that cannot be.
    fn decode_checked(connections: &[(char, char)]) -> (r: Result<[u8; 26], PlugboardError>)
        ensures
            match r {
                Ok(w) => valid_connections(connections@) && w@ == decode_spec(connections@)
                    && is_involution(w@),
                Err(PlugboardError::InvalidCharacter(k)) => {
                    &&& k < connections@.len()
                    &&& valid_connections(connections@.take(k as int))
                    &&& !pair_is_upper(connections@[k as int])
                },
                Err(PlugboardError::DuplicatePlug(k)) => {
                    &&& k < connections@.len()
                    &&& valid_connections(connections@.take(k as int))
                    &&& pair_is_upper(connections@[k as int])
                    &&& !pair_is_fresh(connections@, k as int)
                },
            },
    {
        let mut mapping = Self::identity();
        let mut seen: [bool; 26] = [false; 26];
        let mut i: usize = 0;
        while i < connections.len()
            invariant
                i <= connections@.len(),
                valid_connections(connections@.take(i as int)),
                mapping@ == decode_spec(connections@.take(i as int)),
                forall|x: int|
                    0 <= x < 26 ==> (#[trigger] seen@[x] <==> letter_used(
                        connections@,
                        i as int,
                        letter_char(x),
                    )),
            decreases connections@.len() - i,
        {
            let (rc1, rc2) = connections[i];
            let ghost pairs = connections@;
            if !('A' <= rc1 && rc1 <= 'Z') || !('A' <= rc2 && rc2 <= 'Z') {
                return Err(PlugboardError::InvalidCharacter(i));
            }
            let c1: u8 = rc1 as u8 - 65u8;
            let c2: u8 = rc2 as u8 - 65u8;
            if seen[c1 as usize] || seen[c2 as usize] {
                return Err(PlugboardError::DuplicatePlug(i));
            }
            proof {
                let next = pairs.take(i + 1);
                let prev = pairs.take(i as int);
                assert(next.drop_last() == prev);
            }
            seen[c1 as usize] = true;
            seen[c2 as usize] = true;
            mapping[c1 as usize] = c2;
            mapping[c2 as usize] = c1;
            i += 1;
        }
        proof {
            assert(connections@.take(i as int) == connections@);
            lemma_decode_involution(connections@);
        }
        Ok(mapping)
    }

    /// The letter that the plugboard swaps `c` for.
    pub fn forward(&self, c: u8) -> (r: u8)
        requires
            c < 26,
        ensures
            r == self@[c as int],
            r < 26,
    {
        proof {
            use_type_invariant(self);
        }
        self.wiring[c as usize]
    }

    /// The table of the plugboard.
    pub fn wiring(&self) -> (w: &[u8; 26])
        ensures
            w@ == self@,
            is_involution(w@),
    {
        proof {
            use_type_invariant(self);
        }
        &self.wiring
    }

    /// For every letter, whether no cable ends in it.
    pub fn unplugged(&self) -> (r: [bool; 26])
        ensures
            forall|i: int| 0 <= i < 26 ==> #[trigger] r@[i] == (self@[i] == i),
    {
        let mut ret_val: [bool; 26] = [true; 26];
        let mut idx: usize = 0;
        while idx < 26
            invariant
                idx <= 26,
                forall|i: int| 0 <= i < idx ==> #[trigger] ret_val@[i] == (self.wiring@[i] == i),
            decreases 26 - idx,
        {
            ret_val[idx] = idx == self.wiring[idx] as usize;
            idx += 1;
        }
        ret_val
    }

    /// Reads the cables off the plugboard: each cable once, named by its lower
    /// end first, in the order of the lower ends.
    pub fn generate_connections(&self) -> (connections: Vec<(char, char)>)
        ensures
            connections@ == connections_of(self@),
            valid_connections(connections@),
            joins_different_letters(connections@),
            decode_spec(connections@) == self@,
            is_involution(self@),
    {
        proof {
            use_type_invariant(self);
            lemma_connections_decode(self@);
            lemma_connections_proper(self@);
        }
        let mut connections: Vec<(char, char)> = Vec::new();
        let mut idx: u8 = 0;
        while idx < 26
            invariant
                idx <= 26,
                is_involution(self.wiring@),
                connections@ == connections_upto(self.wiring@, idx as int),
            decreases 26 - idx,
        {
            let other: u8 = self.wiring[idx as usize];
            if idx < other {
                let a = (idx + 65u8) as char;
                let b = (other + 65u8) as char;
                connections.push((a, b));
            }
            idx += 1;
        }
        connections
    }

    /// Writes the cables of the plugboard at the end of a string, in the order
    /// of their lower ends: `AF BL KO` for three cables.
    pub fn write_to(&self, s: &mut String)
        ensures
            final(s)@ == old(s)@ + connections_text(connections_of(self@)),
    {
        let pairs = self.generate_connections();
        let mut i: usize = 0;
        while i < pairs.len()
            invariant
                i <= pairs@.len(),
                s@ == old(s)@ + connections_text(pairs@.take(i as int)),
            decreases pairs@.len() - i,
        {
            let (a, b) = pairs[i];
            if i > 0 {
                push_char(s, ' ');
            }
            push_char(s, a);
            push_char(s, b);
            proof {
                let now = pairs@.take(i + 1);
                assert(now.drop_last() == pairs@.take(i as int));
            }
            i += 1;
        }
        assert(pairs@.take(i as int) == pairs@);
    }

    /// The cables of the plugboard as a string.
    pub fn to_text(&self) -> (s: String)
        ensures
            s@ == connections_text(connections_of(self@)),
    {
        let mut s = String::new();
        self.write_to(&mut s);
        s
    }
}

/// A key as plain values: the three wheels and the table of the plugboard.
pub struct KeyView {
    pub left: RotorView,
    pub middle: RotorView,
    pub right: RotorView,
    pub plugboard: Seq<u8>,
}

impl KeyView {
    /// The wheels are well formed and the plugboard swaps letters in pairs.
    pub open spec fn wf(self) -> bool {
        &&& self.left.wf()
        &&& self.middle.wf()
        &&& self.right.wf()
        &&& is_involution(self.plugboard)
    }
}

/// A key written out: the three wheels from left to right, each with its
/// position and ring setting, and the cables of the plugboard.
pub open spec fn key_text(key: KeyView) -> Seq<char> {
    "Key { Left Rotor: "@ + rotor_text(key.left) + ", Middle Rotor: "@ + rotor_text(key.middle)
        + ", Right Rotor: "@ + rotor_text(key.right) + ", Plugboard: "@ + connections_text(
        connections_of(key.plugboard),
    ) + " }"@
}

/// One setting of the machine: which wheels stand where, with which ring
/// settings, and which cables are plugged in. The reflector is no part of it.
#[derive(Debug, Clone, Copy)]
pub struct EnigmaKey {
    left_rotor: Rotor,
    middle_rotor: Rotor,
    right_rotor: Rotor,
    plugboard: Plugboard,
}

impl View for EnigmaKey {
    type V = KeyView;

    closed spec fn view(&self) -> KeyView {
        KeyView {
            left: self.left_rotor@,
            middle: self.middle_rotor@,
            right: self.right_rotor@,
            plugboard: self.plugboard@,
        }
    }
}

impl EnigmaKey {
    /// The key made of three wheels and a plugboard.
    pub fn new(
        left_rotor: Rotor,
        middle_rotor: Rotor,
        right_rotor: Rotor,
        plugboard: Plugboard,
    ) -> (key: Self)
        ensures
            key@ == (KeyView {
                left: left_rotor@,
                middle: middle_rotor@,
                right: right_rotor@,
                plugboard: plugboard@,
            }),
            key@.wf(),
    {
        proof {
            use_type_invariant(&left_rotor);
            use_type_invariant(&middle_rotor);
            use_type_invariant(&right_rotor);
            use_type_invariant(&plugboard);
        }
        Self { left_rotor, middle_rotor, right_rotor, plugboard }
    }

    /// The left wheel.
    pub fn left_rotor(&self) -> (r: &Rotor)
        ensures
            r@ == self@.left,
    {
        &self.left_rotor
    }

    /// The middle wheel.
    pub fn middle_rotor(&self) -> (r: &Rotor)
        ensures
            r@ == self@.middle,
    {
        &self.middle_rotor
    }

    /// The right wheel.
    pub fn right_rotor(&self) -> (r: &Rotor)
        ensures
            r@ == self@.right,
    {
        &self.right_rotor
    }

    /// The left wheel, to be changed in place.
    pub fn left_rotor_mut(&mut self) -> (r: &mut Rotor)
        ensures
            r@ == old(self)@.left,
            final(self)@ == (KeyView { left: final(r)@, ..old(self)@ }),
    {
        &mut self.left_rotor
    }

    /// The middle wheel, to be changed in place.
    pub fn middle_rotor_mut(&mut self) -> (r: &mut Rotor)
        ensures
            r@ == old(self)@.middle,
            final(self)@ == (KeyView { middle: final(r)@, ..old(self)@ }),
    {
        &mut self.middle_rotor
    }

    /// The right wheel, to be changed in place.
    pub fn right_rotor_mut(&mut self) -> (r: &mut Rotor)
        ensures
            r@ == old(self)@.right,
            final(self)@ == (KeyView { right: final(r)@, ..old(self)@ }),
    {
        &mut self.right_rotor
    }

    /// The plugboard.
    pub fn plugboard(&self) -> (p: &Plugboard)
        ensures
            p@ == self@.plugboard,
    {
        &self.plugboard
    }

    /// The key as a string, such as
    /// `Key { Left Rotor: II 7 12, Middle Rotor: V 4 2, Right Rotor: III 19 20, Plugboard: AF BL }`.
    pub fn to_text(&self) -> (s: String)
        ensures
            s@ == key_text(self@),
    {
        let mut s = String::new();
        s.append("Key { Left Rotor: ");
        self.left_rotor.write_to(&mut s);
        s.append(", Middle Rotor: ");
        self.middle_rotor.write_to(&mut s);
        s.append(", Right Rotor: ");
        self.right_rotor.write_to(&mut s);
        s.append(", Plugboard: ");
        self.plugboard.write_to(&mut s);
        s.append(" }");
        s
    }

    /// Puts another plugboard in place of the one the key has.
    pub fn set_plugboard(&mut self, plugboard: Plugboard)
        ensures
            final(self)@ == (KeyView { plugboard: plugboard@, ..old(self)@ }),
    {
        self.plugboard = plugboard;
    }
}

/// A machine as plain values: the three wheels as they stand, the reflector
/// and the table of the plugboard.
pub struct MachineView {
    pub left: RotorView,
    pub middle: RotorView,
    pub right: RotorView,
    pub reflector: ReflectorId,
    pub plugboard: Seq<u8>,
}

impl MachineView {
    /// The machine that is set up from a key and a reflector.
    pub open spec fn of_key(key: KeyView, reflector: ReflectorId) -> MachineView {
        MachineView {
            left: key.left,
            middle: key.middle,
            right: key.right,
            reflector,
            plugboard: key.plugboard,
        }
    }

    /// The wheels are well formed and the plugboard swaps letters in pairs.
    pub open spec fn wf(self) -> bool {
        &&& self.left.wf()
        &&& self.middle.wf()
        &&& self.right.wf()
        &&& is_involution(self.plugboard)
    }

    /// The movement of the wheels on one key press. A middle wheel at its
    /// notch moves on together with the left wheel; otherwise a right wheel at
    /// its notch moves the middle wheel on. The right wheel always moves on.
    pub open spec fn step(self) -> MachineView {
        if self.middle.at_notch() {
            MachineView {
                left: self.left.turned(),
                middle: self.middle.turned(),
                right: self.right.turned(),
                ..self
            }
        } else if self.right.at_notch() {
            MachineView { middle: self.middle.turned(), right: self.right.turned(), ..self }
        } else {
            MachineView { right: self.right.turned(), ..self }
        }
    }

    /// The machine after `n` key presses.
    pub open spec fn steps(self, n: nat) -> MachineView
        decreases n,
    {
        if n == 0 {
            self
        } else {
            self.steps((n - 1) as nat).step()
        }
    }

    /// The path of a letter through the machine as it stands: plugboard, the
    /// three wheels from right to left, the reflector, the three wheels from
    /// left to right, and the plugboard again.
    pub open spec fn substitute(self, c: int) -> int {
        let c1 = self.plugboard[c] as int;
        let c2 = self.right.forward(c1);
        let c3 = self.middle.forward(c2);
        let c4 = self.left.forward(c3);
        let c5 = self.reflector.table()[c4] as int;
        let c6 = self.left.backward(c5);
        let c7 = self.middle.backward(c6);
        let c8 = self.right.backward(c7);
        self.plugboard[c8] as int
    }

    /// The letter that lights up when `c` is pressed: the wheels move first,
    /// then the letter takes its path.
    pub open spec fn press(self, c: char) -> char {
        letter_char(self.step().substitute(letter_index(c)))
    }

    /// The text that the machine, starting as it stands, turns `text` into.
    pub open spec fn encrypt(self, text: Seq<char>) -> Seq<char>
        decreases text.len(),
    {
        if text.len() == 0 {
            Seq::empty()
        } else {
            self.encrypt(text.drop_last()).push(
                self.steps((text.len() - 1) as nat).press(text.last()),
            )
        }
    }

    /// Moving the wheels keeps the machine well formed.
    pub proof fn lemma_step_wf(self)
        requires
            self.wf(),
        ensures
            self.step().wf(),
    {
    }

    /// Any number of key presses keeps the machine well formed.
    pub proof fn lemma_steps_wf(self, n: nat)
        requires
            self.wf(),
        ensures
            self.steps(n).wf(),
        decreases n,
    {
        if n > 0 {
            self.lemma_steps_wf((n - 1) as nat);
            self.steps((n - 1) as nat).lemma_step_wf();
        }
    }

    /// As the machine stands, the path of a letter is its own inverse: the
    /// letter that `c` leads to leads back to `c`.
    pub proof fn lemma_substitute_involution(self, c: int)
        requires
            self.wf(),
            is_letter(c),
        ensures
            is_letter(self.substitute(c)),
            self.substitute(self.substitute(c)) == c,
    {
        let c1 = self.plugboard[c] as int;
        let c2 = self.right.forward(c1);
        let c3 = self.middle.forward(c2);
        let c4 = self.left.forward(c3);
        let c5 = self.reflector.table()[c4] as int;
        let c6 = self.left.backward(c5);
        let c7 = self.middle.backward(c6);
        let c8 = self.right.backward(c7);
        let c9 = self.plugboard[c8] as int;
        assert(self.plugboard[self.plugboard[c] as int] == c);
        self.right.lemma_forward_backward(c1);
        self.middle.lemma_forward_backward(c2);
        self.left.lemma_forward_backward(c3);
        self.reflector.lemma_reflector_pairs();
        assert(self.reflector.table()[self.reflector.table()[c4] as int] == c4);
        self.left.lemma_forward_backward(c5);
        self.middle.lemma_forward_backward(c6);
        self.right.lemma_forward_backward(c7);
        assert(self.plugboard[self.plugboard[c8] as int] == c8);
        assert(self.right.forward(c8) == c7);
        assert(self.middle.forward(c7) == c6);
        assert(self.left.forward(c6) == c5);
        assert(self.reflector.table()[c5] == c4);
        assert(self.left.backward(c4) == c3);
        assert(self.middle.backward(c3) == c2);
        assert(self.right.backward(c2) == c1);
    }

    /// Pressing the letter that lit up, with the wheels where they stood, lights
    /// up the letter that was pressed.
    pub proof fn lemma_press_involution(self, c: char)
        requires
            self.wf(),
            is_upper(c),
        ensures
            is_upper(self.press(c)),
            self.press(self.press(c)) == c,
    {
        self.step().lemma_substitute_involution(letter_index(c));
    }

    /// The machine turns a text into a text of the same length, letter for
    /// letter, and upper-case letters into upper-case letters.
    pub proof fn lemma_encrypt_shape(self, text: Seq<char>)
        requires
            self.wf(),
            is_upper_text(text),
        ensures
            self.encrypt(text).len() == text.len(),
            is_upper_text(self.encrypt(text)),
            forall|i: int|
                0 <= i < text.len() ==> #[trigger] self.encrypt(text)[i] == self.steps(
                    i as nat,
                ).press(text[i]),
        decreases text.len(),
    {
        if text.len() > 0 {
            let n = (text.len() - 1) as nat;
            self.lemma_encrypt_shape(text.drop_last());
            self.lemma_steps_wf(n);
            self.steps(n).lemma_press_involution(text.last());
        }
    }

    /// A text is fixed by its letters: two texts of one length that agree
    /// letter for letter are turned into the same text.
    pub proof fn lemma_encrypt_by_letters(self, text: Seq<char>, out: Seq<char>)
        requires
            out.len() == text.len(),
            forall|i: int|
                0 <= i < text.len() ==> #[trigger] out[i] == self.steps(i as nat).press(text[i]),
        ensures
            self.encrypt(text) == out,
        decreases text.len(),
    {
        if text.len() > 0 {
            self.lemma_encrypt_by_letters(text.drop_last(), out.drop_last());
        }
    }

    /// Encrypting a message and then encrypting the result, with the wheels
    /// set back to where they stood at the start, gives the message again.
    pub proof fn lemma_encrypt_twice(self, text: Seq<char>)
        requires
            self.wf(),
            is_upper_text(text),
        ensures
            self.encrypt(self.encrypt(text)) == text,
    {
        let cipher = self.encrypt(text);
        self.lemma_encrypt_shape(text);
        assert forall|i: int| 0 <= i < cipher.len() implies #[trigger] text[i] == self.steps(
            i as nat,
        ).press(cipher[i]) by {
            self.lemma_steps_wf(i as nat);
            self.steps(i as nat).lemma_press_involution(text[i]);
        }
        self.lemma_encrypt_by_letters(cipher, text);
    }
}

/// The machine: a key, a reflector, and wheels that move as letters are
/// pressed.
pub struct Enigma {
    left_rotor: Rotor,
    middle_rotor: Rotor,
    right_rotor: Rotor,
    reflector: ReflectorId,
    plugboard: Plugboard,
}

impl View for Enigma {
    type V = MachineView;

    closed spec fn view(&self) -> MachineView {
        MachineView {
            left: self.left_rotor@,
            middle: self.middle_rotor@,
            right: self.right_rotor@,
            reflector: self.reflector,
            plugboard: self.plugboard@,
        }
    }
}

impl Enigma {
    /// The machine set to a key and closed by a reflector.
    pub fn new(key: EnigmaKey, reflector: ReflectorId) -> (e: Self)
        ensures
            e@ == MachineView::of_key(key@, reflector),
            e@.wf(),
    {
        proof {
            use_type_invariant(&key.left_rotor);
            use_type_invariant(&key.middle_rotor);
            use_type_invariant(&key.right_rotor);
            use_type_invariant(&key.plugboard);
        }
        Self {
            left_rotor: key.left_rotor,
            middle_rotor: key.middle_rotor,
            right_rotor: key.right_rotor,
            reflector,
            plugboard: key.plugboard,
        }
    }

    /// Moves the wheels as one key press does.
    pub fn rotate(&mut self)
        ensures
            final(self)@ == old(self)@.step(),
    {
        proof {
            use_type_invariant(&self.left_rotor);
            use_type_invariant(&self.middle_rotor);
            use_type_invariant(&self.right_rotor);
            use_type_invariant(&self.plugboard);
        }
        if self.middle_rotor.is_at_notch() {
            self.middle_rotor.turnover();
            self.left_rotor.turnover();
        } else if self.right_rotor.is_at_notch() {
            self.middle_rotor.turnover();
        }
        self.right_rotor.turnover();
    }

    /// Presses one letter: the wheels move, then the letter takes its path
    /// through the machine.
    pub fn encrypt(&mut self, c: char) -> (r: char)
        requires
            is_upper(c),
        ensures
            final(self)@ == old(self)@.step(),
            r == old(self)@.press(c),
            is_upper(r),
    {
        proof {
            use_type_invariant(&self.left_rotor);
            use_type_invariant(&self.middle_rotor);
            use_type_invariant(&self.right_rotor);
            use_type_invariant(&self.plugboard);
        }
        let mut c: u8 = c as u8 - 65u8;
        self.rotate();
        c = self.plugboard.forward(c);
        c = self.right_rotor.forward(c);
        c = self.middle_rotor.forward(c);
        c = self.left_rotor.forward(c);
        c = self.reflector.forward(c);
        c = self.left_rotor.backward(c);
        c = self.middle_rotor.backward(c);
        c = self.right_rotor.backward(c);
        c = self.plugboard.forward(c);
        (c + 65u8) as char
    }

    /// Presses the letters of `text` one after the other and leaves in `buf`
    /// the letters that lit up, in place of what `buf` held.
    pub fn encrypt_into(&mut self, text: &str, buf: &mut String)
        requires
            is_upper_text(text@),
        ensures
            final(buf)@ == old(self)@.encrypt(text@),
            final(self)@ == old(self)@.steps(text@.len()),
            is_upper_text(final(buf)@),
            final(buf)@.len() == text@.len(),
    {
        proof {
            use_type_invariant(&self.left_rotor);
            use_type_invariant(&self.middle_rotor);
            use_type_invariant(&self.right_rotor);
            use_type_invariant(&self.plugboard);
            lemma_upper_text_bytes(text);
            old(self)@.lemma_encrypt_shape(text@);
        }
        let bytes = text.as_bytes();
        clear_string(buf);
        let mut i: usize = 0;
        while i < bytes.len()
            invariant
                i <= bytes@.len(),
                bytes@.len() == text@.len(),
                is_upper_text(text@),
                forall|k: int| 0 <= k < text@.len() ==> #[trigger] bytes@[k] == text@[k] as u8,
                self@ == old(self)@.steps(i as nat),
                buf@ == old(self)@.encrypt(text@.take(i as int)),
            decreases bytes@.len() - i,
        {
            let b = bytes[i];
            let c = b as char;
            let r = self.encrypt(c);
            push_char(buf, r);
            proof {
                assert(text@.take(i + 1).drop_last() == text@.take(i as int));
            }
            i += 1;
        }
        proof {
            assert(text@.take(i as int) == text@);
        }
    }
}

} // verus!

//! Upper-case ASCII text, the only kind of text the machine and the fitness
//! functions work on.
use vstd::prelude::*;
use vstd::string::{is_ascii_spec_bytes, StringSliceAdditionalSpecFns};

verus! {

/// An upper-case ASCII letter, the only kind of character the machine accepts.
pub open spec fn is_upper(c: char) -> bool {
    'A' <= c <= 'Z'
}

/// Every character of the text is an upper-case ASCII letter.
pub open spec fn is_upper_text(text: Seq<char>) -> bool {
    forall|i: int| 0 <= i < text.len() ==> is_upper(#[trigger] text[i])
}

/// The index of an upper-case letter.
pub open spec fn letter_index(c: char) -> int {
    c as int - 'A' as int
}

/// The upper-case letter with the given index.
pub open spec fn letter_char(i: int) -> char {
    (i + 'A' as int) as char
}

/// In a text of upper-case letters every character takes one byte, and the
/// byte is the character.
pub proof fn lemma_upper_text_bytes(text: &str)
    requires
        is_upper_text(text@),
    ensures
        text.spec_bytes().len() == text@.len(),
        forall|i: int| 0 <= i < text@.len() ==> #[trigger] text.spec_bytes()[i] == text@[i] as u8,
{
    is_ascii_spec_bytes(text);
}

/// Says whether a text is made of upper-case ASCII letters only, which is what
/// every function that takes a ciphertext or a plaintext asks of it.
pub fn is_valid_text(text: &str) -> (b: bool)
    ensures
        b == is_upper_text(text@),
{
    if !text.is_ascii() {
        proof {
            let i = choose|i: int| 0 <= i < text@.len() && !('\0' <= #[trigger] text@[i] <= '\u{7f}');
        }
        return false;
    }
    proof {
        is_ascii_spec_bytes(text);
    }
    let bytes = text.as_bytes();
    let mut i: usize = 0;
    while i < bytes.len()
        invariant
            i <= bytes@.len(),
            bytes@.len() == text@.len(),
            forall|k: int| 0 <= k < text@.len() ==> '\0' <= #[trigger] text@[k] <= '\u{7f}',
            forall|k: int| 0 <= k < text@.len() ==> #[trigger] bytes@[k] == text@[k] as u8,
            forall|k: int| 0 <= k < i ==> is_upper(#[trigger] text@[k]),
        decreases bytes@.len() - i,
    {
        let b = bytes[i];
        if b < 65 || b > 90 {
            return false;
        }
        i += 1;
    }
    true
}

/// Calls `String::push`. Taken on trust, as the documentation of the standard
/// library has it: the string afterwards is the string before with `c` added
/// at its end.
#[verifier::external_body]
pub(crate) fn push_char(s: &mut String, c: char)
    ensures
        final(s)@ == old(s)@.push(c),
{
    s.push(c)
}

/// Calls `String::clear`. Taken on trust, as the documentation of the
/// standard library has it: the string afterwards is empty.
#[verifier::external_body]
pub(crate) fn clear_string(s: &mut String)
    ensures
        final(s)@ == Seq::<char>::empty(),
{
    s.clear()
}

} // verus!

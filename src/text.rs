//! What a byte becomes in the output, byte by byte.

use vstd::prelude::*;

verus! {

/// A byte is ASCII when its value lies in `0x00..=0x7F`.
pub open spec fn is_ascii_byte(b: u8) -> bool {
    b <= 0x7f
}

/// The uppercase hexadecimal digit of a value below 16.
pub open spec fn hex_digit_of(n: u8) -> char
    recommends
        n < 16,
{
    if n < 10 {
        (n + 0x30) as char
    } else {
        (n + 0x37) as char
    }
}

/// The text of one byte: an ASCII byte is its own character; any other byte
/// is two uppercase hexadecimal digits and a space.
pub open spec fn byte_text(b: u8) -> Seq<char> {
    if is_ascii_byte(b) {
        seq![b as char]
    } else {
        seq![hex_digit_of(b / 16), hex_digit_of(b % 16), ' ']
    }
}

/// The text of a byte sequence: the texts of its bytes, in order.
pub open spec fn text_of(b: Seq<u8>) -> Seq<char>
    decreases b.len(),
{
    if b.len() == 0 {
        seq![]
    } else {
        text_of(b.drop_last()) + byte_text(b.last())
    }
}

/// Every byte of the sequence is ASCII (`cls` true) or every byte is not.
pub open spec fn uniform(b: Seq<u8>, cls: bool) -> bool {
    forall|i: int| 0 <= i < b.len() ==> is_ascii_byte(#[trigger] b[i]) == cls
}

/// The characters whose code points are the given bytes.
pub open spec fn chars_of(b: Seq<u8>) -> Seq<char> {
    b.map_values(|x: u8| x as char)
}

/// Text is built byte by byte, so the text of a concatenation is the
/// concatenation of the texts.
pub proof fn lemma_text_of_concat(a: Seq<u8>, b: Seq<u8>)
    ensures
        text_of(a + b) == text_of(a) + text_of(b),
    decreases b.len(),
{
    if b.len() == 0 {
        assert(a + b =~= a);
        assert(text_of(b) =~= seq![]);
        assert(text_of(a) + text_of(b) =~= text_of(a));
    } else {
        let c = a + b;
        assert(c.drop_last() =~= a + b.drop_last());
        assert(c.last() == b.last());
        lemma_text_of_concat(a, b.drop_last());
        assert(text_of(a) + text_of(b) =~= text_of(a) + text_of(b.drop_last()) + byte_text(
            b.last(),
        ));
    }
}

/// The text of an ASCII byte sequence is the sequence itself.
pub proof fn lemma_text_of_ascii(b: Seq<u8>)
    requires
        uniform(b, true),
    ensures
        text_of(b) == chars_of(b),
    decreases b.len(),
{
    if b.len() > 0 {
        assert(uniform(b.drop_last(), true));
        lemma_text_of_ascii(b.drop_last());
        assert(chars_of(b) =~= chars_of(b.drop_last()) + seq![b.last() as char]);
    }
}

/// Classifies one byte as ASCII (`0x00..=0x7F`) or not.
pub fn is_ascii(b: u8) -> (r: bool)
    ensures
        r == is_ascii_byte(b),
{
    b <= 0x7f
}

/// The uppercase hexadecimal digit of a value below 16.
pub fn hex_digit(n: u8) -> (c: char)
    requires
        n < 16,
    ensures
        c == hex_digit_of(n),
{
    if n < 10 {
        (n + 0x30) as char
    } else {
        (n + 0x37) as char
    }
}

} // verus!

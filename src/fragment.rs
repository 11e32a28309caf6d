//! A fragment is one run of the input: ASCII text, or other bytes.

use vstd::prelude::*;
use vstd::utf8::{decode_utf8, is_ascii_chars, pop_first_scalar, valid_utf8};
use crate::text::{
    byte_text, chars_of, hex_digit, hex_digit_of, lemma_text_of_ascii, text_of, uniform,
};

verus! {

/// The error that std::str::from_utf8 returns, carried through as it is.
#[verifier::external_type_specification]
#[verifier::external_body]
pub struct ExUtf8Error(std::str::Utf8Error);

/// One run of the input, borrowed from it.
#[derive(Debug, Clone, Copy, PartialEq, Eq)]
pub enum Fragment<'a> {
    /// A run of ASCII bytes, read as text.
    Ascii(&'a str),
    /// A run of bytes above `0x7F`.
    Bytes(&'a [u8]),
}

impl<'a> Fragment<'a> {
    /// Whether the fragment is an ASCII run.
    pub open spec fn is_text(&self) -> bool {
        self is Ascii
    }

    /// The input bytes that the fragment covers.
    pub open spec fn bytes(&self) -> Seq<u8> {
        match *self {
            Fragment::Ascii(s) => s@.map_values(|c: char| c as u8),
            Fragment::Bytes(b) => b@,
        }
    }

    /// A fragment is never empty, and its bytes are all of its own class.
    pub open spec fn wf(&self) -> bool {
        match *self {
            Fragment::Ascii(s) => s@.len() > 0 && is_ascii_chars(s@),
            Fragment::Bytes(b) => b@.len() > 0 && uniform(b@, false),
        }
    }

    /// A well-formed fragment covers at least one byte, all of its class.
    pub proof fn lemma_wf_bytes(&self)
        requires
            self.wf(),
        ensures
            self.bytes().len() > 0,
            uniform(self.bytes(), self.is_text()),
            self matches Fragment::Ascii(s) ==> s@ == chars_of(self.bytes()),
    {
        if let Fragment::Ascii(s) = *self {
            assert(chars_of(self.bytes()) =~= s@);
        }
    }

    /// Appends the text of the fragment to `out`: an ASCII run as it is, any
    /// other run as two uppercase hexadecimal digits and a space per byte.
    pub fn render_into(&self, out: &mut String)
        requires
            self.wf(),
        ensures
            final(out)@ == old(out)@ + text_of(self.bytes()),
    {
        proof {
            self.lemma_wf_bytes();
        }
        match *self {
            Fragment::Ascii(s) => {
                proof {
                    lemma_text_of_ascii(self.bytes());
                }
                out.append(s);
            },
            Fragment::Bytes(b) => {
                let ghost start = out@;
                let mut i: usize = 0;
                while i < b.len()
                    invariant
                        i <= b@.len(),
                        uniform(b@, false),
                        out@ == start + text_of(b@.take(i as int)),
                    decreases b@.len() - i,
                {
                    let x = b[i];
                    push_char(out, hex_digit(x / 16));
                    push_char(out, hex_digit(x % 16));
                    push_char(out, ' ');
                    proof {
                        let t = b@.take(i + 1);
                        assert(t.drop_last() =~= b@.take(i as int));
                        assert(byte_text(x) =~= seq![
                            hex_digit_of(x / 16),
                            hex_digit_of(x % 16),
                            ' ',
                        ]);
                        assert(out@ =~= start + text_of(t));
                    }
                    i += 1;
                }
                proof {
                    assert(b@.take(b@.len() as int) =~= b@);
                }
            },
        }
    }
}

/// ASCII bytes are valid UTF-8, one character per byte.
pub proof fn lemma_ascii_decodes(b: Seq<u8>)
    requires
        uniform(b, true),
    ensures
        valid_utf8(b),
        decode_utf8(b) == chars_of(b),
    decreases b.len(),
{
    if b.len() > 0 {
        let x = b[0];
        assert(x <= 0x7f ==> (x & 0x7f) == x) by (bit_vector);
        assert(pop_first_scalar(b) =~= b.drop_first());
        assert(uniform(b.drop_first(), true));
        lemma_ascii_decodes(b.drop_first());
        assert(chars_of(b) =~= seq![x as char] + chars_of(b.drop_first()));
    }
}

/// Relies on std::str::from_utf8: it succeeds exactly on valid UTF-8, and
/// then yields the characters that the bytes encode.
#[verifier::external_body]
fn str_from_utf8<'a>(b: &'a [u8]) -> (r: Result<&'a str, std::str::Utf8Error>)
    ensures
        r is Ok <==> valid_utf8(b@),
        r is Ok ==> r->Ok_0@ == decode_utf8(b@),
{
    std::str::from_utf8(b)
}

/// Relies on String::push: appends one character at the end.
#[verifier::external_body]
fn push_char(s: &mut String, c: char)
    ensures
        final(s)@ == old(s)@.push(c),
{
    s.push(c);
}

/// Reads a run of bytes as an ASCII fragment. It fails only where the bytes
/// are not valid UTF-8, which never happens for a run of ASCII bytes.
pub fn ascii_to_fragment<'a>(b: &'a [u8]) -> (r: Result<Fragment<'a>, std::str::Utf8Error>)
    ensures
        r is Ok <==> valid_utf8(b@),
        r matches Ok(f) ==> f is Ascii && f->Ascii_0@ == decode_utf8(b@),
        uniform(b@, true) ==> (r matches Ok(f) && f.bytes() == b@ && (b@.len() > 0 ==> f.wf())),
{
    proof {
        if uniform(b@, true) {
            lemma_ascii_decodes(b@);
        }
    }
    match str_from_utf8(b) {
        Ok(s) => {
            proof {
                if uniform(b@, true) {
                    assert(s@.map_values(|c: char| c as u8) =~= b@);
                }
            }
            Ok(Fragment::Ascii(s))
        },
        Err(e) => Err(e),
    }
}

} // verus!

//! Splitting the input into maximal runs, and turning the runs into text.

use vstd::prelude::*;
use crate::fragment::{ascii_to_fragment, Fragment};
use crate::text::{is_ascii, is_ascii_byte, lemma_text_of_concat, text_of, uniform};

verus! {

/// Why a conversion stopped.
#[derive(Debug, Clone, Copy, PartialEq, Eq)]
pub enum ConversionError {
    /// No run of the expected class could be read at `offset`.
    Parse { offset: usize },
}

/// `b[start..end]` is a whole run of class `cls`: it is not empty, all its
/// bytes are of that class, and the byte after it, if any, is not.
pub open spec fn is_run_at(b: Seq<u8>, start: int, end: int, cls: bool) -> bool {
    &&& 0 <= start < end <= b.len()
    &&& uniform(b.subrange(start, end), cls)
    &&& end < b.len() ==> is_ascii_byte(b[end]) != cls
}

/// The bytes that the fragments cover, in order.
pub open spec fn joined<'a>(fs: Seq<Fragment<'a>>) -> Seq<u8>
    decreases fs.len(),
{
    if fs.len() == 0 {
        seq![]
    } else {
        joined(fs.drop_last()) + fs.last().bytes()
    }
}

/// Every fragment is well formed.
pub open spec fn all_wf<'a>(fs: Seq<Fragment<'a>>) -> bool {
    forall|i: int| 0 <= i < fs.len() ==> (#[trigger] fs[i]).wf()
}

/// No two neighbouring fragments are of the same class.
pub open spec fn alternating<'a>(fs: Seq<Fragment<'a>>) -> bool {
    forall|i: int| 1 <= i < fs.len() ==> fs[i - 1].is_text() != (#[trigger] fs[i]).is_text()
}

/// `fs` splits `b` into maximal runs: together they cover `b` exactly, each
/// is a non-empty run of one class, and the class flips at each boundary.
pub open spec fn is_segmentation<'a>(fs: Seq<Fragment<'a>>, b: Seq<u8>) -> bool {
    &&& joined(fs) == b
    &&& all_wf(fs)
    &&& alternating(fs)
}

/// What a conversion of `b` returns: always the text of `b`.
pub open spec fn converts_to(b: Seq<u8>, r: Result<String, ConversionError>) -> bool {
    r is Ok && r->Ok_0@ == text_of(b)
}

/// The end of the run of class `cls` that starts at `start`.
fn run_end(b: &[u8], start: usize, cls: bool) -> (end: usize)
    requires
        start <= b@.len(),
    ensures
        start <= end <= b@.len(),
        uniform(b@.subrange(start as int, end as int), cls),
        end < b@.len() ==> is_ascii_byte(b@[end as int]) != cls,
{
    let mut end = start;
    while end < b.len() && is_ascii(b[end]) == cls
        invariant
            start <= end <= b@.len(),
            uniform(b@.subrange(start as int, end as int), cls),
        decreases b@.len() - end,
    {
        proof {
            assert forall|i: int| 0 <= i < end + 1 - start implies is_ascii_byte(
                #[trigger] b@.subrange(start as int, end + 1)[i],
            ) == cls by {
                if i < end - start {
                    assert(b@.subrange(start as int, end + 1)[i] == b@.subrange(
                        start as int,
                        end as int,
                    )[i]);
                }
            }
        }
        end += 1;
    }
    end
}

/// Takes the run of ASCII bytes that starts at `start`. Fails where no
/// ASCII byte stands there.
pub fn ascii<'a>(b: &'a [u8], start: usize) -> (r: Result<(Fragment<'a>, usize), ConversionError>)
    ensures
        r is Ok <==> start < b@.len() && is_ascii_byte(b@[start as int]),
        r matches Ok((f, end)) ==> is_run_at(b@, start as int, end as int, true) && f.is_text()
            && f.wf() && f.bytes() == b@.subrange(start as int, end as int),
        r is Err ==> r->Err_0 == (ConversionError::Parse { offset: start }),
{
    if start >= b.len() || !is_ascii(b[start]) {
        return Err(ConversionError::Parse { offset: start });
    }
    let end = run_end(b, start, true);
    match ascii_to_fragment(&b[start..end]) {
        Ok(f) => Ok((f, end)),
        Err(_) => Err(ConversionError::Parse { offset: start }),
    }
}

/// Takes the run of bytes above `0x7F` that starts at `start`. Fails where
/// no such byte stands there.
pub fn bytes<'a>(b: &'a [u8], start: usize) -> (r: Result<(Fragment<'a>, usize), ConversionError>)
    ensures
        r is Ok <==> start < b@.len() && !is_ascii_byte(b@[start as int]),
        r matches Ok((f, end)) ==> is_run_at(b@, start as int, end as int, false) && !f.is_text()
            && f.wf() && f.bytes() == b@.subrange(start as int, end as int),
        r is Err ==> r->Err_0 == (ConversionError::Parse { offset: start }),
{
    if start >= b.len() || is_ascii(b[start]) {
        return Err(ConversionError::Parse { offset: start });
    }
    let end = run_end(b, start, false);
    Ok((Fragment::Bytes(&b[start..end]), end))
}

/// Takes the whole run that starts at `start`, of whichever class its first
/// byte is. Fails only at the end of the input.
pub fn fragment<'a>(b: &'a [u8], start: usize) -> (r: Result<(Fragment<'a>, usize), ConversionError>)
    ensures
        r is Ok <==> start < b@.len(),
        r matches Ok((f, end)) ==> is_run_at(b@, start as int, end as int, f.is_text())
            && f.is_text() == is_ascii_byte(b@[start as int]) && f.wf() && f.bytes()
            == b@.subrange(start as int, end as int),
        r is Err ==> r->Err_0 == (ConversionError::Parse { offset: start }),
{
    match ascii(b, start) {
        Ok(run) => Ok(run),
        Err(_) => bytes(b, start),
    }
}

/// Splits the input into its maximal runs, left to right. An empty input
/// gives no fragments.
pub fn fragments<'a>(b: &'a [u8]) -> (r: Result<Vec<Fragment<'a>>, ConversionError>)
    ensures
        r matches Ok(fs) && is_segmentation(fs@, b@),
{
    let mut out: Vec<Fragment<'a>> = Vec::new();
    let mut pos: usize = 0;
    proof {
        assert(b@.take(0) =~= joined(out@));
    }
    while pos < b.len()
        invariant
            pos <= b@.len(),
            is_segmentation(out@, b@.take(pos as int)),
            out@.len() == 0 <==> pos == 0,
            out@.len() > 0 && pos < b@.len() ==> is_ascii_byte(b@[pos as int])
                != out@.last().is_text(),
        decreases b@.len() - pos,
    {
        let (f, end) = fragment(b, pos)?;
        let ghost prev = out@;
        out.push(f);
        proof {
            assert(out@.drop_last() =~= prev);
            assert(b@.take(end as int) =~= b@.take(pos as int) + b@.subrange(
                pos as int,
                end as int,
            ));
        }
        pos = end;
    }
    proof {
        assert(b@.take(b@.len() as int) =~= b@);
    }
    Ok(out)
}

/// Concatenates the text of the fragments, in order.
pub fn combine<'a>(fs: &Vec<Fragment<'a>>) -> (r: String)
    requires
        all_wf(fs@),
    ensures
        r@ == text_of(joined(fs@)),
{
    let mut out = String::new();
    let mut i: usize = 0;
    while i < fs.len()
        invariant
            i <= fs@.len(),
            all_wf(fs@),
            out@ == text_of(joined(fs@.take(i as int))),
        decreases fs@.len() - i,
    {
        let ghost before = out@;
        fs[i].render_into(&mut out);
        proof {
            let t = fs@.take(i + 1);
            assert(t.drop_last() =~= fs@.take(i as int));
            lemma_text_of_concat(joined(fs@.take(i as int)), fs@[i as int].bytes());
        }
        i += 1;
    }
    proof {
        assert(fs@.take(fs@.len() as int) =~= fs@);
    }
    out
}

/// Converts a whole input: ASCII runs stay as they are, other runs become
/// uppercase hexadecimal with a space after each byte.
pub fn convert(b: &[u8]) -> (r: Result<String, ConversionError>)
    ensures
        converts_to(b@, r),
{
    let fs = fragments(b)?;
    Ok(combine(&fs))
}

} // verus!

//! Properties of the conversion as a whole.

use vstd::prelude::*;
use crate::fragment::Fragment;
use crate::segment::{all_wf, alternating, converts_to, is_segmentation, joined, ConversionError};
use crate::text::{chars_of, is_ascii_byte, lemma_text_of_ascii, text_of, uniform};

verus! {

/// The text of `b` has at most three characters per byte, and exactly three
/// per byte just when no byte of `b` is ASCII.
pub proof fn lemma_text_len(b: Seq<u8>)
    ensures
        text_of(b).len() <= 3 * b.len(),
        text_of(b).len() == 3 * b.len() <==> uniform(b, false),
    decreases b.len(),
{
    if b.len() > 0 {
        let p = b.drop_last();
        lemma_text_len(p);
        if uniform(b, false) {
            assert(uniform(p, false));
        } else {
            let i = choose|i: int| 0 <= i < b.len() && is_ascii_byte(#[trigger] b[i]);
            if i < b.len() - 1 {
                assert(p[i] == b[i]);
            }
        }
    }
}

/// Converting the same input twice gives the same text.
pub proof fn lemma_convert_deterministic(
    b: Seq<u8>,
    r1: Result<String, ConversionError>,
    r2: Result<String, ConversionError>,
)
    requires
        converts_to(b, r1),
        converts_to(b, r2),
    ensures
        r1 is Ok,
        r2 is Ok,
        r1->Ok_0@ == r2->Ok_0@,
{
}

/// The output of a conversion is at most three times as long as the input,
/// and exactly three times as long just when no input byte is ASCII.
pub proof fn lemma_output_len(b: Seq<u8>, r: Result<String, ConversionError>)
    requires
        converts_to(b, r),
    ensures
        r->Ok_0@.len() <= 3 * b.len(),
        r->Ok_0@.len() == 3 * b.len() <==> uniform(b, false),
{
    lemma_text_len(b);
}

/// An input that is all ASCII is its own output, character for byte.
pub proof fn lemma_ascii_verbatim(b: Seq<u8>, r: Result<String, ConversionError>)
    requires
        converts_to(b, r),
        uniform(b, true),
    ensures
        r->Ok_0@ == chars_of(b),
{
    lemma_text_of_ascii(b);
}

/// An empty input converts to empty text.
pub proof fn lemma_empty_input(r: Result<String, ConversionError>)
    requires
        converts_to(Seq::empty(), r),
    ensures
        r is Ok,
        r->Ok_0@.len() == 0,
{
}

/// Dropping the last fragment of a segmentation leaves a segmentation of what
/// comes before that fragment.
proof fn lemma_segmentation_drop_last<'a>(fs: Seq<Fragment<'a>>, b: Seq<u8>)
    requires
        is_segmentation(fs, b),
        fs.len() > 0,
    ensures
        is_segmentation(fs.drop_last(), b.take(b.len() - fs.last().bytes().len())),
        b == joined(fs.drop_last()) + fs.last().bytes(),
{
    let p = fs.drop_last();
    assert(b.take(b.len() - fs.last().bytes().len()) =~= joined(p));
    assert(all_wf(p)) by {
        assert forall|i: int| 0 <= i < p.len() implies (#[trigger] p[i]).wf() by {
            assert(p[i] == fs[i]);
        }
    }
    assert(alternating(p)) by {
        assert forall|i: int| 1 <= i < p.len() implies p[i - 1].is_text() != (
        #[trigger] p[i]).is_text() by {
            assert(p[i] == fs[i] && p[i - 1] == fs[i - 1]);
        }
    }
}

/// The last fragment of one segmentation of `b` is no longer than the last
/// fragment of another: both end at the end of `b`, and the fragment before
/// the shorter one is of the other class.
proof fn lemma_last_run_len<'a>(f1: Seq<Fragment<'a>>, f2: Seq<Fragment<'a>>, b: Seq<u8>)
    requires
        is_segmentation(f1, b),
        is_segmentation(f2, b),
        f1.len() > 0,
        f2.len() > 0,
    ensures
        f1.last().bytes().len() <= f2.last().bytes().len(),
{
    let l1 = f1.last();
    let l2 = f2.last();
    assert(f1[f1.len() - 1] == l1 && f2[f2.len() - 1] == l2);
    l1.lemma_wf_bytes();
    l2.lemma_wf_bytes();
    lemma_segmentation_drop_last(f1, b);
    lemma_segmentation_drop_last(f2, b);
    let n = b.len();
    let k1 = l1.bytes().len() as int;
    let k2 = l2.bytes().len() as int;
    assert(b[n - 1] == l1.bytes()[k1 - 1]);
    assert(b[n - 1] == l2.bytes()[k2 - 1]);
    if k1 > k2 {
        let p2 = f2.drop_last();
        lemma_joined_len(p2);
        let q = p2.last();
        assert(p2[p2.len() - 1] == q && f2[p2.len() as int] == l2);
        assert(q == f2[f2.len() - 2]);
        q.lemma_wf_bytes();
        assert(joined(p2) == joined(p2.drop_last()) + q.bytes());
        let j = n - k2 - 1;
        assert(b[j] == joined(p2)[j]);
        assert(joined(p2)[j] == q.bytes()[q.bytes().len() - 1]);
        assert(b[j] == l1.bytes()[j - (n - k1)]);
    }
}

/// A segmentation that covers no bytes has no fragments.
proof fn lemma_joined_len<'a>(fs: Seq<Fragment<'a>>)
    requires
        all_wf(fs),
    ensures
        fs.len() > 0 ==> joined(fs).len() > 0,
{
    if fs.len() > 0 {
        assert(fs[fs.len() - 1] == fs.last());
        fs.last().lemma_wf_bytes();
    }
}

/// A byte sequence splits into maximal runs in one way only: two
/// segmentations of it have the same fragments, with the same bytes and the
/// same class, in the same order.
pub proof fn lemma_segmentation_unique<'a>(f1: Seq<Fragment<'a>>, f2: Seq<Fragment<'a>>, b: Seq<u8>)
    requires
        is_segmentation(f1, b),
        is_segmentation(f2, b),
    ensures
        f1.len() == f2.len(),
        forall|i: int|
            0 <= i < f1.len() ==> (#[trigger] f1[i]).bytes() == f2[i].bytes() && f1[i].is_text()
                == f2[i].is_text(),
    decreases f1.len(),
{
    lemma_joined_len(f1);
    lemma_joined_len(f2);
    if f1.len() > 0 && f2.len() > 0 {
        lemma_last_run_len(f1, f2, b);
        lemma_last_run_len(f2, f1, b);
        let l1 = f1.last();
        let l2 = f2.last();
        assert(f1[f1.len() - 1] == l1 && f2[f2.len() - 1] == l2);
        l1.lemma_wf_bytes();
        l2.lemma_wf_bytes();
        lemma_segmentation_drop_last(f1, b);
        lemma_segmentation_drop_last(f2, b);
        let k = l1.bytes().len() as int;
        let rest = b.take(b.len() - k);
        assert(l1.bytes() =~= b.skip(b.len() - k));
        assert(l2.bytes() =~= b.skip(b.len() - k));
        assert(b[b.len() - 1] == l1.bytes()[k - 1]);
        assert(b[b.len() - 1] == l2.bytes()[k - 1]);
        lemma_segmentation_unique(f1.drop_last(), f2.drop_last(), rest);
        assert forall|i: int| 0 <= i < f1.len() implies (#[trigger] f1[i]).bytes() == f2[i].bytes()
            && f1[i].is_text() == f2[i].is_text() by {
            if i < f1.len() - 1 {
                assert(f1[i] == f1.drop_last()[i]);
                assert(f2[i] == f2.drop_last()[i]);
            }
        }
    }
}

} // verus!

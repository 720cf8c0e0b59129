//! Chinese word segmentation, provided by the jieba segmenter and consumed
//! here as a capability from text to an ordered sequence of tokens.
use vstd::prelude::*;

verus! {

/// The token sequence that dictionary-only jieba segmentation yields for a
/// text. With the bundled default dictionary the result depends on the
/// characters alone, so it is named here rather than written out.
pub uninterp spec fn segments_of(text: Seq<char>) -> Seq<Seq<char>>;

/// jieba_rs::Jieba, the segmenter, declared so that a built segmenter can be
/// held and passed between calls. Its inside stays opaque here.
#[verifier::external_type_specification]
#[verifier::external_body]
pub struct ExJieba(jieba_rs::Jieba);

/// Relies on jieba_rs::Jieba::new: builds a segmenter over the crate's
/// bundled default dictionary, the only dictionary this library ever loads.
#[verifier::external_body]
pub(crate) fn new_segmenter() -> jieba_rs::Jieba {
    jieba_rs::Jieba::new()
}

/// Relies on jieba_rs::Jieba::cut with hmm disabled: it emits the words of
/// the text in order, every word a contiguous piece of the input, the pieces
/// tiling the whole input, so their concatenation is the input itself; over
/// the default dictionary the output is a function of the text alone.
#[verifier::external_body]
pub(crate) fn segment(segmenter: &jieba_rs::Jieba, text: &str) -> (r: Vec<String>)
    ensures
        r.deep_view() == segments_of(text@),
        r.deep_view().flatten() == text@,
{
    segmenter.cut(text, false).into_iter().map(|t| t.word.to_owned()).collect()
}

} // verus!

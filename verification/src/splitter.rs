use vstd::prelude::*;
use crate::chunker::{
    bounded, chunk_texts, chunk_views, is_single_word, partitions, texts_of, Chunk, ChunkView,
};
use crate::cover::{lemma_placed_covers, placed};
use crate::text::{chars_of, is_space_char, is_trimmed, skip_spaces};
use crate::tokenizer::{count_tokens, is_tame, tame, token_count};

verus! {

/// The pieces into which `text_splitter` cuts `text` for the limit
/// `max_tokens`, in order, when it counts tokens with the `cl100k_base`
/// tokenizer and trims its chunks.
pub uninterp spec fn split_pieces(text: Seq<char>, max_tokens: usize) -> Seq<Seq<char>>;

/// Calls `text_splitter::TextSplitter::chunks` on a splitter that was made
/// by `TextSplitter::new` with the shared `cl100k_base` tokenizer of
/// `tiktoken_rs::cl100k_base_singleton` and told to trim its chunks by
/// `with_trim_chunks`. The claim is only that the pieces depend on the text
/// and the limit alone.
///
/// The splitter has the tokenizer count the tokens of parts of the text,
/// and the tokenizer gives up with a panic on a text with a run of about
/// 1,000,000 code points. Every part of a tame text is tame.
#[verifier::external_body]
pub(crate) fn split(text: &str, max_tokens: usize) -> (pieces: Vec<String>)
    requires
        tame(text@),
    ensures
        texts_of(pieces@) == split_pieces(text@, max_tokens),
{
    let tokenizer = tiktoken_rs::cl100k_base_singleton();
    let guard = tokenizer.lock();
    let splitter = text_splitter::TextSplitter::new(&*guard).with_trim_chunks(true);
    splitter.chunks(text, max_tokens).map(|piece| piece.to_string()).collect()
}

/// A piece is within the limit if the tokenizer makes at most `max_tokens`
/// tokens of it, or if it is a single code point, which cannot be cut
/// further.
pub open spec fn within_limit(piece: Seq<char>, max_tokens: usize) -> bool {
    token_count(piece) <= max_tokens || piece.len() == 1
}

/// The pieces from the place `from` on are trimmed, tame and within the
/// limit.
pub open spec fn pieces_fit(pieces: Seq<Seq<char>>, max_tokens: usize, from: int) -> bool {
    forall|i: int|
        from <= i < pieces.len() ==> {
            &&& is_trimmed(#[trigger] pieces[i])
            &&& tame(pieces[i])
            &&& within_limit(pieces[i], max_tokens)
        }
}

/// The pieces are chunks of `text` for the limit `max_tokens`: they are
/// trimmed, tame and within the limit, and lie in the text in order with
/// nothing but whitespace around them.
pub open spec fn acceptable(text: Seq<char>, max_tokens: usize, pieces: Seq<Seq<char>>) -> bool {
    placed(text, pieces, 0) && pieces_fit(pieces, max_tokens, 0)
}

/// The chunks that a list of pieces makes: each piece with its place and
/// with the number of tokens that the tokenizer makes of it.
pub open spec fn numbered(pieces: Seq<Seq<char>>) -> Seq<ChunkView> {
    Seq::new(
        pieces.len(),
        |i: int| ChunkView { index: i, text: pieces[i], token_count: token_count(pieces[i]) as int },
    )
}

/// Acceptable pieces make chunks that leave out nothing of the text but
/// whitespace and stay within the limit.
pub proof fn lemma_acceptable_pieces(text: Seq<char>, max_tokens: usize, pieces: Seq<Seq<char>>)
    requires
        acceptable(text, max_tokens, pieces),
    ensures
        partitions(text, numbered(pieces)),
        bounded(numbered(pieces), max_tokens),
{
    let chunks = numbered(pieces);
    assert(chunk_texts(chunks) =~= pieces);
    lemma_placed_covers(text, pieces, 0);
    assert(text.skip(0) =~= text);
    assert forall|i: int| 0 <= i < chunks.len() implies (#[trigger] chunks[i]).token_count
        <= max_tokens || is_single_word(chunks[i].text) by {
        assert(is_trimmed(pieces[i]) && within_limit(pieces[i], max_tokens));
    }
    assert forall|i: int| 0 <= i < chunks.len() implies (#[trigger] chunks[i]).index == i
        && is_trimmed(chunks[i].text) by {
        assert(is_trimmed(pieces[i]));
    }
}

/// Tells whether `piece` lies in `text` at `start`.
fn lies_at(text: &Vec<char>, start: usize, piece: &Vec<char>) -> (r: bool)
    requires
        start <= text.len(),
    ensures
        r == (start + piece@.len() <= text@.len() && text@.subrange(
            start as int,
            start + piece@.len(),
        ) == piece@),
{
    if piece.len() > text.len() - start {
        return false;
    }
    let mut i: usize = 0;
    while i < piece.len()
        invariant
            start + piece.len() <= text.len(),
            i <= piece.len(),
            forall|j: int| 0 <= j < i ==> text@[start + j] == piece@[j],
        decreases piece.len() - i,
    {
        if text[start + i] != piece[i] {
            assert(text@.subrange(start as int, start + piece@.len())[i as int] != piece@[i as int]);
            return false;
        }
        i = i + 1;
    }
    assert(text@.subrange(start as int, start + piece@.len()) =~= piece@);
    true
}

/// Takes the pieces that a splitter made of `text` for its chunks, if they
/// are acceptable: each piece trimmed, tame and within the limit, and all
/// of them in the text in order with nothing but whitespace around them.
/// Pieces that are not acceptable are not taken.
pub fn adopt(text: &str, pieces: Vec<String>, max_tokens: usize) -> (r: Option<Vec<Chunk>>)
    ensures
        r is Some <==> acceptable(text@, max_tokens, texts_of(pieces@)),
        r is Some ==> chunk_views(r->Some_0@) == numbered(texts_of(pieces@)),
        r is Some ==> partitions(text@, chunk_views(r->Some_0@)),
        r is Some ==> bounded(chunk_views(r->Some_0@), max_tokens),
{
    let ghost all = texts_of(pieces@);
    let chars = chars_of(text);
    let mut chunks: Vec<Chunk> = Vec::new();
    let mut from: usize = 0;
    assert(all.skip(0) =~= all);
    for piece in it: pieces
        invariant
            chars@ == text@,
            texts_of(it.seq()) == all,
            from <= chars@.len(),
            acceptable(text@, max_tokens, all) <==> placed(text@, all.skip(it.index()), from as int)
                && pieces_fit(all, max_tokens, it.index()),
            chunks@.len() == it.index(),
            forall|j: int|
                0 <= j < it.index() ==> (#[trigger] chunks@[j])@ == (ChunkView {
                    index: j,
                    text: all[j],
                    token_count: token_count(all[j]) as int,
                }),
    {
        let ghost i = it.index();
        assert(piece@ == all[i]);
        assert(all.skip(i)[0] == all[i]);
        assert(all.skip(i).drop_first() =~= all.skip(i + 1));
        let piece_chars = chars_of(piece.as_str());
        let n = piece_chars.len();
        if n == 0 || is_space_char(piece_chars[0]) || is_space_char(piece_chars[n - 1]) {
            return None;
        }
        let start = skip_spaces(&chars, from);
        if !lies_at(&chars, start, &piece_chars) || !is_tame(&piece_chars) {
            return None;
        }
        let count = count_tokens(piece.as_str());
        if count > max_tokens && n != 1 {
            return None;
        }
        from = start + n;
        let index = chunks.len();
        chunks.push(Chunk { index, text: piece, token_count: count });
    }
    let end = skip_spaces(&chars, from);
    assert(all.skip(all.len() as int).len() == 0);
    if end < chars.len() {
        return None;
    }
    proof {
        assert(chunk_views(chunks@) =~= numbered(all));
        lemma_acceptable_pieces(text@, max_tokens, all);
    }
    Some(chunks)
}

} // verus!

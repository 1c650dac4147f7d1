use vstd::prelude::*;
use crate::cover::{is_cover, lemma_placed_covers, placed};
use crate::laws::lemma_blank_text_has_no_chunks;
use crate::splitter::{acceptable, adopt, numbered, split, split_pieces};
use crate::text::{
    all_space, chars_of, is_space, is_space_char, is_trimmed, lemma_skip_space,
    lemma_skip_space_to, skip_space, skip_spaces, text_between,
};
use crate::tokenizer::{count_in_parts, is_tame, tame, tokens_in_parts};

verus! {

/// One segment of a chunked text.
#[derive(Debug, PartialEq, Eq)]
pub struct Chunk {
    /// The chunk's place in the sequence, from 0.
    pub index: usize,
    /// The chunk's text, without whitespace at either end.
    pub text: String,
    /// The number of tokens of the chunk: of its text as a whole where the
    /// outside splitter made the chunk, and of its words, added up, where
    /// the text was cut by its words.
    pub token_count: usize,
}

/// What a [`Chunk`] stands for.
pub struct ChunkView {
    pub index: int,
    pub text: Seq<char>,
    pub token_count: int,
}

impl View for Chunk {
    type V = ChunkView;

    open spec fn view(&self) -> ChunkView {
        ChunkView {
            index: self.index as int,
            text: self.text@,
            token_count: self.token_count as int,
        }
    }
}

impl Clone for Chunk {
    fn clone(&self) -> (r: Self)
        ensures
            r@ == self@,
    {
        Chunk { index: self.index, text: self.text.clone(), token_count: self.token_count }
    }
}

/// The plain values of a list of chunks.
pub open spec fn chunk_views(s: Seq<Chunk>) -> Seq<ChunkView> {
    s.map_values(|c: Chunk| c@)
}

/// The plain values of a list of texts.
pub open spec fn texts_of(s: Seq<String>) -> Seq<Seq<char>> {
    s.map_values(|t: String| t@)
}

/// The texts of a list of chunks.
pub open spec fn chunk_texts(chunks: Seq<ChunkView>) -> Seq<Seq<char>> {
    Seq::new(chunks.len(), |i: int| chunks[i].text)
}

/// A word of a text, the unit that is never cut: the places of its first
/// code point and behind its last, and the number of its tokens.
#[derive(Clone, Copy, Debug, PartialEq, Eq)]
pub struct Word {
    pub start: usize,
    pub end: usize,
    pub tokens: usize,
}

/// The code points `start..end` of `text` are a word: a run without
/// whitespace that whitespace or an end of the text bounds on either side.
pub open spec fn is_word(text: Seq<char>, start: int, end: int) -> bool {
    &&& 0 <= start < end <= text.len()
    &&& forall|i: int| start <= i < end ==> !is_space(#[trigger] text[i])
    &&& (start == 0 || is_space(text[start - 1]))
    &&& (end == text.len() || is_space(text[end]))
}

/// The place `p` of the text lies in one of the words.
pub open spec fn in_a_word(words: Seq<Word>, p: int) -> bool {
    exists|i: int| 0 <= i < words.len() && (#[trigger] words[i]).start <= p < words[i].end
}

/// `words` are the words of `text`, all of them and in order.
pub open spec fn words_of(text: Seq<char>, words: Seq<Word>) -> bool {
    &&& forall|i: int|
        0 <= i < words.len() ==> is_word(text, (#[trigger] words[i]).start as int, words[i].end as int)
    &&& forall|i: int, j: int|
        0 <= i < j < words.len() ==> (#[trigger] words[i]).end < (#[trigger] words[j]).start
    &&& forall|p: int| 0 <= p < text.len() && !is_space(#[trigger] text[p]) ==> in_a_word(words, p)
}

/// The text of the word at `i`.
pub open spec fn word_text(text: Seq<char>, words: Seq<Word>, i: int) -> Seq<char> {
    text.subrange(words[i].start as int, words[i].end as int)
}

/// The number of tokens of the words `k..m`.
pub open spec fn run_tokens(words: Seq<Word>, k: int, m: int) -> int
    decreases m - k,
{
    if m <= k {
        0
    } else {
        run_tokens(words, k, m - 1) + words[m - 1].tokens
    }
}

/// How far the run of words from `k` that reaches `m` can be extended
/// within the limit.
pub open spec fn extend(words: Seq<Word>, max_tokens: usize, k: int, m: int) -> int
    decreases words.len() - m,
{
    if m < words.len() && run_tokens(words, k, m + 1) <= max_tokens {
        extend(words, max_tokens, k, m + 1)
    } else {
        m
    }
}

/// The code points that end a sentence.
pub open spec fn is_terminator(c: char) -> bool {
    c == '.' || c == '!' || c == '?'
}

/// A line break lies in `text[from..to]`.
pub open spec fn has_line_break(text: Seq<char>, from: int, to: int) -> bool {
    exists|i: int| from <= i < to && #[trigger] text[i] == '\n'
}

/// The place where the whitespace behind the word at `j` ends: the start
/// of the next word, or the end of the text.
pub open spec fn gap_end(text: Seq<char>, words: Seq<Word>, j: int) -> int {
    if j + 1 < words.len() {
        words[j + 1].start as int
    } else {
        text.len() as int
    }
}

/// A sentence or a paragraph ends behind the word at `j`: the word ends
/// with `.`, `!` or `?`, or a line break follows it before the next word.
pub open spec fn breaks_after(text: Seq<char>, words: Seq<Word>, j: int) -> bool {
    is_terminator(text[words[j].end - 1]) || has_line_break(
        text,
        words[j].end as int,
        gap_end(text, words, j),
    )
}

/// The last place in `k+1..=m` behind which a sentence or a paragraph
/// ends, and `k` if there is none.
pub open spec fn last_break(text: Seq<char>, words: Seq<Word>, k: int, m: int) -> int
    decreases m - k,
{
    if m <= k {
        k
    } else if breaks_after(text, words, m - 1) {
        m
    } else {
        last_break(text, words, k, m - 1)
    }
}

/// Where the chunk that starts with the word at `k` ends. The run is
/// extended word by word while its tokens stay within the limit, and holds
/// one word at least. Unless it reaches the end of the text, it is then cut
/// back to the last end of a sentence or paragraph in it, if it has one.
pub open spec fn run_end(text: Seq<char>, words: Seq<Word>, max_tokens: usize, k: int) -> int {
    let m = extend(words, max_tokens, k, k + 1);
    if m >= words.len() {
        m
    } else {
        let b = last_break(text, words, k, m);
        if b > k {
            b
        } else {
            m
        }
    }
}

/// The text of the chunk made of the words `k..e`: from the first code
/// point of the first word to the last of the last.
pub open spec fn run_text(text: Seq<char>, words: Seq<Word>, k: int, e: int) -> Seq<char> {
    text.subrange(words[k].start as int, words[e - 1].end as int)
}

/// The chunk at `i` is the run of words from the cut `cuts[i]` to the next
/// cut, which is where that run ends: it holds a word at least, its text
/// and its tokens are those of the run, and it is within the limit unless
/// it is a single word.
pub open spec fn run_ok(
    text: Seq<char>,
    words: Seq<Word>,
    max_tokens: usize,
    cuts: Seq<int>,
    chunks: Seq<ChunkView>,
    i: int,
) -> bool {
    &&& 0 <= cuts[i] < cuts[i + 1] <= words.len()
    &&& cuts[i + 1] == run_end(text, words, max_tokens, cuts[i])
    &&& chunks[i] == (ChunkView {
        index: i,
        text: run_text(text, words, cuts[i], cuts[i + 1]),
        token_count: run_tokens(words, cuts[i], cuts[i + 1]),
    })
    &&& (run_tokens(words, cuts[i], cuts[i + 1]) <= max_tokens || cuts[i + 1] == cuts[i] + 1)
}

/// `chunks` are the chunks of `text` that the cuts `cuts` make among its
/// measured words: the first chunk starts with the first word, each chunk
/// runs from one cut to the next, and the last ends with the last word.
pub open spec fn cut_at(
    text: Seq<char>,
    words: Seq<Word>,
    max_tokens: usize,
    cuts: Seq<int>,
    chunks: Seq<ChunkView>,
) -> bool {
    &&& cuts.len() == chunks.len() + 1
    &&& cuts[0] == 0
    &&& cuts.last() == words.len()
    &&& forall|i: int|
        0 <= i < chunks.len() ==> #[trigger] run_ok(text, words, max_tokens, cuts, chunks, i)
}

/// `chunks` is the chunking of `text` with the measured words `words` for
/// the limit `max_tokens`.
pub open spec fn is_chunking(
    text: Seq<char>,
    words: Seq<Word>,
    max_tokens: usize,
    chunks: Seq<ChunkView>,
) -> bool {
    exists|cuts: Seq<int>| cut_at(text, words, max_tokens, cuts, chunks)
}

/// The chunks are numbered from 0, each is trimmed, and together they leave
/// out nothing of the text but whitespace.
pub open spec fn partitions(text: Seq<char>, chunks: Seq<ChunkView>) -> bool {
    &&& is_cover(text, chunk_texts(chunks))
    &&& forall|i: int|
        0 <= i < chunks.len() ==> (#[trigger] chunks[i]).index == i && is_trimmed(chunks[i].text)
}

/// No whitespace occurs in `s`: it is a single word.
pub open spec fn is_single_word(s: Seq<char>) -> bool {
    forall|i: int| 0 <= i < s.len() ==> !is_space(#[trigger] s[i])
}

/// Every chunk has at most `max_tokens` tokens, but for a chunk of a single
/// word that alone has more.
pub open spec fn bounded(chunks: Seq<ChunkView>, max_tokens: usize) -> bool {
    forall|i: int|
        0 <= i < chunks.len() ==> (#[trigger] chunks[i]).token_count <= max_tokens
            || is_single_word(chunks[i].text)
}

/// Only whitespace lies between the end of one word and the start of the
/// next, before the first word and behind the last.
pub proof fn lemma_between_words(text: Seq<char>, words: Seq<Word>, j: int, p: int)
    requires
        words_of(text, words),
        -1 <= j < words.len(),
        0 <= p < text.len(),
        j >= 0 ==> words[j].end <= p,
        p < gap_end(text, words, j),
    ensures
        is_space(text[p]),
{
    if !is_space(text[p]) {
        assert(in_a_word(words, p));
        let i = choose|i: int| 0 <= i < words.len() && (#[trigger] words[i]).start <= p < words[i].end;
        if i <= j {
            if i < j {
                assert(words[i].end < words[j].start);
            }
            assert(is_word(text, words[j].start as int, words[j].end as int));
        } else {
            if j + 1 < i {
                assert(words[j + 1].end < words[i].start);
                assert(is_word(text, words[j + 1].start as int, words[j + 1].end as int));
            }
        }
    }
}

/// A run within the limit stays within it when it is cut back.
pub proof fn lemma_run_tokens_monotone(words: Seq<Word>, k: int, e: int, m: int)
    requires
        k <= e <= m,
    ensures
        run_tokens(words, k, e) <= run_tokens(words, k, m),
        0 <= run_tokens(words, e, m),
    decreases m - e,
{
    if e < m {
        lemma_run_tokens_monotone(words, k, e, m - 1);
    }
}

/// The word at `i` has the number of tokens that `counter` gave for its
/// text.
pub open spec fn counted_by<F: Fn(&str) -> usize>(
    text: Seq<char>,
    words: Seq<Word>,
    counter: F,
    i: int,
) -> bool {
    exists|s: &str| s@ == word_text(text, words, i) && call_ensures(counter, (s,), words[i].tokens)
}

/// `words` are the words of `text`, each with the number of tokens that
/// `counter` gave for it.
pub open spec fn measured<F: Fn(&str) -> usize>(text: Seq<char>, words: Seq<Word>, counter: F) -> bool {
    &&& words_of(text, words)
    &&& forall|i: int| 0 <= i < words.len() ==> #[trigger] counted_by(text, words, counter, i)
}

/// Finds the words of `text` and has `counter` count the tokens of each.
pub fn measure<F: Fn(&str) -> usize>(text: &str, counter: F) -> (words: Vec<Word>)
    requires
        forall|s: &str| call_requires(counter, (s,)),
    ensures
        measured(text@, words@, counter),
{
    let chars = chars_of(text);
    let n = chars.len();
    let mut words: Vec<Word> = Vec::new();
    let mut from: usize = 0;
    loop
        invariant
            chars@ == text@,
            n == chars@.len(),
            from <= n,
            forall|s: &str| call_requires(counter, (s,)),
            from == 0 || from == n || is_space(text@[from as int]),
            forall|i: int|
                0 <= i < words@.len() ==> is_word(
                    text@,
                    (#[trigger] words@[i]).start as int,
                    words@[i].end as int,
                ),
            forall|i: int| 0 <= i < words@.len() ==> (#[trigger] words@[i]).end <= from,
            forall|i: int, j: int|
                0 <= i < j < words@.len() ==> (#[trigger] words@[i]).end < (#[trigger] words@[j]).start,
            forall|p: int|
                0 <= p < from && !is_space(#[trigger] text@[p]) ==> in_a_word(words@, p),
            forall|i: int| 0 <= i < words@.len() ==> #[trigger] counted_by(text@, words@, counter, i),
        ensures
            from == n,
        decreases n - from,
    {
        let start = skip_spaces(&chars, from);
        proof {
            lemma_skip_space(text@, from as int);
        }
        if start >= n {
            assert forall|p: int| 0 <= p < n && !is_space(#[trigger] text@[p]) implies in_a_word(
                words@,
                p,
            ) by {
                if p >= from {
                    assert(text@.subrange(from as int, start as int)[p - from] == text@[p]);
                }
            }
            from = n;
            break;
        }
        let mut end: usize = start + 1;
        while end < n && !is_space_char(chars[end])
            invariant
                chars@ == text@,
                n == chars@.len(),
                start < end <= n,
                forall|i: int| start <= i < end ==> !is_space(#[trigger] text@[i]),
            decreases n - end,
        {
            end = end + 1;
        }
        let word = text_between(&chars, start, end);
        let piece = word.as_str();
        let tokens = counter(piece);
        let ghost before = words@;
        let added = Word { start, end, tokens };
        words.push(added);
        proof {
            assert(start > from || from == 0) by {
                if start == from && from > 0 {
                    assert(is_space(text@[from as int]));
                }
            }
            if start > 0 {
                assert(text@.subrange(from as int, start as int)[start - 1 - from] == text@[start
                    - 1]);
            }
            assert(is_word(text@, start as int, end as int));
            assert forall|i: int| 0 <= i < words@.len() implies #[trigger] counted_by(
                text@,
                words@,
                counter,
                i,
            ) by {
                if i < before.len() {
                    assert(counted_by(text@, before, counter, i));
                    let s = choose|s: &str|
                        s@ == word_text(text@, before, i) && call_ensures(
                            counter,
                            (s,),
                            before[i].tokens,
                        );
                    assert(words@[i] == before[i]);
                    assert(s@ == word_text(text@, words@, i));
                } else {
                    assert(piece@ == word_text(text@, words@, i));
                }
            }
            assert forall|p: int| 0 <= p < end && !is_space(#[trigger] text@[p]) implies in_a_word(
                words@,
                p,
            ) by {
                if p < from {
                    assert(in_a_word(before, p));
                    let i = choose|i: int|
                        0 <= i < before.len() && (#[trigger] before[i]).start <= p < before[i].end;
                    assert(words@[i] == before[i]);
                } else if p < start {
                    assert(text@.subrange(from as int, start as int)[p - from] == text@[p]);
                } else {
                    assert(words@[before.len() as int] == added);
                }
            }
            assert forall|i: int, j: int| 0 <= i < j < words@.len() implies (#[trigger] words@[i]).end
                < (#[trigger] words@[j]).start by {
                if j == before.len() {
                    assert(before[i].end <= from);
                    if before[i].end == start {
                        assert(is_word(text@, before[i].start as int, before[i].end as int));
                    }
                } else {
                    assert(before[i].end < before[j].start);
                }
            }
        }
        from = end;
    }
    words
}

/// Tells whether a sentence or a paragraph ends behind the word at `j`.
fn ends_here(chars: &Vec<char>, words: &Vec<Word>, j: usize) -> (r: bool)
    requires
        words_of(chars@, words@),
        j < words@.len(),
    ensures
        r == breaks_after(chars@, words@, j as int),
{
    let word = words[j];
    assert(is_word(chars@, word.start as int, word.end as int));
    let last = chars[word.end - 1];
    if last == '.' || last == '!' || last == '?' {
        return true;
    }
    let to = if j < words.len() - 1 {
        assert(words@[j as int].end < words@[j + 1].start);
        assert(is_word(chars@, words@[j + 1].start as int, words@[j + 1].end as int));
        words[j + 1].start
    } else {
        chars.len()
    };
    assert(to == gap_end(chars@, words@, j as int));
    let mut i: usize = word.end;
    while i < to
        invariant
            j < words@.len(),
            word == words@[j as int],
            to == gap_end(chars@, words@, j as int),
            !is_terminator(chars@[word.end - 1]),
            word.end <= i <= to <= chars@.len(),
            forall|p: int| word.end <= p < i ==> #[trigger] chars@[p] != '\n',
        decreases to - i,
    {
        if chars[i] == '\n' {
            assert(chars@[i as int] == '\n');
            return true;
        }
        i = i + 1;
    }
    false
}

/// Cuts a text whose words are measured into chunks. Each chunk takes in
/// as many words as the limit allows, and one at least; a chunk that does
/// not reach the end of the text is cut back to the last end of a sentence
/// or paragraph in it, if it has one. A word that alone is over the limit
/// makes a chunk of its own.
pub fn chunk_words(text: &str, words: &Vec<Word>, max_tokens: usize) -> (chunks: Vec<Chunk>)
    requires
        words_of(text@, words@),
    ensures
        is_chunking(text@, words@, max_tokens, chunk_views(chunks@)),
        partitions(text@, chunk_views(chunks@)),
        bounded(chunk_views(chunks@), max_tokens),
{
    let chars = chars_of(text);
    let n = words.len();
    let mut chunks: Vec<Chunk> = Vec::new();
    let mut k: usize = 0;
    let ghost mut cuts: Seq<int> = seq![0int];
    while k < n
        invariant
            chars@ == text@,
            n == words@.len(),
            words_of(text@, words@),
            k <= n,
            cuts.len() == chunks@.len() + 1,
            cuts[0] == 0,
            cuts.last() == k,
            forall|i: int|
                0 <= i < chunks@.len() ==> #[trigger] run_ok(
                    text@,
                    words@,
                    max_tokens,
                    cuts,
                    chunk_views(chunks@),
                    i,
                ),
        decreases n - k,
    {
        // The longest run within the limit.
        let mut m: usize = k + 1;
        let mut sum: usize = words[k].tokens;
        assert(run_tokens(words@, k as int, k as int) == 0);
        while m < n && sum <= max_tokens && words[m].tokens <= max_tokens - sum
            invariant
                n == words@.len(),
                k < m <= n,
                sum == run_tokens(words@, k as int, m as int),
                sum <= max_tokens || m == k + 1,
                extend(words@, max_tokens, k as int, k + 1) == extend(
                    words@,
                    max_tokens,
                    k as int,
                    m as int,
                ),
            decreases n - m,
        {
            sum = sum + words[m].tokens;
            m = m + 1;
        }
        assert(extend(words@, max_tokens, k as int, m as int) == m);
        // The last end of a sentence or paragraph in it.
        let mut e: usize = m;
        if m < n {
            let mut j: usize = m;
            while j > k && !ends_here(&chars, words, j - 1)
                invariant
                    chars@ == text@,
                    n == words@.len(),
                    words_of(text@, words@),
                    k <= j <= m < n,
                    last_break(text@, words@, k as int, m as int) == last_break(
                        text@,
                        words@,
                        k as int,
                        j as int,
                    ),
                decreases j,
            {
                j = j - 1;
            }
            if j > k {
                e = j;
            }
        }
        assert(e == run_end(text@, words@, max_tokens, k as int));
        // The tokens of what is left of the run.
        let mut count: usize = sum;
        let mut back: usize = m;
        while back > e
            invariant
                n == words@.len(),
                k < e <= back <= m <= n,
                count == run_tokens(words@, k as int, back as int),
            decreases back,
        {
            proof {
                lemma_run_tokens_monotone(words@, k as int, back - 1, back as int);
                lemma_run_tokens_monotone(words@, k as int, k as int, back - 1);
            }
            back = back - 1;
            count = count - words[back].tokens;
        }
        proof {
            lemma_run_tokens_monotone(words@, k as int, e as int, m as int);
            assert(is_word(text@, words@[k as int].start as int, words@[k as int].end as int));
            assert(is_word(text@, words@[e - 1].start as int, words@[e - 1].end as int));
            if k < e - 1 {
                assert(words@[k as int].end < words@[e - 1].start);
            }
        }
        let text_of_run = text_between(&chars, words[k].start, words[e - 1].end);
        let index = chunks.len();
        let ghost old_cuts = cuts;
        let ghost old_views = chunk_views(chunks@);
        chunks.push(Chunk { index, text: text_of_run, token_count: count });
        proof {
            cuts = cuts.push(e as int);
            let views = chunk_views(chunks@);
            assert forall|i: int| 0 <= i < views.len() implies #[trigger] run_ok(
                text@,
                words@,
                max_tokens,
                cuts,
                views,
                i,
            ) by {
                if i < old_views.len() {
                    assert(run_ok(text@, words@, max_tokens, old_cuts, old_views, i));
                    assert(views[i] == old_views[i]);
                    assert(cuts[i] == old_cuts[i] && cuts[i + 1] == old_cuts[i + 1]);
                } else {
                    assert(views[i] == chunks@[i]@);
                    assert(cuts[i] == k && cuts[i + 1] == e);
                }
            }
        }
        k = e;
    }
    proof {
        let views = chunk_views(chunks@);
        assert(cut_at(text@, words@, max_tokens, cuts, views));
        lemma_chunks_partition(text@, words@, max_tokens, cuts, views);
        assert forall|i: int| 0 <= i < views.len() implies (#[trigger] views[i]).token_count
            <= max_tokens || is_single_word(views[i].text) by {
            assert(run_ok(text@, words@, max_tokens, cuts, views, i));
            if cuts[i + 1] == cuts[i] + 1 {
                assert(is_word(
                    text@,
                    words@[cuts[i]].start as int,
                    words@[cuts[i]].end as int,
                ));
            }
        }
    }
    chunks
}

/// The chunks that cuts among the words of a text make leave out nothing
/// of the text but whitespace, and each of them is trimmed.
pub proof fn lemma_chunks_partition(
    text: Seq<char>,
    words: Seq<Word>,
    max_tokens: usize,
    cuts: Seq<int>,
    chunks: Seq<ChunkView>,
)
    requires
        words_of(text, words),
        cut_at(text, words, max_tokens, cuts, chunks),
    ensures
        partitions(text, chunks),
{
    lemma_runs_placed(text, words, max_tokens, cuts, chunks, 0);
    assert(chunk_texts(chunks).skip(0) =~= chunk_texts(chunks));
    lemma_placed_covers(text, chunk_texts(chunks), 0);
    assert(text.skip(0) =~= text);
    assert forall|i: int| 0 <= i < chunks.len() implies (#[trigger] chunks[i]).index == i
        && is_trimmed(chunks[i].text) by {
        assert(run_ok(text, words, max_tokens, cuts, chunks, i));
        lemma_run_in_text(text, words, cuts[i], cuts[i + 1]);
    }
}

/// The place in the text where the chunks from `i` on begin: the end of the
/// chunk before, or the start of the text.
pub open spec fn resume_at(words: Seq<Word>, cuts: Seq<int>, i: int) -> int {
    if cuts[i] <= 0 {
        0
    } else {
        words[cuts[i] - 1].end as int
    }
}

/// A run of words lies in the text, and begins and ends with a code point
/// that is no whitespace.
proof fn lemma_run_in_text(text: Seq<char>, words: Seq<Word>, k: int, e: int)
    requires
        words_of(text, words),
        0 <= k < e <= words.len(),
    ensures
        0 <= words[k].start < words[e - 1].end <= text.len(),
        !is_space(text[words[k].start as int]),
        !is_space(text[words[e - 1].end - 1]),
{
    assert(is_word(text, words[k].start as int, words[k].end as int));
    assert(is_word(text, words[e - 1].start as int, words[e - 1].end as int));
    if k < e - 1 {
        assert(words[k].end < words[e - 1].start);
    }
}

/// Only whitespace lies between the word before the place `k` and the word
/// at `k`; where there is no such word, the start or the end of the text
/// takes its place.
proof fn lemma_gap(text: Seq<char>, words: Seq<Word>, k: int) -> (r: (int, int))
    requires
        words_of(text, words),
        0 <= k <= words.len(),
    ensures
        r.0 == (if k == 0 { 0 } else { words[k - 1].end as int }),
        r.1 == (if k == words.len() { text.len() as int } else { words[k].start as int }),
        0 <= r.0 <= r.1 <= text.len(),
        skip_space(text, r.0) == r.1,
{
    let from = if k == 0 { 0 } else { words[k - 1].end as int };
    let to = if k == words.len() { text.len() as int } else { words[k].start as int };
    if k > 0 {
        assert(is_word(text, words[k - 1].start as int, words[k - 1].end as int));
    }
    if k < words.len() {
        assert(is_word(text, words[k].start as int, words[k].end as int));
    }
    if 0 < k < words.len() {
        assert(words[k - 1].end < words[k].start);
    }
    assert forall|p: int| from <= p < to implies is_space(#[trigger] text[p]) by {
        lemma_between_words(text, words, k - 1, p);
    }
    lemma_skip_space_to(text, from, to);
    (from, to)
}

/// The texts of the chunks from `i` on lie in the text behind the chunk
/// before them.
proof fn lemma_runs_placed(
    text: Seq<char>,
    words: Seq<Word>,
    max_tokens: usize,
    cuts: Seq<int>,
    chunks: Seq<ChunkView>,
    i: int,
)
    requires
        words_of(text, words),
        cut_at(text, words, max_tokens, cuts, chunks),
        0 <= i <= chunks.len(),
    ensures
        0 <= cuts[i] <= words.len(),
        placed(text, chunk_texts(chunks).skip(i), resume_at(words, cuts, i)),
    decreases chunks.len() - i,
{
    let pieces = chunk_texts(chunks).skip(i);
    if i == chunks.len() {
        let gap = lemma_gap(text, words, words.len() as int);
        assert(pieces.len() == 0);
    } else {
        assert(run_ok(text, words, max_tokens, cuts, chunks, i));
        let k = cuts[i];
        let e = cuts[i + 1];
        let gap = lemma_gap(text, words, k);
        lemma_run_in_text(text, words, k, e);
        lemma_runs_placed(text, words, max_tokens, cuts, chunks, i + 1);
        assert(pieces[0] == run_text(text, words, k, e));
        assert(pieces.drop_first() =~= chunk_texts(chunks).skip(i + 1));
        assert(resume_at(words, cuts, i + 1) == words[e - 1].end);
    }
}

/// Cuts `text` into chunks of at most `max_tokens` tokens each, counting
/// the tokens of each word with `counter`.
pub fn chunk_with<F: Fn(&str) -> usize>(text: &str, max_tokens: usize, counter: F) -> (chunks: Vec<
    Chunk,
>)
    requires
        forall|s: &str| call_requires(counter, (s,)),
    ensures
        exists|words: Seq<Word>| #[trigger]
            measured(text@, words, counter) && is_chunking(
                text@,
                words,
                max_tokens,
                chunk_views(chunks@),
            ),
        partitions(text@, chunk_views(chunks@)),
        bounded(chunk_views(chunks@), max_tokens),
{
    let words = measure(text, counter);
    chunk_words(text, &words, max_tokens)
}

/// `words` are the words of `text`, each with the number of tokens that
/// the `cl100k_base` tokenizer makes of it.
pub open spec fn tokenized(text: Seq<char>, words: Seq<Word>) -> bool {
    &&& words_of(text, words)
    &&& forall|i: int|
        0 <= i < words.len() ==> (#[trigger] words[i]).tokens == tokens_in_parts(
            word_text(text, words, i),
        )
}

/// `chunks` is the chunking of `text` by its words for the limit
/// `max_tokens`, with the tokens of each word counted by the `cl100k_base`
/// tokenizer.
pub open spec fn chunked_by_words(text: Seq<char>, max_tokens: usize, chunks: Seq<ChunkView>) -> bool {
    exists|words: Seq<Word>| #[trigger]
        tokenized(text, words) && is_chunking(text, words, max_tokens, chunks)
}

/// Cuts `text` by its words into chunks of at most `max_tokens` tokens
/// each, as the `cl100k_base` tokenizer counts the tokens of each word.
pub fn chunk_by_words(text: &str, max_tokens: usize) -> (chunks: Vec<Chunk>)
    ensures
        chunked_by_words(text@, max_tokens, chunk_views(chunks@)),
        partitions(text@, chunk_views(chunks@)),
        bounded(chunk_views(chunks@), max_tokens),
{
    let words = measure(text, count_in_parts);
    proof {
        assert forall|i: int| 0 <= i < words@.len() implies (#[trigger] words@[i]).tokens
            == tokens_in_parts(word_text(text@, words@, i)) by {
            assert(counted_by(text@, words@, count_in_parts, i));
        }
        assert(tokenized(text@, words@));
    }
    chunk_words(text, &words, max_tokens)
}

/// The text is handed to the outside splitter, and the splitter hands back
/// acceptable pieces.
pub open spec fn split_well(text: Seq<char>, max_tokens: usize) -> bool {
    tame(text) && acceptable(text, max_tokens, split_pieces(text, max_tokens))
}

/// `chunks` is the chunking of `text` for the limit `max_tokens`: the
/// pieces that the outside splitter makes of a tame text where they are
/// acceptable, and the chunking of the text by its words otherwise.
pub open spec fn chunked(text: Seq<char>, max_tokens: usize, chunks: Seq<ChunkView>) -> bool {
    if split_well(text, max_tokens) {
        chunks == numbered(split_pieces(text, max_tokens))
    } else {
        chunked_by_words(text, max_tokens, chunks)
    }
}

/// Cuts `text` into chunks of at most `max_tokens` tokens each, as the
/// `cl100k_base` tokenizer counts them, along the ends of paragraphs,
/// sentences and words where the limit allows.
///
/// The cutting is left to the outside splitter first, unless the text has
/// a run too long for the tokenizer. The splitter's answer is taken if it
/// is a chunking of the text: pieces that are trimmed and within the limit
/// and leave out nothing of the text but whitespace. Otherwise the text is
/// cut by its words. Either way the chunks are numbered from 0, and a text
/// of nothing but whitespace has none.
pub fn chunk(text: &str, max_tokens: usize) -> (chunks: Vec<Chunk>)
    ensures
        chunked(text@, max_tokens, chunk_views(chunks@)),
        partitions(text@, chunk_views(chunks@)),
        bounded(chunk_views(chunks@), max_tokens),
        all_space(text@) ==> chunks@.len() == 0,
{
    let chars = chars_of(text);
    let taken = if is_tame(&chars) {
        let pieces = split(text, max_tokens);
        adopt(text, pieces, max_tokens)
    } else {
        None
    };
    let chunks = match taken {
        Some(chunks) => chunks,
        None => chunk_by_words(text, max_tokens),
    };
    proof {
        if all_space(text@) {
            lemma_blank_text_has_no_chunks(text@, max_tokens, chunk_views(chunks@));
        }
    }
    chunks
}

} // verus!

use vstd::prelude::*;
use crate::text::{chars_of, is_space, is_space_char, text_between};

verus! {

/// The longest run of whitespace, and the longest run without whitespace,
/// that is handed to the tokenizer in one piece.
pub const MAX_RUN: usize = 16384;

/// The length of the run that ends with the code point at `i`: a run holds
/// nothing but whitespace, or no whitespace.
pub open spec fn run_len(text: Seq<char>, i: int) -> int
    decreases i,
{
    if i <= 0 {
        1
    } else if is_space(text[i]) == is_space(text[i - 1]) {
        run_len(text, i - 1) + 1
    } else {
        1
    }
}

/// No run of `text` is longer than `MAX_RUN`.
pub open spec fn tame(text: Seq<char>) -> bool {
    forall|i: int| 0 <= i < text.len() ==> #[trigger] run_len(text, i) <= MAX_RUN
}

/// A run is no longer than the text before its end.
pub proof fn lemma_run_len(text: Seq<char>, i: int)
    requires
        0 <= i,
    ensures
        1 <= run_len(text, i) <= i + 1,
    decreases i,
{
    if i > 0 {
        lemma_run_len(text, i - 1);
    }
}

/// A text of at most `MAX_RUN` code points is tame.
pub proof fn lemma_short_is_tame(text: Seq<char>)
    requires
        text.len() <= MAX_RUN,
    ensures
        tame(text),
{
    assert forall|i: int| 0 <= i < text.len() implies #[trigger] run_len(text, i) <= MAX_RUN by {
        lemma_run_len(text, i);
    }
}

/// Tells whether no run of the text is longer than `MAX_RUN`.
pub fn is_tame(chars: &Vec<char>) -> (r: bool)
    ensures
        r == tame(chars@),
{
    let mut run: usize = 0;
    let mut i: usize = 0;
    while i < chars.len()
        invariant
            i <= chars.len(),
            run <= MAX_RUN,
            i > 0 ==> run == run_len(chars@, i - 1),
            forall|j: int| 0 <= j < i ==> #[trigger] run_len(chars@, j) <= MAX_RUN,
        decreases chars.len() - i,
    {
        if i > 0 && is_space_char(chars[i]) == is_space_char(chars[i - 1]) {
            if run == MAX_RUN {
                assert(run_len(chars@, i as int) > MAX_RUN);
                return false;
            }
            run = run + 1;
        } else {
            run = 1;
        }
        i = i + 1;
    }
    true
}

/// The number of tokens that the `cl100k_base` tokenizer makes of `text`.
pub uninterp spec fn token_count(text: Seq<char>) -> usize;

/// Calls `tiktoken_rs::CoreBPE::encode_ordinary` on the shared
/// `cl100k_base` tokenizer that `tiktoken_rs::cl100k_base_singleton` hands
/// out, and counts the tokens. The claim is only that the count depends on
/// the text alone.
///
/// `encode_ordinary` gives up with a panic when the regular-expression
/// engine under it runs out of its stack of 1,000,000 branches, which a run
/// of about as many code points brings about. Texts with shorter runs are
/// matched piece by piece, each piece within one run or two runs that
/// follow each other, so the tame texts stay far from that.
#[verifier::external_body]
pub(crate) fn count_tokens(text: &str) -> (n: usize)
    requires
        tame(text@),
    ensures
        n == token_count(text@),
{
    tiktoken_rs::cl100k_base_singleton().lock().encode_ordinary(text).len()
}

/// The sum of two numbers, or the largest number where the sum is larger.
pub open spec fn add_capped(a: usize, b: usize) -> usize {
    if a + b > usize::MAX {
        usize::MAX
    } else {
        (a + b) as usize
    }
}

/// The number of tokens of `text` when it is handed to the tokenizer in
/// parts of `MAX_RUN` code points: for a text of that length or less, the
/// number of its tokens.
pub open spec fn tokens_in_parts(text: Seq<char>) -> usize
    decreases text.len(),
{
    if text.len() <= MAX_RUN {
        token_count(text)
    } else {
        add_capped(
            token_count(text.take(MAX_RUN as int)),
            tokens_in_parts(text.skip(MAX_RUN as int)),
        )
    }
}

/// Counts the tokens of a text of any length, part by part.
pub fn count_in_parts(text: &str) -> (n: usize)
    ensures
        n == tokens_in_parts(text@),
{
    let chars = chars_of(text);
    if chars.len() <= MAX_RUN {
        proof {
            lemma_short_is_tame(text@);
        }
        return count_tokens(text);
    }
    // The parts are counted from the last to the first, as the sum is made.
    let ghost all = chars@;
    let mut parts: usize = chars.len() / MAX_RUN;
    if chars.len() % MAX_RUN == 0 {
        parts = parts - 1;
    }
    let mut from: usize = parts * MAX_RUN;
    let last = text_between(&chars, from, chars.len());
    proof {
        assert(last@ =~= all.skip(from as int));
        lemma_short_is_tame(last@);
    }
    let mut n: usize = count_tokens(last.as_str());
    while from > 0
        invariant
            all == chars@,
            from < chars.len(),
            from % MAX_RUN == 0,
            n == tokens_in_parts(all.skip(from as int)),
        decreases from,
    {
        let start: usize = from - MAX_RUN;
        let part = text_between(&chars, start, from);
        proof {
            let rest = all.skip(start as int);
            assert(part@ =~= rest.take(MAX_RUN as int));
            assert(rest.skip(MAX_RUN as int) =~= all.skip(from as int));
            assert(rest.len() > MAX_RUN);
            lemma_short_is_tame(part@);
        }
        let count = count_tokens(part.as_str());
        n = if count > usize::MAX - n { usize::MAX } else { count + n };
        from = start;
    }
    assert(all.skip(0) =~= all);
    n
}

} // verus!

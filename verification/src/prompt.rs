use vstd::prelude::*;
use crate::chunker::texts_of;
use crate::text::{chars_of, is_space, is_space_char, text_between};

verus! {

/// The words that open the system message of a chat.
pub open spec fn preamble() -> Seq<char> {
    "Use the following pieces of context to answer the user's question.\nIf you don't know the answer, just say that you don't know, don't try to make up an answer.\n----------------\n"@
}

/// What stands behind each piece of context.
pub open spec fn separator() -> Seq<char> {
    "\n\n"@
}

/// The pieces of context in order, each followed by the separator.
pub open spec fn joined(context: Seq<Seq<char>>) -> Seq<char>
    decreases context.len(),
{
    if context.len() == 0 {
        Seq::empty()
    } else {
        joined(context.drop_last()) + context.last() + separator()
    }
}

/// `s` without the whitespace at its end.
pub open spec fn trim_end(s: Seq<char>) -> Seq<char>
    decreases s.len(),
{
    if s.len() > 0 && is_space(s.last()) {
        trim_end(s.drop_last())
    } else {
        s
    }
}

/// The system message that grounds an answer in retrieved context: the
/// preamble, and behind it the pieces of context, separated by empty lines
/// and without whitespace at the end.
pub fn system_prompt(context: &Vec<String>) -> (prompt: String)
    ensures
        prompt@ == preamble() + trim_end(joined(texts_of(context@))),
{
    let ghost all = texts_of(context@);
    let mut body = String::new();
    let mut i: usize = 0;
    assert(all.take(0) =~= Seq::<Seq<char>>::empty());
    while i < context.len()
        invariant
            all == texts_of(context@),
            i <= context.len(),
            body@ == joined(all.take(i as int)),
        decreases context.len() - i,
    {
        assert(all.take(i + 1).drop_last() =~= all.take(i as int));
        assert(all.take(i + 1).last() == context@[i as int]@);
        body.append(context[i].as_str());
        body.append("\n\n");
        i = i + 1;
    }
    assert(all.take(i as int) =~= all);
    let chars = chars_of(body.as_str());
    let mut end: usize = chars.len();
    assert(chars@.take(end as int) =~= chars@);
    while end > 0 && is_space_char(chars[end - 1])
        invariant
            end <= chars.len(),
            trim_end(chars@) == trim_end(chars@.take(end as int)),
        decreases end,
    {
        assert(chars@.take(end as int).drop_last() =~= chars@.take(end - 1));
        end = end - 1;
    }
    let kept = text_between(&chars, 0, end);
    assert(chars@.take(end as int) =~= chars@.subrange(0, end as int));
    let mut prompt = String::from_str(
        "Use the following pieces of context to answer the user's question.\nIf you don't know the answer, just say that you don't know, don't try to make up an answer.\n----------------\n",
    );
    prompt.append(kept.as_str());
    prompt
}

} // verus!

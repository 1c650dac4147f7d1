use rag_core::chunker::{chunk, chunk_by_words, chunk_with, chunk_words, measure, Chunk, Word};
use rag_core::splitter::adopt;

/// One token for each run of letters or digits and one for each other
/// visible code point.
fn words_and_marks(text: &str) -> usize {
    let mut tokens = 0;
    let mut in_word = false;
    for c in text.chars() {
        if c.is_alphanumeric() {
            if !in_word {
                tokens += 1;
            }
            in_word = true;
        } else {
            in_word = false;
            if !c.is_whitespace() {
                tokens += 1;
            }
        }
    }
    tokens
}

fn texts(chunks: &[Chunk]) -> Vec<&str> {
    chunks.iter().map(|c| c.text.as_str()).collect()
}

#[test]
fn two_sentences_make_two_chunks() {
    let chunks = chunk_with("Hello world. Bye now.", 3, words_and_marks);
    assert_eq!(
        chunks,
        vec![
            Chunk { index: 0, text: "Hello world.".to_string(), token_count: 3 },
            Chunk { index: 1, text: "Bye now.".to_string(), token_count: 3 },
        ]
    );
}

#[test]
fn empty_text_has_no_chunks() {
    assert_eq!(chunk("", 5), vec![]);
    assert_eq!(chunk(" \n\t ", 5), vec![]);
    assert_eq!(chunk_by_words("", 5), vec![]);
    assert_eq!(chunk_with("", 5, words_and_marks), vec![]);
    assert_eq!(chunk_with(" \u{a0}\n ", 5, words_and_marks), vec![]);
}

#[test]
fn a_word_over_the_limit_is_a_chunk_of_its_own() {
    let chunks = chunk_with("a b,c,d,e f", 2, words_and_marks);
    assert_eq!(
        chunks,
        vec![
            Chunk { index: 0, text: "a".to_string(), token_count: 1 },
            Chunk { index: 1, text: "b,c,d,e".to_string(), token_count: 7 },
            Chunk { index: 2, text: "f".to_string(), token_count: 1 },
        ]
    );
}

#[test]
fn a_run_without_a_break_is_cut_at_the_limit() {
    let chunks = chunk_with("one two three four five", 2, words_and_marks);
    assert_eq!(texts(&chunks), vec!["one two", "three four", "five"]);
    assert_eq!(chunks[1].index, 1);
    assert_eq!(chunks[2].token_count, 1);
}

#[test]
fn a_run_is_cut_back_to_the_end_of_a_sentence() {
    let chunks = chunk_with("Hello world. Bye now. Go.", 5, words_and_marks);
    assert_eq!(texts(&chunks), vec!["Hello world.", "Bye now. Go."]);
    assert_eq!(chunks[0].token_count, 3);
    assert_eq!(chunks[1].token_count, 5);
}

#[test]
fn a_run_is_cut_back_to_the_end_of_a_paragraph() {
    let chunks = chunk_with("title\n\nfirst words of a long line", 3, words_and_marks);
    assert_eq!(texts(&chunks), vec!["title", "first words of", "a long line"]);
}

#[test]
fn inner_whitespace_is_kept_and_outer_whitespace_is_trimmed() {
    let chunks = chunk_with("  a \t b  \n c   ", 10, words_and_marks);
    assert_eq!(chunks, vec![Chunk { index: 0, text: "a \t b  \n c".to_string(), token_count: 3 }]);
}

#[test]
fn chunks_put_together_give_the_words_of_the_text() {
    let text = "The quick brown fox. It jumps!  Over\nthe lazy dog? Yes.";
    for limit in 0..12 {
        let chunks = chunk_with(text, limit, words_and_marks);
        let joined: Vec<&str> = chunks.iter().flat_map(|c| c.text.split_whitespace()).collect();
        let words: Vec<&str> = text.split_whitespace().collect();
        assert_eq!(joined, words);
        for (i, c) in chunks.iter().enumerate() {
            assert_eq!(c.index, i);
            assert_eq!(c.text, c.text.trim());
            assert!(c.token_count <= limit || c.text.split_whitespace().count() == 1);
            assert_eq!(c.token_count, words_and_marks(&c.text));
        }
    }
}

#[test]
fn chunking_is_repeatable() {
    let text = "One sentence here. Another one there. And a third one.";
    assert_eq!(chunk(text, 6), chunk(text, 6));
}

#[test]
fn measure_finds_the_words() {
    let words = measure("ab  cde.", words_and_marks);
    assert_eq!(
        words,
        vec![Word { start: 0, end: 2, tokens: 1 }, Word { start: 4, end: 8, tokens: 2 }]
    );
}

#[test]
fn measured_words_are_cut_by_their_tokens() {
    let words = vec![
        Word { start: 0, end: 1, tokens: 2 },
        Word { start: 2, end: 3, tokens: 2 },
        Word { start: 4, end: 5, tokens: 1 },
    ];
    let chunks = chunk_words("a b c", &words, 3);
    assert_eq!(
        chunks,
        vec![
            Chunk { index: 0, text: "a".to_string(), token_count: 2 },
            Chunk { index: 1, text: "b c".to_string(), token_count: 3 },
        ]
    );
}

#[test]
fn tokens_are_counted_by_the_tokenizer() {
    let chunks = chunk_by_words("Hello world. Bye now.", 100);
    assert_eq!(
        chunks,
        vec![Chunk { index: 0, text: "Hello world. Bye now.".to_string(), token_count: 7 }]
    );
    let chunks = chunk_by_words("Hello world. Bye now.", 3);
    assert_eq!(texts(&chunks), vec!["Hello world.", "Bye", "now."]);
    assert_eq!(chunks[1].token_count, 2);
}

#[test]
fn the_splitter_cuts_along_sentences() {
    let chunks = chunk("Hello world. Bye now.", 100);
    assert_eq!(
        chunks,
        vec![Chunk { index: 0, text: "Hello world. Bye now.".to_string(), token_count: 6 }]
    );
    let chunks = chunk("Hello world. Bye now.", 3);
    assert_eq!(
        chunks,
        vec![
            Chunk { index: 0, text: "Hello world.".to_string(), token_count: 3 },
            Chunk { index: 1, text: "Bye now".to_string(), token_count: 3 },
            Chunk { index: 2, text: ".".to_string(), token_count: 1 },
        ]
    );
    let text = "First paragraph here.\n\nSecond paragraph there. It has two sentences.";
    let chunks = chunk(text, 8);
    assert_eq!(
        texts(&chunks),
        vec!["First paragraph here.", "Second paragraph there.", "It has two sentences."]
    );
}

#[test]
fn chunks_of_the_splitter_leave_nothing_out() {
    let text = "The quick brown fox. It jumps!  Over\nthe lazy dog? Yes.\n\n  A last line \u{1F600} here ";
    for limit in 0..12 {
        let chunks = chunk(text, limit);
        let joined: String = chunks.iter().map(|c| c.text.as_str()).collect();
        let bare = |s: &str| s.chars().filter(|c| !c.is_whitespace()).collect::<String>();
        assert_eq!(bare(&joined), bare(text));
        let mut from = 0;
        for (i, c) in chunks.iter().enumerate() {
            assert_eq!(c.index, i);
            assert_eq!(c.text, c.text.trim());
            assert!(!c.text.is_empty());
            assert!(c.token_count <= limit || c.text.chars().count() == 1);
            let at = text[from..].find(&c.text).unwrap();
            assert!(text[from..from + at].chars().all(|c| c.is_whitespace()));
            from += at + c.text.len();
        }
        assert!(text[from..].chars().all(|c| c.is_whitespace()));
    }
}

fn pieces(texts: &[&str]) -> Vec<String> {
    texts.iter().map(|t| t.to_string()).collect()
}

#[test]
fn acceptable_pieces_are_taken() {
    let chunks = adopt(" Hello world.  Bye now. ", pieces(&["Hello world.", "Bye now", "."]), 3);
    assert_eq!(
        chunks,
        Some(vec![
            Chunk { index: 0, text: "Hello world.".to_string(), token_count: 3 },
            Chunk { index: 1, text: "Bye now".to_string(), token_count: 3 },
            Chunk { index: 2, text: ".".to_string(), token_count: 1 },
        ])
    );
    assert_eq!(adopt("  ", vec![], 3), Some(vec![]));
    assert_eq!(
        adopt("\u{1F600}", pieces(&["\u{1F600}"]), 1),
        Some(vec![Chunk { index: 0, text: "\u{1F600}".to_string(), token_count: 2 }])
    );
}

#[test]
fn pieces_that_are_no_chunking_are_not_taken() {
    // Text is left out.
    assert_eq!(adopt("one two three", pieces(&["one", "three"]), 10), None);
    assert_eq!(adopt("one two", pieces(&["one"]), 10), None);
    // Text is repeated or out of order.
    assert_eq!(adopt("one two", pieces(&["one", "one", "two"]), 10), None);
    assert_eq!(adopt("one two", pieces(&["two", "one"]), 10), None);
    // A piece is not of the text.
    assert_eq!(adopt("one two", pieces(&["one", "too"]), 10), None);
    assert_eq!(adopt("one", pieces(&["one", "two"]), 10), None);
    // A piece is not trimmed, or empty.
    assert_eq!(adopt("one two", pieces(&["one ", "two"]), 10), None);
    assert_eq!(adopt("one two", pieces(&["one", "", "two"]), 10), None);
    // A piece is over the limit.
    assert_eq!(adopt("Hello world. Bye now.", pieces(&["Hello world.", "Bye now."]), 3), None);
    assert!(adopt("Hello world. Bye now.", pieces(&["Hello world.", "Bye now."]), 4).is_some());
}

#[test]
fn text_beyond_ascii_is_cut_between_code_points() {
    let chunks = chunk_with("é\u{a0}ü ß", 1, words_and_marks);
    assert_eq!(texts(&chunks), vec!["é", "ü", "ß"]);
}

#[test]
fn a_text_with_a_long_run_is_cut_by_its_words() {
    let text = format!("Hello world.{}Bye now.", " ".repeat(20_000));
    let chunks = chunk(&text, 3);
    assert_eq!(texts(&chunks), vec!["Hello world.", "Bye", "now."]);
    let text = format!("Hello world.{}Bye now.", " ".repeat(200));
    let chunks = chunk(&text, 3);
    assert_eq!(texts(&chunks), vec!["Hello world.", "Bye now", "."]);
}

#[test]
fn a_long_word_is_counted_in_parts() {
    let word = "ab".repeat(8_200);
    let whole = chunk_by_words(&word, 0);
    let first = chunk_by_words(&word[..16_384], 0);
    let rest = chunk_by_words(&word[16_384..], 0);
    assert_eq!(whole.len(), 1);
    assert_eq!(whole[0].text, word);
    assert_eq!(whole[0].token_count, first[0].token_count + rest[0].token_count);
    assert_eq!(chunk(&word, 0), whole);
}


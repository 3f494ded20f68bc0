use enargeia::double::Double;
use enargeia::extract::{
    choose_extractor, chunk_text, clean_mention, collect_mentions, is_generic, labels_from,
    split_sentences, ExtractError, ExtractorChoice, MentionExtractor, RegexExtractor, TaggedSpan,
};

#[test]
fn regex_extracts_capitalized_spans() {
    let m = RegexExtractor
        .extract("Recorded Future acquired by Mastercard, said Babel Street.")
        .unwrap();
    let texts: Vec<&str> = m.iter().map(|x| x.text.as_str()).collect();
    assert!(texts.contains(&"Recorded Future"));
    assert!(texts.contains(&"Mastercard"));
}

#[test]
fn generic_nouns_are_filtered() {
    assert!(is_generic("users"));
    assert!(is_generic("data breach"));
    assert!(!is_generic("a16z"));
    assert!(!is_generic("OpenAI"));
    assert!(!is_generic("iPhone"));
}

#[test]
fn cleans_leading_conjunctions_and_possessives() {
    assert_eq!(clean_mention("and Replit"), "Replit");
    assert_eq!(clean_mention("the Federal Reserve"), "Federal Reserve");
    assert_eq!(clean_mention("OpenAI's"), "OpenAI");
    assert_eq!(clean_mention("\"Anthropic\","), "Anthropic");
    assert_eq!(clean_mention("$LAPTOP"), "$LAPTOP");
}

#[test]
fn chunks_respect_limit_and_offsets() {
    let text = "Alpha one. Beta two. Gamma three. Delta four.";
    let chunks = chunk_text(text, 22);
    assert!(chunks.len() >= 2);
    assert_eq!(chunks[0].0, 0);
    for (off, c) in &chunks {
        assert!(c.chars().count() <= 22, "chunk too long: {c:?}");
        let expected: String = text.chars().skip(*off).take(c.chars().count()).collect();
        assert_eq!(&expected, c);
    }
}

#[test]
fn spans_carry_their_character_offsets() {
    let text = "Énorme: Recorded Future and AI, recorded future or RECORDED FUTURE.";
    let m = RegexExtractor.extract(text).unwrap();
    let texts: Vec<&str> = m.iter().map(|x| x.text.as_str()).collect();
    // One-word spans of fewer than three bytes are dropped, and a name counts once in any case.
    assert_eq!(texts, vec!["Recorded Future"]);
    assert_eq!((m[0].start, m[0].end), (8, 23));
    assert_eq!(m[0].label, None);
    assert_eq!(f64::from_bits(m[0].score.bits), 0.3f32 as f64);
    assert_eq!(RegexExtractor.name(), "regex");
}

#[test]
fn sentences_make_up_the_text() {
    let text = "One. Two!\nThree? v1.2 four";
    let parts = split_sentences(text);
    assert_eq!(parts, vec!["One.", " Two!", "\nThree?", " v1.2 four"]);
    assert_eq!(parts.concat(), text);
}

#[test]
fn long_sentence_is_cut_at_a_blank() {
    let text = "A short one. This single sentence exceeds the limit by far. End.";
    let chunks = chunk_text(text, 20);
    let all: String = chunks.iter().map(|(_, c)| c.as_str()).collect();
    assert_eq!(all, text);
    assert!(chunks.iter().all(|(_, c)| c.chars().count() <= 20), "{chunks:?}");
    assert_eq!(chunks[0], (0, "A short one.".to_string()));
    assert_eq!(chunks[1], (12, " This single ".to_string()));
    assert!(chunk_text(" \n ", 20).is_empty());
}

#[test]
fn long_word_is_cut_at_the_limit() {
    assert_eq!(
        chunk_text("abcdef", 3),
        vec![(0, "abc".to_string()), (3, "def".to_string())]
    );
    assert_eq!(chunk_text("ab", 1), vec![(0, "a".to_string()), (1, "b".to_string())]);
    assert_eq!(chunk_text("abcdef", 0), vec![(0, "abcdef".to_string())]);
}

#[test]
fn quotes_behind_leading_words_are_trimmed() {
    assert_eq!(clean_mention("the \"Fed\""), "Fed");
    assert_eq!(clean_mention("\"the 'and Fed'\""), "Fed");
    assert_eq!(clean_mention("\"Fed\"'s"), "Fed");
    assert_eq!(clean_mention("the"), "the");
    assert_eq!(clean_mention("..."), "");
}

#[test]
fn labels_come_from_the_setting_or_the_default() {
    assert_eq!(labels_from(Some(" Person, ,Vessel ")), vec!["person", "vessel"]);
    assert_eq!(labels_from(Some("  ")).len(), 8);
    assert_eq!(labels_from(None)[0], "person");
}

#[test]
fn extractor_choice() {
    assert!(matches!(choose_extractor(Some("regex"), true, "d"), Ok(ExtractorChoice::Spans)));
    assert!(matches!(choose_extractor(None, true, "d"), Ok(ExtractorChoice::Tagger)));
    assert!(matches!(choose_extractor(None, false, "d"), Ok(ExtractorChoice::Spans)));
    let err = choose_extractor(Some("gliner"), false, "models/x").err().unwrap();
    assert_eq!(
        err.message(),
        "ENARGEIA_EXTRACTOR=gliner but no model at models/x; run `enargeia models fetch`"
    );
}

#[test]
fn tagged_spans_are_cleaned_and_kept_at_their_best() {
    let span = |text: &str, start: usize, p: f64| TaggedSpan {
        sequence: 1,
        text: text.to_string(),
        class: "organization".to_string(),
        start,
        end: start + 3,
        probability: Double { bits: p.to_bits() },
    };
    let spans =
        vec![span("the Fed", 40, 0.6), span("users", 5, 0.9), span("Acme", 20, 0.5), span("FED", 2, 0.8)];
    let out = collect_mentions(&spans, &vec![0, 100]);
    let texts: Vec<(&str, usize)> = out.iter().map(|m| (m.text.as_str(), m.start)).collect();
    assert_eq!(texts, vec![("FED", 102), ("Acme", 120)]);
    assert_eq!(out[0].label.as_deref(), Some("organization"));
}

#[test]
fn extraction_errors_say_what_failed() {
    let e = ExtractError::Tagger { reason: "out of memory".to_string() };
    assert!(e.message().contains("out of memory"));
    assert!(!ExtractError::Pattern.message().is_empty());
}

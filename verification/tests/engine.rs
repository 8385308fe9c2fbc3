use lorem_ipsum::count::{UnitCount, UnitCountParser};
use lorem_ipsum::generator::{GeneratorPublic, LoremConfig, LoremGenerator};
use lorem_ipsum::placeholder::{Placeholder, DEFAULT_PLACEHOLDER};
use lorem_ipsum::rng::fresh_rng;
use lorem_ipsum::vocabulary::{get_first_sentence, get_wordlist};

fn config(
    words: UnitCount,
    sentences: UnitCount,
    paragraphs: UnitCount,
    comma: usize,
    static_first: bool,
) -> LoremConfig {
    LoremConfig {
        words_count: words,
        sentences_count: sentences,
        paragraphs_count: paragraphs,
        comma_probability: comma,
        static_first_sentence: static_first,
    }
}

#[test]
fn fixed_count_resolves_to_itself() {
    let mut rng = fresh_rng();
    for n in [0usize, 1, 5, 1000] {
        assert_eq!(UnitCount::Num(n).resolve(&mut rng), n);
    }
}

#[test]
fn range_count_resolves_within_bounds() {
    let mut rng = fresh_rng();
    for _ in 0..200 {
        let n = UnitCount::Range(2, 4).resolve(&mut rng);
        assert!((2..=4).contains(&n));
    }
    let n = UnitCount::Range(3, 3).resolve(&mut rng);
    assert_eq!(n, 3);
}

#[test]
fn range_count_reaches_both_endpoints() {
    let mut rng = fresh_rng();
    let mut saw_low = false;
    let mut saw_high = false;
    for _ in 0..500 {
        match UnitCount::Range(0, 1).resolve(&mut rng) {
            0 => saw_low = true,
            1 => saw_high = true,
            _ => unreachable!(),
        }
        if saw_low && saw_high {
            break;
        }
    }
    assert!(saw_low && saw_high);
}

#[test]
fn vocabulary_is_sorted_and_deduplicated() {
    let words = get_wordlist("zeta alpha Beta alpha BETA zeta");
    assert_eq!(words, vec!["alpha", "beta", "zeta"]);
}

#[test]
fn vocabulary_strips_only_periods_and_commas() {
    let words = get_wordlist("Cat dog. Dog bird, cat!");
    assert_eq!(words, vec!["bird", "cat", "cat!", "dog"]);
}

#[test]
fn vocabulary_extraction_is_idempotent() {
    let words = get_wordlist("The quick brown fox, the lazy dog. THE END");
    let rejoined = words.join(" ");
    let again = get_wordlist(&rejoined);
    assert_eq!(words, again);
}

#[test]
fn vocabulary_of_empty_text_is_empty() {
    assert!(get_wordlist("").is_empty());
    assert!(get_wordlist(" .,. ,").is_empty());
}

#[test]
fn first_sentence_is_taken_verbatim() {
    assert_eq!(get_first_sentence("Hello world. Foo bar baz."), "Hello world.");
    assert_eq!(get_first_sentence("no period here"), "no period here.");
    assert_eq!(get_first_sentence(""), ".");
}

#[test]
fn placeholder_resolves_to_given_text_or_default() {
    let given = Placeholder(Some(String::from("my text")));
    assert_eq!(given.resolve(), "my text");
    let fallback = Placeholder(None);
    assert_eq!(fallback.resolve(), DEFAULT_PLACEHOLDER);
    assert!(DEFAULT_PLACEHOLDER.starts_with("Lorem ipsum"));
    let converted = Placeholder::from(Some(String::from("abc")));
    assert_eq!(converted.resolve(), "abc");
}

#[test]
fn parser_accepts_numbers_and_ranges() {
    let p = UnitCountParser;
    assert!(p.parse("5") == Some(UnitCount::Num(5)));
    assert!(p.parse("+12") == Some(UnitCount::Num(12)));
    assert!(p.parse("3..7") == Some(UnitCount::Range(3, 7)));
    assert!(p.parse("0..0") == Some(UnitCount::Range(0, 0)));
}

#[test]
fn parser_rejects_malformed_counts() {
    let p = UnitCountParser;
    assert!(p.parse("").is_none());
    assert!(p.parse("a").is_none());
    assert!(p.parse("7..3").is_none());
    assert!(p.parse("1..2..3").is_none());
    assert!(p.parse("..").is_none());
    assert!(p.parse("1..").is_none());
    assert!(p.parse("..2").is_none());
    assert!(p.parse("99999999999999999999999999").is_none());
    assert!(p.parse("-3").is_none());
}

#[test]
fn counts_render_like_the_command_line_form() {
    assert_eq!(UnitCount::Num(42).render(), "42");
    assert_eq!(UnitCount::Range(7, 15).render(), "7..15");
    assert_eq!(UnitCount::Num(0).render(), "0");
}

#[test]
fn default_config_matches_documented_values() {
    let c = LoremConfig::default();
    assert!(c.words_count == UnitCount::Range(7, 15));
    assert!(c.sentences_count == UnitCount::Range(3, 5));
    assert!(c.paragraphs_count == UnitCount::Num(2));
    assert_eq!(c.comma_probability, 7);
    assert!(c.static_first_sentence);
}

#[test]
fn words_end_with_exactly_one_period_and_no_double_comma() {
    for _ in 0..20 {
        let mut generator =
            LoremGenerator::new_from_string(String::from("alpha beta gamma delta epsilon."));
        generator.set_config(config(
            UnitCount::Range(1, 5),
            UnitCount::Num(1),
            UnitCount::Num(1),
            2,
            false,
        ));
        let out = generator.generate_words();
        assert!(out.ends_with('.'));
        assert!(!out.ends_with(".."));
        assert!(!out.contains(",,"));
    }
}

#[test]
fn words_start_with_an_uppercase_letter() {
    for _ in 0..20 {
        let mut generator =
            LoremGenerator::new_from_string(String::from("alpha beta gamma delta"));
        generator.set_config(config(
            UnitCount::Num(3),
            UnitCount::Num(1),
            UnitCount::Num(1),
            7,
            false,
        ));
        let out = generator.generate_words();
        let first = out.chars().next().unwrap();
        assert!(first.is_ascii_uppercase());
    }
}

#[test]
fn words_count_is_capped_at_vocabulary_size() {
    let mut generator = LoremGenerator::new_from_string(String::from("only two"));
    generator.set_config(config(
        UnitCount::Num(10),
        UnitCount::Num(1),
        UnitCount::Num(1),
        1000,
        false,
    ));
    let out = generator.generate_words();
    // at most two words: at most one separating space
    assert!(out.matches(' ').count() <= 1);
}

#[test]
fn empty_vocabulary_yields_a_bare_period() {
    let mut generator = LoremGenerator::new_from_string(String::from(" ., "));
    generator.set_config(config(
        UnitCount::Num(4),
        UnitCount::Num(1),
        UnitCount::Num(1),
        3,
        false,
    ));
    assert_eq!(generator.generate_words(), ".");
}

#[test]
fn comma_ratio_of_one_places_a_comma_after_every_inner_word() {
    let mut generator = LoremGenerator::new_from_string(String::from("aa bb cc"));
    generator.set_config(config(
        UnitCount::Num(3),
        UnitCount::Num(1),
        UnitCount::Num(1),
        1,
        false,
    ));
    let out = generator.generate_words();
    // every word draws a comma; the trailing one is trimmed before the period
    assert_eq!(out.matches(", ").count(), 2);
    assert!(out.ends_with('.'));
    assert!(!out.contains(",."));
}

#[test]
fn static_first_sentence_is_used_verbatim() {
    let mut generator =
        LoremGenerator::new_from_string(String::from("Hello world. Foo bar baz."));
    generator.set_config(config(
        UnitCount::Range(7, 15),
        UnitCount::Num(1),
        UnitCount::Num(1),
        7,
        true,
    ));
    let out = generator.generate_sentences();
    assert_eq!(out, "Hello world.");
}

#[test]
fn static_first_sentence_is_consumed_after_one_use() {
    let mut generator =
        LoremGenerator::new_from_string(String::from("Hello world. Foo bar baz."));
    generator.set_config(config(
        UnitCount::Num(1),
        UnitCount::Num(1),
        UnitCount::Num(1),
        1000,
        true,
    ));
    let first = generator.generate_sentences();
    assert_eq!(first, "Hello world.");
    // the second call draws a single word instead of reusing the literal
    let second = generator.generate_sentences();
    assert_ne!(second, first);
    assert!(!second.contains(' '));
    assert!(second.ends_with('.'));
}

#[test]
fn zero_sentences_yield_an_empty_string_even_with_static_mode_on() {
    let mut generator =
        LoremGenerator::new_from_string(String::from("Hello world. Foo bar baz."));
    generator.set_config(config(
        UnitCount::Num(1),
        UnitCount::Num(0),
        UnitCount::Num(1),
        1000,
        true,
    ));
    assert_eq!(generator.generate_sentences(), "");
}

#[test]
fn sentences_are_joined_with_single_spaces() {
    let mut generator = LoremGenerator::new_from_string(String::from("aa bb cc dd"));
    generator.set_config(config(
        UnitCount::Num(1),
        UnitCount::Num(3),
        UnitCount::Num(1),
        1000,
        false,
    ));
    let out = generator.generate_sentences();
    assert_eq!(out.matches(". ").count(), 2);
    assert!(out.ends_with('.'));
    assert_eq!(out, out.trim());
}

#[test]
fn two_paragraphs_are_separated_by_one_blank_line() {
    let mut generator =
        LoremGenerator::new_from_string(String::from("Alpha beta. Gamma delta epsilon."));
    generator.set_config(config(
        UnitCount::Num(2),
        UnitCount::Num(1),
        UnitCount::Num(2),
        7,
        true,
    ));
    let out = generator.generate_paragraphs();
    let groups: Vec<&str> = out.split("\n\n").collect();
    assert_eq!(groups.len(), 2);
    assert!(!groups[0].is_empty());
    assert!(!groups[1].is_empty());
    assert_eq!(out, out.trim());
    assert_eq!(out.matches('\n').count(), 2);
}

#[test]
fn zero_paragraphs_yield_an_empty_string() {
    let mut generator = LoremGenerator::new_from_string(String::from("aa bb"));
    generator.set_config(config(
        UnitCount::Num(1),
        UnitCount::Num(1),
        UnitCount::Num(0),
        7,
        false,
    ));
    assert_eq!(generator.generate_paragraphs(), "");
}

#[test]
fn default_corpus_drives_generation() {
    let placeholder = Placeholder(None);
    let mut generator = LoremGenerator::new_from_placeholder(&placeholder);
    let out = generator.generate_sentences();
    assert!(out.starts_with("Lorem ipsum dolor sit amet"));
    assert!(out.ends_with('.'));
}

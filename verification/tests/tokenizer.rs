use argsplit::tokenizer::parse_process_args;

#[test]
fn test_parse_process_args() {
    assert_eq!(parse_process_args("a b c"), vec!["a", "b", "c"]);
    assert_eq!(parse_process_args("a \"b\" c"), vec!["a", "b", "c"]);
    assert_eq!(parse_process_args("a \'b\' c"), vec!["a", "b", "c"]);
    assert_eq!(parse_process_args("a \"b c\""), vec!["a", "b c"]);
    assert_eq!(parse_process_args("a \'\"b\"\' c"), vec!["a", "\"b\"", "c"]);
    assert_eq!(parse_process_args("a b\\ c"), vec!["a", "b c"]);
    assert_eq!(parse_process_args("a b c\\"), vec!["a", "b", "c\\"]);
}

#[test]
fn empty_and_whitespace_only_inputs_give_no_tokens() {
    assert_eq!(parse_process_args(""), Vec::<String>::new());
    assert_eq!(parse_process_args("   "), Vec::<String>::new());
    assert_eq!(parse_process_args(" \t \n "), Vec::<String>::new());
}

#[test]
fn quoted_whitespace_alone_gives_no_token() {
    assert_eq!(parse_process_args("\" \""), Vec::<String>::new());
    assert_eq!(parse_process_args("\'  \'"), Vec::<String>::new());
}

#[test]
fn surrounding_whitespace_is_trimmed() {
    assert_eq!(parse_process_args("  a b  "), vec!["a", "b"]);
    assert_eq!(parse_process_args("a    b"), vec!["a", "b"]);
}

#[test]
fn quoted_interior_spaces_survive() {
    assert_eq!(parse_process_args("\'a  b\' c"), vec!["a  b", "c"]);
    assert_eq!(parse_process_args("x \"y  z\""), vec!["x", "y  z"]);
}

#[test]
fn adjacent_fragments_concatenate() {
    assert_eq!(parse_process_args("a\"b\"c"), vec!["abc"]);
    assert_eq!(parse_process_args("a\'b\'\"c\""), vec!["abc"]);
}

#[test]
fn quotes_inside_the_other_kind_are_literal() {
    assert_eq!(parse_process_args("\"\'a\'\""), vec!["\'a\'"]);
    assert_eq!(parse_process_args("\'\"a\"\'"), vec!["\"a\""]);
}

#[test]
fn unterminated_quotes_keep_the_collected_text() {
    assert_eq!(parse_process_args("\"a b"), vec!["a b"]);
    assert_eq!(parse_process_args("\'x"), vec!["x"]);
    assert_eq!(parse_process_args("a \"b c"), vec!["a", "b c"]);
}

#[test]
fn escaped_quotes_stay_in_the_token() {
    assert_eq!(parse_process_args("\\\"a\\\""), vec!["\"a\""]);
    assert_eq!(parse_process_args("\\\'b\\\'"), vec!["\'b\'"]);
}

#[test]
fn backslash_before_other_characters_is_kept() {
    assert_eq!(parse_process_args("a\\b"), vec!["a\\b"]);
    assert_eq!(parse_process_args("\\n"), vec!["\\n"]);
}

#[test]
fn double_backslash_resolves_to_one() {
    assert_eq!(parse_process_args("a\\\\b"), vec!["a\\b"]);
    // The lookback is one raw character, so the space after the pair of
    // backslashes still counts as escaped and does not split.
    assert_eq!(parse_process_args("a\\\\ b"), vec!["a\\ b"]);
}

#[test]
fn escaped_space_at_the_real_end_is_trimmed_first() {
    // The trailing space is removed by the initial trim, so the backslash
    // ends the input and is kept literally.
    assert_eq!(parse_process_args("a\\ "), vec!["a\\"]);
}

#[test]
fn tabs_do_not_separate_tokens() {
    assert_eq!(parse_process_args("a\tb"), vec!["a\tb"]);
    assert_eq!(parse_process_args("\ta b\t"), vec!["a", "b"]);
}

#[test]
fn unicode_whitespace_is_trimmed_but_does_not_split() {
    assert_eq!(parse_process_args("\u{000B}"), Vec::<String>::new());
    assert_eq!(parse_process_args("\u{000C}\u{00A0}\u{2028}"), Vec::<String>::new());
    assert_eq!(parse_process_args("\u{00A0}a b\u{2028}"), vec!["a", "b"]);
    // A quoted fragment of such characters alone assembles to nothing.
    assert_eq!(parse_process_args("\"\u{000B}\""), Vec::<String>::new());
    // Trimming an assembled token removes them at its edges too.
    assert_eq!(parse_process_args("\"\u{00A0}a\" b"), vec!["a", "b"]);
    // In the interior they are ordinary characters: only the space splits.
    assert_eq!(parse_process_args("a\u{00A0}b c"), vec!["a\u{00A0}b", "c"]);
}

#[test]
fn multibyte_characters_keep_their_positions() {
    assert_eq!(parse_process_args("α β"), vec!["α", "β"]);
    assert_eq!(parse_process_args("\"α β\" γ"), vec!["α β", "γ"]);
    // Positions are character positions, so a trailing lone backslash is
    // recognized as such even after a multi-byte character.
    assert_eq!(parse_process_args("α\\"), vec!["α\\"]);
}

#[test]
fn rejoining_plain_tokens_tokenizes_back_to_them() {
    for input in ["a b c", "a \"b\" c", "  x\ty  ", "a\"b\"c d"] {
        let tokens = parse_process_args(input);
        let joined = tokens.join(" ");
        assert_eq!(parse_process_args(&joined), tokens);
    }
}

#[test]
fn no_token_is_ever_empty() {
    for input in ["", "  ", "\"\"", "\' \'", "a \"\" b", "\\ ", "a  b", "\" \" c"] {
        for token in parse_process_args(input) {
            assert!(!token.is_empty());
        }
    }
}

#[test]
fn token_count_stays_within_whitespace_runs() {
    for input in ["a b c", "a \"b c\"", "\"a b\" \"c d\"", "a\\ b c", "  x  ", "", "\u{000B}"] {
        let tokens = parse_process_args(input);
        let runs = input.trim().split_whitespace().count();
        assert!(tokens.len() <= runs);
    }
}

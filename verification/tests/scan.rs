use typst_run::bracket::find_matching_bracket;
use typst_run::literal::{expect_char, parse_bool, parse_quoted_string};
use typst_run::position::{decimal_text, parse_error, position_label};
use typst_run::scan::{find_from, line_end_from, plain_end_from, starts_with_at};
use typst_run::text::{byte_len, char_at, char_len, is_boundary, piece, rest_of};
use typst_run::whitespace::{is_blank, is_whitespace, skip_inline_ws, skip_ws, trim, trim_end};

#[test]
fn white_space_is_that_of_the_standard_library() {
    for code in 0..=0x10FFFFu32 {
        if let Some(c) = char::from_u32(code) {
            assert_eq!(is_whitespace(c), c.is_whitespace(), "{code:x}");
            assert_eq!(char_len(c), c.len_utf8(), "{code:x}");
        }
    }
}

#[test]
fn text_is_cut_at_byte_offsets() {
    let s = "aé漢😀z";
    assert_eq!(byte_len(s), 11);
    assert!(is_boundary(s, 3));
    assert!(!is_boundary(s, 2));
    assert!(!is_boundary(s, 12));
    assert_eq!(rest_of(s, 3), "漢😀z");
    assert_eq!(piece(s, 1, 6), "é漢");
    assert_eq!(char_at(s, 6), '😀');
}

#[test]
fn trimming_takes_white_space_off_the_ends() {
    assert_eq!(trim(" \t a b\u{3000}\n"), "a b");
    assert_eq!(trim(" \n "), "");
    assert_eq!(trim_end(" a \u{a0}"), " a");
    assert!(is_blank("\u{2028} \r\n"));
    assert!(!is_blank(" x "));
}

#[test]
fn skipping_white_space_settles() {
    let s = "a \u{3000}\n b";
    assert_eq!(skip_ws(s, 1), 7);
    assert_eq!(skip_ws(s, 7), 7);
    assert_eq!(skip_ws(s, 0), 0);
    assert_eq!(skip_ws("  ", 0), 2);
    assert_eq!(skip_ws("ab", 9), 9);
}

#[test]
fn white_space_within_a_line_ends_with_the_line() {
    assert_eq!(skip_inline_ws("a \t\u{3000}b", 1), 6);
    assert_eq!(skip_inline_ws(" \r\n b", 0), 2);
    assert_eq!(skip_inline_ws("  ", 0), 2);
}

#[test]
fn words_are_found_where_they_first_occur() {
    assert!(starts_with_at("héllo", 3, "llo"));
    assert!(!starts_with_at("héllo", 3, "llop"));
    assert_eq!(find_from("é ab ab", 0, "ab"), Some(3));
    assert_eq!(find_from("é ab ab", 4, "ab"), Some(6));
    assert_eq!(find_from("abc", 3, "x"), None);
    assert_eq!(find_from("abc", 3, ""), Some(3));
}

#[test]
fn plain_text_ends_at_its_stop() {
    assert_eq!(plain_end_from("ab)c", 0, ')'), 2);
    assert_eq!(plain_end_from("abc", 1, ')'), 3);
    assert_eq!(plain_end_from("aé)", 0, ')'), 3);
    assert_eq!(plain_end_from("a)é", 0, ')'), 1);
}

#[test]
fn lines_end_with_a_line_feed_or_at_a_fence() {
    assert_eq!(line_end_from("é\n\nb", 0), 3);
    assert_eq!(line_end_from("é\n\nb", 3), 4);
    assert_eq!(line_end_from("é\n\nb", 4), 5);
    assert_eq!(line_end_from("a`` ```\n", 0), 4);
    assert_eq!(line_end_from("a\n```", 0), 2);
}

#[test]
fn numbers_are_written_in_decimal() {
    assert_eq!(decimal_text(0), "0");
    assert_eq!(decimal_text(10), "10");
    assert_eq!(decimal_text(340282366920938463463374607431768211455), u128::MAX.to_string());
}

#[test]
fn places_are_lines_and_columns() {
    let s = "ab\né\nxyz";
    assert_eq!(position_label(s, 0), "line 1, col 1");
    assert_eq!(position_label(s, 2), "line 1, col 3");
    assert_eq!(position_label(s, 3), "line 2, col 1");
    assert_eq!(position_label(s, 4), "line 2, col 2");
    assert_eq!(position_label(s, 5), "line 2, col 2");
    assert_eq!(position_label(s, 6), "line 3, col 1");
    assert_eq!(position_label(s, 100), "line 3, col 4");
    assert_eq!(position_label("", 7), "line 1, col 1");
    assert_eq!(parse_error(s, 7, "odd"), "odd at line 3, col 2");
}

#[test]
fn quoted_strings_are_read() {
    assert_eq!(parse_quoted_string("x\"a b\"y", 1), Ok(("a b".to_string(), 6)));
    assert_eq!(
        parse_quoted_string("\"\\n\\r\\t\\\"\\\\\\xé\"", 0),
        Ok(("\n\r\t\"\\xé".to_string(), 16))
    );
    assert_eq!(parse_quoted_string("\"\"", 0), Ok((String::new(), 2)));
}

#[test]
fn strings_that_are_not_quoted_are_refused() {
    assert_eq!(
        parse_quoted_string("ab", 2),
        Err("expected string literal at line 1, col 3".to_string())
    );
    assert_eq!(
        parse_quoted_string("é", 1),
        Err("expected string literal at line 1, col 2".to_string())
    );
    assert_eq!(
        parse_quoted_string("a\nb", 2),
        Err("expected opening '\"' at line 2, col 1".to_string())
    );
    assert_eq!(
        parse_quoted_string("\"abc", 0),
        Err("unterminated string literal at line 1, col 5".to_string())
    );
    assert_eq!(
        parse_quoted_string("\"abc\\", 0),
        Err("unterminated string literal at line 1, col 6".to_string())
    );
}

#[test]
fn expected_characters_are_read() {
    assert_eq!(expect_char("a,b", 1, ',', "no comma"), Ok(2));
    assert_eq!(expect_char("aéb", 1, 'é', "no"), Ok(3));
    assert_eq!(
        expect_char("a,b", 2, ',', "no comma"),
        Err("no comma at line 1, col 3".to_string())
    );
    assert_eq!(
        expect_char("a", 1, ',', "no comma"),
        Err("no comma at line 1, col 2".to_string())
    );
    assert_eq!(
        expect_char("é", 1, 'é', "no"),
        Err("no at line 1, col 2".to_string())
    );
}

#[test]
fn truth_values_are_read() {
    assert_eq!(parse_bool("x  true", 1), Ok((true, 7)));
    assert_eq!(parse_bool("false/", 0), Ok((false, 5)));
    assert_eq!(parse_bool("truely", 0), Ok((true, 4)));
    assert_eq!(
        parse_bool("\n yes", 0),
        Err("expected boolean value at line 2, col 2".to_string())
    );
}

#[test]
fn brackets_close_where_they_should() {
    assert_eq!(find_matching_bracket("[a]", 0), Ok(2));
    assert_eq!(find_matching_bracket("x[a[1] + b[é]]y", 1), Ok(14));
    assert_eq!(find_matching_bracket("[\"]\" ']' # ]\n]", 0), Ok(13));
    assert_eq!(find_matching_bracket("['\\']' \"\\\"]\"]", 0), Ok(12));
    assert_eq!(find_matching_bracket("[it's ]']", 0), Ok(8));
    assert_eq!(
        find_matching_bracket("\n[a[]", 1),
        Err("unclosed '[' in codechunk body at line 2, col 1".to_string())
    );
    assert_eq!(
        find_matching_bracket("[", 0),
        Err("unclosed '[' in codechunk body at line 1, col 1".to_string())
    );
    assert_eq!(
        find_matching_bracket("[", 50),
        Err("unclosed '[' in codechunk body at line 1, col 2".to_string())
    );
}

use typst_run::directive::{parse_codechunk_at, parse_codekey_at, parse_codeoutput_at};

#[test]
fn a_codechunk_is_read() {
    let input = "é #codechunk( \"r\" , \"na\\\"me\" ) [x[1] # ]\n]!";
    let (chunk, end) = parse_codechunk_at(input, 3).unwrap();
    assert_eq!(chunk.name, "na\"me");
    assert_eq!(chunk.code, "x[1] # ]\n");
    assert_eq!(chunk.key, None);
    assert!(!chunk.echo);
    assert_eq!(chunk.caption, None);
    assert_eq!(&input[end..], "!");
}

#[test]
fn a_bad_codechunk_is_refused() {
    for (input, message) in [
        ("#codechunk(", "expected string literal at line 1, col 12"),
        ("#codechunk(r)", "expected opening '\"' at line 1, col 12"),
        ("#codechunk(\"r\")", "expected ',' after language at line 1, col 15"),
        ("#codechunk(\"r\", n", "expected opening '\"' at line 1, col 17"),
        ("#codechunk(\"r\", \"n\"", "expected ')' after chunk name at line 1, col 20"),
        ("#codechunk(\"r\", \"n\") x", "expected '[' before chunk body at line 1, col 22"),
        ("#codechunk(\"r\", \"n\")[x", "unclosed '[' in codechunk body at line 1, col 21"),
    ] {
        assert_eq!(
            parse_codechunk_at(input, 0).map(|_| ()),
            Err(message.to_string())
        );
    }
    assert_eq!(
        parse_codechunk_at("ab", 7).map(|_| ()),
        Err("expected string literal at line 1, col 3".to_string())
    );
}

#[test]
fn a_codeoutput_is_read() {
    assert_eq!(
        parse_codeoutput_at("#codeoutput( \"a\\nb\" ).", 0),
        Ok(("a\nb".to_string(), 21))
    );
    assert_eq!(
        parse_codeoutput_at("#codeoutput(\"a\"", 0),
        Err("expected ')' after codeoutput name at line 1, col 16".to_string())
    );
    assert_eq!(
        parse_codeoutput_at("#codeoutput(", 0),
        Err("expected string literal at line 1, col 13".to_string())
    );
}

#[test]
fn a_codekey_is_read() {
    assert_eq!(
        parse_codekey_at("#codekey( fig 1 ) x", 0),
        Ok(("fig 1".to_string(), 17))
    );
    assert_eq!(
        parse_codekey_at("#codekey(\"a)\\\"b\" )x", 0),
        Ok(("a)\"b".to_string(), 18))
    );
    assert_eq!(
        parse_codekey_at("#codekey(open  ", 0),
        Ok(("open".to_string(), 15))
    );
    assert_eq!(parse_codekey_at("#codekey(", 0), Ok((String::new(), 9)));
    assert_eq!(
        parse_codekey_at("#codekey(\"x)", 0),
        Err("unterminated string literal at line 1, col 13".to_string())
    );
    assert_eq!(
        parse_codekey_at("é#codekey(\"a\")", 2),
        Ok(("a".to_string(), 15))
    );
}

#[test]
fn names_need_not_be_ascii() {
    assert_eq!(
        parse_codekey_at("#codekey( é\u{3000})x", 0),
        Ok(("é".to_string(), 16))
    );
    assert_eq!(
        parse_codekey_at("é\"#codekey(a)", 3),
        Ok(("a".to_string(), 14))
    );
}

#[test]
fn the_language_has_no_influence() {
    let (first, end) = parse_codechunk_at("#codechunk(\"r\", \"n\")['[' x]", 0).unwrap();
    for language in ["", "python", "é[)\n"] {
        let input = format!("#codechunk(\"{language}\", \"n\")['[' x]");
        let (chunk, e) = parse_codechunk_at(&input, 0).unwrap();
        assert_eq!(format!("{chunk:?}"), format!("{first:?}"));
        assert_eq!(e, end - 1 + language.len());
    }
}

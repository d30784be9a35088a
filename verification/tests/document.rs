use typst_run::chunk::Chunk;
use typst_run::document::{duplicate_message, parse_chunks};

fn parts(chunk: &Chunk) -> (&str, &str, Option<&str>, bool, Option<&str>) {
    (
        &chunk.name,
        &chunk.code,
        chunk.key.as_deref(),
        chunk.echo,
        chunk.caption.as_deref(),
    )
}

fn only_chunk(input: &str) -> (String, Chunk) {
    let (text, mut chunks) = parse_chunks(input).unwrap();
    assert_eq!(chunks.len(), 1);
    (text, chunks.remove(0))
}

#[test]
fn a_plain_chunk_is_taken_out() {
    let (text, chunk) = only_chunk("A\n```r\nx <- 1\n```\nB\n");
    assert_eq!(text, "A\n\nB\n");
    assert_eq!(parts(&chunk), ("chunk_0", "x <- 1\n", None, false, None));
}

#[test]
fn a_document_without_chunks_is_left_as_it_is() {
    let (text, chunks) = parse_chunks("``` é\n#| key: a\n```python\n").unwrap();
    assert_eq!(text, "``` é\n#| key: a\n```python\n");
    assert!(chunks.is_empty());
}

#[test]
fn a_keyed_chunk_goes_by_its_key() {
    let (text, chunk) = only_chunk("```r\n#| key: fig\n#| echo: true\nplot(1)\n```");
    assert_eq!(text, "");
    assert_eq!(parts(&chunk), ("fig", "plot(1)\n", Some("fig"), true, None));
}

#[test]
fn the_line_behind_the_options_is_code() {
    let (text, chunk) = only_chunk("```r\n#| key: a\nx <- 1\n```");
    assert_eq!(text, "");
    assert_eq!(parts(&chunk), ("a", "x <- 1\n", Some("a"), false, None));
    let (_, chunk) = only_chunk("```r\n#| key: fig\nplot(1)\nkey: b\n```");
    assert_eq!(parts(&chunk), ("fig", "plot(1)\nkey: b\n", Some("fig"), false, None));
    let (_, chunk) = only_chunk("```r\n#| key: k\n#| echo: true\n#| caption: c\n1\n```");
    assert_eq!(parts(&chunk), ("k", "1\n", Some("k"), true, Some("c")));
}

#[test]
fn captions_come_in_brackets_in_quotes_and_plain() {
    let (_, chunk) = only_chunk("```r\n#| caption: [A é]\n#| key: k\n1```");
    assert_eq!(parts(&chunk), ("k", "1", Some("k"), false, Some("A é")));
    let (_, chunk) = only_chunk("```r\n#| caption: \"C\\n\"\n#| key: k \n1```");
    assert_eq!(parts(&chunk), ("k", "1", Some("k"), false, Some("C\n")));
    let (_, chunk) = only_chunk("```r\n#| caption:  two words \n#| key: k\n1```");
    assert_eq!(parts(&chunk), ("k", "1", Some("k"), false, Some("two words")));
}

#[test]
fn a_caption_ends_at_the_first_bracket() {
    let input = "```r\n#| key: \"a\\\"b\"\n#| caption: [A [x] b]\n#| other: 1\ny\n```z";
    let (text, chunk) = only_chunk(input);
    assert_eq!(text, "z");
    assert_eq!(
        parts(&chunk),
        ("a\"b", "y\n", Some("a\"b"), false, Some("A [x"))
    );
}

#[test]
fn an_open_caption_bracket_is_passed_over() {
    let (_, chunk) = only_chunk("```r\n#| caption: [open\n#| key: k\n1\n```");
    assert_eq!(parts(&chunk), ("k", "1\n", Some("k"), false, None));
}

#[test]
fn any_word_but_false_sets_echo() {
    let (_, chunk) = only_chunk("```r\n#| key: a\n#| echo: maybe\nx\n```");
    assert_eq!(parts(&chunk), ("a", "x\n", Some("a"), true, None));
    let (_, chunk) = only_chunk("```r\n#| echo: no\nx\n```");
    assert_eq!(parts(&chunk), ("chunk_0", "x\n", None, true, None));
    let (_, chunk) = only_chunk("```r\n#| echo: false / true\n#| key: a\nx\n```");
    assert_eq!(parts(&chunk), ("a", "x\n", Some("a"), false, None));
    let (_, chunk) = only_chunk("```r\n#| echo: true\n#| echo: false\nx\n```");
    assert_eq!(parts(&chunk), ("chunk_0", "x\n", None, false, None));
}

#[test]
fn unknown_options_are_passed_over() {
    let (_, chunk) = only_chunk("```r\n#| width: 3\n#| height: 4\n#| key: k\n#| echo: true\n1```");
    assert_eq!(parts(&chunk), ("k", "1", Some("k"), true, None));
    let (_, chunk) = only_chunk("```r\n#| foo```");
    assert_eq!(parts(&chunk), ("chunk_0", "foo", None, false, None));
}

#[test]
fn chunks_without_a_key_are_numbered() {
    let (text, chunks) =
        parse_chunks("a```r 1```b```r\n#| key: k\n#| echo: true\n2```c```r 3```d").unwrap();
    assert_eq!(text, "abcd");
    let names: Vec<&str> = chunks.iter().map(|c| c.name.as_str()).collect();
    assert_eq!(names, ["chunk_0", "k", "chunk_2"]);
    let codes: Vec<&str> = chunks.iter().map(|c| c.code.as_str()).collect();
    assert_eq!(codes, ["1", "2", "3"]);
}

#[test]
fn a_key_may_be_the_name_of_a_numbered_chunk() {
    let (_, chunks) =
        parse_chunks("```r a``` ```r\n#| key: chunk_0\n#| echo: true\nb```").unwrap();
    assert_eq!(chunks[0].name, "chunk_0");
    assert_eq!(chunks[1].name, "chunk_0");
}

#[test]
fn what_is_left_may_look_like_a_chunk() {
    let (text, chunk) = only_chunk("`````r 1````r");
    assert_eq!(text, "```r");
    assert_eq!(chunk.code, "1");
}

#[test]
fn quotes_and_brackets_are_known_behind_any_text() {
    let (_, chunk) = only_chunk("é```r\n#| key: \"a\"\n#| caption: [b]\nx\n```");
    assert_eq!(parts(&chunk), ("a", "x\n", Some("a"), false, Some("b")));
    let (_, chunk) = only_chunk("é```r\n#| key: a\"\nx\n```");
    assert_eq!(parts(&chunk), ("a\"", "x\n", Some("a\""), false, None));
}

#[test]
fn a_second_chunk_with_a_key_is_refused() {
    let chunk = "```r\n#| key: \"a\\t\\\"\"\n#| echo: true\n1```";
    let two = format!("{chunk}{chunk}");
    assert_eq!(
        parse_chunks(&two).map(|_| ()),
        Err(format!("duplicate chunk key {:?}", "a\t\""))
    );
    assert_eq!(
        parse_chunks(&two).map(|_| ()),
        Err("duplicate chunk key \"a\\t\\\"\"".to_string())
    );
    assert_eq!(duplicate_message("\"k\""), "duplicate chunk key \"k\"");
}

#[test]
fn a_chunk_that_nothing_closes_is_refused() {
    for input in [
        "```r",
        "```r  \n",
        "a ```r\n#| key: k\n#| echo: x",
        "```r\nx",
        "```r\nx``",
        "```r\n#| key: a",
        "```r\n#| foo",
    ] {
        assert_eq!(
            parse_chunks(input).map(|_| ()),
            Err("unclosed fenced code block".to_string()),
            "{input}"
        );
    }
}

#[test]
fn a_bad_quoted_option_is_refused() {
    assert_eq!(
        parse_chunks("```r\n#| key: \"a").map(|_| ()),
        Err("unterminated string literal at line 2, col 11".to_string())
    );
}

#[test]
fn code_and_values_need_not_be_ascii() {
    let (_, chunk) = only_chunk("```r\n#| key: é\n#| echo: aéé\nx <- \"ü\"\n```");
    assert_eq!(parts(&chunk), ("é", "x <- \"ü\"\n", Some("é"), true, None));
}

#[test]
fn an_option_may_end_with_its_chunk() {
    let (text, chunk) = only_chunk("```r #| key: \"a\" ```b");
    assert_eq!(text, "b");
    assert_eq!(parts(&chunk), ("a", "", Some("a"), false, None));
}

#[test]
fn options_may_share_a_line_with_both_fences() {
    let (text, chunk) = only_chunk("```r #| key: \"a\" #| echo: true```\ntext");
    assert_eq!(text, "\ntext");
    assert_eq!(parts(&chunk), ("a", "", Some("a"), true, None));
    let (text, chunk) = only_chunk("```r #| echo: false / true```\ntext");
    assert_eq!(text, "\ntext");
    assert_eq!(parts(&chunk), ("chunk_0", "", None, false, None));
}

#[test]
fn an_empty_option_takes_no_line_of_code() {
    let (_, chunk) = only_chunk("```r\n#| key: a\n#|\nx <- 1\ny\n```");
    assert_eq!(parts(&chunk), ("a", "x <- 1\ny\n", Some("a"), false, None));
    let (_, chunk) = only_chunk("```r\n#| echo:\ntrue_mean(x)\n```");
    assert_eq!(parts(&chunk), ("chunk_0", "true_mean(x)\n", None, true, None));
    let (_, chunk) = only_chunk("```r\n#| caption: \n#| key:\nx\n```");
    assert_eq!(parts(&chunk), ("", "x\n", Some(""), false, Some("")));
}

#[test]
fn text_before_a_document_goes_through() {
    for doc in ["", "a```r\n#| caption: \"é\"\n1```b```r 2```", "```r\n#| key: \"a"] {
        let alone = parse_chunks(doc);
        let behind = parse_chunks(&format!("é #|\n\"{doc}"));
        match (alone, behind) {
            (Ok((text, chunks)), Ok((long, same))) => {
                assert_eq!(long, format!("é #|\n\"{text}"));
                assert_eq!(format!("{same:?}"), format!("{chunks:?}"));
            }
            (alone, behind) => assert!(alone.is_err() && behind.is_err(), "{doc}"),
        }
    }
}

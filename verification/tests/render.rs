use typst_run::chunk::{Chunk, ChunkOutput, ChunkResult, ChunkResults};
use typst_run::escape::{escape_r_string, escape_typst_string, escape_typst_text};
use typst_run::literal::parse_quoted_string;
use typst_run::render::{
    render_chunk_output, render_chunk_result, render_missing_output, render_outputs,
};

fn plot(path: &str) -> ChunkOutput {
    ChunkOutput::Plot { rel_path: path.to_string() }
}

fn text(content: &str) -> ChunkOutput {
    ChunkOutput::Text { content: content.to_string() }
}

fn error(message: &str) -> ChunkOutput {
    ChunkOutput::Error { message: message.to_string() }
}

fn result(output: ChunkOutput, echo: bool, caption: Option<&str>, code: &str) -> ChunkResult {
    ChunkResult {
        output,
        echo,
        caption: caption.map(|c| c.to_string()),
        code: code.to_string(),
    }
}

#[test]
fn special_characters_are_escaped() {
    assert_eq!(escape_typst_text("a\\b[c]#d\"\né"), "a\\\\b\\[c\\]\\#d\"\né");
    assert_eq!(escape_typst_string("a\\b\"[\n"), "a\\\\b\\\"[\n");
    assert_eq!(escape_r_string("a\\\"\n\r\t[é"), "a\\\\\\\"\\n\\r\\t[é");
    assert_eq!(escape_r_string(""), "");
}

#[test]
fn escaped_strings_read_back() {
    for s in ["", "plain", "a\\n\"b\"\n\r\t\\", "é[#]\u{3000}"] {
        for written in [escape_r_string(s), escape_typst_string(s)] {
            let all = format!("é \"{written}\" rest");
            assert_eq!(
                parse_quoted_string(&all, 3),
                Ok((s.to_string(), 5 + written.len()))
            );
        }
    }
}

#[test]
fn two_escaped_texts_join() {
    let (a, b) = ("x[\\", "\"#\n");
    assert_eq!(
        escape_typst_text(&format!("{a}{b}")),
        escape_typst_text(a) + &escape_typst_text(b)
    );
}

#[test]
fn outputs_are_shown() {
    assert_eq!(
        render_chunk_output("n#1", &plot("fig/a\"b.png")),
        "#figure(\n  image(\"fig/a\\\"b.png\"),\n  caption: [n\\#1],\n)"
    );
    assert_eq!(render_chunk_output("n", &text("[1] 2")), "#block[\n\\[1\\] 2\n]");
    assert_eq!(render_chunk_output("n", &text(" \n\t")), "#block[]");
    assert_eq!(
        render_chunk_output("n[", &error("bad #")),
        "#block(fill: red.lighten(80%))[\nR error in chunk \"n\\[\":\nbad \\#\n]"
    );
}

#[test]
fn results_are_shown_with_their_code() {
    let code = "#block(fill: gray.lighten(90%))[\n```r\nx[1]\n```\n]";
    assert_eq!(
        render_chunk_result("n", &result(plot("f.png"), true, Some("A [b]"), "x[1]")),
        "#figure(\n  image(\"f.png\"),\n  caption: [A \\[b\\]],\n)"
    );
    assert_eq!(
        render_chunk_result("n", &result(plot("f.png"), false, None, "")),
        "#figure(\n  image(\"f.png\"),\n  caption: [n],\n)"
    );
    assert_eq!(
        render_chunk_result("n", &result(text("2"), true, None, "x[1]")),
        format!("{code}\n#block[\n2\n]")
    );
    assert_eq!(render_chunk_result("n", &result(text(" "), true, None, "x[1]")), code);
    assert_eq!(render_chunk_result("n", &result(text("2"), true, None, " \n")), "#block[\n2\n]");
    assert_eq!(render_chunk_result("n", &result(text(""), true, None, "")), "#block[]");
    assert_eq!(render_chunk_result("n", &result(text(""), false, None, "x")), "#block[]");
    let block = "#block(fill: red.lighten(80%))[\nR error in chunk \"n\":\ne\n]";
    assert_eq!(
        render_chunk_result("n", &result(error("e"), true, None, "x[1]")),
        format!("{code}\n{block}")
    );
    assert_eq!(render_chunk_result("n", &result(error("e"), false, None, "x[1]")), block);
}

#[test]
fn calls_are_replaced() {
    let mut results = ChunkResults::new();
    results.insert("x".to_string(), result(text("X"), false, None, ""));
    assert_eq!(
        render_outputs("é #codekey(x) b #codekey( x )", &results).unwrap(),
        "é #block[\nX\n] b #block[\nX\n]"
    );
    assert_eq!(
        render_outputs("#codekey(\"y#\")!", &results).unwrap(),
        "#block(fill: red.lighten(80%))[\nMissing chunk \"y\\#\" for #codekey.\n]!"
    );
    assert_eq!(render_outputs("no calls é", &results).unwrap(), "no calls é");
    assert_eq!(
        render_missing_output("y#"),
        "#block(fill: red.lighten(80%))[\nMissing chunk \"y\\#\" for #codekey.\n]"
    );
}

#[test]
fn bad_calls_are_refused() {
    let results = ChunkResults::new();
    assert_eq!(
        render_outputs("a\n#codekey(\"x", &results),
        Err("unterminated string literal at line 2, col 12".to_string())
    );
}

#[test]
fn the_later_of_two_results_counts() {
    let chunk = |key: Option<&str>, echo: bool| Chunk {
        name: "n".to_string(),
        code: "c".to_string(),
        key: key.map(|k| k.to_string()),
        echo,
        caption: Some("cap".to_string()),
    };
    let mut results = ChunkResults::new();
    results.record(&chunk(None, false), text("1"));
    results.record(&chunk(Some("k"), true), text("2"));
    results.record(&chunk(Some("n"), true), plot("3"));
    let n = results.get("n").unwrap();
    assert!(matches!(&n.output, ChunkOutput::Plot { rel_path } if rel_path == "3"));
    assert!(n.echo);
    assert_eq!(n.caption.as_deref(), Some("cap"));
    assert_eq!(n.code, "c");
    assert!(matches!(
        &results.get("k").unwrap().output,
        ChunkOutput::Text { content } if content == "2"
    ));
    assert!(results.get("x").is_none());
}

#[test]
fn copies_are_equal() {
    let r = result(error("e"), true, Some("c"), "x");
    assert_eq!(format!("{:?}", r.clone()), format!("{:?}", r));
    let c = Chunk {
        name: "n".to_string(),
        code: "x".to_string(),
        key: None,
        echo: false,
        caption: Some("c".to_string()),
    };
    assert_eq!(format!("{:?}", c.clone()), format!("{:?}", c));
}

#[test]
fn a_call_shows_what_its_chunk_gave() {
    let chunk = Chunk {
        name: "a\"]".to_string(),
        code: "x".to_string(),
        key: Some("a\"]".to_string()),
        echo: false,
        caption: None,
    };
    let mut results = ChunkResults::new();
    results.record(&chunk, text("1"));
    assert_eq!(
        render_outputs("<#codekey(\"a\\\"]\")>", &results),
        Ok("<#block[\n1\n]>".to_string())
    );
}

#[test]
fn text_outside_calls_is_kept() {
    let results = ChunkResults::new();
    let missing = |name: &str| render_missing_output(name);
    assert_eq!(
        render_outputs("é [#] #codekey(a)#codekey( b )\n#codekey c", &results),
        Ok(format!("é [#] {}{}\n#codekey c", missing("a"), missing("b")))
    );
}

#[test]
fn text_before_a_document_is_rendered_as_itself() {
    let results = ChunkResults::new();
    for doc in ["", "a #codekey(é) b", "#codekey(\"x\\\"\")#codekey(", "#codekey(\"x"] {
        let alone = render_outputs(doc, &results);
        let behind = render_outputs(&format!("é [`\n\"{doc}"), &results);
        assert_eq!(behind.ok(), alone.ok().map(|text| format!("é [`\n\"{text}")));
    }
}

use typst_run::chunk::{Chunk, ChunkOutput};
use typst_run::execution::{
    build_r_wrapper_script, combine_streams, finished_output, is_valid_chunk_name, plot_file_name,
    run_chunk, script_file_name, ScriptRun,
};
use typst_run::literal::parse_quoted_string;

fn chunk(name: &str, code: &str) -> Chunk {
    Chunk {
        name: name.to_string(),
        code: code.to_string(),
        key: None,
        echo: false,
        caption: None,
    }
}

fn shown(output: ChunkOutput) -> String {
    match output {
        ChunkOutput::Plot { rel_path } => format!("plot {rel_path}"),
        ChunkOutput::Text { content } => format!("text {content}"),
        ChunkOutput::Error { message } => format!("error {message}"),
    }
}

#[test]
fn names_are_checked() {
    assert!(is_valid_chunk_name("a-Z_0.9"));
    for name in ["", "a b", "é", "a/b", "a\n"] {
        assert!(!is_valid_chunk_name(name), "{name}");
    }
}

#[test]
fn streams_are_joined() {
    assert_eq!(combine_streams("a\n\n", " b \n"), "a\n b");
    assert_eq!(combine_streams(" a\n", "\n"), " a");
    assert_eq!(combine_streams(" ", "b\u{3000}"), "b");
    assert_eq!(combine_streams("", "\t"), "");
}

#[test]
fn the_script_holds_the_path_and_the_code() {
    let code = "x <- \"a\"\nprint(x)\t# \\";
    let script = build_r_wrapper_script(&chunk("n", code), "/tmp/a\"b.png");
    assert_eq!(
        script,
        r##"options(device = function(...) grDevices::png(filename = "/tmp/a\"b.png", width = 7, height = 5, units = "in", res = 600 ))
.code <- "x <- \"a\"\nprint(x)\t# \\"

tryCatch({
  .exprs <- parse(text = .code)
  for (.expr in .exprs) {
    .value <- withVisible(eval(.expr, envir = .GlobalEnv))
    if (.value$visible) print(.value$value)
  }
  if (grDevices::dev.cur() != 1) grDevices::dev.off()
}, error = function(e) {
  if (grDevices::dev.cur() != 1) grDevices::dev.off()
  message("ERROR: ", conditionMessage(e))
  quit(status = 1)
})
"##
    );
    let path_at = script.find('"').unwrap();
    assert_eq!(parse_quoted_string(&script, path_at).unwrap().0, "/tmp/a\"b.png");
    let code_at = script.find(".code <- ").unwrap() + 9;
    assert_eq!(parse_quoted_string(&script, code_at).unwrap().0, code);
}

#[test]
fn files_go_by_the_name() {
    let c = chunk("a b", "");
    assert_eq!(script_file_name(&c), "chunk_a b.R");
    assert_eq!(plot_file_name(&c), "a b.png");
}

#[test]
fn a_run_that_did_not_start_is_an_error() {
    let c = chunk("n", "");
    let run = ScriptRun::NotWritten { script_path: "p.R".to_string(), error: "full".to_string() };
    assert_eq!(shown(run_chunk(&c, &run)), "error failed to write R script p.R: full");
    let run = ScriptRun::NotStarted { error: "gone".to_string() };
    assert_eq!(shown(run_chunk(&c, &run)), "error failed to run Rscript: gone");
}

#[test]
fn a_run_gives_a_plot_a_text_or_an_error() {
    let c = chunk("n", "");
    let run = |plot_size: Option<u64>, success: bool| {
        shown(run_chunk(
            &c,
            &ScriptRun::Finished {
                plot_size,
                success,
                stdout: b"[1] \xff2\n".to_vec(),
                stderr: "é\n".as_bytes().to_vec(),
            },
        ))
    };
    assert_eq!(run(Some(1), true), "plot fig/n.png");
    assert_eq!(run(Some(1), false), "plot fig/n.png");
    assert_eq!(run(Some(0), true), "text [1] \u{fffd}2\né");
    assert_eq!(run(None, false), "error [1] \u{fffd}2\né");
    assert_eq!(shown(finished_output(&c, None, true, "a ", "")), "text a");
}

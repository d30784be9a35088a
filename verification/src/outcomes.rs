//! What comes of a chunk, from the run of its script to what the document shows.
use crate::chunk::{output_key, result_of, results_of, ChunkView, OutputView, ResultView};
use crate::escape::{escaped, Style};
use crate::execution::{
    combined, finished, name_char, plot_file, run_output, script, script_file, valid_name,
    ScriptRun,
};
use crate::foreign::lossy_text;
use crate::render::{output_block, replacement, result_block};
use crate::session::{
    failed, not_renamed, reported, watch_step, ActionView, ChangeKind, WatchEvent, WatchState,
};
use crate::whitespace::{trimmed_end, white};
use vstd::prelude::*;

verus! {

/// A finished run gave a plot exactly if there is a plot file that holds anything,
/// however much, and whatever the exit status and the streams. The plot is then
/// known by the name of the chunk alone.
pub proof fn lemma_plot_of_any_size(
    name: Seq<char>,
    plot_size: Option<u64>,
    success: bool,
    stdout: Seq<char>,
    stderr: Seq<char>,
)
    ensures
        (plot_size matches Some(size) && size >= 1) <==> finished(
            name,
            plot_size,
            success,
            stdout,
            stderr,
        ) is Plot,
        finished(name, plot_size, success, stdout, stderr) is Plot ==> finished(
            name,
            plot_size,
            success,
            stdout,
            stderr,
        ) == (OutputView::Plot { rel_path: "fig/"@ + name + ".png"@ }),
{
    assert("fig/"@ + (name + ".png"@) =~= "fig/"@ + name + ".png"@);
}

/// A finished run without a plot gave what its two streams held, as text if it
/// succeeded and as an error if not. Each stream counts without the white space at
/// its end, and an empty one does not count.
pub proof fn lemma_run_without_plot(
    name: Seq<char>,
    plot_size: Option<u64>,
    stdout: Seq<char>,
    stderr: Seq<char>,
    out_end: Seq<char>,
    err_end: Seq<char>,
)
    requires
        plot_size matches Some(size) ==> size == 0,
        stdout.len() > 0 ==> !white(stdout.last()),
        stderr.len() > 0 ==> !white(stderr.last()),
        forall|k: int| 0 <= k < out_end.len() ==> white(#[trigger] out_end[k]),
        forall|k: int| 0 <= k < err_end.len() ==> white(#[trigger] err_end[k]),
    ensures
        ({
            let held = if stdout.len() == 0 {
                stderr
            } else if stderr.len() == 0 {
                stdout
            } else {
                stdout + "\n"@ + stderr
            };
            &&& combined(stdout + out_end, stderr + err_end) == held
            &&& finished(name, plot_size, true, stdout + out_end, stderr + err_end) == (
            OutputView::Text { content: held })
            &&& finished(name, plot_size, false, stdout + out_end, stderr + err_end) == (
            OutputView::Error { message: held })
        }),
{
    lemma_end_taken_off(stdout, out_end);
    lemma_end_taken_off(stderr, err_end);
}

/// White space at the end of a text is taken off, and nothing else.
pub proof fn lemma_end_taken_off(t: Seq<char>, end: Seq<char>)
    requires
        t.len() > 0 ==> !white(t.last()),
        forall|k: int| 0 <= k < end.len() ==> white(#[trigger] end[k]),
    ensures
        trimmed_end(t + end) == t,
    decreases end.len(),
{
    if end.len() == 0 {
        assert(t + end =~= t);
    } else {
        let e = end.drop_last();
        assert forall|k: int| 0 <= k < e.len() implies white(#[trigger] e[k]) by {
            assert(e[k] == end[k]);
        }
        assert((t + end).drop_last() =~= t + e);
        assert((t + end).last() == end[end.len() - 1]);
        lemma_end_taken_off(t, e);
    }
}

/// A run whose script could not be written or started is an error that says so,
/// and a finished run counts by what the bytes of its streams stand for; of the
/// chunk its name alone matters.
pub proof fn lemma_how_a_run_ended(chunk: ChunkView, other: ChunkView, run: ScriptRun)
    requires
        chunk.name == other.name,
    ensures
        run_output(chunk, run) == run_output(other, run),
        (run matches ScriptRun::NotWritten { script_path, error } ==> run_output(chunk, run) == (
        OutputView::Error {
            message: "failed to write R script "@ + script_path@ + ": "@ + error@,
        })),
        (run matches ScriptRun::NotStarted { error } ==> run_output(chunk, run) == (
        OutputView::Error { message: "failed to run Rscript: "@ + error@ })),
        (run matches ScriptRun::Finished { plot_size, success, stdout, stderr } ==> {
            &&& run_output(chunk, run) is Plot <==> (plot_size matches Some(size) && size >= 1)
            &&& run_output(chunk, run) is Plot ==> run_output(chunk, run) == (OutputView::Plot {
                rel_path: "fig/"@ + chunk.name + ".png"@,
            })
            &&& run_output(chunk, run) !is Plot ==> run_output(chunk, run) == (if success {
                OutputView::Text { content: combined(lossy_text(stdout@), lossy_text(stderr@)) }
            } else {
                OutputView::Error {
                    message: combined(lossy_text(stdout@), lossy_text(stderr@)),
                }
            })
        }),
{
    if let ScriptRun::Finished { plot_size, success, stdout, stderr } = run {
        lemma_plot_of_any_size(
            chunk.name,
            plot_size,
            success,
            lossy_text(stdout@),
            lossy_text(stderr@),
        );
    }
}

/// Whatever the code and the path, the R script sends plots to the path, holds the
/// code as one string, and behind it parses the code, evaluates and prints each
/// expression, and closes the device, also on an error.
pub proof fn lemma_script_runs_any_code(code: Seq<char>, plot_path: Seq<char>)
    ensures
        script(code, plot_path)
            == "options(device = function(...) grDevices::png(filename = "@ + "\""@ + escaped(
            Style::RString,
            plot_path,
        ) + "\""@
            + ", width = 7, height = 5, units = \"in\", res = 600 ))\n.code <- "@ + "\""@ + escaped(
            Style::RString,
            code,
        ) + "\""@
            + "\n\ntryCatch({\n  .exprs <- parse(text = .code)\n  for (.expr in .exprs) {\n    .value <- withVisible(eval(.expr, envir = .GlobalEnv))\n    if (.value$visible) print(.value$value)\n  }\n  if (grDevices::dev.cur() != 1) grDevices::dev.off()\n}, error = function(e) {\n  if (grDevices::dev.cur() != 1) grDevices::dev.off()\n  message(\"ERROR: \", conditionMessage(e))\n  quit(status = 1)\n})\n"@,
{
    let q = "\""@;
    let p = escaped(Style::RString, plot_path);
    let c = escaped(Style::RString, code);
    let a = "options(device = function(...) grDevices::png(filename = "@;
    let b = ", width = 7, height = 5, units = \"in\", res = 600 ))\n.code <- "@;
    let z =
        "\n\ntryCatch({\n  .exprs <- parse(text = .code)\n  for (.expr in .exprs) {\n    .value <- withVisible(eval(.expr, envir = .GlobalEnv))\n    if (.value$visible) print(.value$value)\n  }\n  if (grDevices::dev.cur() != 1) grDevices::dev.off()\n}, error = function(e) {\n  if (grDevices::dev.cur() != 1) grDevices::dev.off()\n  message(\"ERROR: \", conditionMessage(e))\n  quit(status = 1)\n})\n"@;
    assert(a + (q + p + q) + b + (q + c + q) + z =~= a + q + p + q + b + q + c + q + z);
}

/// The files of a chunk go by its name: chunks with different names have different
/// files.
pub proof fn lemma_files_go_by_name(name: Seq<char>, other: Seq<char>)
    ensures
        script_file(name) == "chunk_"@ + name + ".R"@,
        plot_file(name) == name + ".png"@,
        script_file(name) == script_file(other) <==> name == other,
        plot_file(name) == plot_file(other) <==> name == other,
{
    let c = "chunk_"@;
    let r = ".R"@;
    let p = ".png"@;
    let k = c.len() as int;
    assert(script_file(name).subrange(k, script_file(name).len() - r.len()) =~= name);
    assert(script_file(other).subrange(k, script_file(other).len() - r.len()) =~= other);
    assert(plot_file(name).take(plot_file(name).len() - p.len()) =~= name);
    assert(plot_file(other).take(plot_file(other).len() - p.len()) =~= other);
}

/// A name is valid exactly if it has a character and every one of its characters
/// is an ASCII letter, an ASCII digit, a hyphen, an underscore or a dot.
pub proof fn lemma_valid_names(name: Seq<char>)
    ensures
        valid_name(name) <==> {
            &&& name.len() > 0
            &&& forall|k: int|
                0 <= k < name.len() ==> {
                    let c = #[trigger] name[k];
                    ||| 'a' <= c <= 'z'
                    ||| 'A' <= c <= 'Z'
                    ||| '0' <= c <= '9'
                    ||| c == '-' || c == '_' || c == '.'
                }
        },
{
    if name.len() > 0 && forall|k: int|
        0 <= k < name.len() ==> {
            let c = #[trigger] name[k];
            ||| 'a' <= c <= 'z'
            ||| 'A' <= c <= 'Z'
            ||| '0' <= c <= '9'
            ||| c == '-' || c == '_' || c == '.'
        } {
        assert forall|k: int| 0 <= k < name.len() implies name_char(#[trigger] name[k]) by {}
    }
    if valid_name(name) {
        assert forall|k: int| 0 <= k < name.len() implies {
            let c = #[trigger] name[k];
            ||| 'a' <= c <= 'z'
            ||| 'A' <= c <= 'Z'
            ||| '0' <= c <= '9'
            ||| c == '-' || c == '_' || c == '.'
        } by {
            assert(name_char(name[k]));
        }
    }
}

/// Whether a text has a character that is not white space.
pub open spec fn holds_something(t: Seq<char>) -> bool {
    exists|k: int| 0 <= k < t.len() && !white(#[trigger] t[k])
}

/// A plot is shown as a figure with the caption of the chunk, whatever its name,
/// or else with its name. Neither the code nor whether it is shown matters.
pub proof fn lemma_plot_is_shown(
    name: Seq<char>,
    rel_path: Seq<char>,
    echo: bool,
    caption: Seq<char>,
    code: Seq<char>,
)
    ensures
        result_block(
            name,
            ResultView {
                output: OutputView::Plot { rel_path },
                echo,
                caption: Some(caption),
                code,
            },
        ) == "#figure(\n  image(\""@ + escaped(Style::TypstString, rel_path)
            + "\"),\n  caption: ["@ + escaped(Style::TypstText, caption) + "],\n)"@,
        result_block(
            name,
            ResultView { output: OutputView::Plot { rel_path }, echo, caption: None, code },
        ) == "#figure(\n  image(\""@ + escaped(Style::TypstString, rel_path)
            + "\"),\n  caption: ["@ + escaped(Style::TypstText, name) + "],\n)"@,
        output_block(name, OutputView::Plot { rel_path }) == "#figure(\n  image(\""@ + escaped(
            Style::TypstString,
            rel_path,
        ) + "\"),\n  caption: ["@ + escaped(Style::TypstText, name) + "],\n)"@,
{
}

/// Printed text is shown in a block, behind the code where the chunk shows it. What
/// holds nothing but white space is left out, and an empty block stands where
/// nothing is left. Neither the name nor the caption matters.
pub proof fn lemma_text_is_shown(
    name: Seq<char>,
    content: Seq<char>,
    echo: bool,
    caption: Option<Seq<char>>,
    code: Seq<char>,
)
    ensures
        ({
            let block = result_block(
                name,
                ResultView { output: OutputView::Text { content }, echo, caption, code },
            );
            let text = "#block[\n"@ + escaped(Style::TypstText, content) + "\n]"@;
            let source = "#block(fill: gray.lighten(90%))[\n```r\n"@ + code + "\n```\n]"@;
            let shows_text = holds_something(content);
            let shows_code = echo && holds_something(code);
            &&& shows_text && shows_code ==> block == source + "\n"@ + text
            &&& shows_text && !shows_code ==> block == text
            &&& !shows_text && shows_code ==> block == source
            &&& !shows_text && !shows_code ==> block == "#block[]"@
            &&& output_block(name, OutputView::Text { content }) == (if shows_text {
                text
            } else {
                "#block[]"@
            })
        }),
{
}

/// An error is shown in a block with the name of the chunk and the message, behind
/// the code where the chunk shows it. The caption does not matter.
pub proof fn lemma_error_is_shown(
    name: Seq<char>,
    message: Seq<char>,
    echo: bool,
    caption: Option<Seq<char>>,
    code: Seq<char>,
)
    ensures
        ({
            let block = result_block(
                name,
                ResultView { output: OutputView::Error { message }, echo, caption, code },
            );
            let error = "#block(fill: red.lighten(80%))[\nR error in chunk \""@ + escaped(
                Style::TypstText,
                name,
            ) + "\":\n"@ + escaped(Style::TypstText, message) + "\n]"@;
            let source = "#block(fill: gray.lighten(90%))[\n```r\n"@ + code + "\n```\n]"@;
            &&& echo && holds_something(code) ==> block == source + "\n"@ + error
            &&& !(echo && holds_something(code)) ==> block == error
            &&& output_block(name, OutputView::Error { message }) == error
        }),
{
}

/// In place of a call stands what the chunk of that name gave; or that there is no
/// such chunk. Other results have no influence.
pub proof fn lemma_call_stands_for_its_chunk(
    name: Seq<char>,
    results: Map<Seq<char>, ResultView>,
    others: Map<Seq<char>, ResultView>,
)
    ensures
        !results.contains_key(name) ==> replacement(name, results)
            == "#block(fill: red.lighten(80%))[\nMissing chunk \""@ + escaped(
            Style::TypstText,
            name,
        ) + "\" for #codekey.\n]"@,
        results.contains_key(name) ==> replacement(name, results) == result_block(
            name,
            results[name],
        ),
        results.contains_key(name) == others.contains_key(name) && results[name] == others[name]
            ==> replacement(name, results) == replacement(name, others),
{
}

/// A chunk is known by its key, or else by its name, and its result holds its
/// output, its code, its caption and whether the code is shown.
pub proof fn lemma_result_of_a_chunk(chunk: ChunkView, output: OutputView)
    ensures
        chunk.key is None ==> output_key(chunk) == chunk.name,
        chunk.key is Some ==> output_key(chunk) == chunk.key->0,
        result_of(chunk, output).output == output,
        result_of(chunk, output).code == chunk.code,
        result_of(chunk, output).caption == chunk.caption,
        result_of(chunk, output).echo == chunk.echo,
{
}

/// Under a name stands the result of the last chunk that is known by it, and under
/// no other name stands anything.
pub proof fn lemma_results_by_name(
    chunks: Seq<ChunkView>,
    outputs: Seq<OutputView>,
    name: Seq<char>,
)
    requires
        outputs.len() <= chunks.len(),
    ensures
        results_of(chunks, outputs).contains_key(name) <==> exists|m: int|
            0 <= m < outputs.len() && output_key(#[trigger] chunks[m]) == name,
        forall|m: int|
            #![trigger chunks[m]]
            0 <= m < outputs.len() && output_key(chunks[m]) == name && (forall|k: int|
                m < k < outputs.len() ==> output_key(#[trigger] chunks[k]) != name) ==> results_of(
                chunks,
                outputs,
            )[name] == (ResultView {
                output: outputs[m],
                echo: chunks[m].echo,
                caption: chunks[m].caption,
                code: chunks[m].code,
            }),
    decreases outputs.len(),
{
    if outputs.len() > 0 {
        let n = outputs.len() - 1;
        lemma_results_by_name(chunks, outputs.drop_last(), name);
        assert(output_key(chunks[n]) == name || output_key(chunks[n]) != name);
        assert forall|m: int|
            #![trigger chunks[m]]
            0 <= m < outputs.len() && output_key(chunks[m]) == name && (forall|k: int|
                m < k < outputs.len() ==> output_key(#[trigger] chunks[k]) != name) implies (
        results_of(chunks, outputs)[name]) == (ResultView {
            output: outputs[m],
            echo: chunks[m].echo,
            caption: chunks[m].caption,
            code: chunks[m].code,
        }) by {
            if m < n {
                assert(output_key(chunks[n]) != name);
                assert(outputs.drop_last()[m] == outputs[m]);
            }
        }
    }
}

/// What the program says about what it could not do.
pub proof fn lemma_failures_in_words(a: Seq<char>, b: Seq<char>, c: Seq<char>)
    ensures
        failed(a, b, c) == "failed to "@ + a + " "@ + b + ": "@ + c,
        not_renamed(a, b, c) == "failed to rename "@ + a + " -> "@ + b + ": "@ + c,
        reported(a) == "typst-run: "@ + a,
{
}

/// Setting up the watch goes from making the watcher over putting the document
/// under watch to the first run and to waiting; the first failure on the way ends
/// the session with what failed.
pub proof fn lemma_setting_up(path: Seq<char>, done: Result<(), String>)
    ensures
        ({
            let event = WatchEvent::Done(done);
            let made = watch_step(path, WatchState::Creating, event);
            let put = watch_step(path, WatchState::Registering, event);
            let ran = watch_step(path, WatchState::FirstRun, event);
            match done {
                Ok(_) => {
                    &&& made == (WatchState::Registering, ActionView::Register)
                    &&& put == (WatchState::FirstRun, ActionView::Process { notice: None })
                    &&& ran == (WatchState::Waiting, ActionView::Wait)
                },
                Err(e) => {
                    &&& made.1 == ActionView::Finish(Err("failed to create watcher: "@ + e@))
                    &&& put.1 == ActionView::Finish(
                        Err("failed to "@ + "watch"@ + " "@ + path + ": "@ + e@),
                    )
                    &&& ran.1 == ActionView::Finish(Err(e@))
                },
            }
        }),
{
}

/// While the document is watched, changes start a run exactly if one of them
/// settled, errors of the watcher and of a later run are reported, and the session
/// waits on; when the watcher is gone the session ends well.
pub proof fn lemma_watching(
    path: Seq<char>,
    kinds: Vec<ChangeKind>,
    error: String,
    done: Result<(), String>,
)
    ensures
        ({
            let seen = watch_step(path, WatchState::Waiting, WatchEvent::Changed(kinds));
            let settled = exists|k: int|
                0 <= k < kinds@.len() && #[trigger] kinds@[k] == ChangeKind::Settled;
            let ran = watch_step(path, WatchState::Rerun, WatchEvent::Done(done));
            &&& settled ==> seen == (
                WatchState::Rerun,
                ActionView::Process {
                    notice: Some("\n--- File changed, re-processing ---"@),
                },
            )
            &&& !settled ==> seen == (WatchState::Waiting, ActionView::Wait)
            &&& watch_step(path, WatchState::Waiting, WatchEvent::WatchFailed(error)) == (
                WatchState::Waiting,
                ActionView::Report("Watch error: "@ + error@),
            )
            &&& ran.0 == WatchState::Waiting
            &&& ran.1 == (match done {
                Ok(_) => ActionView::Wait,
                Err(e) => ActionView::Report("typst-run: "@ + e@),
            })
            &&& watch_step(path, WatchState::Waiting, WatchEvent::Closed).1 == ActionView::Finish(
                Ok(()),
            )
        }),
{
    if exists|k: int| 0 <= k < kinds@.len() && #[trigger] kinds@[k] == ChangeKind::Settled {
        let k = choose|k: int|
            0 <= k < kinds@.len() && #[trigger] kinds@[k] == ChangeKind::Settled;
        assert(kinds@.contains(ChangeKind::Settled));
    }
}

} // verus!

//! Running a chunk: the R script that is run for it, the files it uses, and what
//! its output is.
use crate::chunk::{Chunk, ChunkOutput, ChunkView, OutputView};
use crate::escape::{escape_r_string, escaped, Style};
use crate::foreign::{lossy_form, lossy_text};
use crate::text::{
    boundary, byte_len, char_at, char_len, head, lemma_ends, lemma_head_next, lemma_split, width,
};
use crate::whitespace::{trim_end, trimmed_end};
use vstd::prelude::*;
use vstd::string::*;
use vstd::utf8::*;

verus! {

/// Whether a character may stand in the name of a chunk.
pub open spec fn name_char(c: char) -> bool {
    ||| 'a' <= c <= 'z'
    ||| 'A' <= c <= 'Z'
    ||| '0' <= c <= '9'
    ||| c == '-'
    ||| c == '_'
    ||| c == '.'
}

/// Whether a text can be the name of a chunk.
pub open spec fn valid_name(name: Seq<char>) -> bool {
    name.len() > 0 && forall|k: int| 0 <= k < name.len() ==> name_char(#[trigger] name[k])
}

/// What a program wrote to its two streams, without the white space at the end
/// of each, and with a line feed between the two where both hold something.
pub open spec fn combined(stdout: Seq<char>, stderr: Seq<char>) -> Seq<char> {
    let a = trimmed_end(stdout);
    let b = trimmed_end(stderr);
    if a.len() == 0 {
        b
    } else if b.len() == 0 {
        a
    } else {
        a + "\n"@ + b
    }
}

/// The part of the R script before the path of the plot.
pub open spec fn script_head() -> Seq<char> {
    "options(device = function(...) grDevices::png(filename = "@
}

/// The part of the R script between the path of the plot and the code.
pub open spec fn script_middle() -> Seq<char> {
    ", width = 7, height = 5, units = \"in\", res = 600 ))\n.code <- "@
}

/// The part of the R script behind the code.
pub open spec fn script_tail() -> Seq<char> {
    "\n\ntryCatch({\n  .exprs <- parse(text = .code)\n  for (.expr in .exprs) {\n    .value <- withVisible(eval(.expr, envir = .GlobalEnv))\n    if (.value$visible) print(.value$value)\n  }\n  if (grDevices::dev.cur() != 1) grDevices::dev.off()\n}, error = function(e) {\n  if (grDevices::dev.cur() != 1) grDevices::dev.off()\n  message(\"ERROR: \", conditionMessage(e))\n  quit(status = 1)\n})\n"@
}

/// A text as an R string with its quotes.
pub open spec fn r_string(s: Seq<char>) -> Seq<char> {
    "\""@ + escaped(Style::RString, s) + "\""@
}

/// The R script that runs `code` and puts its plots into the file `plot_path`.
pub open spec fn script(code: Seq<char>, plot_path: Seq<char>) -> Seq<char> {
    script_head() + r_string(plot_path) + script_middle() + r_string(code) + script_tail()
}

/// The name of the file that holds the script of the chunk `name`.
pub open spec fn script_file(name: Seq<char>) -> Seq<char> {
    "chunk_"@ + name + ".R"@
}

/// The name of the file that holds the plot of the chunk `name`.
pub open spec fn plot_file(name: Seq<char>) -> Seq<char> {
    name + ".png"@
}

/// How an attempt to run a script ended.
pub enum ScriptRun {
    /// The script could not be written.
    NotWritten { script_path: String, error: String },
    /// R could not be started.
    NotStarted { error: String },
    /// R ran. The size of the plot file is given if there is one.
    Finished { plot_size: Option<u64>, success: bool, stdout: Vec<u8>, stderr: Vec<u8> },
}

/// What a finished run gave: a plot, if its file holds anything; else what was
/// written to the streams, as text or as an error.
pub open spec fn finished(
    name: Seq<char>,
    plot_size: Option<u64>,
    success: bool,
    stdout: Seq<char>,
    stderr: Seq<char>,
) -> OutputView {
    if plot_size matches Some(size) && size > 0 {
        OutputView::Plot { rel_path: "fig/"@ + plot_file(name) }
    } else if success {
        OutputView::Text { content: combined(stdout, stderr) }
    } else {
        OutputView::Error { message: combined(stdout, stderr) }
    }
}

/// What running the script of a chunk gave.
pub open spec fn run_output(chunk: ChunkView, run: ScriptRun) -> OutputView {
    match run {
        ScriptRun::NotWritten { script_path, error } => OutputView::Error {
            message: "failed to write R script "@ + script_path@ + ": "@ + error@,
        },
        ScriptRun::NotStarted { error } => OutputView::Error {
            message: "failed to run Rscript: "@ + error@,
        },
        ScriptRun::Finished { plot_size, success, stdout, stderr } => finished(
            chunk.name,
            plot_size,
            success,
            lossy_text(stdout@),
            lossy_text(stderr@),
        ),
    }
}

/// Whether `name` can be the name of a chunk.
pub fn is_valid_chunk_name(name: &str) -> (b: bool)
    ensures
        b == valid_name(name@),
{
    let n: usize = byte_len(name);
    let mut i: usize = 0;
    proof {
        lemma_ends(name@);
        assert(head(name@, 0) =~= Seq::empty());
    }
    while i < n
        invariant
            n == width(name@),
            i <= n,
            boundary(name@, i as int),
            forall|k: int|
                0 <= k < head(name@, i as int).len() ==> name_char(
                    #[trigger] head(name@, i as int)[k],
                ),
        decreases n - i,
    {
        let c = char_at(name, i);
        proof {
            lemma_split(name@, i as int);
            lemma_head_next(name@, i as int);
            assert(name@[head(name@, i as int).len() as int] == c);
        }
        if !(('a' <= c && c <= 'z') || ('A' <= c && c <= 'Z') || ('0' <= c && c <= '9') || c == '-'
            || c == '_' || c == '.') {
            return false;
        }
        i = i + char_len(c);
    }
    proof {
        lemma_split(name@, n as int);
        lemma_ends(name@);
        assert(head(name@, n as int) =~= name@);
    }
    !name.is_empty()
}

/// Joins what a program wrote to its two streams.
pub fn combine_streams(stdout: &str, stderr: &str) -> (r: String)
    ensures
        r@ == combined(stdout@, stderr@),
{
    let a = trim_end(stdout);
    let b = trim_end(stderr);
    if a.is_empty() {
        b.to_string()
    } else if b.is_empty() {
        a.to_string()
    } else {
        a.to_string().concat("\n").concat(b)
    }
}

/// `s` as an R string with its quotes.
fn write_r_string(s: &str) -> (r: String)
    ensures
        r@ == r_string(s@),
{
    "\"".to_string().concat(escape_r_string(s).as_str()).concat("\"")
}

/// The R script that runs `chunk` and puts its plots into the file `plot_path`.
pub fn build_r_wrapper_script(chunk: &Chunk, plot_path: &str) -> (r: String)
    ensures
        r@ == script(chunk@.code, plot_path@),
{
    "options(device = function(...) grDevices::png(filename = ".to_string().concat(
        write_r_string(plot_path).as_str(),
    ).concat(", width = 7, height = 5, units = \"in\", res = 600 ))\n.code <- ").concat(
        write_r_string(chunk.code.as_str()).as_str(),
    ).concat(
        "\n\ntryCatch({\n  .exprs <- parse(text = .code)\n  for (.expr in .exprs) {\n    .value <- withVisible(eval(.expr, envir = .GlobalEnv))\n    if (.value$visible) print(.value$value)\n  }\n  if (grDevices::dev.cur() != 1) grDevices::dev.off()\n}, error = function(e) {\n  if (grDevices::dev.cur() != 1) grDevices::dev.off()\n  message(\"ERROR: \", conditionMessage(e))\n  quit(status = 1)\n})\n",
    )
}

/// The name of the file that holds the script of `chunk`.
pub fn script_file_name(chunk: &Chunk) -> (r: String)
    ensures
        r@ == script_file(chunk@.name),
{
    "chunk_".to_string().concat(chunk.name.as_str()).concat(".R")
}

/// The name of the file that holds the plot of `chunk`.
pub fn plot_file_name(chunk: &Chunk) -> (r: String)
    ensures
        r@ == plot_file(chunk@.name),
{
    chunk.name.clone().concat(".png")
}

/// What a finished run of `chunk` gave.
pub fn finished_output(
    chunk: &Chunk,
    plot_size: Option<u64>,
    success: bool,
    stdout: &str,
    stderr: &str,
) -> (output: ChunkOutput)
    ensures
        output@ == finished(chunk@.name, plot_size, success, stdout@, stderr@),
{
    let plotted: bool = match plot_size {
        Some(size) => size > 0,
        None => false,
    };
    if plotted {
        ChunkOutput::Plot { rel_path: "fig/".to_string().concat(plot_file_name(chunk).as_str()) }
    } else if success {
        ChunkOutput::Text { content: combine_streams(stdout, stderr) }
    } else {
        ChunkOutput::Error { message: combine_streams(stdout, stderr) }
    }
}

/// What running the script of `chunk` gave.
pub fn run_chunk(chunk: &Chunk, run: &ScriptRun) -> (output: ChunkOutput)
    ensures
        output@ == run_output(chunk@, *run),
        (*run matches ScriptRun::Finished { plot_size, success, stdout, stderr } ==> valid_utf8(
            stdout@,
        ) ==> valid_utf8(stderr@) ==> output@ == finished(
            chunk@.name,
            plot_size,
            success,
            decode_utf8(stdout@),
            decode_utf8(stderr@),
        )),
{
    match run {
        ScriptRun::NotWritten { script_path, error } => ChunkOutput::Error {
            message: "failed to write R script ".to_string().concat(script_path.as_str()).concat(
                ": ",
            ).concat(error.as_str()),
        },
        ScriptRun::NotStarted { error } => ChunkOutput::Error {
            message: "failed to run Rscript: ".to_string().concat(error.as_str()),
        },
        ScriptRun::Finished { plot_size, success, stdout, stderr } => finished_output(
            chunk,
            *plot_size,
            *success,
            lossy_form(stdout.as_slice()).as_str(),
            lossy_form(stderr.as_slice()).as_str(),
        ),
    }
}

} // verus!

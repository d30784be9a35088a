//! The document with the results of its chunks in place of the calls that ask
//! for them.
use crate::chunk::{ChunkOutput, ChunkResult, ChunkResults, OutputView, ResultView};
use crate::directive::{codekey_at, lemma_codekey_at, parse_codekey_at};
use crate::escape::{escape_typst_string, escape_typst_text, escaped, Style};

use crate::scan::{find, find_from, lemma_find, lemma_widths};
use crate::text::{
    between, boundary, byte_len, lemma_boundary_range, lemma_ends, lemma_tail_tail, piece, rest_of,
    tail, width,
};
use crate::whitespace::{blank, is_blank};
use vstd::prelude::*;
use vstd::string::*;

verus! {

/// A figure with its caption.
pub open spec fn figure(rel_path: Seq<char>, caption: Seq<char>) -> Seq<char> {
    "#figure(\n  image(\""@ + escaped(Style::TypstString, rel_path) + "\"),\n  caption: ["@
        + escaped(Style::TypstText, caption) + "],\n)"@
}

/// Printed text.
pub open spec fn text_block(content: Seq<char>) -> Seq<char> {
    "#block[\n"@ + escaped(Style::TypstText, content) + "\n]"@
}

/// The message of a failure in the chunk `name`.
pub open spec fn error_block(name: Seq<char>, message: Seq<char>) -> Seq<char> {
    "#block(fill: red.lighten(80%))[\nR error in chunk \""@ + escaped(Style::TypstText, name)
        + "\":\n"@ + escaped(Style::TypstText, message) + "\n]"@
}

/// The code of a chunk.
pub open spec fn code_block(code: Seq<char>) -> Seq<char> {
    "#block(fill: gray.lighten(90%))[\n```r\n"@ + code + "\n```\n]"@
}

/// What stands for a chunk that the document does not have.
pub open spec fn missing_block(name: Seq<char>) -> Seq<char> {
    "#block(fill: red.lighten(80%))[\nMissing chunk \""@ + escaped(Style::TypstText, name)
        + "\" for #codekey.\n]"@
}

/// What a document shows for the output of the chunk `name`.
pub open spec fn output_block(name: Seq<char>, output: OutputView) -> Seq<char> {
    match output {
        OutputView::Plot { rel_path } => figure(rel_path, name),
        OutputView::Text { content } => if blank(content) {
            "#block[]"@
        } else {
            text_block(content)
        },
        OutputView::Error { message } => error_block(name, message),
    }
}

/// What a document shows for the chunk `name`. A figure has the caption of the
/// chunk, or else its name; anything else follows the code, where the chunk
/// shows it and there is any.
pub open spec fn result_block(name: Seq<char>, result: ResultView) -> Seq<char> {
    let shows_code = result.echo && !blank(result.code);
    match result.output {
        OutputView::Plot { rel_path } => figure(
            rel_path,
            match result.caption {
                Some(caption) => caption,
                None => name,
            },
        ),
        OutputView::Text { content } => if !shows_code {
            output_block(name, result.output)
        } else if blank(content) {
            code_block(result.code)
        } else {
            code_block(result.code) + "\n"@ + text_block(content)
        },
        OutputView::Error { message } => if shows_code {
            code_block(result.code) + "\n"@ + error_block(name, message)
        } else {
            error_block(name, message)
        },
    }
}

/// What stands in place of the call that asks for the chunk `name`.
pub open spec fn replacement(name: Seq<char>, results: Map<Seq<char>, ResultView>) -> Seq<char> {
    if results.contains_key(name) {
        result_block(name, results[name])
    } else {
        missing_block(name)
    }
}

/// The document from byte offset `i` on with its calls replaced; or what is
/// wrong with it.
pub open spec fn rendered_from(
    s: Seq<char>,
    i: int,
    results: Map<Seq<char>, ResultView>,
) -> Result<Seq<char>, Seq<char>>
    recommends
        boundary(s, i),
    decreases width(s) - i,
        when boundary(s, i)
{
    match find(tail(s, i), "#codekey("@) {
        Some(k) => match codekey_at(s, i + k) {
            Ok((name, j)) => {
                proof {
                    lemma_call(s, i);
                    lemma_codekey_at(s, i + k);
                }
                match rendered_from(s, j, results) {
                    Ok(rest) => Ok(between(s, i, i + k) + replacement(name, results) + rest),
                    Err(e) => Err(e),
                }
            },
            Err(e) => Err(e),
        },
        None => Ok(tail(s, i)),
    }
}

/// The document with its calls replaced; or what is wrong with it.
pub open spec fn rendered(s: Seq<char>, results: Map<Seq<char>, ResultView>) -> Result<
    Seq<char>,
    Seq<char>,
> {
    rendered_from(s, 0, results)
}

/// What a rendered document, or a message, stands for.
pub open spec fn rendered_view(r: Result<String, String>) -> Result<Seq<char>, Seq<char>> {
    match r {
        Ok(text) => Ok(text@),
        Err(e) => Err(e@),
    }
}

/// The text in front of a call and the inside of the call start at boundaries.
pub proof fn lemma_call(s: Seq<char>, i: int)
    requires
        boundary(s, i),
    ensures
        match find(tail(s, i), "#codekey("@) {
            Some(k) => 0 <= k && boundary(s, i + k) && boundary(s, i + k + 9) && i + k + 9
                <= width(s),
            None => true,
        },
{
    lemma_widths();
    lemma_find(tail(s, i), "#codekey("@);
    if let Some(k) = find(tail(s, i), "#codekey("@) {
        lemma_boundary_range(tail(s, i), k);
        lemma_tail_tail(s, i, k);
        lemma_tail_tail(s, i, k + 9);
        lemma_boundary_range(s, i + k + 9);
    }
}

/// A figure with its caption.
fn write_figure(rel_path: &str, caption: &str) -> (r: String)
    ensures
        r@ == figure(rel_path@, caption@),
{
    "#figure(\n  image(\"".to_string().concat(escape_typst_string(rel_path).as_str()).concat(
        "\"),\n  caption: [",
    ).concat(escape_typst_text(caption).as_str()).concat("],\n)")
}

/// Printed text.
fn write_text_block(content: &str) -> (r: String)
    ensures
        r@ == text_block(content@),
{
    "#block[\n".to_string().concat(escape_typst_text(content).as_str()).concat("\n]")
}

/// The message of a failure in the chunk `name`.
fn write_error_block(name: &str, message: &str) -> (r: String)
    ensures
        r@ == error_block(name@, message@),
{
    "#block(fill: red.lighten(80%))[\nR error in chunk \"".to_string().concat(
        escape_typst_text(name).as_str(),
    ).concat("\":\n").concat(escape_typst_text(message).as_str()).concat("\n]")
}

/// The code of a chunk.
fn write_code_block(code: &str) -> (r: String)
    ensures
        r@ == code_block(code@),
{
    "#block(fill: gray.lighten(90%))[\n```r\n".to_string().concat(code).concat("\n```\n]")
}

/// What a document shows for the output of the chunk `name`.
pub fn render_chunk_output(name: &str, output: &ChunkOutput) -> (r: String)
    ensures
        r@ == output_block(name@, output@),
{
    match output {
        ChunkOutput::Plot { rel_path } => write_figure(rel_path.as_str(), name),
        ChunkOutput::Text { content } => if is_blank(content.as_str()) {
            "#block[]".to_string()
        } else {
            write_text_block(content.as_str())
        },
        ChunkOutput::Error { message } => write_error_block(name, message.as_str()),
    }
}

/// What a document shows for the chunk `name`.
pub fn render_chunk_result(name: &str, result: &ChunkResult) -> (r: String)
    ensures
        r@ == result_block(name@, result@),
{
    let shows_code: bool = result.echo && !is_blank(result.code.as_str());
    match &result.output {
        ChunkOutput::Plot { rel_path } => match &result.caption {
            Some(caption) => write_figure(rel_path.as_str(), caption.as_str()),
            None => write_figure(rel_path.as_str(), name),
        },
        ChunkOutput::Text { content } => if !shows_code {
            render_chunk_output(name, &result.output)
        } else if is_blank(content.as_str()) {
            write_code_block(result.code.as_str())
        } else {
            write_code_block(result.code.as_str()).concat("\n").concat(
                write_text_block(content.as_str()).as_str(),
            )
        },
        ChunkOutput::Error { message } => if shows_code {
            write_code_block(result.code.as_str()).concat("\n").concat(
                write_error_block(name, message.as_str()).as_str(),
            )
        } else {
            write_error_block(name, message.as_str())
        },
    }
}

/// What stands for a chunk that the document does not have.
pub fn render_missing_output(name: &str) -> (r: String)
    ensures
        r@ == missing_block(name@),
{
    "#block(fill: red.lighten(80%))[\nMissing chunk \"".to_string().concat(
        escape_typst_text(name).as_str(),
    ).concat("\" for #codekey.\n]")
}

/// Replaces each `#codekey(..)` in a document with what the chunk of that name
/// gave.
pub fn render_outputs(doc: &str, results: &ChunkResults) -> (res: Result<String, String>)
    ensures
        rendered_view(res) == rendered(doc@, results@),
{
    let n: usize = byte_len(doc);
    let mut out: String = String::new();
    let mut cursor: usize = 0;
    proof {
        lemma_ends(doc@);
        if let Ok(text) = rendered(doc@, results@) {
            assert(out@ + text =~= text);
        }
    }
    loop
        invariant
            n == width(doc@),
            boundary(doc@, cursor as int),
            rendered(doc@, results@) == (match rendered_from(doc@, cursor as int, results@) {
                Ok(text) => Ok::<Seq<char>, Seq<char>>(out@ + text),
                Err(e) => Err(e),
            }),
        decreases n - cursor,
    {
        let ghost kept = out@;
        let ghost from = cursor as int;
        proof {
            lemma_boundary_range(doc@, cursor as int);
            lemma_call(doc@, cursor as int);
        }
        let start: usize = match find_from(doc, cursor, "#codekey(") {
            Some(start) => start,
            None => {
                out.append(rest_of(doc, cursor));
                return Ok(out);
            },
        };
        out.append(piece(doc, cursor, start));
        proof {
            lemma_codekey_at(doc@, start as int);
        }
        let (name, end) = match parse_codekey_at(doc, start) {
            Ok(call) => call,
            Err(e) => {
                return Err(e);
            },
        };
        let text: String = match results.get(name.as_str()) {
            Some(result) => render_chunk_result(name.as_str(), result),
            None => render_missing_output(name.as_str()),
        };
        out.append(text.as_str());
        cursor = end;
        proof {
            if let Ok(rest) = rendered_from(doc@, cursor as int, results@) {
                assert(out@ + rest =~= kept + (between(doc@, from, start as int) + replacement(
                    name@,
                    results@,
                ) + rest));
            }
        }
    }
}

} // verus!

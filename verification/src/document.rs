//! The chunks of a document, and the document without them.
//!
//! A chunk starts with three backquotes and an `r`, and ends with the next three
//! backquotes behind its options.
use crate::chunk::{chunk_views, text_of, Chunk, ChunkView};
use crate::foreign::{debug_form, debug_text};
use crate::frontmatter::{lemma_options_at, options_at, read_options, FrontView};
use crate::literal::text_and_offset;
use crate::position::{decimal, decimal_text};
use crate::scan::{find, find_from, lemma_find, lemma_widths};
use crate::text::{
    between, boundary, byte_len, lemma_boundary_range, lemma_ends, lemma_tail_tail, piece, rest_of,
    tail, width,
};
use vstd::hash_set::StringHashSet;
use vstd::prelude::*;
use vstd::string::*;

verus! {

/// The message about two chunks with one key, given the key in quotes.
pub open spec fn duplicate_text(quoted: Seq<char>) -> Seq<char> {
    "duplicate chunk key "@ + quoted
}

/// The name of the chunk that follows `n` chunks: its key, or else its number.
pub open spec fn chunk_name(key: Option<Seq<char>>, n: int) -> Seq<char> {
    match key {
        Some(k) => k,
        None => "chunk_"@ + decimal(n),
    }
}

/// Whether one of `chunks` has the key `key`.
pub open spec fn has_key(chunks: Seq<ChunkView>, key: Seq<char>) -> bool {
    exists|m: int| 0 <= m < chunks.len() && #[trigger] chunks[m].key == Some(key)
}

/// The code that starts at byte offset `i`, and the byte offset behind the
/// backquotes that close it; or that nothing closes it.
pub open spec fn code_at(s: Seq<char>, i: int) -> Result<(Seq<char>, int), Seq<char>> {
    match find(tail(s, i), "```"@) {
        Some(k) => Ok((between(s, i, i + k), i + k + 3)),
        None => Err("unclosed fenced code block"@),
    }
}

/// The chunk whose options start at byte offset `i`, and the byte offset behind
/// it, where the chunks before it are `seen`; or what is wrong there.
pub open spec fn chunk_at(s: Seq<char>, i: int, seen: Seq<ChunkView>) -> Result<
    (ChunkView, int),
    Seq<char>,
>
    recommends
        boundary(s, i),
{
    match options_at(s, i, FrontView { key: None, echo: false, caption: None }) {
        Ok((f, start)) => match code_at(s, start) {
            Ok((code, j)) => match f.key {
                Some(key) if has_key(seen, key) => Err(duplicate_text(debug_text(key))),
                _ => Ok(
                    (
                        ChunkView {
                            name: chunk_name(f.key, seen.len() as int),
                            code,
                            key: f.key,
                            echo: f.echo,
                            caption: f.caption,
                        },
                        j,
                    ),
                ),
            },
            Err(e) => Err(e),
        },
        Err(e) => Err(e),
    }
}

/// The document from byte offset `i` on without its chunks, and all chunks, where
/// those before byte offset `i` are `seen`; or what is wrong with the document.
pub open spec fn chunks_from(s: Seq<char>, i: int, seen: Seq<ChunkView>) -> Result<
    (Seq<char>, Seq<ChunkView>),
    Seq<char>,
>
    recommends
        boundary(s, i),
    decreases width(s) - i,
        when boundary(s, i)
{
    match find(tail(s, i), "```r"@) {
        Some(k) => match chunk_at(s, i + k + 4, seen) {
            Ok((chunk, j)) => {
                proof {
                    lemma_fence(s, i);
                    lemma_chunk_at(s, i + k + 4, seen);
                }
                match chunks_from(s, j, seen.push(chunk)) {
                    Ok((text, all)) => Ok((between(s, i, i + k) + text, all)),
                    Err(e) => Err(e),
                }
            },
            Err(e) => Err(e),
        },
        None => Ok((tail(s, i), seen)),
    }
}

/// The document without its chunks, and its chunks; or what is wrong with it.
pub open spec fn parsed(s: Seq<char>) -> Result<(Seq<char>, Seq<ChunkView>), Seq<char>> {
    chunks_from(s, 0, Seq::empty())
}

/// What a parsed document with its chunks, or a message, stands for.
pub open spec fn parsed_view(r: Result<(String, Vec<Chunk>), String>) -> Result<
    (Seq<char>, Seq<ChunkView>),
    Seq<char>,
> {
    match r {
        Ok((text, chunks)) => Ok((text@, chunk_views(chunks@))),
        Err(e) => Err(e@),
    }
}

/// The text in front of a chunk and the options of the chunk start and end at
/// boundaries.
pub proof fn lemma_fence(s: Seq<char>, i: int)
    requires
        boundary(s, i),
    ensures
        match find(tail(s, i), "```r"@) {
            Some(k) => 0 <= k && boundary(s, i + k) && boundary(s, i + k + 4) && i + k + 4
                <= width(s),
            None => true,
        },
{
    lemma_widths();
    lemma_find(tail(s, i), "```r"@);
    if let Some(k) = find(tail(s, i), "```r"@) {
        lemma_boundary_range(tail(s, i), k);
        lemma_tail_tail(s, i, k);
        lemma_tail_tail(s, i, k + 4);
        lemma_boundary_range(s, i + k + 4);
    }
}

/// A chunk ends at a boundary behind its start.
pub proof fn lemma_chunk_at(s: Seq<char>, i: int, seen: Seq<ChunkView>)
    requires
        boundary(s, i),
    ensures
        match chunk_at(s, i, seen) {
            Ok((chunk, j)) => i + 3 <= j <= width(s) && boundary(s, j),
            Err(_) => true,
        },
{
    let start = FrontView { key: None, echo: false, caption: None };
    lemma_options_at(s, i, start);
    if let Ok((f, a)) = options_at(s, i, start) {
        lemma_code_at(s, a);
    }
}

/// Code ends at a boundary behind its start.
pub proof fn lemma_code_at(s: Seq<char>, a: int)
    requires
        boundary(s, a),
    ensures
        match code_at(s, a) {
            Ok((code, j)) => a + 3 <= j <= width(s) && boundary(s, j) && boundary(s, j - 3),
            Err(_) => true,
        },
{
    lemma_widths();
    lemma_find(tail(s, a), "```"@);
    if let Some(k) = find(tail(s, a), "```"@) {
        lemma_boundary_range(tail(s, a), k);
        lemma_tail_tail(s, a, k);
        lemma_tail_tail(s, a, k + 3);
        lemma_boundary_range(s, a + k + 3);
    }
}

/// The message about two chunks with one key, given the key in quotes.
pub fn duplicate_message(quoted: &str) -> (r: String)
    ensures
        r@ == duplicate_text(quoted@),
{
    "duplicate chunk key ".to_string().concat(quoted)
}

/// Reads the code that starts at byte offset `i`.
fn read_code(input: &str, i: usize) -> (res: Result<(String, usize), String>)
    requires
        boundary(input@, i as int),
    ensures
        text_and_offset(res) == code_at(input@, i as int),
{
    proof {
        lemma_widths();
    }
    match find_from(input, i, "```") {
        Some(close) => Ok((piece(input, i, close).to_string(), close + 3)),
        None => Err("unclosed fenced code block".to_string()),
    }
}

/// The name of a chunk with the given key that follows `n` chunks.
fn name_chunk(key: &Option<String>, n: usize) -> (r: String)
    ensures
        r@ == chunk_name(text_of(*key), n as int),
{
    match key {
        Some(k) => k.clone(),
        None => "chunk_".to_string().concat(decimal_text(n as u128).as_str()),
    }
}

/// Reads a document: takes its chunks out of it, and returns what is left and the
/// chunks.
pub fn parse_chunks(input: &str) -> (res: Result<(String, Vec<Chunk>), String>)
    ensures
        parsed_view(res) == parsed(input@),
{
    let n: usize = byte_len(input);
    let mut stripped: String = String::new();
    let mut chunks: Vec<Chunk> = Vec::new();
    let mut used_keys: StringHashSet = StringHashSet::new();
    let mut cursor: usize = 0;
    proof {
        lemma_ends(input@);
        assert(chunk_views(chunks@) =~= Seq::empty());
        if let Ok((text, all)) = parsed(input@) {
            assert(stripped@ + text =~= text);
        }
    }
    loop
        invariant
            n == width(input@),
            boundary(input@, cursor as int),
            forall|key: Seq<char>| #[trigger]
                used_keys@.contains(key) <==> has_key(chunk_views(chunks@), key),
            parsed(input@) == (match chunks_from(
                input@,
                cursor as int,
                chunk_views(chunks@),
            ) {
                Ok((text, all)) => Ok((stripped@ + text, all)),
                Err(e) => Err(e),
            }),
        decreases n - cursor,
    {
        let ghost seen = chunk_views(chunks@);
        let ghost kept = stripped@;
        let ghost from = cursor as int;
        proof {
            lemma_boundary_range(input@, cursor as int);
            lemma_widths();
            lemma_fence(input@, cursor as int);
        }
        let fence: usize = match find_from(input, cursor, "```r") {
            Some(fence) => fence,
            None => {
                stripped.append(rest_of(input, cursor));
                return Ok((stripped, chunks));
            },
        };
        stripped.append(piece(input, cursor, fence));
        proof {
            lemma_options_at(
                input@,
                fence + 4,
                FrontView { key: None, echo: false, caption: None },
            );
            lemma_chunk_at(input@, fence + 4, seen);
        }
        let (front, start) = match read_options(input, fence + 4) {
            Ok(options) => options,
            Err(e) => {
                return Err(e);
            },
        };
        let (code, next) = match read_code(input, start) {
            Ok(code) => code,
            Err(e) => {
                return Err(e);
            },
        };
        let name: String = name_chunk(&front.key, chunks.len());
        if let Some(key) = &front.key {
            if !used_keys.insert(key.clone()) {
                return Err(duplicate_message(debug_form(key.as_str()).as_str()));
            }
        }
        let chunk = Chunk {
            name,
            code,
            key: front.key,
            echo: front.echo,
            caption: front.caption,
        };
        let ghost view = chunk@;
        chunks.push(chunk);
        cursor = next;
        proof {
            assert(chunk_views(chunks@) =~= seen.push(view));
            assert(chunk_at(input@, fence + 4, seen) == Ok::<(ChunkView, int), Seq<char>>(
                (view, next as int),
            ));
            assert forall|key: Seq<char>| #[trigger]
                used_keys@.contains(key) <==> has_key(seen.push(view), key) by {
                if has_key(seen, key) {
                    let m = choose|m: int|
                        0 <= m < seen.len() && #[trigger] seen[m].key == Some(key);
                    assert(seen.push(view)[m].key == Some(key));
                }
                if view.key == Some(key) {
                    assert(seen.push(view)[seen.len() as int].key == Some(key));
                }
            }
            if let Ok((text, all)) = chunks_from(input@, cursor as int, seen.push(view)) {
                assert(stripped@ + text =~= kept + (between(input@, from, fence as int) + text));
            }
        }
    }
}

} // verus!

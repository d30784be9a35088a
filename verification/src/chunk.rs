//! Chunks of R code, what comes of running them, and what of both a document
//! shows.
use vstd::hash_map::StringHashMap;
use vstd::prelude::*;

verus! {

/// A chunk of R code in a document.
#[derive(Debug)]
pub struct Chunk {
    /// The name that the chunk's files go by.
    pub name: String,
    /// The R code.
    pub code: String,
    /// The key that the document gives the chunk.
    pub key: Option<String>,
    /// Whether the document shows the code.
    pub echo: bool,
    /// The caption of the chunk's figure.
    pub caption: Option<String>,
}

/// What running a chunk gave.
#[derive(Debug)]
pub enum ChunkOutput {
    /// A figure, by its path below the build directory.
    Plot { rel_path: String },
    /// Printed text.
    Text { content: String },
    /// The message of a failure.
    Error { message: String },
}

/// What running a chunk gave, with what of the chunk itself a document shows.
#[derive(Debug)]
pub struct ChunkResult {
    /// What running the chunk gave.
    pub output: ChunkOutput,
    /// Whether the document shows the code.
    pub echo: bool,
    /// The caption of the chunk's figure.
    pub caption: Option<String>,
    /// The R code.
    pub code: String,
}

/// The value of a `Chunk`.
#[verifier::ext_equal]
pub struct ChunkView {
    pub name: Seq<char>,
    pub code: Seq<char>,
    pub key: Option<Seq<char>>,
    pub echo: bool,
    pub caption: Option<Seq<char>>,
}

/// The value of a `ChunkOutput`.
#[verifier::ext_equal]
pub enum OutputView {
    Plot { rel_path: Seq<char> },
    Text { content: Seq<char> },
    Error { message: Seq<char> },
}

/// The value of a `ChunkResult`.
#[verifier::ext_equal]
pub struct ResultView {
    pub output: OutputView,
    pub echo: bool,
    pub caption: Option<Seq<char>>,
    pub code: Seq<char>,
}

/// The value of a text that may be absent.
pub open spec fn text_of(o: Option<String>) -> Option<Seq<char>> {
    match o {
        Some(t) => Some(t@),
        None => None,
    }
}

/// The values of a list of chunks.
pub open spec fn chunk_views(chunks: Seq<Chunk>) -> Seq<ChunkView> {
    chunks.map_values(|c: Chunk| c@)
}

impl View for Chunk {
    type V = ChunkView;

    open spec fn view(&self) -> ChunkView {
        ChunkView {
            name: self.name@,
            code: self.code@,
            key: text_of(self.key),
            echo: self.echo,
            caption: text_of(self.caption),
        }
    }
}

impl View for ChunkOutput {
    type V = OutputView;

    open spec fn view(&self) -> OutputView {
        match *self {
            ChunkOutput::Plot { rel_path } => OutputView::Plot { rel_path: rel_path@ },
            ChunkOutput::Text { content } => OutputView::Text { content: content@ },
            ChunkOutput::Error { message } => OutputView::Error { message: message@ },
        }
    }
}

impl View for ChunkResult {
    type V = ResultView;

    open spec fn view(&self) -> ResultView {
        ResultView {
            output: self.output@,
            echo: self.echo,
            caption: text_of(self.caption),
            code: self.code@,
        }
    }
}

/// The name under which a document refers to a chunk: its key, or else its name.
pub open spec fn output_key(chunk: ChunkView) -> Seq<char> {
    match chunk.key {
        Some(k) => k,
        None => chunk.name,
    }
}

/// What a document shows of a chunk that gave `output`.
pub open spec fn result_of(chunk: ChunkView, output: OutputView) -> ResultView {
    ResultView { output, echo: chunk.echo, caption: chunk.caption, code: chunk.code }
}

/// The results of as many of `chunks` as there are `outputs`, each under its
/// output key. Of two chunks with one output key the later counts.
pub open spec fn results_of(chunks: Seq<ChunkView>, outputs: Seq<OutputView>) -> Map<
    Seq<char>,
    ResultView,
>
    recommends
        outputs.len() <= chunks.len(),
    decreases outputs.len(),
{
    if outputs.len() == 0 {
        Map::empty()
    } else {
        let last = chunks[outputs.len() - 1];
        results_of(chunks, outputs.drop_last()).insert(
            output_key(last),
            result_of(last, outputs.last()),
        )
    }
}

/// The results of chunks by output key.
pub struct ChunkResults {
    entries: StringHashMap<ChunkResult>,
}

impl View for ChunkResults {
    type V = Map<Seq<char>, ResultView>;

    closed spec fn view(&self) -> Map<Seq<char>, ResultView> {
        self.entries@.map_values(|r: ChunkResult| r@)
    }
}

impl ChunkResults {
    /// No results.
    pub fn new() -> (results: Self)
        ensures
            results@ == Map::<Seq<char>, ResultView>::empty(),
    {
        let results = ChunkResults { entries: StringHashMap::new() };
        proof {
            assert(results@ =~= Map::empty());
        }
        results
    }

    /// Puts `result` under `key`, in place of what stands there.
    pub fn insert(&mut self, key: String, result: ChunkResult)
        ensures
            final(self)@ == old(self)@.insert(key@, result@),
    {
        self.entries.insert(key, result);
        proof {
            assert(self@ =~= old(self)@.insert(key@, result@));
        }
    }

    /// Puts what running `chunk` gave under the output key of the chunk.
    pub fn record(&mut self, chunk: &Chunk, output: ChunkOutput)
        ensures
            final(self)@ == old(self)@.insert(output_key(chunk@), result_of(chunk@, output@)),
    {
        let key: String = match &chunk.key {
            Some(key) => key.clone(),
            None => chunk.name.clone(),
        };
        self.insert(
            key,
            ChunkResult {
                output,
                echo: chunk.echo,
                caption: copy_text(&chunk.caption),
                code: chunk.code.clone(),
            },
        );
    }

    /// The result under `key`.
    pub fn get(&self, key: &str) -> (result: Option<&ChunkResult>)
        ensures
            match result {
                Some(r) => self@.contains_key(key@) && self@[key@] == r@,
                None => !self@.contains_key(key@),
            },
    {
        self.entries.get(key)
    }
}

impl Clone for Chunk {
    fn clone(&self) -> (r: Self)
        ensures
            r@ == self@,
    {
        Chunk {
            name: self.name.clone(),
            code: self.code.clone(),
            key: copy_text(&self.key),
            echo: self.echo,
            caption: copy_text(&self.caption),
        }
    }
}

impl Clone for ChunkOutput {
    fn clone(&self) -> (r: Self)
        ensures
            r@ == self@,
    {
        match self {
            ChunkOutput::Plot { rel_path } => ChunkOutput::Plot { rel_path: rel_path.clone() },
            ChunkOutput::Text { content } => ChunkOutput::Text { content: content.clone() },
            ChunkOutput::Error { message } => ChunkOutput::Error { message: message.clone() },
        }
    }
}

impl Clone for ChunkResult {
    fn clone(&self) -> (r: Self)
        ensures
            r@ == self@,
    {
        ChunkResult {
            output: self.output.clone(),
            echo: self.echo,
            caption: copy_text(&self.caption),
            code: self.code.clone(),
        }
    }
}

/// A copy of a text that may be absent.
fn copy_text(o: &Option<String>) -> (r: Option<String>)
    ensures
        text_of(r) == text_of(*o),
{
    match o {
        Some(t) => Some(t.clone()),
        None => None,
    }
}

} // verus!

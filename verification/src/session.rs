//! A session with the program: which way it runs, how one run over a document
//! goes on, and how watching the document goes on.
use crate::chunk::{
    chunk_views, results_of, Chunk, ChunkOutput, ChunkResults, ChunkView, OutputView,
};
use crate::document::{parse_chunks, parsed};
use crate::render::{render_outputs, rendered, rendered_view};
use vstd::prelude::*;
use vstd::string::*;

verus! {

/// The message about something that could not be done to a file.
pub open spec fn failed(action: Seq<char>, path: Seq<char>, error: Seq<char>) -> Seq<char> {
    "failed to "@ + action + " "@ + path + ": "@ + error
}

/// The message about something that could not be done to a file.
pub fn failure(action: &str, path: &str, error: &str) -> (r: String)
    ensures
        r@ == failed(action@, path@, error@),
{
    "failed to ".to_string().concat(action).concat(" ").concat(path).concat(": ").concat(error)
}

/// The message about a file that could not be renamed.
pub open spec fn not_renamed(from: Seq<char>, to: Seq<char>, error: Seq<char>) -> Seq<char> {
    "failed to rename "@ + from + " -> "@ + to + ": "@ + error
}

/// The message about a file that could not be renamed.
pub fn rename_failure(from: &str, to: &str, error: &str) -> (r: String)
    ensures
        r@ == not_renamed(from@, to@, error@),
{
    "failed to rename ".to_string().concat(from).concat(" -> ").concat(to).concat(": ").concat(
        error,
    )
}

/// The message about a document that stands in no directory.
pub fn no_source_directory(path: &str) -> (r: String)
    ensures
        r@ == "cannot derive parent directory for "@ + path@,
{
    "cannot derive parent directory for ".to_string().concat(path)
}

/// The message about a result that stands in no directory.
pub fn no_target_directory(path: &str) -> (r: String)
    ensures
        r@ == "no parent directory for "@ + path@,
{
    "no parent directory for ".to_string().concat(path)
}

/// The message that the program reports an error with.
pub open spec fn reported(error: Seq<char>) -> Seq<char> {
    "typst-run: "@ + error
}

/// The message that the program reports an error with.
pub fn report(error: &str) -> (r: String)
    ensures
        r@ == reported(error@),
{
    "typst-run: ".to_string().concat(error)
}

/// How the program runs.
#[derive(Debug, Clone, Copy, PartialEq, Eq, Structural)]
pub enum Mode {
    /// Over the document once.
    Once,
    /// Over the document now and after each change.
    Watch,
}

/// How the program runs over the document at `source`, given whether the document
/// is to be watched; or why there is no such path.
pub fn run<P>(source: Result<P, String>, watch: bool) -> (res: Result<(Mode, P), String>)
    ensures
        match source {
            Ok(path) => res == Ok::<(Mode, P), String>(
                (
                    if watch {
                        Mode::Watch
                    } else {
                        Mode::Once
                    },
                    path,
                ),
            ),
            Err(e) => res == Err::<(Mode, P), String>(e),
        },
{
    match source {
        Ok(path) => Ok(
            (
                if watch {
                    Mode::Watch
                } else {
                    Mode::Once
                },
                path,
            ),
        ),
        Err(e) => Err(e),
    }
}

/// One run over a document: what is left of the document without its chunks, the
/// chunks, and what those run so far gave.
pub struct Job {
    doc: String,
    chunks: Vec<Chunk>,
    done: usize,
    results: ChunkResults,
    outputs: Ghost<Seq<OutputView>>,
}

/// The value of a `Job`.
#[verifier::ext_equal]
pub struct JobView {
    pub doc: Seq<char>,
    pub chunks: Seq<ChunkView>,
    pub outputs: Seq<OutputView>,
}

impl View for Job {
    type V = JobView;

    closed spec fn view(&self) -> JobView {
        JobView { doc: self.doc@, chunks: chunk_views(self.chunks@), outputs: self.outputs@ }
    }
}

impl Job {
    /// The results are those of the chunks run so far.
    pub closed spec fn wf(&self) -> bool {
        &&& self.done == self@.outputs.len()
        &&& self.done <= self@.chunks.len()
        &&& self.results@ == results_of(self@.chunks, self@.outputs)
    }

    /// Starts a run over the document `source`.
    pub fn start(source: &str) -> (res: Result<Job, String>)
        ensures
            match parsed(source@) {
                Ok((doc, chunks)) => {
                    &&& res matches Ok(job)
                    &&& job.wf()
                    &&& job@ == JobView { doc, chunks, outputs: Seq::empty() }
                },
                Err(e) => res matches Err(message) && message@ == e,
            },
    {
        match parse_chunks(source) {
            Ok((doc, chunks)) => Ok(
                Job {
                    doc,
                    chunks,
                    done: 0,
                    results: ChunkResults::new(),
                    outputs: Ghost(Seq::empty()),
                },
            ),
            Err(e) => Err(e),
        }
    }

    /// The chunk to run next.
    pub fn next_chunk(&self) -> (res: Option<&Chunk>)
        requires
            self.wf(),
        ensures
            match res {
                Some(chunk) => self@.outputs.len() < self@.chunks.len() && chunk@
                    == self@.chunks[self@.outputs.len() as int],
                None => self@.outputs.len() == self@.chunks.len(),
            },
    {
        if self.done < self.chunks.len() {
            Some(&self.chunks[self.done])
        } else {
            None
        }
    }

    /// Takes down what the chunk to run next gave.
    pub fn record(&mut self, output: ChunkOutput)
        requires
            old(self).wf(),
            old(self)@.outputs.len() < old(self)@.chunks.len(),
        ensures
            final(self).wf(),
            final(self)@ == (JobView { outputs: old(self)@.outputs.push(output@), ..old(self)@ }),
    {
        let ghost view = output@;
        proof {
            assert(self.done < self.chunks.len());
        }
        self.results.record(&self.chunks[self.done], output);
        self.done = self.done + 1;
        self.outputs = Ghost(self.outputs@.push(view));
        proof {
            assert(self@.outputs.drop_last() =~= old(self)@.outputs);
        }
    }

    /// The document with what the chunks run so far gave in place of the calls
    /// that ask for it.
    pub fn finish(&self) -> (res: Result<String, String>)
        requires
            self.wf(),
        ensures
            rendered_view(res) == rendered(self@.doc, results_of(self@.chunks, self@.outputs)),
    {
        render_outputs(self.doc.as_str(), &self.results)
    }
}

/// What changed about a watched file.
#[derive(Debug, Clone, Copy, PartialEq, Eq, Structural)]
pub enum ChangeKind {
    /// The file changed, and changes no more.
    Settled,
    /// The file is still changing.
    Continuing,
}

/// How far watching a document has come.
#[derive(Debug, Clone, Copy, PartialEq, Eq, Structural)]
pub enum WatchState {
    /// The watcher is being made.
    Creating,
    /// The document is being put under watch.
    Registering,
    /// The first run over the document is on.
    FirstRun,
    /// Nothing is on.
    Waiting,
    /// A later run over the document is on.
    Rerun,
}

/// What happens while a document is watched.
pub enum WatchEvent {
    /// What was on is done, or failed with this error.
    Done(Result<(), String>),
    /// The watcher saw these changes.
    Changed(Vec<ChangeKind>),
    /// The watcher failed with this error.
    WatchFailed(String),
    /// The watcher is gone.
    Closed,
}

/// What is to be done next while a document is watched.
pub enum WatchAction {
    /// Put the document under watch.
    Register,
    /// Print the notice, if there is one, and run over the document.
    Process { notice: Option<String> },
    /// Wait for the watcher.
    Wait,
    /// Print the line among the errors, and wait for the watcher.
    Report(String),
    /// End with this result.
    Finish(Result<(), String>),
}

/// The value of a `WatchAction`.
pub enum ActionView {
    Register,
    Process { notice: Option<Seq<char>> },
    Wait,
    Report(Seq<char>),
    Finish(Result<(), Seq<char>>),
}

impl View for WatchAction {
    type V = ActionView;

    open spec fn view(&self) -> ActionView {
        match *self {
            WatchAction::Register => ActionView::Register,
            WatchAction::Process { notice } => ActionView::Process {
                notice: crate::chunk::text_of(notice),
            },
            WatchAction::Wait => ActionView::Wait,
            WatchAction::Report(line) => ActionView::Report(line@),
            WatchAction::Finish(Ok(_)) => ActionView::Finish(Ok(())),
            WatchAction::Finish(Err(e)) => ActionView::Finish(Err(e@)),
        }
    }
}

/// Whether `event` can happen in `state`: something that is on ends, or the
/// watcher that is waited for speaks.
pub open spec fn fits(state: WatchState, event: WatchEvent) -> bool {
    (event is Done) == (state != WatchState::Waiting)
}

/// The state behind `event`, and what is to be done in it.
pub open spec fn watch_step(path: Seq<char>, state: WatchState, event: WatchEvent) -> (
    WatchState,
    ActionView,
) {
    match (state, event) {
        (WatchState::Creating, WatchEvent::Done(Ok(_))) => (
            WatchState::Registering,
            ActionView::Register,
        ),
        (WatchState::Creating, WatchEvent::Done(Err(e))) => (
            state,
            ActionView::Finish(Err("failed to create watcher: "@ + e@)),
        ),
        (WatchState::Registering, WatchEvent::Done(Ok(_))) => (
            WatchState::FirstRun,
            ActionView::Process { notice: None },
        ),
        (WatchState::Registering, WatchEvent::Done(Err(e))) => (
            state,
            ActionView::Finish(Err(failed("watch"@, path, e@))),
        ),
        (WatchState::FirstRun, WatchEvent::Done(Ok(_))) => (WatchState::Waiting, ActionView::Wait),
        (WatchState::FirstRun, WatchEvent::Done(Err(e))) => (
            state,
            ActionView::Finish(Err(e@)),
        ),
        (WatchState::Rerun, WatchEvent::Done(Ok(_))) => (WatchState::Waiting, ActionView::Wait),
        (WatchState::Rerun, WatchEvent::Done(Err(e))) => (
            WatchState::Waiting,
            ActionView::Report(reported(e@)),
        ),
        (_, WatchEvent::Changed(kinds)) => if kinds@.contains(ChangeKind::Settled) {
            (
                WatchState::Rerun,
                ActionView::Process {
                    notice: Some("\n--- File changed, re-processing ---"@),
                },
            )
        } else {
            (WatchState::Waiting, ActionView::Wait)
        },
        (_, WatchEvent::WatchFailed(e)) => (
            WatchState::Waiting,
            ActionView::Report("Watch error: "@ + e@),
        ),
        (_, _) => (state, ActionView::Finish(Ok(()))),
    }
}

/// The message about a watcher that could not be made.
fn watcher_failure(error: &str) -> (r: String)
    ensures
        r@ == "failed to create watcher: "@ + error@,
{
    "failed to create watcher: ".to_string().concat(error)
}

/// Whether a change is among `kinds` after which the file changes no more.
fn any_settled(kinds: &Vec<ChangeKind>) -> (b: bool)
    ensures
        b == kinds@.contains(ChangeKind::Settled),
{
    let mut k: usize = 0;
    while k < kinds.len()
        invariant
            k <= kinds.len(),
            forall|m: int| 0 <= m < k ==> kinds@[m] != ChangeKind::Settled,
        decreases kinds.len() - k,
    {
        if kinds[k] == ChangeKind::Settled {
            return true;
        }
        k = k + 1;
    }
    false
}

/// Goes on with watching the document at `path`: from the state and what happened
/// in it to the next state and what is to be done.
pub fn run_watch(path: &str, state: WatchState, event: &WatchEvent) -> (res: (
    WatchState,
    WatchAction,
))
    requires
        fits(state, *event),
    ensures
        (res.0, res.1@) == watch_step(path@, state, *event),
{
    match event {
        WatchEvent::Done(Ok(_)) => match state {
            WatchState::Creating => (WatchState::Registering, WatchAction::Register),
            WatchState::Registering => (
                WatchState::FirstRun,
                WatchAction::Process { notice: None },
            ),
            _ => (WatchState::Waiting, WatchAction::Wait),
        },
        WatchEvent::Done(Err(e)) => match state {
            WatchState::Creating => (
                state,
                WatchAction::Finish(Err(watcher_failure(e.as_str()))),
            ),
            WatchState::Registering => (
                state,
                WatchAction::Finish(Err(failure("watch", path, e.as_str()))),
            ),
            WatchState::FirstRun => (state, WatchAction::Finish(Err(e.clone()))),
            _ => (WatchState::Waiting, WatchAction::Report(report(e.as_str()))),
        },
        WatchEvent::Changed(kinds) => if any_settled(kinds) {
            (
                WatchState::Rerun,
                WatchAction::Process {
                    notice: Some("\n--- File changed, re-processing ---".to_string()),
                },
            )
        } else {
            (WatchState::Waiting, WatchAction::Wait)
        },
        WatchEvent::WatchFailed(e) => (
            WatchState::Waiting,
            WatchAction::Report("Watch error: ".to_string().concat(e.as_str())),
        ),
        WatchEvent::Closed => (state, WatchAction::Finish(Ok(()))),
    }
}

/// Once the first run is over, nothing but the end of the watcher ends the
/// session, and it ends well: what goes wrong later is reported, and the session
/// goes on.
pub proof fn lemma_session_goes_on(path: Seq<char>, state: WatchState, event: WatchEvent)
    requires
        state == WatchState::Waiting || state == WatchState::Rerun,
        fits(state, event),
    ensures
        ({
            let (next, action) = watch_step(path, state, event);
            &&& action is Finish <==> event is Closed
            &&& action is Finish ==> action == ActionView::Finish(Ok(()))
            &&& action !is Finish ==> next == WatchState::Waiting || next == WatchState::Rerun
        }),
{
}

/// A run over the document is started when the watch is set up, and after that
/// exactly when a change settled.
pub proof fn lemma_when_a_run_starts(path: Seq<char>, state: WatchState, event: WatchEvent)
    requires
        fits(state, event),
    ensures
        watch_step(path, state, event).1 is Process <==> ({
            ||| state == WatchState::Registering && event->Done_0 is Ok
            ||| event is Changed && event->Changed_0@.contains(ChangeKind::Settled)
        }),
{
}

} // verus!

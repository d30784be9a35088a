use typst_run::chunk::ChunkOutput;
use typst_run::session::{
    failure, no_source_directory, no_target_directory, rename_failure, report, run, run_watch,
    ChangeKind, Job, Mode, WatchAction, WatchEvent, WatchState,
};

fn text(content: &str) -> ChunkOutput {
    ChunkOutput::Text { content: content.to_string() }
}

fn shown(action: WatchAction) -> String {
    match action {
        WatchAction::Register => "register".to_string(),
        WatchAction::Process { notice } => format!("process {notice:?}"),
        WatchAction::Wait => "wait".to_string(),
        WatchAction::Report(line) => format!("report {line}"),
        WatchAction::Finish(result) => format!("finish {result:?}"),
    }
}

fn step(state: WatchState, event: WatchEvent) -> (WatchState, String) {
    let (next, action) = run_watch("d.typ", state, &event);
    (next, shown(action))
}

#[test]
fn the_program_runs_once_or_watches() {
    assert_eq!(run(Ok("p"), true), Ok((Mode::Watch, "p")));
    assert_eq!(run(Ok("p"), false), Ok((Mode::Once, "p")));
    assert_eq!(run::<&str>(Err("e".to_string()), true), Err("e".to_string()));
}

#[test]
fn failures_are_worded() {
    assert_eq!(failure("read", "a.typ", "gone"), "failed to read a.typ: gone");
    assert_eq!(rename_failure("a", "b", "e"), "failed to rename a -> b: e");
    assert_eq!(no_source_directory("/"), "cannot derive parent directory for /");
    assert_eq!(no_target_directory("/"), "no parent directory for /");
    assert_eq!(report("e"), "typst-run: e");
}

#[test]
fn a_run_fills_in_what_the_chunks_gave() {
    let source = "A #codekey(k)\n```r\n#| key: k\n#| echo: true\n1+1\n```\n#codekey(chunk_1) ```r 2```#codekey(z)";
    let mut job = Job::start(source).ok().unwrap();
    assert_eq!(job.next_chunk().unwrap().code, "1+1\n");
    job.record(text("[1] 2"));
    assert_eq!(job.next_chunk().unwrap().name, "chunk_1");
    job.record(text(""));
    assert!(job.next_chunk().is_none());
    assert_eq!(
        job.finish(),
        Ok("A #block(fill: gray.lighten(90%))[\n```r\n1+1\n\n```\n]\n#block[\n\\[1\\] 2\n]\n\n#block[] #block(fill: red.lighten(80%))[\nMissing chunk \"z\" for #codekey.\n]".to_string())
    );
}

#[test]
fn a_bad_document_starts_no_run() {
    assert_eq!(
        Job::start("```r\nx").err(),
        Some("unclosed fenced code block".to_string())
    );
    let job = Job::start("#codekey(\"é").ok().unwrap();
    assert_eq!(
        job.finish(),
        Err("unterminated string literal at line 1, col 12".to_string())
    );
}

#[test]
fn a_watch_is_set_up() {
    assert_eq!(
        step(WatchState::Creating, WatchEvent::Done(Ok(()))),
        (WatchState::Registering, "register".to_string())
    );
    assert_eq!(
        step(WatchState::Registering, WatchEvent::Done(Ok(()))),
        (WatchState::FirstRun, "process None".to_string())
    );
    assert_eq!(
        step(WatchState::FirstRun, WatchEvent::Done(Ok(()))),
        (WatchState::Waiting, "wait".to_string())
    );
}

#[test]
fn a_watch_that_cannot_be_set_up_ends() {
    let failed = || WatchEvent::Done(Err("e".to_string()));
    assert_eq!(
        step(WatchState::Creating, failed()).1,
        "finish Err(\"failed to create watcher: e\")"
    );
    assert_eq!(
        step(WatchState::Registering, failed()).1,
        "finish Err(\"failed to watch d.typ: e\")"
    );
    assert_eq!(step(WatchState::FirstRun, failed()).1, "finish Err(\"e\")");
}

#[test]
fn changes_that_settled_start_a_run() {
    let changed = |kinds: Vec<ChangeKind>| step(WatchState::Waiting, WatchEvent::Changed(kinds));
    assert_eq!(
        changed(vec![ChangeKind::Continuing, ChangeKind::Settled]),
        (
            WatchState::Rerun,
            "process Some(\"\\n--- File changed, re-processing ---\")".to_string()
        )
    );
    assert_eq!(
        changed(vec![ChangeKind::Continuing]),
        (WatchState::Waiting, "wait".to_string())
    );
    assert_eq!(changed(vec![]), (WatchState::Waiting, "wait".to_string()));
}

#[test]
fn a_session_goes_on_until_the_watcher_is_gone() {
    assert_eq!(
        step(WatchState::Rerun, WatchEvent::Done(Err("e".to_string()))),
        (WatchState::Waiting, "report typst-run: e".to_string())
    );
    assert_eq!(
        step(WatchState::Rerun, WatchEvent::Done(Ok(()))),
        (WatchState::Waiting, "wait".to_string())
    );
    assert_eq!(
        step(WatchState::Waiting, WatchEvent::WatchFailed("w".to_string())),
        (WatchState::Waiting, "report Watch error: w".to_string())
    );
    assert_eq!(step(WatchState::Waiting, WatchEvent::Closed).1, "finish Ok(())");
}

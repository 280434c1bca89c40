use subpub::checkpoint::{
    checkpoint_first, checkpoint_next, commit_message, git_checkpoint, git_checkpoint_revert,
    revert_first, revert_next, with_git_checkpoint, CheckpointNext, CheckpointPhase, RevertNext,
    RevertPhase, Stage, GCKP,
};
use subpub::journal::CheckpointLog;
use subpub::pipeline::{mark_processed, split_work, sync_targets, Event, Phase, Pipeline};

fn list(names: &[&str]) -> Vec<String> {
    names.iter().map(|n| n.to_string()).collect()
}

#[test]
fn markers_are_the_commit_messages() {
    assert_eq!(commit_message(GCKP::Save), "[subpub] CHECKPOINT_SAVE");
    assert_eq!(commit_message(GCKP::RevertLater), "[subpub] CHECKPOINT_REVERT");
}

#[test]
fn clean_tree_needs_no_commit() {
    assert_eq!(checkpoint_first(), CheckpointPhase::Status);
    assert_eq!(git_checkpoint(CheckpointPhase::Status, true, &String::new()), CheckpointNext::Done);
    assert_eq!(
        git_checkpoint(CheckpointPhase::Status, true, &"  \n".to_string()),
        CheckpointNext::Done
    );
}

#[test]
fn dirty_tree_is_staged_and_committed() {
    assert_eq!(
        git_checkpoint(CheckpointPhase::Status, true, &" M src/lib.rs\n".to_string()),
        CheckpointNext::Run(CheckpointPhase::Add)
    );
    assert_eq!(
        git_checkpoint(CheckpointPhase::Add, true, &String::new()),
        CheckpointNext::Run(CheckpointPhase::Commit)
    );
    assert_eq!(git_checkpoint(CheckpointPhase::Commit, true, &String::new()), CheckpointNext::Done);
    assert_eq!(
        checkpoint_next(CheckpointPhase::Status, true, &"x".to_string()),
        CheckpointNext::Run(CheckpointPhase::Add)
    );
}

#[test]
fn failed_command_ends_the_checkpoint() {
    assert_eq!(
        git_checkpoint(CheckpointPhase::Status, false, &" M a\n".to_string()),
        CheckpointNext::Failed(CheckpointPhase::Status)
    );
    assert_eq!(
        git_checkpoint(CheckpointPhase::Add, false, &String::new()),
        CheckpointNext::Failed(CheckpointPhase::Add)
    );
    assert_eq!(
        git_checkpoint(CheckpointPhase::Commit, false, &String::new()),
        CheckpointNext::Failed(CheckpointPhase::Commit)
    );
}

#[test]
fn revert_undoes_while_the_marker_is_there() {
    assert_eq!(revert_first(), RevertPhase::LastMessage);
    assert_eq!(
        git_checkpoint_revert(
            RevertPhase::LastMessage,
            true,
            &"[subpub] CHECKPOINT_REVERT\n\n".to_string()
        ),
        RevertNext::Run(RevertPhase::Reset)
    );
    assert_eq!(
        git_checkpoint_revert(RevertPhase::Reset, true, &String::new()),
        RevertNext::Run(RevertPhase::LastMessage)
    );
    assert_eq!(
        git_checkpoint_revert(
            RevertPhase::LastMessage,
            true,
            &"[subpub] CHECKPOINT_SAVE\n".to_string()
        ),
        RevertNext::Done
    );
    assert_eq!(
        git_checkpoint_revert(RevertPhase::LastMessage, true, &"fix a typo\n".to_string()),
        RevertNext::Done
    );
    assert_eq!(
        revert_next(RevertPhase::LastMessage, true, &"[subpub] CHECKPOINT_REVERT\n".to_string()),
        RevertNext::Done
    );
}

#[test]
fn failed_command_ends_the_revert() {
    assert_eq!(
        git_checkpoint_revert(
            RevertPhase::LastMessage,
            false,
            &"[subpub] CHECKPOINT_REVERT".to_string()
        ),
        RevertNext::Failed(RevertPhase::LastMessage)
    );
    assert_eq!(
        git_checkpoint_revert(RevertPhase::Reset, false, &String::new()),
        RevertNext::Failed(RevertPhase::Reset)
    );
}

#[test]
fn bracket_saves_first_unless_it_is_a_save() {
    assert_eq!(with_git_checkpoint(GCKP::Save), vec![Stage::Action, Stage::Checkpoint(GCKP::Save)]);
    assert_eq!(
        with_git_checkpoint(GCKP::RevertLater),
        vec![Stage::Checkpoint(GCKP::Save), Stage::Action, Stage::Checkpoint(GCKP::RevertLater)]
    );
}

#[test]
fn checkpoint_of_a_clean_tree_is_a_no_op() {
    let mut log = CheckpointLog::new(7);
    assert!(!log.dirty());
    log.checkpoint(GCKP::Save);
    assert_eq!(log.len(), 0);
    log.change(8);
    assert!(log.dirty());
    log.checkpoint(GCKP::Save);
    assert_eq!(log.len(), 1);
    log.checkpoint(GCKP::Save);
    assert_eq!(log.len(), 1);
    assert_eq!(log.tree(), 8);
}

#[test]
fn revert_after_a_save_changes_nothing() {
    let mut log = CheckpointLog::new(1);
    log.with_checkpoint(GCKP::Save, 2);
    assert_eq!((log.tree(), log.len()), (2, 1));
    log.revert();
    assert_eq!((log.tree(), log.len()), (2, 1));
}

#[test]
fn revert_restores_the_tree_before_the_action() {
    let mut log = CheckpointLog::new(1);
    log.change(5);
    log.with_checkpoint(GCKP::RevertLater, 9);
    assert_eq!((log.tree(), log.len()), (9, 2));
    log.revert();
    assert_eq!((log.tree(), log.len()), (5, 1));
}

#[test]
fn revert_restores_the_tree_when_the_action_changed_nothing() {
    let mut log = CheckpointLog::new(1);
    log.change(5);
    log.with_checkpoint(GCKP::RevertLater, 5);
    assert_eq!((log.tree(), log.len()), (5, 1));
    log.revert();
    assert_eq!((log.tree(), log.len()), (5, 1));
}

#[test]
fn revert_unwinds_a_run_of_speculative_steps() {
    let mut log = CheckpointLog::new(1);
    log.with_checkpoint(GCKP::Save, 2);
    log.with_checkpoint(GCKP::RevertLater, 3);
    log.with_checkpoint(GCKP::RevertLater, 4);
    assert_eq!((log.tree(), log.len()), (4, 3));
    log.change(40);
    log.revert();
    assert_eq!((log.tree(), log.len()), (2, 1));
    log.revert();
    assert_eq!((log.tree(), log.len()), (2, 1));
}

#[test]
fn revert_reaches_the_first_tree() {
    let mut log = CheckpointLog::new(1);
    log.with_checkpoint(GCKP::RevertLater, 3);
    log.revert();
    assert_eq!((log.tree(), log.len()), (1, 0));
}

#[test]
fn dependent_follows_its_base() {
    let mut run = Pipeline::new(list(&["base", "dependent"]), vec![]);
    assert_eq!(run.phase, Phase::Select);
    run.advance(Event::Begin);
    assert_eq!((run.phase, run.current), (Phase::Sync, 0));
    run.advance(Event::Completed);
    assert_eq!(run.phase, Phase::Plan);
    run.advance(Event::WorkSet(list(&["base"])));
    assert_eq!((run.phase, run.at), (Phase::Assess, 0));
    assert_eq!(run.work, list(&["base"]));
    run.advance(Event::NeedsPublishing(true));
    assert_eq!(run.phase, Phase::Publish);
    run.advance(Event::Completed);
    assert_eq!(run.phase, Phase::Propagate);
    run.advance(Event::Completed);
    assert_eq!(run.processed, list(&["base"]));
    assert_eq!((run.phase, run.current), (Phase::Sync, 1));
    run.advance(Event::Completed);
    run.advance(Event::WorkSet(list(&["base", "dependent"])));
    assert_eq!(run.skipped, list(&["base"]));
    assert_eq!(run.work, list(&["dependent"]));
    assert_eq!(run.phase, Phase::Assess);
    run.advance(Event::NeedsPublishing(false));
    assert_eq!(run.phase, Phase::Propagate);
    run.advance(Event::Completed);
    assert_eq!(run.phase, Phase::Finished);
    assert_eq!(run.processed, list(&["base", "dependent"]));
}

#[test]
fn processed_package_is_skipped() {
    let mut run = Pipeline::new(list(&["x", "y"]), list(&["x"]));
    run.advance(Event::Begin);
    assert_eq!((run.phase, run.current), (Phase::Sync, 1));
    run.advance(Event::Completed);
    run.advance(Event::WorkSet(list(&["x", "y"])));
    assert_eq!(run.skipped, list(&["x"]));
    assert_eq!(run.work, list(&["y"]));
    let mut done = Pipeline::new(list(&["x"]), list(&["x"]));
    done.advance(Event::Begin);
    assert_eq!(done.phase, Phase::Finished);
    assert_eq!(done.processed, list(&["x"]));
}

#[test]
fn work_set_of_processed_packages_only_marks_the_selected() {
    let mut run = Pipeline::new(list(&["top"]), list(&["dep"]));
    run.advance(Event::Begin);
    run.advance(Event::Completed);
    run.advance(Event::WorkSet(list(&["dep"])));
    assert_eq!(run.phase, Phase::Finished);
    assert_eq!(run.processed, list(&["dep", "top"]));
}

#[test]
fn empty_work_set_moves_on() {
    let mut run = Pipeline::new(list(&["a", "b"]), vec![]);
    run.advance(Event::Begin);
    run.advance(Event::Completed);
    run.advance(Event::WorkSet(vec![]));
    assert_eq!((run.phase, run.current), (Phase::Sync, 1));
    assert_eq!(run.processed, list(&[]));
}

#[test]
fn positions_outside_their_lists_are_noticed() {
    let mut run = Pipeline::new(list(&["a"]), vec![]);
    assert!(run.well_formed());
    run.advance(Event::Begin);
    assert!(run.well_formed());
    run.current = 1;
    assert!(!run.well_formed());
    run.current = 0;
    run.phase = Phase::Publish;
    assert!(!run.well_formed());
}

#[test]
fn failure_aborts_the_run() {
    let mut run = Pipeline::new(list(&["a"]), vec![]);
    run.advance(Event::Begin);
    run.advance(Event::Failed);
    assert_eq!(run.phase, Phase::Aborted);
    run.advance(Event::Completed);
    assert_eq!(run.phase, Phase::Aborted);
}

#[test]
fn unexpected_event_changes_nothing() {
    let mut run = Pipeline::new(list(&["a"]), vec![]);
    run.advance(Event::Completed);
    assert_eq!((run.phase, run.current), (Phase::Select, 0));
    run.advance(Event::Begin);
    run.advance(Event::NeedsPublishing(true));
    assert_eq!(run.phase, Phase::Sync);
}

#[test]
fn versions_of_all_preceding_packages_are_synced() {
    let order = list(&["a", "b", "c", "d"]);
    assert_eq!(sync_targets(&order, &"c".to_string()), list(&["a", "b"]));
    assert_eq!(sync_targets(&order, &"a".to_string()), list(&[]));
    assert_eq!(sync_targets(&order, &"z".to_string()), order);
}

#[test]
fn work_is_split_by_what_was_processed() {
    let (done, todo) = split_work(&list(&["a", "b", "c"]), &list(&["c", "a"]));
    assert_eq!(done, list(&["a", "c"]));
    assert_eq!(todo, list(&["b"]));
}

#[test]
fn processed_names_are_kept_once() {
    let mut processed = list(&["a"]);
    mark_processed(&mut processed, &"a".to_string());
    mark_processed(&mut processed, &"b".to_string());
    mark_processed(&mut processed, &"b".to_string());
    assert_eq!(processed, list(&["a", "b"]));
}

use vstd::prelude::*;

verus! {

/// The two kinds of checkpoint: a plain snapshot, and one that a later
/// revert is to undo.
#[derive(Debug, PartialEq, Eq, Structural, Clone, Copy)]
pub enum GCKP {
    Save,
    RevertLater,
}

/// The commit message that marks a checkpoint of kind `op`.
pub open spec fn marker(op: GCKP) -> Seq<char> {
    match op {
        GCKP::Save => "[subpub] CHECKPOINT_SAVE"@,
        GCKP::RevertLater => "[subpub] CHECKPOINT_REVERT"@,
    }
}

/// The commit message that marks a checkpoint of kind `op`.
pub fn commit_message(op: GCKP) -> (msg: String)
    ensures
        msg@ == marker(op),
{
    match op {
        GCKP::Save => "[subpub] CHECKPOINT_SAVE".to_owned(),
        GCKP::RevertLater => "[subpub] CHECKPOINT_REVERT".to_owned(),
    }
}

/// `text` without the white space at its two ends.
pub uninterp spec fn trimmed_of(text: Seq<char>) -> Seq<char>;

/// Calls `str::trim` of std. Trusted: the result is a function of the text
/// alone, named `trimmed_of`.
#[verifier::external_body]
fn trim_text(text: &String) -> (out: String)
    ensures
        out@ == trimmed_of(text@),
{
    text.trim().to_owned()
}

/// The command whose outcome a checkpoint waits for.
#[derive(Debug, PartialEq, Eq, Structural, Clone, Copy)]
pub enum CheckpointPhase {
    /// Listing the uncommitted changes.
    Status,
    /// Staging everything.
    Add,
    /// Committing under the marker of the checkpoint's kind.
    Commit,
}

/// What a checkpoint does next.
#[derive(Debug, PartialEq, Eq, Structural, Clone, Copy)]
pub enum CheckpointNext {
    /// Run this command and come back with its outcome.
    Run(CheckpointPhase),
    /// The checkpoint is complete.
    Done,
    /// This command failed; the run is lost.
    Failed(CheckpointPhase),
}

/// What follows a command of a checkpoint that ended with success `ok` and
/// printed `trimmed`: a clean tree needs no commit, a dirty one is staged
/// and then committed, and any failure ends the checkpoint.
pub open spec fn checkpoint_next_spec(phase: CheckpointPhase, ok: bool, trimmed: Seq<char>) -> CheckpointNext {
    if !ok {
        CheckpointNext::Failed(phase)
    } else {
        match phase {
            CheckpointPhase::Status => if trimmed.len() == 0 {
                CheckpointNext::Done
            } else {
                CheckpointNext::Run(CheckpointPhase::Add)
            },
            CheckpointPhase::Add => CheckpointNext::Run(CheckpointPhase::Commit),
            CheckpointPhase::Commit => CheckpointNext::Done,
        }
    }
}

/// The first command of a checkpoint.
pub fn checkpoint_first() -> (phase: CheckpointPhase)
    ensures
        phase == CheckpointPhase::Status,
{
    CheckpointPhase::Status
}

/// Decides what follows a command of a checkpoint, given whether it
/// succeeded and what it printed, white space at the ends removed.
pub fn checkpoint_next(phase: CheckpointPhase, ok: bool, trimmed: &String) -> (next: CheckpointNext)
    ensures
        next == checkpoint_next_spec(phase, ok, trimmed@),
{
    if !ok {
        CheckpointNext::Failed(phase)
    } else {
        match phase {
            CheckpointPhase::Status => {
                if trimmed.as_str().is_empty() {
                    CheckpointNext::Done
                } else {
                    CheckpointNext::Run(CheckpointPhase::Add)
                }
            },
            CheckpointPhase::Add => CheckpointNext::Run(CheckpointPhase::Commit),
            CheckpointPhase::Commit => CheckpointNext::Done,
        }
    }
}

/// Decides what follows a command of a checkpoint from its raw output.
pub fn git_checkpoint(phase: CheckpointPhase, ok: bool, output: &String) -> (next: CheckpointNext)
    ensures
        next == checkpoint_next_spec(phase, ok, trimmed_of(output@)),
{
    let trimmed = trim_text(output);
    checkpoint_next(phase, ok, &trimmed)
}

/// The command whose outcome a revert waits for.
#[derive(Debug, PartialEq, Eq, Structural, Clone, Copy)]
pub enum RevertPhase {
    /// Reading the message of the most recent commit.
    LastMessage,
    /// Resetting the tree to the parent of the most recent commit.
    Reset,
}

/// What a revert does next.
#[derive(Debug, PartialEq, Eq, Structural, Clone, Copy)]
pub enum RevertNext {
    Run(RevertPhase),
    Done,
    Failed(RevertPhase),
}

/// What follows a command of a revert: while the most recent commit carries
/// the revert marker it is undone and the next one read; any other message
/// ends the revert, and so does a failure.
pub open spec fn revert_next_spec(phase: RevertPhase, ok: bool, trimmed: Seq<char>) -> RevertNext {
    if !ok {
        RevertNext::Failed(phase)
    } else {
        match phase {
            RevertPhase::LastMessage => if trimmed == marker(GCKP::RevertLater) {
                RevertNext::Run(RevertPhase::Reset)
            } else {
                RevertNext::Done
            },
            RevertPhase::Reset => RevertNext::Run(RevertPhase::LastMessage),
        }
    }
}

/// The first command of a revert.
pub fn revert_first() -> (phase: RevertPhase)
    ensures
        phase == RevertPhase::LastMessage,
{
    RevertPhase::LastMessage
}

/// Decides what follows a command of a revert, given whether it succeeded
/// and what it printed, white space at the ends removed.
pub fn revert_next(phase: RevertPhase, ok: bool, trimmed: &String) -> (next: RevertNext)
    ensures
        next == revert_next_spec(phase, ok, trimmed@),
{
    if !ok {
        RevertNext::Failed(phase)
    } else {
        match phase {
            RevertPhase::LastMessage => {
                let wanted = commit_message(GCKP::RevertLater);
                if *trimmed == wanted {
                    RevertNext::Run(RevertPhase::Reset)
                } else {
                    RevertNext::Done
                }
            },
            RevertPhase::Reset => RevertNext::Run(RevertPhase::LastMessage),
        }
    }
}

/// Decides what follows a command of a revert from its raw output.
pub fn git_checkpoint_revert(phase: RevertPhase, ok: bool, output: &String) -> (next: RevertNext)
    ensures
        next == revert_next_spec(phase, ok, trimmed_of(output@)),
{
    let trimmed = trim_text(output);
    revert_next(phase, ok, &trimmed)
}

/// One stage of an action bracketed by checkpoints.
#[derive(Debug, PartialEq, Eq, Structural, Clone, Copy)]
pub enum Stage {
    /// Make a checkpoint of this kind.
    Checkpoint(GCKP),
    /// Run the action itself.
    Action,
}

/// The stages of an action bracketed by a checkpoint of kind `op`: unless
/// `op` is a plain save, the state before the action is saved first; then
/// the action runs; then the checkpoint of kind `op` is made.
pub open spec fn bracket_spec(op: GCKP) -> Seq<Stage> {
    if op == GCKP::Save {
        seq![Stage::Action, Stage::Checkpoint(op)]
    } else {
        seq![Stage::Checkpoint(GCKP::Save), Stage::Action, Stage::Checkpoint(op)]
    }
}

/// The stages of an action bracketed by a checkpoint of kind `op`.
pub fn with_git_checkpoint(op: GCKP) -> (stages: Vec<Stage>)
    ensures
        stages@ == bracket_spec(op),
{
    let mut stages: Vec<Stage> = Vec::new();
    if op != GCKP::Save {
        stages.push(Stage::Checkpoint(GCKP::Save));
    }
    stages.push(Stage::Action);
    stages.push(Stage::Checkpoint(op));
    proof {
        assert(stages@ =~= bracket_spec(op));
    }
    stages
}

} // verus!

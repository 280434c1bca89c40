use vstd::prelude::*;
use crate::checkpoint::GCKP;

verus! {

/// A snapshot of the whole tree, with the kind of checkpoint that made it.
/// Trees are told apart by a number.
#[derive(Debug, PartialEq, Eq, Structural, Clone, Copy)]
pub struct Commit {
    pub tree: u64,
    pub marker: GCKP,
}

/// A history of checkpoints and the working tree, as plain values.
pub struct LogModel {
    /// The tree before the first checkpoint.
    pub base: u64,
    /// The checkpoints, oldest first.
    pub commits: Seq<Commit>,
    /// The working tree.
    pub tree: u64,
}

/// The tree of the most recent commit.
pub open spec fn head_tree(m: LogModel) -> u64 {
    if m.commits.len() == 0 {
        m.base
    } else {
        m.commits.last().tree
    }
}

/// The working tree differs from the most recent commit.
pub open spec fn is_dirty(m: LogModel) -> bool {
    m.tree != head_tree(m)
}

/// The most recent commit is one that a revert undoes.
pub open spec fn head_is_revert(m: LogModel) -> bool {
    m.commits.len() > 0 && m.commits.last().marker == GCKP::RevertLater
}

/// A checkpoint: a dirty tree is committed under the marker, a clean one
/// is left alone.
pub open spec fn checkpoint_spec(m: LogModel, op: GCKP) -> LogModel {
    if is_dirty(m) {
        LogModel { commits: m.commits.push(Commit { tree: m.tree, marker: op }), ..m }
    } else {
        m
    }
}

/// The working tree becomes `tree`; the history stays.
pub open spec fn change_spec(m: LogModel, tree: u64) -> LogModel {
    LogModel { tree, ..m }
}

/// A revert: as long as the most recent commit is one to undo, it is
/// dropped and the tree reset to the commit before it.
pub open spec fn revert_spec(m: LogModel) -> LogModel
    decreases m.commits.len(),
{
    if head_is_revert(m) {
        let rest = m.commits.drop_last();
        revert_spec(
            LogModel { commits: rest, tree: head_tree(LogModel { commits: rest, ..m }), ..m },
        )
    } else {
        m
    }
}

/// An action that leaves the tree as `after`, bracketed by a checkpoint of
/// kind `op`.
pub open spec fn with_checkpoint_spec(m: LogModel, op: GCKP, after: u64) -> LogModel {
    let saved = if op == GCKP::Save {
        m
    } else {
        checkpoint_spec(m, GCKP::Save)
    };
    checkpoint_spec(change_spec(saved, after), op)
}

/// A history of checkpoints kept in memory.
pub struct CheckpointLog {
    base: u64,
    commits: Vec<Commit>,
    tree: u64,
}

impl View for CheckpointLog {
    type V = LogModel;

    closed spec fn view(&self) -> LogModel {
        LogModel { base: self.base, commits: self.commits@, tree: self.tree }
    }
}

impl CheckpointLog {
    /// A history without checkpoints, the tree clean.
    pub fn new(base: u64) -> (log: CheckpointLog)
        ensures
            log@ == (LogModel { base, commits: Seq::empty(), tree: base }),
    {
        CheckpointLog { base, commits: Vec::new(), tree: base }
    }

    /// The working tree.
    pub fn tree(&self) -> (tree: u64)
        ensures
            tree == self@.tree,
    {
        self.tree
    }

    /// The number of checkpoints in the history.
    pub fn len(&self) -> (n: usize)
        ensures
            n == self@.commits.len(),
    {
        self.commits.len()
    }

    /// Whether the working tree differs from the most recent commit.
    pub fn dirty(&self) -> (res: bool)
        ensures
            res == is_dirty(self@),
    {
        let n = self.commits.len();
        if n == 0 {
            self.tree != self.base
        } else {
            self.tree != self.commits[n - 1].tree
        }
    }

    /// Changes the working tree.
    pub fn change(&mut self, tree: u64)
        ensures
            final(self)@ == change_spec(old(self)@, tree),
    {
        self.tree = tree;
    }

    /// Makes a checkpoint of kind `op`.
    pub fn checkpoint(&mut self, op: GCKP)
        ensures
            final(self)@ == checkpoint_spec(old(self)@, op),
    {
        if self.dirty() {
            self.commits.push(Commit { tree: self.tree, marker: op });
        }
    }

    /// Undoes the most recent checkpoints that are marked for it.
    pub fn revert(&mut self)
        ensures
            final(self)@ == revert_spec(old(self)@),
    {
        loop
            invariant
                revert_spec(self@) == revert_spec(old(self)@),
            ensures
                self@ == revert_spec(old(self)@),
            decreases self.commits.len(),
        {
            let n = self.commits.len();
            if n == 0 || self.commits[n - 1].marker != GCKP::RevertLater {
                break ;
            }
            self.commits.pop();
            self.tree = if n == 1 {
                self.base
            } else {
                self.commits[n - 2].tree
            };
        }
    }

    /// Runs an action that leaves the tree as `after`, bracketed by a
    /// checkpoint of kind `op`.
    pub fn with_checkpoint(&mut self, op: GCKP, after: u64)
        ensures
            final(self)@ == with_checkpoint_spec(old(self)@, op, after),
    {
        if op != GCKP::Save {
            self.checkpoint(GCKP::Save);
        }
        self.change(after);
        self.checkpoint(op);
    }
}

/// After an action bracketed by a plain save, a revert leaves the tree and
/// the history as they are, unless the action changed nothing on a history
/// that ends in a commit to undo.
pub proof fn lemma_save_then_revert(m: LogModel, after: u64)
    requires
        !(head_is_revert(m) && after == head_tree(m)),
    ensures
        revert_spec(with_checkpoint_spec(m, GCKP::Save, after)) == with_checkpoint_spec(
            m,
            GCKP::Save,
            after,
        ),
{
}

/// After an action bracketed by a checkpoint to undo, a revert brings back
/// the tree as it was before, whether or not the action changed it, unless
/// the tree was clean on a history that ends in a commit to undo.
pub proof fn lemma_revert_later_then_revert(m: LogModel, after: u64)
    requires
        !(head_is_revert(m) && !is_dirty(m)),
    ensures
        revert_spec(with_checkpoint_spec(m, GCKP::RevertLater, after)).tree == m.tree,
        revert_spec(with_checkpoint_spec(m, GCKP::RevertLater, after)).commits == checkpoint_spec(
            m,
            GCKP::Save,
        ).commits,
{
    let saved = checkpoint_spec(m, GCKP::Save);
    let done = with_checkpoint_spec(m, GCKP::RevertLater, after);
    if is_dirty(change_spec(saved, after)) {
        let rest = done.commits.drop_last();
        assert(rest =~= saved.commits);
        let back = LogModel { commits: rest, tree: head_tree(LogModel { commits: rest, ..done }), ..done };
        assert(!head_is_revert(back));
        assert(revert_spec(back) == back);
    }
}

} // verus!

//! File edits produced by providers and the filesystem actions that apply
//! them.

use vstd::prelude::*;
use crate::err::DispatchError;
use crate::real_fs::RealFs;
use crate::path::VfsPath;
use crate::text::str_eq;

verus! {

/// What an edit does to its file.
pub enum EditOutcome {
    /// The file's content changes.
    Modify,
    /// The file is created.
    Create,
    /// The file is deleted.
    Delete,
    /// The file moves to `new_path`, possibly with new content.
    Rename { new_path: VfsPath },
}

/// The result of validating an edit.
pub enum ValidationResult {
    Pass,
    Fail(String),
    Skipped,
}

/// One file's edit: its path, a path for display, its content before and
/// after, what happens to it, and its validation.
pub struct FileEditResult {
    pub source_file: VfsPath,
    pub display_path: String,
    pub original: String,
    pub modified: String,
    pub outcome: EditOutcome,
    pub validation: ValidationResult,
}

/// A change to the real filesystem.
pub enum FsAction {
    /// Write `content` to `path`.
    Write { path: VfsPath, content: String },
    /// Remove `path`.
    Unlink { path: VfsPath },
    /// Move `from` to `to`.
    Rename { from: VfsPath, to: VfsPath },
}

/// Mathematical view of an [`FsAction`].
pub ghost enum ActionView {
    Write(Seq<Seq<char>>, Seq<char>),
    Unlink(Seq<Seq<char>>),
    Rename(Seq<Seq<char>>, Seq<Seq<char>>),
}

impl View for FsAction {
    type V = ActionView;

    open spec fn view(&self) -> ActionView {
        match self {
            FsAction::Write { path, content } => ActionView::Write(path@, content@),
            FsAction::Unlink { path } => ActionView::Unlink(path@),
            FsAction::Rename { from, to } => ActionView::Rename(from@, to@),
        }
    }
}

/// The actions that apply one edit: an unchanged modification needs none;
/// a modification or creation writes the new content; a deletion unlinks;
/// a rename moves the file and then writes the new content if it changed.
pub open spec fn edit_actions(e: FileEditResult) -> Seq<ActionView> {
    match e.outcome {
        EditOutcome::Modify => if e.original@ == e.modified@ {
            Seq::empty()
        } else {
            seq![ActionView::Write(e.source_file@, e.modified@)]
        },
        EditOutcome::Create => seq![ActionView::Write(e.source_file@, e.modified@)],
        EditOutcome::Delete => seq![ActionView::Unlink(e.source_file@)],
        EditOutcome::Rename { new_path } => if e.original@ == e.modified@ {
            seq![ActionView::Rename(e.source_file@, new_path@)]
        } else {
            seq![ActionView::Rename(e.source_file@, new_path@), ActionView::Write(new_path@, e.modified@)]
        },
    }
}

/// The actions of all edits, in order.
pub open spec fn plan_actions(es: Seq<FileEditResult>) -> Seq<ActionView>
    decreases es.len(),
{
    if es.len() == 0 {
        Seq::empty()
    } else {
        plan_actions(es.drop_last()) + edit_actions(es.last())
    }
}

/// `p` and `c` are where and what the edit `e` leaves on disk: its new
/// content, at its own path, or at the new path when it moves.
pub open spec fn lands_at(e: FileEditResult, p: Seq<Seq<char>>, c: Seq<char>) -> bool {
    &&& c == e.modified@
    &&& match e.outcome {
        EditOutcome::Modify => p == e.source_file@,
        EditOutcome::Create => p == e.source_file@,
        EditOutcome::Delete => false,
        EditOutcome::Rename { new_path } => p == new_path@,
    }
}

proof fn lemma_contains_concat(a: Seq<ActionView>, b: Seq<ActionView>, x: ActionView)
    ensures
        a.contains(x) ==> (a + b).contains(x),
        b.contains(x) ==> (a + b).contains(x),
{
    if a.contains(x) {
        let j = choose|j: int| 0 <= j < a.len() && a[j] == x;
        assert((a + b)[j] == x);
    }
    if b.contains(x) {
        let j = choose|j: int| 0 <= j < b.len() && b[j] == x;
        assert((a + b)[a.len() + j] == x);
    }
}

/// Every write that the plan of `es` makes puts some edit's new content
/// where that edit leaves it: no write carries old content, and a
/// deletion causes none.
pub proof fn law_planned_writes_carry_new_content(es: Seq<FileEditResult>, k: int)
    requires
        0 <= k < plan_actions(es).len(),
    ensures
        plan_actions(es)[k] matches ActionView::Write(p, c)
            ==> exists|i: int| 0 <= i < es.len() && #[trigger] lands_at(es[i], p, c),
    decreases es.len(),
{
    let pre = plan_actions(es.drop_last());
    let last = es.last();
    let li = es.len() - 1;
    if k < pre.len() {
        assert(plan_actions(es)[k] == pre[k]);
        law_planned_writes_carry_new_content(es.drop_last(), k);
        match pre[k] {
            ActionView::Write(p, c) => {
                let i = choose|i: int| 0 <= i < es.drop_last().len() && #[trigger] lands_at(es.drop_last()[i], p, c);
                assert(es.drop_last()[i] == es[i]);
                assert(lands_at(es[i], p, c));
            },
            _ => {},
        }
    } else {
        assert(plan_actions(es)[k] == edit_actions(last)[k - pre.len()]);
        assert(es[li] == last);
        match plan_actions(es)[k] {
            ActionView::Write(p, c) => {
                assert(lands_at(es[li], p, c));
            },
            _ => {},
        }
    }
}

/// Each edit's effect is in the plan of `es`: a changed modification and a
/// creation write the new content to the file, a deletion unlinks it, and
/// a rename moves it and, when the content changed, writes the new content
/// at the new path.
pub proof fn law_every_edit_is_planned(es: Seq<FileEditResult>, i: int)
    requires
        0 <= i < es.len(),
    ensures
        ({
            let plan = plan_actions(es);
            let e = es[i];
            match e.outcome {
                EditOutcome::Modify => e.original@ != e.modified@
                    ==> plan.contains(ActionView::Write(e.source_file@, e.modified@)),
                EditOutcome::Create => plan.contains(ActionView::Write(e.source_file@, e.modified@)),
                EditOutcome::Delete => plan.contains(ActionView::Unlink(e.source_file@)),
                EditOutcome::Rename { new_path } => {
                    &&& plan.contains(ActionView::Rename(e.source_file@, new_path@))
                    &&& e.original@ != e.modified@ ==> plan.contains(ActionView::Write(new_path@, e.modified@))
                },
            }
        }),
    decreases es.len(),
{
    let pre = plan_actions(es.drop_last());
    let post = edit_actions(es.last());
    assert(plan_actions(es) == pre + post);
    if i < es.len() - 1 {
        law_every_edit_is_planned(es.drop_last(), i);
        assert(es.drop_last()[i] == es[i]);
        let e = es[i];
        lemma_contains_concat(pre, post, ActionView::Write(e.source_file@, e.modified@));
        lemma_contains_concat(pre, post, ActionView::Unlink(e.source_file@));
        match e.outcome {
            EditOutcome::Rename { new_path } => {
                lemma_contains_concat(pre, post, ActionView::Rename(e.source_file@, new_path@));
                lemma_contains_concat(pre, post, ActionView::Write(new_path@, e.modified@));
            },
            _ => {},
        }
    } else {
        let e = es[i];
        assert(e == es.last());
        if post.len() > 0 {
            assert(post.contains(post[0]));
            lemma_contains_concat(pre, post, post[0]);
        }
        if post.len() > 1 {
            assert(post.contains(post[1]));
            lemma_contains_concat(pre, post, post[1]);
        }
    }
}

/// The views of a sequence of actions.
pub open spec fn action_views(v: Seq<FsAction>) -> Seq<ActionView> {
    Seq::new(v.len(), |i: int| v[i]@)
}

/// The filesystem actions that apply `edits`, in order; applying them in
/// order, stopping at the first failure, applies the edits.
pub fn plan_file_edits(edits: &[FileEditResult]) -> (r: Vec<FsAction>)
    ensures
        action_views(r@) == plan_actions(edits@),
{
    let n = edits.len();
    let mut out: Vec<FsAction> = Vec::new();
    let mut i: usize = 0;
    while i < n
        invariant
            n == edits@.len(),
            i <= n,
            action_views(out@) == plan_actions(edits@.subrange(0, i as int)),
        decreases n - i,
    {
        let e = &edits[i];
        let ghost before = action_views(out@);
        let same = str_eq(e.original.as_str(), e.modified.as_str());
        match &e.outcome {
            EditOutcome::Modify => {
                if !same {
                    out.push(FsAction::Write { path: e.source_file.duplicate(), content: e.modified.clone() });
                }
            },
            EditOutcome::Create => {
                out.push(FsAction::Write { path: e.source_file.duplicate(), content: e.modified.clone() });
            },
            EditOutcome::Delete => {
                out.push(FsAction::Unlink { path: e.source_file.duplicate() });
            },
            EditOutcome::Rename { new_path } => {
                out.push(FsAction::Rename { from: e.source_file.duplicate(), to: new_path.duplicate() });
                if !same {
                    out.push(FsAction::Write { path: new_path.duplicate(), content: e.modified.clone() });
                }
            },
        }
        proof {
            let sub = edits@.subrange(0, i + 1);
            assert(sub.drop_last() =~= edits@.subrange(0, i as int));
            assert(sub.last() == edits@[i as int]);
            assert(action_views(out@) =~= before + edit_actions(edits@[i as int]));
        }
        i = i + 1;
    }
    assert(edits@.subrange(0, n as int) =~= edits@);
    out
}

/// Apply the edits to the real filesystem: the actions
/// [`plan_file_edits`] plans, in order, stopping at the first that fails.
pub fn apply_file_edits<F: RealFs>(edits: &[FileEditResult], real_fs: &F) -> (r: Result<(), DispatchError>)
    ensures
        plan_actions(edits@).len() == 0 ==> r is Ok,
{
    let actions = plan_file_edits(edits);
    let n = actions.len();
    assert(action_views(actions@).len() == n);
    let mut i: usize = 0;
    while i < n
        invariant
            n == actions@.len(),
            n == plan_actions(edits@).len(),
            i <= n,
        decreases n - i,
    {
        let done = match &actions[i] {
            FsAction::Write { path, content } => real_fs.write(path, content.as_str()),
            FsAction::Unlink { path } => real_fs.unlink(path),
            FsAction::Rename { from, to } => real_fs.rename(from, to),
        };
        match done {
            Ok(()) => {},
            Err(e) => return Err(e),
        }
        i = i + 1;
    }
    Ok(())
}

} // verus!

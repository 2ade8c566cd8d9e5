//! Application state that is plain data: scan progress, pending user
//! actions, sort modes, and what a refreshed subtree does to the view.

use vstd::prelude::*;
use crate::scanner::tree::{FileTree, NodeId};

verus! {

/// Progress of the running scan, as shown in the status bar.
#[derive(Debug, Clone)]
pub struct ScanProgressInfo {
    pub files: usize,
    pub dirs: usize,
    pub bytes: u64,
    pub scanning: bool,
    pub current_path: Option<String>,
}

/// An action the user asked for, carried out (after confirmation where
/// it destroys data) outside the frame that asked for it.
#[derive(Debug, Clone)]
pub enum PendingAction {
    /// Show the path, as bytes, in the Finder.
    RevealInFinder(Vec<u8>),
    MoveToTrash(NodeId),
    /// Confirm moving one node (with its name and size) to the Trash.
    ConfirmTrash(NodeId, String, u64),
    /// Confirm moving several nodes (with their total size) to the Trash.
    ConfirmBatchTrash(Vec<NodeId>, u64),
    ConfirmEmptyTrash,
    RefreshSubtree(NodeId),
}

/// Orders of the directory tree, cycled Size, Name, Items, Recent.
#[derive(Debug, Clone, Copy, PartialEq, Eq, Structural)]
pub enum DirSortMode {
    Size,
    Items,
    Recent,
    Name,
}

impl DirSortMode {
    /// The mode after this one in the cycle.
    pub open spec fn spec_next(self) -> DirSortMode {
        match self {
            DirSortMode::Size => DirSortMode::Name,
            DirSortMode::Name => DirSortMode::Items,
            DirSortMode::Items => DirSortMode::Recent,
            DirSortMode::Recent => DirSortMode::Size,
        }
    }

    pub fn next(self) -> (r: DirSortMode)
        ensures
            r == self.spec_next(),
    {
        match self {
            DirSortMode::Size => DirSortMode::Name,
            DirSortMode::Name => DirSortMode::Items,
            DirSortMode::Items => DirSortMode::Recent,
            DirSortMode::Recent => DirSortMode::Size,
        }
    }

    /// The name shown on the sort button.
    pub fn label(self) -> (s: &'static str)
        ensures
            s == match self {
                DirSortMode::Size => "Size",
                DirSortMode::Name => "Name",
                DirSortMode::Items => "Items",
                DirSortMode::Recent => "Recent",
            },
    {
        match self {
            DirSortMode::Size => "Size",
            DirSortMode::Name => "Name",
            DirSortMode::Items => "Items",
            DirSortMode::Recent => "Recent",
        }
    }
}

/// Orders of the extension list, cycled Size, Count, Name.
#[derive(Debug, Clone, Copy, PartialEq, Eq, Structural)]
pub enum ExtSortMode {
    Size,
    Count,
    Name,
}

impl ExtSortMode {
    /// The mode after this one in the cycle.
    pub open spec fn spec_next(self) -> ExtSortMode {
        match self {
            ExtSortMode::Size => ExtSortMode::Count,
            ExtSortMode::Count => ExtSortMode::Name,
            ExtSortMode::Name => ExtSortMode::Size,
        }
    }

    pub fn next(self) -> (r: ExtSortMode)
        ensures
            r == self.spec_next(),
    {
        match self {
            ExtSortMode::Size => ExtSortMode::Count,
            ExtSortMode::Count => ExtSortMode::Name,
            ExtSortMode::Name => ExtSortMode::Size,
        }
    }

    /// The name shown on the sort button.
    pub fn label(self) -> (s: &'static str)
        ensures
            s == match self {
                ExtSortMode::Size => "Size",
                ExtSortMode::Count => "Count",
                ExtSortMode::Name => "Name",
            },
    {
        match self {
            ExtSortMode::Size => "Size",
            ExtSortMode::Count => "Count",
            ExtSortMode::Name => "Name",
        }
    }
}

/// The directory-tree order cycles through all four modes and back.
pub proof fn lemma_dir_sort_cycle(m: DirSortMode)
    ensures
        m.spec_next().spec_next().spec_next().spec_next() == m,
        m.spec_next() != m,
        m.spec_next().spec_next() != m,
        m.spec_next().spec_next().spec_next() != m,
{
}

/// The file-type order cycles through all three modes and back.
pub proof fn lemma_ext_sort_cycle(m: ExtSortMode)
    ensures
        m.spec_next().spec_next().spec_next() == m,
        m.spec_next() != m,
        m.spec_next().spec_next() != m,
{
}

/// What the Escape key does, the first that applies: close the help
/// window, close the cleanup window, end the search, zoom out one level,
/// or clear the selection.
#[derive(Debug, Clone, Copy, PartialEq, Eq, Structural)]
pub enum EscapeStep {
    CloseHelp,
    CloseCleanup,
    EndSearch,
    ZoomOut,
    ClearSelection,
}

/// The step Escape takes, given what is open and how deep the zoom stack
/// is.
pub fn escape_step(help_open: bool, cleanup_open: bool, search_active: bool, zoom_depth: usize) -> (r: EscapeStep)
    ensures
        r == if help_open {
            EscapeStep::CloseHelp
        } else if cleanup_open {
            EscapeStep::CloseCleanup
        } else if search_active {
            EscapeStep::EndSearch
        } else if zoom_depth > 1 {
            EscapeStep::ZoomOut
        } else {
            EscapeStep::ClearSelection
        },
{
    if help_open {
        EscapeStep::CloseHelp
    } else if cleanup_open {
        EscapeStep::CloseCleanup
    } else if search_active {
        EscapeStep::EndSearch
    } else if zoom_depth > 1 {
        EscapeStep::ZoomOut
    } else {
        EscapeStep::ClearSelection
    }
}

/// Zooms out one level: drops the top of the zoom stack and returns the
/// new top, the view root to show.
pub fn zoom_out(zoom_stack: &mut Vec<NodeId>) -> (r: Option<NodeId>)
    requires
        old(zoom_stack)@.len() > 0,
    ensures
        final(zoom_stack)@ == old(zoom_stack)@.drop_last(),
        r == if final(zoom_stack)@.len() > 0 {
            Some(final(zoom_stack)@.last())
        } else {
            None
        },
{
    zoom_stack.pop();
    let n = zoom_stack.len();
    if n > 0 {
        Some(zoom_stack[n - 1])
    } else {
        None
    }
}

/// `zs` with the ids that are no longer live left out, in order.
pub open spec fn live_ids(t: FileTree, zs: Seq<NodeId>) -> Seq<NodeId>
    decreases zs.len(),
{
    if zs.len() == 0 {
        zs
    } else if t.alive_at(zs.last() as int) {
        live_ids(t, zs.drop_last()).push(zs.last())
    } else {
        live_ids(t, zs.drop_last())
    }
}

/// After `target` was refreshed, ids below it may be gone. A view root
/// that is gone becomes `target`, and then the zoom stack keeps only live
/// ids, falling back to the root when none is left; a selection that is
/// gone becomes `target`. Returns the new view root and selection.
pub fn retarget_after_refresh(
    tree: &FileTree,
    target: NodeId,
    view_root: Option<NodeId>,
    zoom_stack: &mut Vec<NodeId>,
    selected: Option<NodeId>,
) -> (r: (Option<NodeId>, Option<NodeId>))
    requires
        tree.wf(),
        target < tree.len(),
        view_root matches Some(v) ==> v < tree.len(),
        selected matches Some(s) ==> s < tree.len(),
        forall|i: int| 0 <= i < old(zoom_stack)@.len() ==> #[trigger] old(zoom_stack)@[i] < tree.len(),
    ensures
        r.0 == match view_root {
            Some(v) => if tree.alive_at(v as int) {
                Some(v)
            } else {
                Some(target)
            },
            None => None,
        },
        r.1 == match selected {
            Some(s) => if tree.alive_at(s as int) {
                Some(s)
            } else {
                Some(target)
            },
            None => None,
        },
        final(zoom_stack)@ == match view_root {
            Some(v) => if tree.alive_at(v as int) {
                old(zoom_stack)@
            } else if live_ids(*tree, old(zoom_stack)@).len() == 0 {
                seq![tree.root_view() as NodeId]
            } else {
                live_ids(*tree, old(zoom_stack)@)
            },
            None => old(zoom_stack)@,
        },
{
    let mut new_view = view_root;
    if let Some(v) = view_root {
        if !tree.is_alive(v) {
            new_view = Some(target);
            let ghost zs = zoom_stack@;
            let mut kept: Vec<NodeId> = Vec::new();
            let mut i: usize = 0;
            while i < zoom_stack.len()
                invariant
                    zs == zoom_stack@,
                    tree.wf(),
                    forall|j: int| 0 <= j < zs.len() ==> #[trigger] zs[j] < tree.len(),
                    i <= zs.len(),
                    kept@ == live_ids(*tree, zs.take(i as int)),
                decreases zs.len() - i,
            {
                assert(zs.take(i + 1).drop_last() =~= zs.take(i as int));
                let z = zoom_stack[i];
                if tree.is_alive(z) {
                    kept.push(z);
                }
                i = i + 1;
            }
            assert(zs.take(zs.len() as int) =~= zs);
            if kept.len() == 0 {
                kept.push(tree.root());
            }
            *zoom_stack = kept;
        }
    }
    let mut new_sel = selected;
    if let Some(s) = selected {
        if !tree.is_alive(s) {
            new_sel = Some(target);
        }
    }
    (new_view, new_sel)
}

} // verus!

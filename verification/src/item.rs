//! The work store's row type: one item per filesystem entry under a
//! collection root, with its resolution state, and the selection predicates
//! the pipeline's phases filter by.

use vstd::prelude::*;

verus! {

/// Resolution state of a work item's release year.
#[derive(Clone, Copy, PartialEq, Eq, Structural, Debug)]
pub enum YearState {
    /// Newly discovered, not yet processed.
    Pending,
    /// Processed, but no year could be determined.
    Unknown,
    /// Processed, but the path had vanished by resolution time.
    Errored,
    /// Processed to a concrete release year.
    Resolved(i32),
}

/// One row of the work store: a filesystem entry under a collection root.
#[derive(Debug)]
pub struct WorkItem {
    /// Path components relative to the collection root.
    pub path: Vec<Vec<u8>>,
    /// Nesting depth; a top-level genre-year folder itself sits at 0.
    pub depth: usize,
    /// Resolution state of the release year.
    pub year: YearState,
    /// Genre, inherited from the top-level folder name at discovery time.
    pub genre: Vec<u8>,
    /// Year encoded in the top-level folder's own name.
    pub source_year: i32,
    /// Whether this entry is a directory.
    pub is_dir: bool,
    /// Whether the Move Executor has relocated this entry.
    pub moved: bool,
    /// Scoping key: the collection root this item belongs to.
    pub root: Vec<u8>,
}

/// Mathematical image of a work item.
#[verifier::ext_equal]
pub struct ItemView {
    pub path: Seq<Seq<u8>>,
    pub depth: usize,
    pub year: YearState,
    pub genre: Seq<u8>,
    pub source_year: i32,
    pub is_dir: bool,
    pub moved: bool,
    pub root: Seq<u8>,
}

impl View for WorkItem {
    type V = ItemView;

    open spec fn view(&self) -> ItemView {
        ItemView {
            path: self.path.deep_view(),
            depth: self.depth,
            year: self.year,
            genre: self.genre@,
            source_year: self.source_year,
            is_dir: self.is_dir,
            moved: self.moved,
            root: self.root@,
        }
    }
}

/// A not-yet-resolved item of this collection: what the Year Resolver works
/// through.
pub open spec fn pending(it: ItemView, root: Seq<u8>) -> bool {
    it.root == root && it.year is Pending
}

/// An unmoved item of this collection whose resolved year is plausible and
/// differs from the year its current folder is filed under: what the Move
/// Executor selects.
pub open spec fn movable(it: ItemView, root: Seq<u8>) -> bool {
    &&& it.root == root
    &&& !it.moved
    &&& match it.year {
        YearState::Resolved(y) => 1 <= y <= 3000 && y != it.source_year,
        _ => false,
    }
}

/// Like `movable`, with the narrower release range the Folder Materializer
/// uses when deciding which `<genre>-<year>` folders must exist.
pub open spec fn materializable(it: ItemView, root: Seq<u8>) -> bool {
    &&& it.root == root
    &&& !it.moved
    &&& match it.year {
        YearState::Resolved(y) => 1800 <= y <= 2500 && y != it.source_year,
        _ => false,
    }
}

/// The same item with its `moved` flag raised.
pub open spec fn marked_moved(it: ItemView) -> ItemView {
    ItemView { moved: true, ..it }
}

/// The same item with its year state replaced.
pub open spec fn with_year(it: ItemView, y: YearState) -> ItemView {
    ItemView { year: y, ..it }
}

} // verus!

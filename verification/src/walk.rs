//! The Tree Walker: visits a snapshot of a collection root depth-first,
//! records one work item per top-level song and one per directory at every
//! depth, decides which junk files to delete, and prunes directories that
//! the deletions leave empty.

use vstd::prelude::*;
use crate::item::{WorkItem, ItemView, YearState};
use crate::names::{is_song_spec, is_deletable_spec, is_song_name, is_deletable_name,
    parse_top_name, TopName, top_genre, top_year_text, first_dash};
use crate::bytes::{bytes_clone, bytes_eq, parse_i32_spec};

verus! {

/// A snapshot of one filesystem entry, as the shell read it before the walk.
#[derive(Debug)]
pub enum FsNode {
    File { name: Vec<u8> },
    Dir { name: Vec<u8>, children: Vec<FsNode> },
}

/// Junk-free: no deletable file anywhere in the tree, and no directory left
/// empty anywhere in the tree.
pub open spec fn cleaned(n: FsNode) -> bool
    decreases n,
{
    match n {
        FsNode::File { name } => !is_deletable_spec(name@),
        FsNode::Dir { name: _, children } => children@.len() > 0
            && forall|i: int| 0 <= i < children@.len() ==> cleaned(#[trigger] children@[i]),
    }
}

/// A walked top-level folder: it survives even when emptied, but everything
/// kept below it is junk-free.
pub open spec fn top_cleaned(n: FsNode) -> bool {
    n matches FsNode::Dir { name: _, children }
        && forall|i: int| 0 <= i < children@.len() ==> cleaned(#[trigger] children@[i])
}

/// Whether anything under this entry outlives the walk: a file survives
/// unless it is deletable junk; a directory survives exactly when something
/// below it does. A directory that does not survive is pruned by the walk
/// of its parent.
pub open spec fn survives(n: FsNode) -> bool
    decreases n,
{
    match n {
        FsNode::File { name } => !is_deletable_spec(name@),
        FsNode::Dir { name: _, children } => exists|i: int| 0 <= i < children@.len()
            && survives(#[trigger] children@[i]),
    }
}

/// Name of a snapshot entry.
pub open spec fn node_name(n: FsNode) -> Seq<u8> {
    match n {
        FsNode::File { name } => name@,
        FsNode::Dir { name, children: _ } => name@,
    }
}

/// What a real directory listing guarantees of a snapshot: no two siblings
/// share a name, at any level.
pub open spec fn wf_tree(n: FsNode) -> bool
    decreases n,
{
    match n {
        FsNode::File { name: _ } => true,
        FsNode::Dir { name: _, children } => {
            &&& forall|i: int, j: int| 0 <= i < j < children@.len()
                ==> node_name(#[trigger] children@[i]) != node_name(#[trigger] children@[j])
            &&& forall|i: int| 0 <= i < children@.len() ==> wf_tree(#[trigger] children@[i])
        },
    }
}

/// A filesystem change the walk decided on; the shell performs them in
/// order, best-effort, never aborting the walk.
#[derive(Debug)]
pub enum FsAction {
    /// Delete this junk file.
    DeleteFile { path: Vec<Vec<u8>> },
    /// Remove this directory, left empty once its junk was gone.
    RemoveDir { path: Vec<Vec<u8>> },
}

/// Only junk files are deleted, and only directories are pruned.
pub open spec fn wf_action(a: FsAction) -> bool {
    match a {
        FsAction::DeleteFile { path } => path@.len() > 0 && is_deletable_spec(path@.last()@),
        FsAction::RemoveDir { path } => path@.len() > 0,
    }
}

/// What one walk produced.
#[derive(Debug)]
pub struct WalkOut {
    /// New work items; a visited folder's own record comes after those of
    /// everything below it.
    pub records: Vec<WorkItem>,
    /// Junk deletions and prunes of emptied directories, in walk order.
    pub actions: Vec<FsAction>,
    /// The visited folder's children after deletions and pruning.
    pub kept: Vec<FsNode>,
}

/// Every record the walk inserts starts life the same way: unmoved, year
/// pending, carrying its top folder's genre and source year and the
/// collection root. A directory record's depth is its nesting level — one
/// more than its parent's, the top folder itself at zero. A file record is
/// a song sitting directly under the top folder: two path components, depth
/// zero; songs any deeper get no record of their own.
pub open spec fn wf_new_item(it: ItemView, genre: Seq<u8>, source_year: i32, root: Seq<u8>)
    -> bool {
    &&& !it.moved
    &&& it.year is Pending
    &&& it.genre == genre
    &&& it.source_year == source_year
    &&& it.root == root
    &&& it.path.len() > 0
    &&& (it.is_dir ==> it.depth == it.path.len() - 1)
    &&& (!it.is_dir ==> is_song_spec(it.path.last()) && it.depth == 0 && it.path.len() == 2)
}

/// `q` lies at or below `p`: the path `q` extends the path `p`.
pub open spec fn under(p: Seq<Seq<u8>>, q: Seq<Seq<u8>>) -> bool {
    p.len() <= q.len() && q.subrange(0, p.len() as int) == p
}

proof fn lemma_under_trans(p: Seq<Seq<u8>>, q: Seq<Seq<u8>>, r: Seq<Seq<u8>>)
    requires
        under(p, q),
        under(q, r),
    ensures
        under(p, r),
{
    assert forall|i: int| 0 <= i < p.len() implies r.subrange(0, p.len() as int)[i]
        == p[i] by {
        assert(r.subrange(0, q.len() as int)[i] == q[i]);
        assert(q.subrange(0, p.len() as int)[i] == p[i]);
    }
    assert(r.subrange(0, p.len() as int) =~= p);
}

/// Each child of a visited directory is accounted for: a subdirectory gets
/// a record of its own, and either stays — kept under its name — or, when
/// nothing below it survives, is pruned by an explicit removal action; a
/// song directly under the top folder gets a file record; junk becomes a
/// delete action; anything else is kept in place.
pub open spec fn child_handled(
    records: Seq<WorkItem>,
    actions: Seq<FsAction>,
    kept: Seq<FsNode>,
    p: Seq<Seq<u8>>,
    c: FsNode,
    top: bool,
) -> bool {
    match c {
        FsNode::Dir { name, children: _ } => {
            &&& exists|k: int| 0 <= k < records.len()
                && (#[trigger] records[k])@.path == p.push(name@) && records[k]@.is_dir
            &&& if survives(c) {
                exists|k: int| 0 <= k < kept.len()
                    && ((#[trigger] kept[k]) matches FsNode::Dir { name: n, children: _ }
                        && n@ == name@)
            } else {
                exists|k: int| 0 <= k < actions.len()
                    && ((#[trigger] actions[k]) matches FsAction::RemoveDir { path: q }
                        && q.deep_view() == p.push(name@))
            }
        },
        FsNode::File { name } => {
            if is_song_spec(name@) && top {
                exists|k: int| 0 <= k < records.len()
                    && (#[trigger] records[k])@.path == p.push(name@) && !records[k]@.is_dir
            } else if is_deletable_spec(name@) {
                exists|k: int| 0 <= k < actions.len()
                    && ((#[trigger] actions[k]) matches FsAction::DeleteFile { path: q }
                        && q.deep_view() == p.push(name@))
            } else {
                exists|k: int| 0 <= k < kept.len()
                    && ((#[trigger] kept[k]) matches FsNode::File { name: n } && n@ == name@)
            }
        },
    }
}

/// The record `it` is one this child accounts for: a record somewhere
/// below a subdirectory, or the file record of a song directly under the
/// top folder.
pub open spec fn record_from(p: Seq<Seq<u8>>, c: FsNode, it: ItemView, top: bool) -> bool {
    match c {
        FsNode::Dir { name, children: _ } => under(p.push(name@), it.path),
        FsNode::File { name } => is_song_spec(name@) && top && it.path == p.push(name@),
    }
}

/// Some child among the first `upto` accounts for the record `it`.
pub open spec fn accounted(
    p: Seq<Seq<u8>>,
    cs: Seq<FsNode>,
    upto: int,
    it: ItemView,
    top: bool,
) -> bool {
    exists|j: int| 0 <= j < upto && record_from(p, #[trigger] cs[j], it, top)
}

proof fn lemma_under_push_head(p: Seq<Seq<u8>>, a: Seq<u8>, q: Seq<Seq<u8>>)
    requires
        under(p.push(a), q),
    ensures
        q.len() > p.len(),
        q[p.len() as int] == a,
{
    assert(q.subrange(0, p.len() as int + 1)[p.len() as int] == a);
}

proof fn lemma_record_from_head(p: Seq<Seq<u8>>, c: FsNode, it: ItemView, top: bool)
    requires
        record_from(p, c, it, top),
    ensures
        it.path.len() > p.len(),
        it.path[p.len() as int] == node_name(c),
{
    match c {
        FsNode::Dir { name, children: _ } => {
            lemma_under_push_head(p, name@, it.path);
        },
        FsNode::File { name } => {
            assert(it.path[p.len() as int] == name@);
        },
    }
}

proof fn lemma_accounted_mono(
    p: Seq<Seq<u8>>,
    cs: Seq<FsNode>,
    u1: int,
    u2: int,
    it: ItemView,
    top: bool,
)
    requires
        accounted(p, cs, u1, it, top),
        u1 <= u2,
    ensures
        accounted(p, cs, u2, it, top),
{
    let w = choose|j: int| 0 <= j < u1 && record_from(p, #[trigger] cs[j], it, top);
    assert(0 <= w < u2 && record_from(p, cs[w], it, top));
}

proof fn lemma_child_handled_grow(
    r1: Seq<WorkItem>,
    a1: Seq<FsAction>,
    k1: Seq<FsNode>,
    r2: Seq<WorkItem>,
    a2: Seq<FsAction>,
    k2: Seq<FsNode>,
    p: Seq<Seq<u8>>,
    c: FsNode,
    top: bool,
)
    requires
        child_handled(r1, a1, k1, p, c, top),
        r1.len() <= r2.len(),
        forall|k: int| 0 <= k < r1.len() ==> r2[k] == r1[k],
        a1.len() <= a2.len(),
        forall|k: int| 0 <= k < a1.len() ==> a2[k] == a1[k],
        k1.len() <= k2.len(),
        forall|k: int| 0 <= k < k1.len() ==> k2[k] == k1[k],
    ensures
        child_handled(r2, a2, k2, p, c, top),
{
    match c {
        FsNode::Dir { name, children: _ } => {
            let w = choose|k: int| 0 <= k < r1.len()
                && (#[trigger] r1[k])@.path == p.push(name@) && r1[k]@.is_dir;
            assert(r2[w] == r1[w]);
            if survives(c) {
                let w2 = choose|k: int| 0 <= k < k1.len()
                    && ((#[trigger] k1[k]) matches FsNode::Dir { name: n, children: _ }
                        && n@ == name@);
                assert(k2[w2] == k1[w2]);
            } else {
                let w2 = choose|k: int| 0 <= k < a1.len()
                    && ((#[trigger] a1[k]) matches FsAction::RemoveDir { path: q }
                        && q.deep_view() == p.push(name@));
                assert(a2[w2] == a1[w2]);
            }
        },
        FsNode::File { name } => {
            if is_song_spec(name@) && top {
                let w = choose|k: int| 0 <= k < r1.len()
                    && (#[trigger] r1[k])@.path == p.push(name@) && !r1[k]@.is_dir;
                assert(r2[w] == r1[w]);
            } else if is_deletable_spec(name@) {
                let w = choose|k: int| 0 <= k < a1.len()
                    && ((#[trigger] a1[k]) matches FsAction::DeleteFile { path: q }
                        && q.deep_view() == p.push(name@));
                assert(a2[w] == a1[w]);
            } else {
                let w = choose|k: int| 0 <= k < k1.len()
                    && ((#[trigger] k1[k]) matches FsNode::File { name: n } && n@ == name@);
                assert(k2[w] == k1[w]);
            }
        },
    }
}

proof fn lemma_survivor_step(children: Seq<FsNode>, i: int)
    requires
        0 <= i < children.len(),
    ensures
        (exists|j: int| 0 <= j < i + 1 && survives(#[trigger] children[j]))
            == ((exists|j: int| 0 <= j < i && survives(#[trigger] children[j]))
                || survives(children[i])),
{
    if exists|j: int| 0 <= j < i + 1 && survives(#[trigger] children[j]) {
        let w = choose|j: int| 0 <= j < i + 1 && survives(#[trigger] children[j]);
        if w == i {
            assert(survives(children[i]));
        }
    }
    if exists|j: int| 0 <= j < i && survives(#[trigger] children[j]) {
        let w = choose|j: int| 0 <= j < i && survives(#[trigger] children[j]);
        assert(0 <= w < i + 1 && survives(children[w]));
    }
    if survives(children[i]) {
        assert(0 <= i < i + 1 && survives(children[i]));
    }
}

/// A fresh copy of a path.
pub fn path_clone(p: &Vec<Vec<u8>>) -> (r: Vec<Vec<u8>>)
    ensures
        r.deep_view() == p.deep_view(),
        r@.len() == p@.len(),
{
    let mut r: Vec<Vec<u8>> = Vec::new();
    let mut i: usize = 0;
    while i < p.len()
        invariant
            i <= p@.len(),
            r@.len() == i,
            forall|j: int| 0 <= j < i ==> (#[trigger] r@[j])@ == p@[j]@,
        decreases p@.len() - i,
    {
        r.push(bytes_clone(&p[i]));
        i += 1;
    }
    proof {
        assert(r.deep_view() =~~= p.deep_view());
    }
    r
}

/// Walks one directory of the snapshot; the snapshot must have unique
/// sibling names, as a real listing does. `path` is the directory's
/// location under the collection root, its own name last; the directory's
/// depth is `path` one shorter. Junk files become delete actions; each
/// subdirectory is walked in turn and pruned by an explicit removal action
/// when nothing below it survives; a song directly under the top folder
/// becomes a file record; the directory itself is recorded last, at every
/// depth. The records are exactly one per accounted entry: their paths are
/// distinct, and each is the visited folder's own or traces back to one of
/// its children.
pub fn walk_dir(
    node: &FsNode,
    path: &Vec<Vec<u8>>,
    genre: &Vec<u8>,
    source_year: i32,
    root: &Vec<u8>,
) -> (out: WalkOut)
    requires
        *node is Dir,
        wf_tree(*node),
        path@.len() >= 1,
    ensures
        forall|k: int| 0 <= k < out.records@.len()
            ==> wf_new_item((#[trigger] out.records@[k])@, genre@, source_year, root@),
        forall|k: int| 0 <= k < out.records@.len()
            ==> under(path.deep_view(), (#[trigger] out.records@[k])@.path),
        out.records@.len() >= 1,
        out.records@.last()@.path == path.deep_view(),
        out.records@.last()@.is_dir,
        out.records@.last()@.depth == path@.len() - 1,
        forall|i: int| 0 <= i < out.kept@.len() ==> cleaned(#[trigger] out.kept@[i]),
        forall|k: int| 0 <= k < out.actions@.len() ==> wf_action(#[trigger] out.actions@[k]),
        *node matches FsNode::Dir { name: _, children: cs } ==> forall|j: int|
            0 <= j < cs@.len() ==> child_handled(out.records@, out.actions@, out.kept@,
                path.deep_view(), #[trigger] cs@[j], path@.len() == 1),
        *node matches FsNode::Dir { name: _, children: cs } ==> ((out.kept@.len() > 0)
            == exists|j: int| 0 <= j < cs@.len() && survives(#[trigger] cs@[j])),
        forall|k1: int, k2: int| 0 <= k1 < k2 < out.records@.len()
            ==> (#[trigger] out.records@[k1])@.path != (#[trigger] out.records@[k2])@.path,
        *node matches FsNode::Dir { name: _, children: cs } ==> forall|k: int|
            0 <= k < out.records@.len()
            ==> ((#[trigger] out.records@[k])@.path == path.deep_view()
                || accounted(path.deep_view(), cs@, cs@.len() as int, out.records@[k]@,
                    path@.len() == 1)),
    decreases *node,
{
    let mut records: Vec<WorkItem> = Vec::new();
    let mut actions: Vec<FsAction> = Vec::new();
    let mut kept: Vec<FsNode> = Vec::new();
    match node {
        FsNode::File { name: _ } => {
            proof {
                assert(false);
            }
        },
        FsNode::Dir { name: _, children } => {
            let mut i: usize = 0;
            while i < children.len()
                invariant
                    *node is Dir,
                    path@.len() >= 1,
                    node matches FsNode::Dir { name: _, children: cs } && cs == *children,
                    i <= children@.len(),
                    forall|k: int| 0 <= k < records@.len()
                        ==> wf_new_item((#[trigger] records@[k])@, genre@, source_year,
                            root@),
                    forall|k: int| 0 <= k < records@.len()
                        ==> under(path.deep_view(), (#[trigger] records@[k])@.path),
                    forall|k: int| 0 <= k < kept@.len() ==> cleaned(#[trigger] kept@[k]),
                    forall|k: int| 0 <= k < actions@.len()
                        ==> wf_action(#[trigger] actions@[k]),
                    forall|j: int| 0 <= j < i ==> child_handled(records@, actions@, kept@,
                        path.deep_view(), #[trigger] children@[j], path@.len() == 1),
                    (kept@.len() > 0) == (exists|j: int| 0 <= j < i
                        && survives(#[trigger] children@[j])),
                    wf_tree(*node),
                    forall|k1: int, k2: int| 0 <= k1 < k2 < records@.len()
                        ==> (#[trigger] records@[k1])@.path
                            != (#[trigger] records@[k2])@.path,
                    forall|k: int| 0 <= k < records@.len()
                        ==> accounted(path.deep_view(), children@, i as int,
                            (#[trigger] records@[k])@, path@.len() == 1),
                decreases children@.len() - i,
            {
                let ghost r0 = records@;
                let ghost a0 = actions@;
                let ghost q0 = kept@;
                match &children[i] {
                    FsNode::Dir { name: cname, children: _ } => {
                        let mut child_path = path_clone(path);
                        child_path.push(bytes_clone(cname));
                        proof {
                            assert(child_path.deep_view()
                                =~~= path.deep_view().push(cname@));
                            assert(decreases_to!(*node => *children));
                            assert(decreases_to!(*children => children@));
                            assert(decreases_to!(children@ => children@[i as int]));
                        }
                        let mut sub = walk_dir(&children[i], &child_path, genre,
                            source_year, root);
                        let ghost subr = sub.records@;
                        records.append(&mut sub.records);
                        proof {
                            let w = records@.len() - 1;
                            assert(records@[w] == subr.last());
                            assert(records@[w]@.path == path.deep_view().push(cname@));
                            assert(under(path.deep_view(), child_path.deep_view())) by {
                                assert(child_path.deep_view()
                                    .subrange(0, path.deep_view().len() as int)
                                    =~= path.deep_view());
                            }
                            assert forall|k: int| 0 <= k < records@.len()
                                implies under(path.deep_view(),
                                    (#[trigger] records@[k])@.path) by {
                                if k >= r0.len() {
                                    assert(records@[k] == subr[k - r0.len()]);
                                    lemma_under_trans(path.deep_view(),
                                        child_path.deep_view(), records@[k]@.path);
                                }
                            }
                            assert forall|k: int| r0.len() <= k < records@.len()
                                implies record_from(path.deep_view(),
                                    children@[i as int], (#[trigger] records@[k])@,
                                    path@.len() == 1) by {
                                assert(records@[k] == subr[k - r0.len()]);
                                assert(under(child_path.deep_view(), records@[k]@.path));
                            }
                        }
                        actions.append(&mut sub.actions);
                        if sub.kept.len() == 0 {
                            proof {
                                assert(!survives(children@[i as int]));
                            }
                            actions.push(FsAction::RemoveDir { path: child_path });
                            proof {
                                assert(actions@[actions@.len() - 1]
                                    matches FsAction::RemoveDir { path: q }
                                    && q.deep_view() == path.deep_view().push(cname@));
                            }
                        } else {
                            proof {
                                assert(survives(children@[i as int]));
                            }
                            kept.push(FsNode::Dir {
                                name: bytes_clone(cname),
                                children: sub.kept,
                            });
                            proof {
                                assert(kept@[kept@.len() - 1]
                                    matches FsNode::Dir { name: n, children: _ }
                                    && n@ == cname@);
                            }
                        }
                    },
                    FsNode::File { name: fname } => {
                        if is_song_name(fname) && path.len() == 1 {
                            let mut child_path = path_clone(path);
                            child_path.push(bytes_clone(fname));
                            proof {
                                assert(child_path.deep_view()
                                    =~~= path.deep_view().push(fname@));
                            }
                            let item = WorkItem {
                                path: child_path,
                                depth: 0,
                                year: YearState::Pending,
                                genre: bytes_clone(genre),
                                source_year,
                                is_dir: false,
                                moved: false,
                                root: bytes_clone(root),
                            };
                            proof {
                                assert(item@.path.last() == fname@);
                                crate::names::lemma_song_not_deletable(fname@);
                                assert(survives(children@[i as int]));
                            }
                            records.push(item);
                            proof {
                                assert(records@[records@.len() - 1] == item);
                                assert(item@.path
                                    .subrange(0, path.deep_view().len() as int)
                                    =~= path.deep_view());
                                assert(record_from(path.deep_view(),
                                    children@[i as int], item@, path@.len() == 1));
                            }
                            kept.push(FsNode::File { name: bytes_clone(fname) });
                        } else if is_deletable_name(fname) {
                            let mut child_path = path_clone(path);
                            child_path.push(bytes_clone(fname));
                            proof {
                                assert(child_path@.last()@ == fname@);
                                assert(child_path.deep_view()
                                    =~~= path.deep_view().push(fname@));
                                assert(!survives(children@[i as int]));
                            }
                            actions.push(FsAction::DeleteFile { path: child_path });
                            proof {
                                assert(actions@[actions@.len() - 1]
                                    matches FsAction::DeleteFile { path: q }
                                    && q.deep_view() == path.deep_view().push(fname@));
                            }
                        } else {
                            proof {
                                assert(survives(children@[i as int]));
                            }
                            kept.push(FsNode::File { name: bytes_clone(fname) });
                            proof {
                                assert(kept@[kept@.len() - 1]
                                    matches FsNode::File { name: n } && n@ == fname@);
                            }
                        }
                    },
                }
                proof {
                    assert(forall|a: int, b: int| 0 <= a < b < children@.len()
                        ==> node_name(#[trigger] children@[a])
                            != node_name(#[trigger] children@[b]));
                    assert forall|k: int| 0 <= k < records@.len()
                        implies accounted(path.deep_view(), children@, i as int + 1,
                            (#[trigger] records@[k])@, path@.len() == 1) by {
                        if k < r0.len() {
                            lemma_accounted_mono(path.deep_view(), children@, i as int,
                                i as int + 1, records@[k]@, path@.len() == 1);
                        } else {
                            assert(record_from(path.deep_view(), children@[i as int],
                                records@[k]@, path@.len() == 1));
                            assert(0 <= i < i + 1);
                        }
                    }
                    assert forall|k1: int, k2: int| 0 <= k1 < k2 < records@.len()
                        implies (#[trigger] records@[k1])@.path
                            != (#[trigger] records@[k2])@.path by {
                        if k1 < r0.len() && k2 >= r0.len() {
                            let j = choose|j: int| 0 <= j < i
                                && record_from(path.deep_view(), #[trigger] children@[j],
                                    records@[k1]@, path@.len() == 1);
                            lemma_record_from_head(path.deep_view(), children@[j],
                                records@[k1]@, path@.len() == 1);
                            assert(record_from(path.deep_view(), children@[i as int],
                                records@[k2]@, path@.len() == 1));
                            lemma_record_from_head(path.deep_view(),
                                children@[i as int], records@[k2]@, path@.len() == 1);
                            assert(node_name(children@[j])
                                != node_name(children@[i as int]));
                        }
                    }
                    lemma_survivor_step(children@, i as int);
                    assert((kept@.len() > 0) == (exists|j: int| 0 <= j < i + 1
                        && survives(#[trigger] children@[j])));
                    assert(child_handled(records@, actions@, kept@, path.deep_view(),
                        children@[i as int], path@.len() == 1));
                    assert forall|j: int| 0 <= j < i + 1 implies child_handled(records@,
                        actions@, kept@, path.deep_view(), #[trigger] children@[j],
                        path@.len() == 1) by {
                        if j < i {
                            lemma_child_handled_grow(r0, a0, q0, records@, actions@,
                                kept@, path.deep_view(), children@[j],
                                path@.len() == 1);
                        }
                    }
                }
                i += 1;
            }
        },
    }
    let ghost r1 = records@;
    let ghost a1 = actions@;
    let ghost q1 = kept@;
    let own = WorkItem {
        path: path_clone(path),
        depth: path.len() - 1,
        year: YearState::Pending,
        genre: bytes_clone(genre),
        source_year,
        is_dir: true,
        moved: false,
        root: bytes_clone(root),
    };
    records.push(own);
    proof {
        assert(own@.path.subrange(0, path.deep_view().len() as int)
            =~= path.deep_view());
        match node {
            FsNode::Dir { name: _, children: cs } => {
                assert forall|j: int| 0 <= j < cs@.len() implies child_handled(records@,
                    actions@, kept@, path.deep_view(), #[trigger] cs@[j],
                    path@.len() == 1) by {
                    lemma_child_handled_grow(r1, a1, q1, records@, actions@, kept@,
                        path.deep_view(), cs@[j], path@.len() == 1);
                }
                assert forall|k: int| 0 <= k < r1.len()
                    implies (#[trigger] records@[k])@.path != own@.path by {
                    let j = choose|j: int| 0 <= j < cs@.len()
                        && record_from(path.deep_view(), #[trigger] cs@[j],
                            records@[k]@, path@.len() == 1);
                    lemma_record_from_head(path.deep_view(), cs@[j], records@[k]@,
                        path@.len() == 1);
                }
            },
            FsNode::File { name: _ } => {},
        }
    }
    WalkOut { records, actions, kept }
}

fn name_of(n: &FsNode) -> (r: &Vec<u8>)
    ensures
        r@ == node_name(*n),
{
    match n {
        FsNode::File { name } => name,
        FsNode::Dir { name, children: _ } => name,
    }
}

/// Whether a snapshot entry satisfies the walk's precondition: sibling
/// names unique at every level below it.
pub fn tree_wf_check(node: &FsNode) -> (r: bool)
    ensures
        r == wf_tree(*node),
    decreases *node,
{
    match node {
        FsNode::File { name: _ } => true,
        FsNode::Dir { name: _, children } => {
            let n = children.len();
            let mut i: usize = 0;
            while i < n
                invariant
                    i <= n,
                    n == children@.len(),
                    node matches FsNode::Dir { name: _, children: cs } && cs == *children,
                    forall|a: int, b: int| 0 <= a < b < n && a < i
                        ==> node_name(#[trigger] children@[a])
                            != node_name(#[trigger] children@[b]),
                    forall|a: int| 0 <= a < i ==> wf_tree(#[trigger] children@[a]),
                decreases n - i,
            {
                let mut j: usize = i + 1;
                while j < n
                    invariant
                        i < j <= n,
                        n == children@.len(),
                        node matches FsNode::Dir { name: _, children: cs }
                            && cs == *children,
                        forall|b: int| i < b < j ==> node_name(children@[i as int])
                            != node_name(#[trigger] children@[b]),
                    decreases n - j,
                {
                    if bytes_eq(name_of(&children[i]), name_of(&children[j])) {
                        proof {
                            assert(node_name(children@[i as int])
                                == node_name(children@[j as int]));
                            assert(!wf_tree(*node));
                        }
                        return false;
                    }
                    j += 1;
                }
                proof {
                    assert(decreases_to!(*node => *children));
                    assert(decreases_to!(*children => children@));
                    assert(decreases_to!(children@ => children@[i as int]));
                }
                if !tree_wf_check(&children[i]) {
                    proof {
                        assert(!wf_tree(*node));
                    }
                    return false;
                }
                i += 1;
            }
            proof {
                assert(wf_tree(*node));
            }
            true
        },
    }
}

/// Whether a whole snapshot satisfies the scan's precondition: every root
/// entry well-formed, and no two root entries sharing a name.
pub fn snapshot_wf_check(entries: &Vec<FsNode>) -> (r: bool)
    ensures
        r == ({
            &&& forall|i: int| 0 <= i < entries@.len() ==> wf_tree(#[trigger] entries@[i])
            &&& forall|a: int, b: int| 0 <= a < b < entries@.len()
                ==> node_name(#[trigger] entries@[a]) != node_name(#[trigger] entries@[b])
        }),
{
    let n = entries.len();
    let mut i: usize = 0;
    while i < n
        invariant
            i <= n,
            n == entries@.len(),
            forall|a: int, b: int| 0 <= a < b < n && a < i
                ==> node_name(#[trigger] entries@[a]) != node_name(#[trigger] entries@[b]),
            forall|a: int| 0 <= a < i ==> wf_tree(#[trigger] entries@[a]),
        decreases n - i,
    {
        let mut j: usize = i + 1;
        while j < n
            invariant
                i < j <= n,
                n == entries@.len(),
                forall|b: int| i < b < j ==> node_name(entries@[i as int])
                    != node_name(#[trigger] entries@[b]),
            decreases n - j,
        {
            if bytes_eq(name_of(&entries[i]), name_of(&entries[j])) {
                proof {
                    assert(node_name(entries@[i as int]) == node_name(entries@[j as int]));
                }
                return false;
            }
            j += 1;
        }
        if !tree_wf_check(&entries[i]) {
            return false;
        }
        i += 1;
    }
    true
}

/// A top-level folder name that matches the convention's shape but whose
/// year component is not an integer: operator error, fatal for the run.
#[derive(Debug)]
pub struct TopNameError {
    pub name: Vec<u8>,
}

/// The pair parsed from a top folder's name left a record of that folder:
/// at depth 0, under the genre and source year the name encodes.
pub open spec fn top_recorded(records: Seq<WorkItem>, name: Seq<u8>, y: i32) -> bool {
    exists|k: int| 0 <= k < records.len()
        && (#[trigger] records[k])@.path == Seq::<Seq<u8>>::empty().push(name)
        && records[k]@.is_dir && records[k]@.depth == 0
        && records[k]@.genre == top_genre(name) && records[k]@.source_year == y
}

/// A root entry is accounted for: a dashed directory with an integer year
/// suffix is recorded; everything else asks nothing of the scan.
pub open spec fn top_folder_recorded(records: Seq<WorkItem>, e: FsNode) -> bool {
    match e {
        FsNode::Dir { name, children: _ } => first_dash(name@) >= 0
            ==> (match parse_i32_spec(top_year_text(name@)) {
                Some(y) => top_recorded(records, name@, y),
                None => true,
            }),
        FsNode::File { .. } => true,
    }
}

proof fn lemma_top_recorded_grow(r1: Seq<WorkItem>, r2: Seq<WorkItem>, e: FsNode)
    requires
        top_folder_recorded(r1, e),
        r1.len() <= r2.len(),
        forall|k: int| 0 <= k < r1.len() ==> r2[k] == r1[k],
    ensures
        top_folder_recorded(r2, e),
{
    match e {
        FsNode::Dir { name, children: _ } => {
            if first_dash(name@) >= 0 {
                match parse_i32_spec(top_year_text(name@)) {
                    Some(y) => {
                        let w = choose|k: int| 0 <= k < r1.len()
                            && (#[trigger] r1[k])@.path
                                == Seq::<Seq<u8>>::empty().push(name@)
                            && r1[k]@.is_dir && r1[k]@.depth == 0
                            && r1[k]@.genre == top_genre(name@)
                            && r1[k]@.source_year == y;
                        assert(r2[w] == r1[w]);
                    },
                    None => {},
                }
            }
        },
        FsNode::File { .. } => {},
    }
}

/// Some top folder among the first `upto` root entries accounts for the
/// record `it`: the record's path starts with that folder's name.
pub open spec fn scan_accounted(entries: Seq<FsNode>, upto: int, it: ItemView) -> bool {
    exists|j: int| 0 <= j < upto
        && ((#[trigger] entries[j]) matches FsNode::Dir { name, children: _ }
            && under(Seq::<Seq<u8>>::empty().push(name@), it.path))
}

proof fn lemma_scan_accounted_mono(entries: Seq<FsNode>, u1: int, u2: int, it: ItemView)
    requires
        scan_accounted(entries, u1, it),
        u1 <= u2,
    ensures
        scan_accounted(entries, u2, it),
{
    let w = choose|j: int| 0 <= j < u1
        && ((#[trigger] entries[j]) matches FsNode::Dir { name, children: _ }
            && under(Seq::<Seq<u8>>::empty().push(name@), it.path));
    assert(0 <= w < u2 && (entries[w] matches FsNode::Dir { name, children: _ }
        && under(Seq::<Seq<u8>>::empty().push(name@), it.path)));
}

/// A root entry that dooms the run: a directory whose dashed name does not
/// end in an integer year component.
pub open spec fn malformed_top(n: FsNode) -> bool {
    n matches FsNode::Dir { name, children: _ }
        && first_dash(name@) >= 0 && parse_i32_spec(top_year_text(name@)) is None
}

/// Walks a whole collection snapshot with unique sibling names: each
/// immediate child directory whose name has the `<genre>-<year>` shape is
/// parsed and walked; files and undashed directories at the root are left
/// alone; a malformed top name fails the run. `kept` holds the walked top
/// folders after cleaning; the records have distinct paths, and each lies
/// under the top folder that produced it.
pub fn scan_collection(entries: &Vec<FsNode>, root: &Vec<u8>) -> (r: Result<
    WalkOut,
    TopNameError,
>)
    requires
        forall|i: int| 0 <= i < entries@.len() ==> wf_tree(#[trigger] entries@[i]),
        forall|i: int, j: int| 0 <= i < j < entries@.len()
            ==> node_name(#[trigger] entries@[i]) != node_name(#[trigger] entries@[j]),
    ensures
        r matches Ok(out) ==> {
            &&& forall|k: int| 0 <= k < out.records@.len() ==> {
                let it = (#[trigger] out.records@[k])@;
                &&& !it.moved
                &&& it.year is Pending
                &&& it.root == root@
                &&& it.path.len() > 0
                &&& (it.is_dir ==> it.depth == it.path.len() - 1)
                &&& (!it.is_dir ==> is_song_spec(it.path.last()) && it.depth == 0
                    && it.path.len() == 2)
            }
            &&& forall|i: int| 0 <= i < out.kept@.len() ==> top_cleaned(#[trigger] out.kept@[i])
            &&& forall|k: int| 0 <= k < out.actions@.len()
                ==> wf_action(#[trigger] out.actions@[k])
            &&& forall|i: int| 0 <= i < entries@.len() ==> !malformed_top(#[trigger] entries@[i])
            &&& forall|i: int| 0 <= i < entries@.len()
                ==> top_folder_recorded(out.records@, #[trigger] entries@[i])
            &&& forall|k1: int, k2: int| 0 <= k1 < k2 < out.records@.len()
                ==> (#[trigger] out.records@[k1])@.path != (#[trigger] out.records@[k2])@.path
            &&& forall|k: int| 0 <= k < out.records@.len()
                ==> scan_accounted(entries@, entries@.len() as int,
                    (#[trigger] out.records@[k])@)
        },
        r matches Err(e) ==> exists|i: int| 0 <= i < entries@.len()
            && malformed_top(#[trigger] entries@[i])
            && (entries@[i] matches FsNode::Dir { name, children: _ } && e.name@ == name@),
{
    let mut records: Vec<WorkItem> = Vec::new();
    let mut actions: Vec<FsAction> = Vec::new();
    let mut kept: Vec<FsNode> = Vec::new();
    let mut i: usize = 0;
    while i < entries.len()
        invariant
            i <= entries@.len(),
            forall|k: int| 0 <= k < records@.len() ==> {
                let it = (#[trigger] records@[k])@;
                &&& !it.moved
                &&& it.year is Pending
                &&& it.root == root@
                &&& it.path.len() > 0
                &&& (it.is_dir ==> it.depth == it.path.len() - 1)
                &&& (!it.is_dir ==> is_song_spec(it.path.last()) && it.depth == 0
                    && it.path.len() == 2)
            },
            forall|k: int| 0 <= k < kept@.len() ==> top_cleaned(#[trigger] kept@[k]),
            forall|k: int| 0 <= k < actions@.len() ==> wf_action(#[trigger] actions@[k]),
            forall|j: int| 0 <= j < i ==> !malformed_top(#[trigger] entries@[j]),
            forall|j: int| 0 <= j < i
                ==> top_folder_recorded(records@, #[trigger] entries@[j]),
            forall|k1: int, k2: int| 0 <= k1 < k2 < records@.len()
                ==> (#[trigger] records@[k1])@.path != (#[trigger] records@[k2])@.path,
            forall|k: int| 0 <= k < records@.len()
                ==> scan_accounted(entries@, i as int, (#[trigger] records@[k])@),
            forall|j: int| 0 <= j < entries@.len() ==> wf_tree(#[trigger] entries@[j]),
            forall|a: int, b: int| 0 <= a < b < entries@.len()
                ==> node_name(#[trigger] entries@[a]) != node_name(#[trigger] entries@[b]),
        decreases entries@.len() - i,
    {
        let ghost r0 = records@;
        match &entries[i] {
            FsNode::File { name: _ } => {},
            FsNode::Dir { name, children: _ } => {
                match parse_top_name(name) {
                    TopName::NotTop => {},
                    TopName::Malformed => {
                        return Err(TopNameError { name: bytes_clone(name) });
                    },
                    TopName::Top { genre, source_year } => {
                        let mut path: Vec<Vec<u8>> = Vec::new();
                        path.push(bytes_clone(name));
                        proof {
                            assert(path.deep_view()
                                =~~= Seq::<Seq<u8>>::empty().push(name@));
                        }
                        let mut sub = walk_dir(&entries[i], &path, &genre, source_year,
                            root);
                        let ghost subr = sub.records@;
                        records.append(&mut sub.records);
                        proof {
                            let w = records@.len() - 1;
                            assert(records@[w] == subr.last());
                            assert(top_recorded(records@, name@, source_year));
                            assert forall|k: int| r0.len() <= k < records@.len()
                                implies under(Seq::<Seq<u8>>::empty().push(name@),
                                    (#[trigger] records@[k])@.path) by {
                                assert(records@[k] == subr[k - r0.len()]);
                                assert(under(path.deep_view(), records@[k]@.path));
                            }
                            assert(node_name(entries@[i as int]) == name@);
                            assert forall|k1: int, k2: int| 0 <= k1 < k2 < records@.len()
                                implies (#[trigger] records@[k1])@.path
                                    != (#[trigger] records@[k2])@.path by {
                                if k1 < r0.len() && k2 >= r0.len() {
                                    let j = choose|j: int| 0 <= j < i
                                        && ((#[trigger] entries@[j]) matches
                                            FsNode::Dir { name, children: _ }
                                            && under(Seq::<Seq<u8>>::empty().push(name@),
                                                records@[k1]@.path));
                                    match entries@[j] {
                                        FsNode::Dir { name: nj, children: _ } => {
                                            lemma_under_push_head(
                                                Seq::<Seq<u8>>::empty(), nj@,
                                                records@[k1]@.path);
                                            assert(records@[k1]@.path[0]
                                                == node_name(entries@[j]));
                                        },
                                        FsNode::File { name: _ } => {},
                                    }
                                    lemma_under_push_head(Seq::<Seq<u8>>::empty(),
                                        name@, records@[k2]@.path);
                                    assert(node_name(entries@[j])
                                        != node_name(entries@[i as int]));
                                } else if k1 >= r0.len() {
                                    assert(records@[k1] == subr[k1 - r0.len()]);
                                    assert(records@[k2] == subr[k2 - r0.len()]);
                                }
                            }
                        }
                        actions.append(&mut sub.actions);
                        kept.push(FsNode::Dir {
                            name: bytes_clone(name),
                            children: sub.kept,
                        });
                    },
                }
            },
        }
        proof {
            assert forall|j: int| 0 <= j < i + 1 implies top_folder_recorded(records@,
                #[trigger] entries@[j]) by {
                if j < i {
                    lemma_top_recorded_grow(r0, records@, entries@[j]);
                }
            }
            assert forall|k: int| 0 <= k < records@.len() implies scan_accounted(entries@,
                i as int + 1, (#[trigger] records@[k])@) by {
                if k < r0.len() {
                    lemma_scan_accounted_mono(entries@, i as int, i as int + 1,
                        records@[k]@);
                } else {
                    assert(0 <= i < i + 1);
                    assert(entries@[i as int] matches FsNode::Dir { name, children: _ }
                        && under(Seq::<Seq<u8>>::empty().push(name@),
                            records@[k]@.path));
                }
            }
        }
        i += 1;
    }
    Ok(WalkOut { records, actions, kept })
}

} // verus!

//! What a whole walk over the source directory finds.

use std::path::PathBuf;
use vstd::prelude::*;
use crate::index::{is_image_file, unlisted, walk_start, Found, IndexEntry, WalkModel};

verus! {

/// Something that is read from a directory.
pub struct Item {
    pub path: PathBuf,
    pub is_dir: bool,
    pub extension: Option<Seq<char>>,
}

/// The host's files: what is in each directory, and what the image at each path is to be
/// served as, if it is to be served.
pub struct Tree {
    pub items: spec_fn(PathBuf) -> Seq<Item>,
    pub probe: spec_fn(PathBuf) -> Option<Found>,
}

impl Tree {
    /// Directory `d` has an item with index `i`.
    pub open spec fn has(self, d: PathBuf, i: int) -> bool {
        0 <= i < (self.items)(d).len()
    }

    /// That item.
    pub open spec fn at(self, d: PathBuf, i: int) -> Item {
        (self.items)(d)[i]
    }

    /// No two items have the same path, and none has that of the root.
    pub open spec fn wf(self, root: PathBuf) -> bool {
        &&& forall|d: PathBuf, i: int, e: PathBuf, k: int|
            self.has(d, i) && self.has(e, k) && (#[trigger] self.at(d, i)).path == (
            #[trigger] self.at(e, k)).path ==> d == e && i == k
        &&& forall|d: PathBuf, i: int| self.has(d, i) ==> (#[trigger] self.at(d, i)).path != root
    }

    /// The item is an image that is to be served.
    pub open spec fn serves(self, d: PathBuf, i: int) -> bool {
        let it = self.at(d, i);
        &&& self.has(d, i)
        &&& is_image_file(it.is_dir, it.extension)
        &&& (self.probe)(it.path) is Some
    }

    /// The file that the item is served as.
    pub open spec fn file(self, d: PathBuf, i: int) -> IndexEntry {
        unlisted(self.at(d, i).path, (self.probe)(self.at(d, i).path)->0)
    }

    /// Item `i` of `e` is the directory `d`.
    pub open spec fn is_child(self, e: PathBuf, i: int, d: PathBuf) -> bool {
        self.has(e, i) && self.at(e, i).is_dir && self.at(e, i).path == d
    }

    /// `d` is a directory `depth` levels below the root.
    pub open spec fn lies_below(self, root: PathBuf, d: PathBuf, depth: nat) -> bool
        decreases depth,
    {
        if depth == 0 {
            d == root
        } else {
            exists|e: PathBuf, i: int|
                self.lies_below(root, e, (depth - 1) as nat) && #[trigger] self.is_child(e, i, d)
        }
    }

    /// `d` is a directory to be walked: the root, or any below it where subdirectories are
    /// walked too.
    pub open spec fn to_walk(self, root: PathBuf, recursive: bool, d: PathBuf) -> bool {
        d == root || (recursive && exists|depth: nat| self.lies_below(root, d, depth))
    }
}

/// The walk after one item: it is noted, and where it is an image that is to be served, the
/// file is.
pub open spec fn after_item(w: WalkModel, tree: Tree, d: PathBuf, i: int) -> WalkModel {
    let it = tree.at(d, i);
    let v = w.visited(it.path, it.is_dir);
    if tree.serves(d, i) {
        v.added(it.path, (tree.probe)(it.path)->0)
    } else {
        v
    }
}

/// The walk after the first `k` items of directory `d`.
pub open spec fn after_items(w: WalkModel, tree: Tree, d: PathBuf, k: int) -> WalkModel
    decreases k,
{
    if k <= 0 {
        w
    } else {
        after_item(after_items(w, tree, d, k - 1), tree, d, k - 1)
    }
}

/// The walk after `n` directories, or all that there are.
pub open spec fn after_dirs(w: WalkModel, tree: Tree, n: nat) -> WalkModel
    decreases n,
{
    if n == 0 {
        w
    } else {
        let v = after_dirs(w, tree, (n - 1) as nat);
        if v.dirs.len() == 0 {
            v
        } else {
            let d = v.dirs.last();
            after_items(v.popped(), tree, d, (tree.items)(d).len() as int)
        }
    }
}

/// A walk and what it has read: the directories `done`, and the first items of the one that
/// it is reading.
struct Reading {
    w: WalkModel,
    done: Set<PathBuf>,
    now: Option<(PathBuf, int)>,
}

impl Reading {
    /// The walk knows of the directory.
    spec fn knows(self, d: PathBuf) -> bool {
        ||| self.done.contains(d)
        ||| self.w.dirs.contains(d)
        ||| self.now is Some && self.now.unwrap().0 == d
    }

    /// The walk has read the item.
    spec fn has_read(self, d: PathBuf, i: int) -> bool {
        ||| self.done.contains(d)
        ||| self.now is Some && self.now.unwrap().0 == d && i < self.now.unwrap().1
    }

    spec fn parent_read(self, tree: Tree, d: PathBuf) -> bool {
        exists|e: PathBuf, i: int| self.has_read(e, i) && #[trigger] tree.is_child(e, i, d)
    }

    spec fn origin_read(self, tree: Tree, f: IndexEntry) -> bool {
        exists|d: PathBuf, i: int|
            self.has_read(d, i) && #[trigger] tree.serves(d, i) && f == tree.file(d, i)
    }

    spec fn wf(self, tree: Tree, root: PathBuf) -> bool {
        &&& self.knows(root)
        &&& forall|d: PathBuf| #[trigger]
            self.knows(d) ==> tree.to_walk(root, self.w.recursive, d)
        &&& forall|d: PathBuf| #[trigger] self.knows(d) && d != root ==> self.parent_read(tree, d)
        &&& self.w.recursive ==> forall|e: PathBuf, i: int, d: PathBuf|
            self.has_read(e, i) && #[trigger] tree.is_child(e, i, d) ==> self.knows(d)
        &&& self.w.dirs.no_duplicates()
        &&& forall|d: PathBuf| self.w.dirs.contains(d) ==> !#[trigger] self.done.contains(d)
        &&& self.now is Some ==> {
            &&& !self.w.dirs.contains(self.now.unwrap().0)
            &&& !self.done.contains(self.now.unwrap().0)
        }
        &&& forall|x: int|
            0 <= x < self.w.found.len() ==> self.origin_read(tree, #[trigger] self.w.found[x])
        &&& forall|d: PathBuf, i: int|
            self.has_read(d, i) && #[trigger] tree.serves(d, i) ==> self.w.found.contains(
                tree.file(d, i),
            )
        &&& forall|x: int, y: int|
            0 <= x < y < self.w.found.len() ==> (#[trigger] self.w.found[x]).chd_path != (
            #[trigger] self.w.found[y]).chd_path
    }
}

proof fn lemma_start(tree: Tree, root: PathBuf, recursive: bool)
    ensures
        (Reading { w: walk_start(root, recursive), done: Set::empty(), now: None }).wf(tree, root),
{
    let r = Reading { w: walk_start(root, recursive), done: Set::empty(), now: None };
    assert(r.w.dirs[0] == root);
    assert(r.w.dirs.contains(root));
}

proof fn lemma_take_dir(r: Reading, tree: Tree, root: PathBuf)
    requires
        r.wf(tree, root),
        r.now is None,
        r.w.dirs.len() > 0,
    ensures
        (Reading { w: r.w.popped(), now: Some((r.w.dirs.last(), 0)), ..r }).wf(tree, root),
{
    let d = r.w.dirs.last();
    let t = Reading { w: r.w.popped(), now: Some((d, 0)), ..r };
    let rest = t.w.dirs;
    assert(r.w.dirs.contains(d));
    assert forall|e: PathBuf| #[trigger] rest.contains(e) implies r.w.dirs.contains(e) && e
        != d by {
        let i = choose|i: int| 0 <= i < rest.len() && rest[i] == e;
        assert(r.w.dirs[i] == e);
        assert(r.w.dirs[r.w.dirs.len() - 1] == d);
    }
    assert forall|e: PathBuf| #[trigger] r.w.dirs.contains(e) && e != d implies rest.contains(
        e,
    ) by {
        let i = choose|i: int| 0 <= i < r.w.dirs.len() && r.w.dirs[i] == e;
        assert(rest[i] == e);
    }
    assert forall|e: PathBuf| #[trigger] t.knows(e) <==> r.knows(e) by {}
    assert forall|e: PathBuf, i: int| tree.has(e, i) implies (#[trigger] t.has_read(e, i)
        <==> r.has_read(e, i)) by {}
    assert forall|e: PathBuf| #[trigger] t.knows(e) && e != root implies t.parent_read(
        tree,
        e,
    ) by {
        assert(r.knows(e));
        let (p, i) = choose|p: PathBuf, i: int|
            r.has_read(p, i) && #[trigger] tree.is_child(p, i, e);
        assert(t.has_read(p, i) && tree.is_child(p, i, e));
    }
    assert forall|x: int| 0 <= x < t.w.found.len() implies t.origin_read(
        tree,
        #[trigger] t.w.found[x],
    ) by {
        assert(r.origin_read(tree, r.w.found[x]));
        let (p, i) = choose|p: PathBuf, i: int|
            r.has_read(p, i) && #[trigger] tree.serves(p, i) && r.w.found[x] == tree.file(p, i);
        assert(t.has_read(p, i) && tree.serves(p, i));
    }
}

proof fn lemma_below(tree: Tree, root: PathBuf, e: PathBuf, i: int, d: PathBuf)
    requires
        tree.to_walk(root, true, e),
        tree.is_child(e, i, d),
    ensures
        tree.to_walk(root, true, d),
{
    let depth: nat = if e == root {
        0
    } else {
        choose|depth: nat| tree.lies_below(root, e, depth)
    };
    assert(tree.lies_below(root, e, depth));
    assert(tree.lies_below(root, d, depth + 1));
}

proof fn lemma_item(r: Reading, tree: Tree, root: PathBuf, d: PathBuf, k: int)
    requires
        r.wf(tree, root),
        tree.wf(root),
        r.now == Some((d, k)),
        tree.has(d, k),
    ensures
        (Reading { w: after_item(r.w, tree, d, k), now: Some((d, k + 1)), ..r }).wf(tree, root),
{
    let it = tree.at(d, k);
    let t = Reading { w: after_item(r.w, tree, d, k), now: Some((d, k + 1)), ..r };
    let pushed = it.is_dir && r.w.recursive;
    assert(r.knows(d));
    assert(!r.has_read(d, k));
    assert forall|e: PathBuf, i: int| #[trigger] t.has_read(e, i) <==> r.has_read(e, i) || (e == d
        && i == k) by {}
    if pushed {
        if r.knows(it.path) {
            let (p, i) = choose|p: PathBuf, i: int|
                r.has_read(p, i) && #[trigger] tree.is_child(p, i, it.path);
            assert(tree.at(p, i).path == tree.at(d, k).path);
        }
        lemma_below(tree, root, d, k, it.path);
        assert(t.w.dirs == r.w.dirs.push(it.path));
        assert(t.w.dirs[r.w.dirs.len() as int] == it.path);
    } else {
        assert(t.w.dirs == r.w.dirs);
    }
    assert forall|e: PathBuf| #[trigger] t.w.dirs.contains(e) <==> r.w.dirs.contains(e) || (pushed
        && e == it.path) by {
        if r.w.dirs.contains(e) {
            let i = choose|i: int| 0 <= i < r.w.dirs.len() && r.w.dirs[i] == e;
            assert(t.w.dirs[i] == e);
        }
        if t.w.dirs.contains(e) {
            let i = choose|i: int| 0 <= i < t.w.dirs.len() && t.w.dirs[i] == e;
            if i < r.w.dirs.len() {
                assert(r.w.dirs[i] == e);
            }
        }
    }
    assert forall|e: PathBuf| #[trigger] t.knows(e) <==> r.knows(e) || (pushed && e
        == it.path) by {}
    assert forall|e: PathBuf| #[trigger] t.knows(e) && e != root implies t.parent_read(
        tree,
        e,
    ) by {
        if r.knows(e) {
            let (p, i) = choose|p: PathBuf, i: int|
                r.has_read(p, i) && #[trigger] tree.is_child(p, i, e);
            assert(t.has_read(p, i) && tree.is_child(p, i, e));
        } else {
            assert(t.has_read(d, k) && tree.is_child(d, k, e));
        }
    }
    assert(t.w.dirs.no_duplicates()) by {
        if pushed {
            assert forall|i: int, j: int| 0 <= i < t.w.dirs.len() && 0 <= j < t.w.dirs.len() && i
                != j implies t.w.dirs[i] != t.w.dirs[j] by {
                if i == r.w.dirs.len() {
                    assert(r.w.dirs.contains(r.w.dirs[j]));
                } else if j == r.w.dirs.len() {
                    assert(r.w.dirs.contains(r.w.dirs[i]));
                }
            }
        }
    }
    let old_found = r.w.found;
    let found = t.w.found;
    assert forall|x: int| 0 <= x < old_found.len() implies {
        &&& t.origin_read(tree, #[trigger] old_found[x])
        &&& old_found[x].chd_path != it.path
    } by {
        assert(r.origin_read(tree, old_found[x]));
        let (p, i) = choose|p: PathBuf, i: int|
            r.has_read(p, i) && #[trigger] tree.serves(p, i) && old_found[x] == tree.file(p, i);
        assert(t.has_read(p, i) && tree.serves(p, i));
        if tree.at(p, i).path == tree.at(d, k).path {
            assert(p == d && i == k);
        }
    }
    if tree.serves(d, k) {
        assert(found == old_found.push(tree.file(d, k)));
        assert(t.has_read(d, k) && tree.serves(d, k));
        assert(found[old_found.len() as int] == tree.file(d, k));
    } else {
        assert(found == old_found);
    }
    assert forall|e: PathBuf, i: int|
        t.has_read(e, i) && #[trigger] tree.serves(e, i) implies found.contains(
        tree.file(e, i),
    ) by {
        if r.has_read(e, i) {
            assert(old_found.contains(tree.file(e, i)));
            let x = choose|x: int| 0 <= x < old_found.len() && old_found[x] == tree.file(e, i);
            assert(found[x] == tree.file(e, i));
        }
    }
    assert forall|x: int| 0 <= x < found.len() implies t.origin_read(
        tree,
        #[trigger] found[x],
    ) by {
        if x < old_found.len() {
            assert(found[x] == old_found[x]);
        }
    }
    assert forall|x: int, y: int| 0 <= x < y < found.len() implies (#[trigger] found[x]).chd_path
        != (#[trigger] found[y]).chd_path by {
        assert(found[x] == old_found[x]);
        if y < old_found.len() {
            assert(found[y] == old_found[y]);
        }
    }
}

proof fn lemma_items(r: Reading, tree: Tree, root: PathBuf, d: PathBuf, k: int)
    requires
        r.wf(tree, root),
        tree.wf(root),
        r.now == Some((d, 0int)),
        0 <= k <= (tree.items)(d).len(),
    ensures
        (Reading { w: after_items(r.w, tree, d, k), now: Some((d, k)), ..r }).wf(tree, root),
    decreases k,
{
    if k > 0 {
        lemma_items(r, tree, root, d, k - 1);
        let t = Reading { w: after_items(r.w, tree, d, k - 1), now: Some((d, k - 1)), ..r };
        lemma_item(t, tree, root, d, k - 1);
    }
}

proof fn lemma_dir_done(r: Reading, tree: Tree, root: PathBuf, d: PathBuf)
    requires
        r.wf(tree, root),
        r.now == Some((d, (tree.items)(d).len() as int)),
    ensures
        (Reading { done: r.done.insert(d), now: None, ..r }).wf(tree, root),
{
    let t = Reading { done: r.done.insert(d), now: None, ..r };
    assert forall|e: PathBuf| #[trigger] t.knows(e) <==> r.knows(e) by {}
    assert forall|e: PathBuf, i: int| tree.has(e, i) implies (#[trigger] t.has_read(e, i)
        <==> r.has_read(e, i)) by {}
    assert forall|e: PathBuf| #[trigger] t.knows(e) && e != root implies t.parent_read(
        tree,
        e,
    ) by {
        assert(r.knows(e));
        let (p, i) = choose|p: PathBuf, i: int|
            r.has_read(p, i) && #[trigger] tree.is_child(p, i, e);
        assert(t.has_read(p, i) && tree.is_child(p, i, e));
    }
    assert forall|x: int| 0 <= x < t.w.found.len() implies t.origin_read(
        tree,
        #[trigger] t.w.found[x],
    ) by {
        assert(r.origin_read(tree, r.w.found[x]));
        let (p, i) = choose|p: PathBuf, i: int|
            r.has_read(p, i) && #[trigger] tree.serves(p, i) && r.w.found[x] == tree.file(p, i);
        assert(t.has_read(p, i) && tree.serves(p, i));
    }
}

proof fn lemma_dirs(tree: Tree, root: PathBuf, recursive: bool, n: nat) -> (done: Set<PathBuf>)
    requires
        tree.wf(root),
    ensures
        (Reading {
            w: after_dirs(walk_start(root, recursive), tree, n),
            done,
            now: None,
        }).wf(tree, root),
        after_dirs(walk_start(root, recursive), tree, n).recursive == recursive,
    decreases n,
{
    let start = walk_start(root, recursive);
    if n == 0 {
        lemma_start(tree, root, recursive);
        Set::empty()
    } else {
        let done = lemma_dirs(tree, root, recursive, (n - 1) as nat);
        let v = after_dirs(start, tree, (n - 1) as nat);
        if v.dirs.len() == 0 {
            done
        } else {
            let d = v.dirs.last();
            let len = (tree.items)(d).len() as int;
            let r = Reading { w: v, done, now: None };
            lemma_take_dir(r, tree, root);
            let t = Reading { w: v.popped(), now: Some((d, 0int)), ..r };
            lemma_items(t, tree, root, d, len);
            let u = Reading { w: after_items(t.w, tree, d, len), now: Some((d, len)), ..t };
            lemma_dir_done(u, tree, root, d);
            lemma_items_keep_mode(t.w, tree, d, len);
            done.insert(d)
        }
    }
}

proof fn lemma_items_keep_mode(w: WalkModel, tree: Tree, d: PathBuf, k: int)
    ensures
        after_items(w, tree, d, k).recursive == w.recursive,
    decreases k,
{
    if k > 0 {
        lemma_items_keep_mode(w, tree, d, k - 1);
    }
}

proof fn lemma_all_done(r: Reading, tree: Tree, root: PathBuf, d: PathBuf, depth: nat)
    requires
        r.wf(tree, root),
        r.now is None,
        r.w.dirs.len() == 0,
        r.w.recursive,
        tree.lies_below(root, d, depth),
    ensures
        r.done.contains(d),
    decreases depth,
{
    assert(r.knows(root));
    if depth > 0 {
        let (e, i) = choose|e: PathBuf, i: int|
            tree.lies_below(root, e, (depth - 1) as nat) && #[trigger] tree.is_child(e, i, d);
        lemma_all_done(r, tree, root, e, (depth - 1) as nat);
        assert(r.has_read(e, i));
        assert(r.knows(d));
    }
}

/// The file is that of an image in a directory to be walked.
pub open spec fn comes_from_walk(
    tree: Tree,
    root: PathBuf,
    recursive: bool,
    f: IndexEntry,
) -> bool {
    exists|d: PathBuf, i: int|
        tree.to_walk(root, recursive, d) && #[trigger] tree.serves(d, i) && f == tree.file(d, i)
}

/// A walk that has come to its end has found exactly the images that are to be served: each
/// file with the extension `chd` in the root, or anywhere below it where subdirectories are
/// walked too, that the probe made something of, and each once.
pub proof fn law_walk_finds_images(tree: Tree, root: PathBuf, recursive: bool, n: nat)
    requires
        tree.wf(root),
        after_dirs(walk_start(root, recursive), tree, n).dirs.len() == 0,
    ensures
        ({
            let found = after_dirs(walk_start(root, recursive), tree, n).found;
            &&& forall|x: int|
                0 <= x < found.len() ==> comes_from_walk(tree, root, recursive, #[trigger] found[x])
            &&& forall|d: PathBuf, i: int|
                tree.to_walk(root, recursive, d) && #[trigger] tree.serves(d, i)
                    ==> found.contains(tree.file(d, i))
            &&& forall|x: int, y: int|
                0 <= x < y < found.len() ==> (#[trigger] found[x]).chd_path != (
                #[trigger] found[y]).chd_path
        }),
{
    let done = lemma_dirs(tree, root, recursive, n);
    let w = after_dirs(walk_start(root, recursive), tree, n);
    let r = Reading { w, done, now: None };
    assert(r.knows(root));
    assert forall|x: int| 0 <= x < w.found.len() implies comes_from_walk(
        tree,
        root,
        recursive,
        #[trigger] w.found[x],
    ) by {
        assert(r.origin_read(tree, w.found[x]));
        let (d, i) = choose|d: PathBuf, i: int|
            r.has_read(d, i) && #[trigger] tree.serves(d, i) && w.found[x] == tree.file(d, i);
        assert(r.knows(d));
        assert(tree.to_walk(root, recursive, d) && tree.serves(d, i));
    }
    assert forall|d: PathBuf, i: int|
        tree.to_walk(root, recursive, d) && #[trigger] tree.serves(d, i) implies w.found.contains(
        tree.file(d, i),
    ) by {
        if d != root {
            let depth = choose|depth: nat| tree.lies_below(root, d, depth);
            lemma_all_done(r, tree, root, d, depth);
        }
        assert(r.has_read(d, i));
    }
}

} // verus!

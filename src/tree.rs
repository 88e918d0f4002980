use vstd::prelude::*;

use crate::error::Error;
use crate::search::{get_largest_sub_entries, largest_children, lemma_largest_children_bounded};
use crate::snapshot::{Entry, Node, Snapshot, children_ok, nodes_wf};

verus! {

/// One line of a tree view: an entry, its aggregated size and its depth
/// (0 for the immediate children of the root).
#[derive(Clone, Copy, Debug, PartialEq, Eq, Structural)]
pub struct TreeNode {
    pub entry: usize,
    pub size: u64,
    pub depth: usize,
}

/// A directory, whether or not its listing could be read.
pub open spec fn is_dir(e: Entry) -> bool {
    e is Directory || e is Unlisted
}

/// `p` followed by the nodes of `r`, or the error of `r`.
pub open spec fn prepend(p: Seq<TreeNode>, r: Result<Seq<TreeNode>, Error>) -> Result<Seq<TreeNode>, Error> {
    match r {
        Ok(x) => Ok(p + x),
        Err(e) => Err(e),
    }
}

/// The tree view below node `d` at depth `depth`: nothing once `depth`
/// reaches a non-zero `max_depth`, nothing below an entry that is not a
/// directory (a file, a symlink, or a path whose metadata could not be read), and
/// otherwise the largest children of `d` in order, each followed by its own
/// tree view one level deeper when it is a directory.
pub open spec fn walk(fs: Seq<Node>, d: int, width: int, depth: int, max_depth: int) -> Result<Seq<TreeNode>, Error>
    decreases fs.len() - d, 1int, 0int,
{
    if max_depth != 0 && depth >= max_depth {
        Ok(Seq::empty())
    } else if !(0 <= d < fs.len()) {
        Ok(Seq::empty())
    } else if !is_dir(fs[d].entry) {
        Ok(Seq::empty())
    } else {
        match largest_children(fs, d, width) {
            Err(e) => Err(e),
            Ok(top) => walk_list(fs, d, top, 0, width, depth, max_depth),
        }
    }
}

/// The nodes for `top[k..]`, children of `parent`, at depth `depth`.
pub open spec fn walk_list(
    fs: Seq<Node>,
    parent: int,
    top: Seq<(usize, u64)>,
    k: int,
    width: int,
    depth: int,
    max_depth: int,
) -> Result<Seq<TreeNode>, Error>
    decreases fs.len() - parent, 0int, top.len() - k,
{
    if k < 0 || k >= top.len() {
        Ok(Seq::empty())
    } else {
        let c = top[k].0 as int;
        let node = TreeNode { entry: top[k].0, size: top[k].1, depth: depth as usize };
        let below = if c <= parent || c >= fs.len() {
            Ok(Seq::empty())
        } else if is_dir(fs[c].entry) {
            walk(fs, c, width, depth + 1, max_depth)
        } else {
            Ok(Seq::empty())
        };
        match below {
            Err(e) => Err(e),
            Ok(b) => prepend(seq![node] + b, walk_list(fs, parent, top, k + 1, width, depth, max_depth)),
        }
    }
}

/// Depth bound of the tree view: every node lies at the starting depth or
/// deeper, and, when `max_depth` is not 0, above `max_depth`.
pub proof fn lemma_walk_depth_bound(fs: Seq<Node>, d: int, width: int, depth: int, max_depth: int)
    requires
        0 <= depth <= d,
        fs.len() <= usize::MAX,
        0 <= max_depth,
    ensures
        walk(fs, d, width, depth, max_depth) matches Ok(ns) ==> forall|j: int| 0 <= j < ns.len() ==> {
            &&& depth <= (#[trigger] ns[j]).depth
            &&& (max_depth != 0 ==> ns[j].depth < max_depth)
        },
    decreases fs.len() - d, 1int, 0int,
{
    if !(max_depth != 0 && depth >= max_depth) && 0 <= d < fs.len() && is_dir(fs[d].entry) {
        if let Ok(top) = largest_children(fs, d, width) {
            lemma_walk_list_depth_bound(fs, d, top, 0, width, depth, max_depth);
        }
    }
}

proof fn lemma_walk_list_depth_bound(
    fs: Seq<Node>,
    parent: int,
    top: Seq<(usize, u64)>,
    k: int,
    width: int,
    depth: int,
    max_depth: int,
)
    requires
        0 <= depth <= parent < fs.len(),
        fs.len() <= usize::MAX,
        0 <= max_depth,
        max_depth != 0 ==> depth < max_depth,
    ensures
        walk_list(fs, parent, top, k, width, depth, max_depth) matches Ok(ns) ==> forall|j: int| 0 <= j < ns.len() ==> {
            &&& depth <= (#[trigger] ns[j]).depth
            &&& (max_depth != 0 ==> ns[j].depth < max_depth)
        },
    decreases fs.len() - parent, 0int, top.len() - k,
{
    if 0 <= k < top.len() {
        let c = top[k].0 as int;
        let node = TreeNode { entry: top[k].0, size: top[k].1, depth: depth as usize };
        lemma_walk_list_depth_bound(fs, parent, top, k + 1, width, depth, max_depth);
        if parent < c < fs.len() && is_dir(fs[c].entry) {
            lemma_walk_depth_bound(fs, c, width, depth + 1, max_depth);
        }
        let below = if c <= parent || c >= fs.len() {
            Ok(Seq::empty())
        } else if is_dir(fs[c].entry) {
            walk(fs, c, width, depth + 1, max_depth)
        } else {
            Ok(Seq::<TreeNode>::empty())
        };
        if let Ok(b) = below {
            if let Ok(rest) = walk_list(fs, parent, top, k + 1, width, depth, max_depth) {
                let ns = seq![node] + b + rest;
                assert forall|j: int| 0 <= j < ns.len() implies {
                    &&& depth <= (#[trigger] ns[j]).depth
                    &&& (max_depth != 0 ==> ns[j].depth < max_depth)
                } by {
                    if j == 0 {
                    } else if j < 1 + b.len() {
                        assert(ns[j] == b[j - 1]);
                    } else {
                        assert(ns[j] == rest[j - 1 - b.len()]);
                    }
                }
            }
        }
    }
}

/// With `max_depth` 0 the depth never cuts the view short: it equals the
/// view under any limit deeper than the snapshot can nest below `d`.
pub proof fn lemma_unlimited_depth(fs: Seq<Node>, d: int, width: int, depth: int, limit: int)
    requires
        0 <= d < fs.len(),
        0 <= depth,
        limit > depth + (fs.len() - d),
    ensures
        walk(fs, d, width, depth, 0) == walk(fs, d, width, depth, limit),
    decreases fs.len() - d, 1int, 0int,
{
    if is_dir(fs[d].entry) {
        if let Ok(top) = largest_children(fs, d, width) {
            lemma_unlimited_depth_list(fs, d, top, 0, width, depth, limit);
        }
    }
}

proof fn lemma_unlimited_depth_list(
    fs: Seq<Node>,
    parent: int,
    top: Seq<(usize, u64)>,
    k: int,
    width: int,
    depth: int,
    limit: int,
)
    requires
        0 <= parent < fs.len(),
        0 <= depth,
        limit > depth + (fs.len() - parent),
    ensures
        walk_list(fs, parent, top, k, width, depth, 0) == walk_list(fs, parent, top, k, width, depth, limit),
    decreases fs.len() - parent, 0int, top.len() - k,
{
    if 0 <= k < top.len() {
        let c = top[k].0 as int;
        if parent < c < fs.len() && is_dir(fs[c].entry) {
            lemma_unlimited_depth(fs, c, width, depth + 1, limit);
        }
        lemma_unlimited_depth_list(fs, parent, top, k + 1, width, depth, limit);
    }
}

fn walk_entries(
    fs: &Snapshot,
    directory: usize,
    max_length: u8,
    current_depth: usize,
    max_depth: u8,
    out: &mut Vec<TreeNode>,
) -> (r: Result<(), Error>)
    requires
        fs.wf(),
        directory < fs.nodes@.len(),
        current_depth <= directory,
    ensures
        match walk(fs.nodes@, directory as int, max_length as int, current_depth as int, max_depth as int) {
            Ok(w) => r is Ok && final(out)@ == old(out)@ + w,
            Err(e) => r == Err::<(), Error>(e),
        },
        old(out)@.len() <= final(out)@.len(),
        final(out)@.subrange(0, old(out)@.len() as int) == old(out)@,
    decreases fs.nodes@.len() - directory,
{
    if current_depth >= max_depth as usize && max_depth != 0 {
        proof {
            assert(old(out)@ + Seq::<TreeNode>::empty() =~= old(out)@);
        }
        return Ok(());
    }
    match &fs.nodes[directory].entry {
        Entry::File { .. } | Entry::Symlink { .. } | Entry::Failed { .. } => {
            proof {
                assert(old(out)@ + Seq::<TreeNode>::empty() =~= old(out)@);
            }
            return Ok(());
        },
        _ => {},
    }
    let top = match get_largest_sub_entries(fs, directory, max_length) {
        Err(e) => {
            return Err(e);
        },
        Ok(top) => top,
    };
    proof {
        lemma_largest_children_bounded(fs.nodes@, directory as int, max_length as int);
        assert(children_ok(fs.nodes@, directory as int));
    }
    let ghost fsv = fs.nodes@;
    let ghost d = directory as int;
    let ghost w = max_length as int;
    let ghost depth = current_depth as int;
    let ghost m = max_depth as int;
    let ghost out0 = out@;
    let ghost mut done: Seq<TreeNode> = Seq::empty();
    let mut k: usize = 0;
    while k < top.len()
        invariant
            fs.wf(),
            fsv == fs.nodes@,
            d == directory as int,
            d < fsv.len(),
            current_depth <= directory,
            w == max_length as int,
            depth == current_depth as int,
            m == max_depth as int,
            k <= top@.len(),
            out@ == out0 + done,
            out0 == old(out)@,
            walk(fsv, d, w, depth, m) == prepend(done, walk_list(fsv, d, top@, k as int, w, depth, m)),
            forall|j: int| 0 <= j < top@.len() ==> d < #[trigger] top@[j].0 && top@[j].0 < fsv.len(),
        decreases top@.len() - k,
    {
        let (c, size) = top[k];
        let node = TreeNode { entry: c, size, depth: current_depth };
        out.push(node);
        proof {
            assert(d < top@[k as int].0);
        }
        let ghost mid = out@;
        let descend = match &fs.nodes[c].entry {
            Entry::Directory { .. } | Entry::Unlisted { .. } => true,
            _ => false,
        };
        if descend {
            match walk_entries(fs, c, max_length, current_depth + 1, max_depth, out) {
                Err(e) => {
                    proof {
                        assert(out@.subrange(0, out0.len() as int) =~= out@.subrange(0, mid.len() as int).subrange(0, out0.len() as int));
                        assert(mid.subrange(0, out0.len() as int) =~= out0);
                    }
                    return Err(e);
                },
                Ok(()) => {},
            }
        }
        proof {
            let b = if descend { walk(fsv, c as int, w, depth + 1, m)->Ok_0 } else { Seq::<TreeNode>::empty() };
            assert(out@ == mid + b);
            let rest = walk_list(fsv, d, top@, k + 1, w, depth, m);
            assert(walk_list(fsv, d, top@, k as int, w, depth, m) == prepend(seq![node] + b, rest));
            let done2 = done + (seq![node] + b);
            assert(out@ =~= out0 + done2);
            match rest {
                Ok(x) => {
                    assert(done + ((seq![node] + b) + x) =~= done2 + x);
                },
                Err(_) => {},
            }
            done = done2;
        }
        k += 1;
    }
    proof {
        assert(done + Seq::<TreeNode>::empty() =~= done);
    }
    Ok(())
}

/// Returns the bounded tree view below the entry at index `directory`: for
/// each level, the `width` largest children (larger first), each followed by
/// its own subtree when it is a directory, down to `max_depth` levels
/// (0 for no limit). Fails with the first error met.
pub fn walk_tree(fs: &Snapshot, directory: usize, width: u8, max_depth: u8) -> (r: Result<Vec<TreeNode>, Error>)
    requires
        fs.wf(),
        directory < fs.nodes@.len(),
    ensures
        match walk(fs.nodes@, directory as int, width as int, 0, max_depth as int) {
            Ok(w) => r is Ok && r->Ok_0@ == w,
            Err(e) => r == Err::<Vec<TreeNode>, Error>(e),
        },
{
    let mut out: Vec<TreeNode> = Vec::new();
    match walk_entries(fs, directory, width, 0, max_depth, &mut out) {
        Err(e) => Err(e),
        Ok(()) => {
            proof {
                assert(Seq::<TreeNode>::empty() + walk(fs.nodes@, directory as int, width as int, 0, max_depth as int)->Ok_0
                    =~= out@);
            }
            Ok(out)
        },
    }
}

} // verus!

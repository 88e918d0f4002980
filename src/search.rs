use vstd::prelude::*;

use crate::config::Config;
use crate::error::{Error, IoKind};
use crate::ranking::{lemma_sort_desc, lemma_sort_desc_distinct, sort_desc, sorted_desc, top_n};
use crate::size_map::{empty_size_map, insert_size, size_entries, size_pairs, sort_larger_first, truncate_sizes};
use crate::snapshot::{Entry, Node, Snapshot, aggregate, children_ok, entry_size, nodes_wf, sum_from, top_size};

verus! {

/// Whether `inode` was already counted.
fn holds_inode(inodes: &Vec<u64>, inode: u64) -> (r: bool)
    ensures
        r == inodes@.contains(inode),
{
    let mut k: usize = 0;
    while k < inodes.len()
        invariant
            k <= inodes.len(),
            forall|j: int| 0 <= j < k ==> inodes@[j] != inode,
        decreases inodes.len() - k,
    {
        if inodes[k] == inode {
            return true;
        }
        k += 1;
    }
    false
}

/// Size of the entry at index `i` met below the top of an aggregation.
fn size_within(fs: &Snapshot, i: usize, seen: &mut Vec<u64>) -> (r: Result<u64, Error>)
    requires
        fs.wf(),
        i < fs.nodes@.len(),
    ensures
        match entry_size(fs.nodes@, i as int, old(seen)@) {
            Ok((s, seen2)) => 0 <= s <= u64::MAX && r == Ok::<u64, Error>(s as u64) && final(seen)@ == seen2,
            Err(e) => r == Err::<u64, Error>(e),
        },
    decreases fs.nodes@.len() - i,
{
    proof {
        assert(children_ok(fs.nodes@, i as int));
    }
    match &fs.nodes[i].entry {
        Entry::File { len, inode, links } => {
            if *links > 1 {
                if holds_inode(seen, *inode) {
                    Ok(0)
                } else {
                    seen.push(*inode);
                    Ok(*len)
                }
            } else {
                Ok(*len)
            }
        },
        Entry::Symlink { len } => Ok(*len),
        Entry::Unlisted { kind, .. } => Err(Error::IoError { kind: *kind }),
        Entry::Failed { kind } => Err(Error::IoError { kind: *kind }),
        Entry::Directory { len, children } => {
            let ghost seen0 = seen@;
            let mut acc: u64 = *len;
            let mut k: usize = 0;
            while k < children.len()
                invariant
                    fs.wf(),
                    i < fs.nodes@.len(),
                    fs.nodes@[i as int].entry == (Entry::Directory { len: *len, children: *children }),
                    k <= children@.len(),
                    seen0 == old(seen)@,
                    children_ok(fs.nodes@, i as int),
                    sum_from(fs.nodes@, i as int, children@, 0, *len as int, seen0)
                        == sum_from(fs.nodes@, i as int, children@, k as int, acc as int, seen@),
                decreases children@.len() - k,
            {
                let c: usize = children[k];
                proof {
                    assert(i < children@[k as int]);
                }
                match size_within(fs, c, seen) {
                    Err(e) => {
                        return Err(e);
                    },
                    Ok(s) => {
                        if s > u64::MAX - acc {
                            return Err(Error::SizeOverflow);
                        }
                        acc = acc + s;
                    },
                }
                k += 1;
            }
            Ok(acc)
        },
    }
}

/// Returns the size in bytes of the entry at index `entry`, recursing into
/// directories. Symbolic links count their own size and are never followed.
/// A file with more than one hard link is counted only if its inode is not
/// yet in `hardlinked_inodes`, which then records it. A file given directly
/// counts in full.
///
/// Fails with the error of the first path met that could not be read, or
/// with `SizeOverflow` when a partial sum exceeds 64 bits.
pub fn get_fs_entry_size(fs: &Snapshot, entry: usize, hardlinked_inodes: &mut Vec<u64>) -> (r: Result<u64, Error>)
    requires
        fs.wf(),
        entry < fs.nodes@.len(),
    ensures
        match top_size(fs.nodes@, entry as int, old(hardlinked_inodes)@) {
            Ok((s, seen)) => r == Ok::<u64, Error>(s as u64) && final(hardlinked_inodes)@ == seen,
            Err(e) => r == Err::<u64, Error>(e),
        },
{
    match &fs.nodes[entry].entry {
        Entry::File { len, .. } => Ok(*len),
        _ => size_within(fs, entry, hardlinked_inodes),
    }
}

/// The children `ch[..k]` paired with their aggregated sizes, each child with
/// a dedup set of its own; the first failure otherwise.
pub open spec fn child_sizes(fs: Seq<Node>, ch: Seq<usize>, k: int) -> Result<Seq<(usize, u64)>, Error>
    decreases k,
{
    if k <= 0 {
        Ok(Seq::empty())
    } else {
        match child_sizes(fs, ch, k - 1) {
            Err(e) => Err(e),
            Ok(prev) => match aggregate(fs, ch[k - 1] as int) {
                Err(e) => Err(e),
                Ok(s) => Ok(prev.push((ch[k - 1], s as u64))),
            },
        }
    }
}

/// Once a prefix of the children fails, every longer prefix fails the same way.
proof fn lemma_child_sizes_err(fs: Seq<Node>, ch: Seq<usize>, k: int, m: int)
    requires
        0 < k <= m,
        child_sizes(fs, ch, k) is Err,
    ensures
        child_sizes(fs, ch, m) == child_sizes(fs, ch, k),
    decreases m - k,
{
    if m > k {
        lemma_child_sizes_err(fs, ch, k, m - 1);
    }
}

/// A successful listing pairs each child, in order, with its aggregated size.
proof fn lemma_child_sizes_ok(fs: Seq<Node>, ch: Seq<usize>, k: int)
    requires
        0 <= k <= ch.len(),
        child_sizes(fs, ch, k) is Ok,
    ensures
        child_sizes(fs, ch, k)->Ok_0.len() == k,
        forall|j: int| 0 <= j < k ==> {
            let e = #[trigger] child_sizes(fs, ch, k)->Ok_0[j];
            e.0 == ch[j] && aggregate(fs, ch[j] as int) == Ok::<int, Error>(e.1 as int)
        },
    decreases k,
{
    if k > 0 {
        lemma_child_sizes_ok(fs, ch, k - 1);
        lemma_aggregate_in_range(fs, ch[k - 1] as int);
        let prev = child_sizes(fs, ch, k - 1)->Ok_0;
        assert forall|j: int| 0 <= j < k - 1 implies #[trigger] child_sizes(fs, ch, k)->Ok_0[j] == prev[j] by {}
    }
}

/// An aggregated size fits in 64 bits.
pub proof fn lemma_aggregate_in_range(fs: Seq<Node>, i: int)
    ensures
        aggregate(fs, i) matches Ok(s) ==> 0 <= s <= u64::MAX,
{
    lemma_top_size_in_range(fs, i, Seq::empty());
}

proof fn lemma_top_size_in_range(fs: Seq<Node>, i: int, seen: Seq<u64>)
    ensures
        top_size(fs, i, seen) matches Ok((s, _)) ==> 0 <= s <= u64::MAX,
{
    lemma_entry_size_in_range(fs, i, seen);
}

proof fn lemma_entry_size_in_range(fs: Seq<Node>, i: int, seen: Seq<u64>)
    ensures
        entry_size(fs, i, seen) matches Ok((s, _)) ==> 0 <= s <= u64::MAX,
    decreases fs.len() - i, 1int, 0int,
{
    if 0 <= i < fs.len() {
        if let Entry::Directory { len, children } = fs[i].entry {
            lemma_sum_from_in_range(fs, i, children@, 0, len as int, seen);
        }
    }
}

proof fn lemma_sum_from_in_range(fs: Seq<Node>, parent: int, ch: Seq<usize>, k: int, acc: int, seen: Seq<u64>)
    requires
        0 <= acc <= u64::MAX,
    ensures
        sum_from(fs, parent, ch, k, acc, seen) matches Ok((s, _)) ==> 0 <= s <= u64::MAX,
    decreases fs.len() - parent, 0int, ch.len() - k,
{
    if 0 <= k < ch.len() && parent < ch[k] < fs.len() {
        lemma_entry_size_in_range(fs, ch[k] as int, seen);
        if let Ok((s, seen2)) = entry_size(fs, ch[k] as int, seen) {
            if acc + s <= u64::MAX {
                lemma_sum_from_in_range(fs, parent, ch, k + 1, acc + s, seen2);
            }
        }
    }
}

/// The top-N selector returns `min(width, number of children)` entries,
/// sorted by descending size, each of them a child of the directory paired
/// with that child's own aggregated size, no child twice.
pub proof fn lemma_largest_children_bounded(fs: Seq<Node>, d: int, width: int)
    requires
        nodes_wf(fs),
        0 <= d < fs.len(),
        0 <= width,
        largest_children(fs, d, width) is Ok,
    ensures
        ({
            let top = largest_children(fs, d, width)->Ok_0;
            let children = fs[d].entry->children@;
            &&& fs[d].entry is Directory
            &&& top.len() == if width < children.len() { width } else { children.len() as int }
            &&& sorted_desc(top)
            &&& forall|j: int| 0 <= j < top.len() ==> {
                &&& children.contains(#[trigger] top[j].0)
                &&& aggregate(fs, top[j].0 as int) == Ok::<int, Error>(top[j].1 as int)
            }
            &&& forall|a: int, b: int| 0 <= a < b < top.len() ==> top[a].0 != top[b].0
        }),
{
    let children = fs[d].entry->children@;
    let n = children.len() as int;
    lemma_child_sizes_ok(fs, children, n);
    let sizes = child_sizes(fs, children, n)->Ok_0;
    lemma_sort_desc(sizes);
    let sorted = sort_desc(sizes);
    let top = largest_children(fs, d, width)->Ok_0;
    assert(top == top_n(sizes, width));
    assert forall|j: int| 0 <= j < top.len() implies {
        &&& children.contains(#[trigger] top[j].0)
        &&& aggregate(fs, top[j].0 as int) == Ok::<int, Error>(top[j].1 as int)
    } by {
        assert(top[j] == sorted[j]);
        assert(sorted.contains(sorted[j]));
        let m = choose|m: int| 0 <= m < sizes.len() && sizes[m] == sorted[j];
        assert(child_sizes(fs, children, n)->Ok_0[m] == sizes[m]);
        assert(children[m] == top[j].0);
    }
    assert(children_ok(fs, d));
    assert(sizes.no_duplicates()) by {
        assert forall|a: int, b: int| 0 <= a < sizes.len() && 0 <= b < sizes.len() && a != b implies sizes[a] != sizes[b] by {
            assert(child_sizes(fs, children, n)->Ok_0[a] == sizes[a]);
            assert(child_sizes(fs, children, n)->Ok_0[b] == sizes[b]);
        }
    }
    lemma_sort_desc_distinct(sizes);
    assert forall|a: int, b: int| 0 <= a < b < top.len() implies top[a].0 != top[b].0 by {
        assert(top[a] == sorted[a] && top[b] == sorted[b]);
        assert(sorted.contains(sorted[a]));
        assert(sorted.contains(sorted[b]));
        let p = choose|p: int| 0 <= p < sizes.len() && sizes[p] == sorted[a];
        let q = choose|q: int| 0 <= q < sizes.len() && sizes[q] == sorted[b];
        assert(child_sizes(fs, children, n)->Ok_0[p] == sizes[p]);
        assert(child_sizes(fs, children, n)->Ok_0[q] == sizes[q]);
        if top[a].0 == top[b].0 {
            assert(children[p] == children[q]);
            assert(p == q);
        }
    }
}

/// The up to `width` largest children of node `d`, larger first and in
/// listing order among equal sizes. Listing something that is not a
/// directory fails.
pub open spec fn largest_children(fs: Seq<Node>, d: int, width: int) -> Result<Seq<(usize, u64)>, Error> {
    match fs[d].entry {
        Entry::Directory { children, .. } => match child_sizes(fs, children@, children@.len() as int) {
            Err(e) => Err(e),
            Ok(sizes) => Ok(top_n(sizes, width)),
        },
        Entry::Unlisted { kind, .. } => Err(Error::IoError { kind }),
        Entry::Failed { kind } => Err(Error::IoError { kind }),
        _ => Err(Error::IoError { kind: IoKind::Other }),
    }
}

/// Returns the `amount` largest immediate children of the directory at
/// index `directory` with their aggregated sizes, larger first; children of
/// equal size keep their listing order. Each child is aggregated with a
/// dedup set of its own. Fails if the entry is not a readable directory or
/// if any child fails to aggregate.
pub fn get_largest_sub_entries(fs: &Snapshot, directory: usize, amount: u8) -> (r: Result<Vec<(usize, u64)>, Error>)
    requires
        fs.wf(),
        directory < fs.nodes@.len(),
    ensures
        match largest_children(fs.nodes@, directory as int, amount as int) {
            Ok(top) => r is Ok && r->Ok_0@ == top,
            Err(e) => r == Err::<Vec<(usize, u64)>, Error>(e),
        },
{
    match &fs.nodes[directory].entry {
        Entry::Directory { children, .. } => {
            proof {
                assert(children_ok(fs.nodes@, directory as int));
            }
            let mut sizes = empty_size_map();
            let mut k: usize = 0;
            while k < children.len()
                invariant
                    fs.wf(),
                    k <= children@.len(),
                    children_ok(fs.nodes@, directory as int),
                    fs.nodes@[directory as int].entry is Directory,
                    fs.nodes@[directory as int].entry->children == *children,
                    child_sizes(fs.nodes@, children@, k as int) == Ok::<Seq<(usize, u64)>, Error>(size_entries(sizes)),
                    size_entries(sizes).len() == k,
                    forall|j: int| 0 <= j < k ==> #[trigger] size_entries(sizes)[j].0 == children@[j],
                decreases children@.len() - k,
            {
                let c: usize = children[k];
                let mut inodes: Vec<u64> = Vec::new();
                match get_fs_entry_size(fs, c, &mut inodes) {
                    Err(e) => {
                        proof {
                            lemma_child_sizes_err(fs.nodes@, children@, k + 1, children@.len() as int);
                        }
                        return Err(e);
                    },
                    Ok(s) => {
                        proof {
                            assert forall|j: int| 0 <= j < size_entries(sizes).len() implies size_entries(sizes)[j].0 != c by {
                                assert(size_entries(sizes)[j].0 == children@[j]);
                                assert(children@.no_duplicates());
                            }
                        }
                        insert_size(&mut sizes, c, s);
                    },
                }
                k += 1;
            }
            sort_larger_first(&mut sizes);
            truncate_sizes(&mut sizes, amount as usize);
            Ok(size_pairs(sizes))
        },
        Entry::Unlisted { kind, .. } => Err(Error::IoError { kind: *kind }),
        Entry::Failed { kind } => Err(Error::IoError { kind: *kind }),
        _ => Err(Error::IoError { kind: IoKind::Other }),
    }
}

/// Outcome of a scan: the roots, by position in the configuration, whose
/// size reached the threshold, and the roots that could not be sized.
pub struct ScanReport {
    pub found: Vec<(usize, u64)>,
    pub failed: Vec<(usize, Error)>,
}

/// The roots among the first `k` whose size reaches `threshold`, in order.
pub open spec fn scan_found(trees: Seq<Snapshot>, threshold: int, k: int) -> Seq<(usize, u64)>
    decreases k,
{
    if k <= 0 {
        Seq::empty()
    } else {
        let prev = scan_found(trees, threshold, k - 1);
        match aggregate(trees[k - 1].nodes@, 0) {
            Ok(s) => if s >= threshold { prev.push(((k - 1) as usize, s as u64)) } else { prev },
            Err(_) => prev,
        }
    }
}

/// The roots among the first `k` that failed, with their errors, in order.
pub open spec fn scan_failed(trees: Seq<Snapshot>, k: int) -> Seq<(usize, Error)>
    decreases k,
{
    if k <= 0 {
        Seq::empty()
    } else {
        let prev = scan_failed(trees, k - 1);
        match aggregate(trees[k - 1].nodes@, 0) {
            Ok(_) => prev,
            Err(e) => prev.push(((k - 1) as usize, e)),
        }
    }
}

/// Every snapshot is well formed and has a root.
pub open spec fn roots_ok(trees: Seq<Snapshot>) -> bool {
    forall|k: int| 0 <= k < trees.len() ==> #[trigger] trees[k].wf() && trees[k].nodes@.len() > 0
}

/// Sizes each configured root, `trees[k]` being the snapshot read from
/// `config.directories[k]`, each with a fresh dedup set. Reports the roots
/// whose size is at least `config.max_file_size`; a root that fails is
/// recorded with its error and the scan goes on with the next one.
pub fn search_target_directories(config: &Config, trees: &Vec<Snapshot>) -> (r: ScanReport)
    requires
        trees@.len() == config.directories@.len(),
        roots_ok(trees@),
    ensures
        r.found@ == scan_found(trees@, config.max_file_size as int, trees@.len() as int),
        r.failed@ == scan_failed(trees@, trees@.len() as int),
{
    let mut found: Vec<(usize, u64)> = Vec::new();
    let mut failed: Vec<(usize, Error)> = Vec::new();
    let mut k: usize = 0;
    while k < trees.len()
        invariant
            k <= trees@.len(),
            roots_ok(trees@),
            found@ == scan_found(trees@, config.max_file_size as int, k as int),
            failed@ == scan_failed(trees@, k as int),
        decreases trees@.len() - k,
    {
        proof {
            assert(trees@[k as int].wf());
            lemma_aggregate_in_range(trees@[k as int].nodes@, 0);
        }
        let mut inodes: Vec<u64> = Vec::new();
        match get_fs_entry_size(&trees[k], 0, &mut inodes) {
            Ok(size) => {
                if size >= config.max_file_size {
                    found.push((k, size));
                }
            },
            Err(e) => {
                failed.push((k, e));
            },
        }
        k += 1;
    }
    ScanReport { found, failed }
}

/// Roots are independent: whatever the other roots hold, and whether or not
/// they fail, a root whose size reaches the threshold is reported with that
/// size, and a root that fails is recorded with its error.
pub proof fn lemma_scan_independent(trees: Seq<Snapshot>, threshold: int, k: int)
    requires
        0 <= k < trees.len(),
    ensures
        match aggregate(trees[k].nodes@, 0) {
            Ok(s) => s >= threshold ==> scan_found(trees, threshold, trees.len() as int).contains((k as usize, s as u64)),
            Err(e) => scan_failed(trees, trees.len() as int).contains((k as usize, e)),
        },
{
    lemma_scan_keeps(trees, threshold, k, trees.len() as int);
}

proof fn lemma_scan_keeps(trees: Seq<Snapshot>, threshold: int, k: int, m: int)
    requires
        0 <= k < m <= trees.len(),
    ensures
        match aggregate(trees[k].nodes@, 0) {
            Ok(s) => s >= threshold ==> scan_found(trees, threshold, m).contains((k as usize, s as u64)),
            Err(e) => scan_failed(trees, m).contains((k as usize, e)),
        },
    decreases m - k,
{
    if m == k + 1 {
        let f = scan_found(trees, threshold, m);
        let g = scan_failed(trees, m);
        if let Ok(s) = aggregate(trees[k].nodes@, 0) {
            if s >= threshold {
                assert(f[f.len() - 1] == (k as usize, s as u64));
            }
        } else {
            assert(g[g.len() - 1] == (k as usize, aggregate(trees[k].nodes@, 0)->Err_0));
        }
    } else {
        lemma_scan_keeps(trees, threshold, k, m - 1);
        let p = scan_found(trees, threshold, m - 1);
        let f = scan_found(trees, threshold, m);
        let q = scan_failed(trees, m - 1);
        let g = scan_failed(trees, m);
        assert forall|x: (usize, u64)| p.contains(x) implies f.contains(x) by {
            let j = choose|j: int| 0 <= j < p.len() && p[j] == x;
            assert(f[j] == x);
        }
        assert forall|x: (usize, Error)| q.contains(x) implies g.contains(x) by {
            let j = choose|j: int| 0 <= j < q.len() && q[j] == x;
            assert(g[j] == x);
        }
    }
}

} // verus!

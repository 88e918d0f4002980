use vstd::prelude::*;

use crate::error::{Error, IoKind};

verus! {

/// What a path turned out to be when it was read, without following symlinks.
pub enum Entry {
    /// A regular file, with the inode and hard-link count used for deduplication.
    File { len: u64, inode: u64, links: u64 },
    /// A symbolic link; `len` is the size of the link itself.
    Symlink { len: u64 },
    /// A directory with its own reported size and the arena indices of its children.
    Directory { len: u64, children: Vec<usize> },
    /// A directory whose own size was read but whose listing failed.
    Unlisted { len: u64, kind: IoKind },
    /// Reading the metadata of this path failed.
    Failed { kind: IoKind },
}

/// One path of a snapshot.
pub struct Node {
    pub path: String,
    pub entry: Entry,
}

/// A file tree read from disk, as an arena of nodes. Node 0 is the root.
/// Every child index of a directory is larger than the directory's own index.
pub struct Snapshot {
    pub nodes: Vec<Node>,
}

/// The children of directory `i` lie after it in the arena and are distinct.
pub open spec fn children_ok(fs: Seq<Node>, i: int) -> bool {
    match fs[i].entry {
        Entry::Directory { children, .. } => {
            &&& children@.no_duplicates()
            &&& forall|k: int|
                0 <= k < children@.len() ==> i < #[trigger] children@[k] && children@[k] < fs.len()
        },
        _ => true,
    }
}

pub open spec fn nodes_wf(fs: Seq<Node>) -> bool {
    forall|i: int| 0 <= i < fs.len() ==> #[trigger] children_ok(fs, i)
}

/// Whether `ch` is a valid child list for node `i` of an arena of `n` nodes.
fn children_fit(ch: &Vec<usize>, i: usize, n: usize) -> (r: bool)
    ensures
        r == (ch@.no_duplicates() && forall|k: int| 0 <= k < ch@.len() ==> i < #[trigger] ch@[k] && ch@[k] < n),
{
    let mut a: usize = 0;
    while a < ch.len()
        invariant
            a <= ch@.len(),
            forall|k: int| 0 <= k < a ==> i < #[trigger] ch@[k] && ch@[k] < n,
            forall|p: int, q: int| 0 <= p < a && 0 <= q < ch@.len() && p != q ==> ch@[p] != ch@[q],
        decreases ch@.len() - a,
    {
        if ch[a] <= i || ch[a] >= n {
            return false;
        }
        let mut b: usize = 0;
        while b < ch.len()
            invariant
                a < ch@.len(),
                b <= ch@.len(),
                forall|q: int| 0 <= q < b && q != a ==> ch@[a as int] != ch@[q],
            decreases ch@.len() - b,
        {
            if b != a && ch[a] == ch[b] {
                return false;
            }
            b += 1;
        }
        a += 1;
    }
    true
}

impl Snapshot {
    pub open spec fn wf(&self) -> bool {
        nodes_wf(self.nodes@)
    }

    /// Whether every child index of every directory lies after its parent,
    /// inside the arena, and appears once in that directory's list.
    pub fn is_well_formed(&self) -> (r: bool)
        ensures
            r == self.wf(),
    {
        let n = self.nodes.len();
        let mut i: usize = 0;
        while i < n
            invariant
                n == self.nodes@.len(),
                i <= n,
                forall|j: int| 0 <= j < i ==> #[trigger] children_ok(self.nodes@, j),
            decreases n - i,
        {
            match &self.nodes[i].entry {
                Entry::Directory { children, .. } => {
                    if !children_fit(children, i, n) {
                        assert(!children_ok(self.nodes@, i as int));
                        return false;
                    }
                },
                _ => {},
            }
            assert(children_ok(self.nodes@, i as int));
            i += 1;
        }
        true
    }
}

/// Size of node `i` met inside an aggregation whose dedup set is `seen`:
/// the size and the dedup set afterwards, or the first error met.
/// A file with more than one link counts only if its inode is new.
/// A symlink counts its own size and is not followed.
pub open spec fn entry_size(fs: Seq<Node>, i: int, seen: Seq<u64>) -> Result<(int, Seq<u64>), Error>
    decreases fs.len() - i, 1int, 0int,
{
    if 0 <= i < fs.len() {
        match fs[i].entry {
            Entry::File { len, inode, links } => {
                if links > 1 {
                    if seen.contains(inode) {
                        Ok((0, seen))
                    } else {
                        Ok((len as int, seen.push(inode)))
                    }
                } else {
                    Ok((len as int, seen))
                }
            },
            Entry::Symlink { len } => Ok((len as int, seen)),
            Entry::Directory { len, children } => sum_from(fs, i, children@, 0, len as int, seen),
            Entry::Unlisted { kind, .. } => Err(Error::IoError { kind }),
            Entry::Failed { kind } => Err(Error::IoError { kind }),
        }
    } else {
        Err(Error::IoError { kind: IoKind::NotFound })
    }
}

/// Adds the sizes of `ch[k..]` (children of `parent`) to `acc`, threading the
/// dedup set; fails with `SizeOverflow` as soon as a partial sum exceeds 64 bits.
pub open spec fn sum_from(
    fs: Seq<Node>,
    parent: int,
    ch: Seq<usize>,
    k: int,
    acc: int,
    seen: Seq<u64>,
) -> Result<(int, Seq<u64>), Error>
    decreases fs.len() - parent, 0int, ch.len() - k,
{
    if k < 0 || k >= ch.len() {
        Ok((acc, seen))
    } else if ch[k] <= parent || ch[k] >= fs.len() {
        Err(Error::IoError { kind: IoKind::Other })
    } else {
        match entry_size(fs, ch[k] as int, seen) {
            Err(e) => Err(e),
            Ok((s, seen2)) => {
                if acc + s > u64::MAX {
                    Err(Error::SizeOverflow)
                } else {
                    sum_from(fs, parent, ch, k + 1, acc + s, seen2)
                }
            },
        }
    }
}

/// Size of node `i` as the top of an aggregation: a file counts in full,
/// whatever the dedup set holds; anything else as in `entry_size`.
pub open spec fn top_size(fs: Seq<Node>, i: int, seen: Seq<u64>) -> Result<(int, Seq<u64>), Error> {
    if 0 <= i < fs.len() {
        match fs[i].entry {
            Entry::File { len, .. } => Ok((len as int, seen)),
            _ => entry_size(fs, i, seen),
        }
    } else {
        entry_size(fs, i, seen)
    }
}

/// The aggregated size of node `i` with a fresh dedup set.
pub open spec fn aggregate(fs: Seq<Node>, i: int) -> Result<int, Error> {
    match top_size(fs, i, Seq::empty()) {
        Ok((s, _)) => Ok(s),
        Err(e) => Err(e),
    }
}

/// No file at or below node `i`, through directories, has more than one hard link.
pub open spec fn no_hard_links_below(fs: Seq<Node>, i: int) -> bool
    decreases fs.len() - i, 1int, 0int,
{
    if 0 <= i < fs.len() {
        match fs[i].entry {
            Entry::File { links, .. } => links <= 1,
            Entry::Directory { children, .. } => no_hard_links_from(fs, i, children@, 0),
            _ => true,
        }
    } else {
        true
    }
}

/// `no_hard_links_below` holds of each of the children `ch[k..]` of `parent`.
pub open spec fn no_hard_links_from(fs: Seq<Node>, parent: int, ch: Seq<usize>, k: int) -> bool
    decreases fs.len() - parent, 0int, ch.len() - k,
{
    if k < 0 || k >= ch.len() || ch[k] <= parent || ch[k] >= fs.len() {
        true
    } else {
        no_hard_links_below(fs, ch[k] as int) && no_hard_links_from(fs, parent, ch, k + 1)
    }
}

/// The size of node `i` counted without deduplication: a directory's own
/// size plus the sizes of its children, a file's or a symlink's own size.
pub open spec fn plain_size(fs: Seq<Node>, i: int) -> int
    decreases fs.len() - i, 1int, 0int,
{
    if 0 <= i < fs.len() {
        match fs[i].entry {
            Entry::File { len, .. } => len as int,
            Entry::Symlink { len } => len as int,
            Entry::Directory { len, children } => len + plain_sum(fs, i, children@, 0),
            Entry::Unlisted { len, .. } => len as int,
            Entry::Failed { .. } => 0,
        }
    } else {
        0
    }
}

/// The sum of `plain_size` over the children `ch[k..]` of `parent`.
pub open spec fn plain_sum(fs: Seq<Node>, parent: int, ch: Seq<usize>, k: int) -> int
    decreases fs.len() - parent, 0int, ch.len() - k,
{
    if k < 0 || k >= ch.len() || ch[k] <= parent || ch[k] >= fs.len() {
        0
    } else {
        plain_size(fs, ch[k] as int) + plain_sum(fs, parent, ch, k + 1)
    }
}

/// Without hard links below the entry, a size that can be computed is the
/// entry's own size plus, for a directory, the sizes of its children,
/// recursively; the dedup set is left as it was.
pub proof fn lemma_sizes_add_up(fs: Seq<Node>, i: int, seen: Seq<u64>)
    requires
        no_hard_links_below(fs, i),
        entry_size(fs, i, seen) is Ok,
    ensures
        entry_size(fs, i, seen) == Ok::<(int, Seq<u64>), Error>((plain_size(fs, i), seen)),
    decreases fs.len() - i, 1int, 0int,
{
    if let Entry::Directory { len, children } = fs[i].entry {
        lemma_sums_add_up(fs, i, children@, 0, len as int, seen);
    }
}

proof fn lemma_sums_add_up(fs: Seq<Node>, parent: int, ch: Seq<usize>, k: int, acc: int, seen: Seq<u64>)
    requires
        no_hard_links_from(fs, parent, ch, k),
        sum_from(fs, parent, ch, k, acc, seen) is Ok,
    ensures
        sum_from(fs, parent, ch, k, acc, seen) == Ok::<(int, Seq<u64>), Error>((acc + plain_sum(fs, parent, ch, k), seen)),
    decreases fs.len() - parent, 0int, ch.len() - k,
{
    if 0 <= k < ch.len() && parent < ch[k] < fs.len() {
        lemma_sizes_add_up(fs, ch[k] as int, seen);
        let s = plain_size(fs, ch[k] as int);
        lemma_sums_add_up(fs, parent, ch, k + 1, acc + s, seen);
    }
}

/// The aggregated size without hard links, stated at the top of an aggregation.
pub proof fn lemma_aggregate_adds_up(fs: Seq<Node>, i: int)
    requires
        no_hard_links_below(fs, i),
        aggregate(fs, i) is Ok,
    ensures
        aggregate(fs, i) == Ok::<int, Error>(plain_size(fs, i)),
{
    if !(0 <= i < fs.len() && fs[i].entry is File) {
        lemma_sizes_add_up(fs, i, Seq::empty());
    }
}

/// Two files that share an inode, listed one after the other under the same
/// aggregation, add the size of the first one only, and the inode is recorded once.
pub proof fn lemma_hard_link_counted_once(fs: Seq<Node>, parent: int, a: usize, b: usize, acc: int, seen: Seq<u64>)
    requires
        0 <= parent < a < fs.len(),
        parent < b < fs.len(),
        fs[a as int].entry is File,
        fs[b as int].entry is File,
        fs[a as int].entry->links > 1,
        fs[b as int].entry->links > 1,
        fs[a as int].entry->inode == fs[b as int].entry->inode,
        !seen.contains(fs[a as int].entry->inode),
        0 <= acc,
        acc + fs[a as int].entry->File_len <= u64::MAX,
    ensures
        sum_from(fs, parent, seq![a, b], 0, acc, seen) == Ok::<(int, Seq<u64>), Error>(
            (acc + fs[a as int].entry->File_len, seen.push(fs[a as int].entry->inode)),
        ),
{
    let ch = seq![a, b];
    let ino = fs[a as int].entry->inode;
    let l = fs[a as int].entry->File_len as int;
    let seen2 = seen.push(ino);
    assert(seen2.contains(ino)) by {
        assert(seen2[seen.len() as int] == ino);
    }
    assert(entry_size(fs, a as int, seen) == Ok::<(int, Seq<u64>), Error>((l, seen2)));
    assert(entry_size(fs, b as int, seen2) == Ok::<(int, Seq<u64>), Error>((0, seen2)));
    assert(sum_from(fs, parent, ch, 2, acc + l, seen2) == Ok::<(int, Seq<u64>), Error>((acc + l, seen2)));
    assert(sum_from(fs, parent, ch, 1, acc + l, seen2) == Ok::<(int, Seq<u64>), Error>((acc + l, seen2)));
}

/// Within one aggregation the dedup set only grows: an inode counted once
/// stays recorded for the rest of the call.
pub proof fn lemma_seen_grows(fs: Seq<Node>, i: int, seen: Seq<u64>)
    ensures
        entry_size(fs, i, seen) matches Ok((_, after)) ==> forall|x: u64| seen.contains(x) ==> #[trigger] after.contains(x),
    decreases fs.len() - i, 1int, 0int,
{
    if 0 <= i < fs.len() {
        match fs[i].entry {
            Entry::File { inode, links, .. } => {
                if links > 1 && !seen.contains(inode) {
                    let after = seen.push(inode);
                    assert forall|x: u64| seen.contains(x) implies #[trigger] after.contains(x) by {
                        let j = choose|j: int| 0 <= j < seen.len() && seen[j] == x;
                        assert(after[j] == x);
                    }
                }
            },
            Entry::Directory { len, children } => {
                lemma_seen_grows_from(fs, i, children@, 0, len as int, seen);
            },
            _ => {},
        }
    }
}

proof fn lemma_seen_grows_from(fs: Seq<Node>, parent: int, ch: Seq<usize>, k: int, acc: int, seen: Seq<u64>)
    ensures
        sum_from(fs, parent, ch, k, acc, seen) matches Ok((_, after)) ==> forall|x: u64| seen.contains(x) ==> #[trigger] after.contains(x),
    decreases fs.len() - parent, 0int, ch.len() - k,
{
    if 0 <= k < ch.len() && parent < ch[k] < fs.len() {
        lemma_seen_grows(fs, ch[k] as int, seen);
        if let Ok((s, mid)) = entry_size(fs, ch[k] as int, seen) {
            if acc + s <= u64::MAX {
                lemma_seen_grows_from(fs, parent, ch, k + 1, acc + s, mid);
            }
        }
    }
}

/// A file with more than one link whose inode the current aggregation has
/// already counted adds nothing; together with `lemma_seen_grows`, every
/// later link to an inode already counted in the same call adds nothing.
pub proof fn lemma_known_inode_adds_nothing(fs: Seq<Node>, f: int, seen: Seq<u64>)
    requires
        0 <= f < fs.len(),
        fs[f].entry is File,
        fs[f].entry->links > 1,
        seen.contains(fs[f].entry->inode),
    ensures
        entry_size(fs, f, seen) == Ok::<(int, Seq<u64>), Error>((0, seen)),
{
}

/// In a directory listing, a symlink adds exactly its own size and leaves
/// the dedup set as it was: the rest of the listing is summed as if the link
/// were absent and its size already counted.
pub proof fn lemma_symlink_in_listing(fs: Seq<Node>, parent: int, ch: Seq<usize>, k: int, acc: int, seen: Seq<u64>)
    requires
        0 <= k < ch.len(),
        parent < ch[k] < fs.len(),
        fs[ch[k] as int].entry is Symlink,
    ensures
        sum_from(fs, parent, ch, k, acc, seen) == if acc + fs[ch[k] as int].entry->Symlink_len > u64::MAX {
            Err::<(int, Seq<u64>), Error>(Error::SizeOverflow)
        } else {
            sum_from(fs, parent, ch, k + 1, acc + fs[ch[k] as int].entry->Symlink_len, seen)
        },
{
    lemma_symlink_own_size(fs, ch[k] as int, seen);
}

/// A symlink adds its own size only, leaves the dedup set as it was, and is
/// not followed, whatever it points to.
pub proof fn lemma_symlink_own_size(fs: Seq<Node>, i: int, seen: Seq<u64>)
    requires
        0 <= i < fs.len(),
        fs[i].entry is Symlink,
    ensures
        entry_size(fs, i, seen) == Ok::<(int, Seq<u64>), Error>((fs[i].entry->Symlink_len as int, seen)),
        top_size(fs, i, seen) == Ok::<(int, Seq<u64>), Error>((fs[i].entry->Symlink_len as int, seen)),
{
}

} // verus!

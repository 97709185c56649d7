//! The scan engine: the pending-work queue, the inode deduplication set,
//! the progress counters, and the per-directory classification step that
//! drives the recursive walk.

use crate::file_directory::{sat64, FileDirectory};
use vstd::hash_set::HashSetWithView;
use vstd::prelude::*;

verus! {

broadcast use
    vstd::std_specs::hash::group_hash_axioms,
    vstd::std_specs::vec::group_vec_axioms,
    vstd::seq::group_seq_axioms,
    vstd::seq_lib::group_seq_lib_default;

/// What the driver reads of one directory entry's metadata.
pub struct EntryMeta {
    pub name: String,
    pub path: String,
    pub dev: Option<u64>,
    pub inode: Option<u64>,
    pub nlink: u64,
    pub blocks: Option<u64>,
    pub is_file: bool,
    pub is_symlink: bool,
    pub is_dir: bool,
}

/// A pending unit of work: list the directory node reached from the root
/// by this sequence of child indices.
pub struct Job {
    pub target: Vec<usize>,
}

/// The entry lies on the device the scan is restricted to.
pub open spec fn passes_device(e: EntryMeta, root_dev: Option<u64>) -> bool {
    e.dev == root_dev
}

/// The entry's inode has already been attributed to some node.
pub open spec fn is_dup(e: EntryMeta, inodes: Set<u64>) -> bool {
    match e.inode {
        Some(i) => inodes.contains(i),
        None => false,
    }
}

/// The entry becomes a node of the tree: it lies on the scan device, its
/// inode is not yet claimed, and it is a file, symlink or directory.
pub open spec fn accepts(e: EntryMeta, root_dev: Option<u64>, inodes: Set<u64>) -> bool {
    passes_device(e, root_dev) && !is_dup(e, inodes) && (e.is_file || e.is_symlink || e.is_dir)
}

/// The inode set after classifying a listing left to right: every entry on
/// the scan device with an inode claims it (whether or not it was already
/// claimed; claiming twice changes nothing).
pub open spec fn inodes_after(l: Seq<EntryMeta>, root_dev: Option<u64>, s0: Set<u64>) -> Set<u64>
    decreases l.len(),
{
    if l.len() == 0 {
        s0
    } else {
        let prev = inodes_after(l.drop_last(), root_dev, s0);
        if passes_device(l.last(), root_dev) {
            match l.last().inode {
                Some(i) => prev.insert(i),
                None => prev,
            }
        } else {
            prev
        }
    }
}

/// How many file or symlink entries of the listing lie on the scan device:
/// every one of them is visited and counted, hard-link duplicates included.
pub open spec fn files_counted(l: Seq<EntryMeta>, root_dev: Option<u64>) -> nat
    decreases l.len(),
{
    if l.len() == 0 {
        0
    } else {
        files_counted(l.drop_last(), root_dev) + if passes_device(l.last(), root_dev) && (
        l.last().is_file || l.last().is_symlink) {
            1nat
        } else {
            0nat
        }
    }
}

/// The entries of the listing that become nodes, in listing order, each
/// judged against the inode set as it stood when the entry was reached.
pub open spec fn accepted_entries(
    l: Seq<EntryMeta>,
    root_dev: Option<u64>,
    s0: Set<u64>,
) -> Seq<EntryMeta>
    decreases l.len(),
{
    if l.len() == 0 {
        Seq::empty()
    } else {
        let prev = accepted_entries(l.drop_last(), root_dev, s0);
        if accepts(l.last(), root_dev, inodes_after(l.drop_last(), root_dev, s0)) {
            prev.push(l.last())
        } else {
            prev
        }
    }
}

/// The node the driver creates for an accepted entry: identity fields from
/// the metadata, cache holding its own contribution, clean, no children;
/// a directory still awaits its own listing.
pub open spec fn is_fresh_node_of(d: FileDirectory, e: EntryMeta) -> bool {
    &&& d.name == e.name
    &&& d.path == e.path
    &&& d.is_dir == e.is_dir
    &&& d.is_symlink == e.is_symlink
    &&& d.is_hardlink == (!e.is_dir && e.nlink > 1)
    &&& d.hardlink_count == e.nlink
    &&& d.blocks == e.blocks
    &&& d.cached_aggregate_size == sat64(d.spec_own_size())
    &&& !d.dirty
    &&& d.scanned == !e.is_dir
    &&& d.entries@.len() == 0
}

/// What an accepted entry contributes to an aggregate: directories nothing
/// of their own, files and symlinks their physical bytes.
pub open spec fn meta_own_size(e: EntryMeta) -> nat {
    if e.is_dir {
        0
    } else {
        match e.blocks {
            Some(b) => b as nat * 512,
            None => 0,
        }
    }
}

/// Total own contribution of a sequence of accepted entries.
pub open spec fn metas_total(m: Seq<EntryMeta>) -> nat
    decreases m.len(),
{
    if m.len() == 0 {
        0
    } else {
        meta_own_size(m[0]) + metas_total(m.drop_first())
    }
}

/// The work-queue targets that one listing step enqueues: one job for each
/// accepted directory, addressed as a new child of the listed node.
pub open spec fn new_job_targets(
    acc: Seq<EntryMeta>,
    base_path: Seq<usize>,
    base: int,
) -> Seq<Seq<usize>>
    decreases acc.len(),
{
    if acc.len() == 0 {
        Seq::empty()
    } else {
        let prev = new_job_targets(acc.drop_last(), base_path, base);
        if acc.last().is_dir {
            prev.push(base_path.push((base + acc.len() - 1) as usize))
        } else {
            prev
        }
    }
}

/// The targets of a queue of jobs.
pub open spec fn job_targets(q: Seq<Job>) -> Seq<Seq<usize>> {
    q.map_values(|j: Job| j.target@)
}

/// No more entries are accepted than listed.
pub proof fn lemma_accepted_len_le(l: Seq<EntryMeta>, root_dev: Option<u64>, s0: Set<u64>)
    ensures
        accepted_entries(l, root_dev, s0).len() <= l.len(),
    decreases l.len(),
{
    if l.len() > 0 {
        lemma_accepted_len_le(l.drop_last(), root_dev, s0);
    }
}

/// Claimed inodes are never given up: the set only grows, and every
/// accepted entry's inode ends up claimed.
pub proof fn lemma_inodes_monotone(l: Seq<EntryMeta>, root_dev: Option<u64>, s0: Set<u64>)
    ensures
        forall|i: u64|
            s0.contains(i) ==> #[trigger] inodes_after(l, root_dev, s0).contains(i),
        forall|k: int|
            0 <= k < accepted_entries(l, root_dev, s0).len() ==> match (
            #[trigger] accepted_entries(l, root_dev, s0)[k]).inode {
                Some(i) => inodes_after(l, root_dev, s0).contains(i),
                None => true,
            },
    decreases l.len(),
{
    if l.len() > 0 {
        lemma_inodes_monotone(l.drop_last(), root_dev, s0);
    }
}

/// Deduplication: over one classified listing, an inode already claimed
/// before the listing is never accepted, and no two accepted entries carry
/// the same inode. Hard links sharing one inode are therefore attributed
/// to at most one node per scan, however many names reference it.
pub proof fn lemma_dedup_once(l: Seq<EntryMeta>, root_dev: Option<u64>, s0: Set<u64>, ino: u64)
    ensures
        s0.contains(ino) ==> forall|k: int|
            0 <= k < accepted_entries(l, root_dev, s0).len() ==> (
            #[trigger] accepted_entries(l, root_dev, s0)[k]).inode != Some(ino),
        forall|k1: int, k2: int|
            0 <= k1 < k2 < accepted_entries(l, root_dev, s0).len() && (
            #[trigger] accepted_entries(l, root_dev, s0)[k1]).inode == Some(ino) ==> (
            #[trigger] accepted_entries(l, root_dev, s0)[k2]).inode != Some(ino),
    decreases l.len(),
{
    if l.len() > 0 {
        let prev = l.drop_last();
        let e = l.last();
        let acc_prev = accepted_entries(prev, root_dev, s0);
        let acc = accepted_entries(l, root_dev, s0);
        lemma_dedup_once(prev, root_dev, s0, ino);
        lemma_inodes_monotone(prev, root_dev, s0);
        if accepts(e, root_dev, inodes_after(prev, root_dev, s0)) {
            assert(acc == acc_prev.push(e));
            assert forall|k1: int, k2: int|
                0 <= k1 < k2 < acc.len() && (#[trigger] acc[k1]).inode == Some(ino) implies (
            #[trigger] acc[k2]).inode != Some(ino) by {
                if k2 == acc.len() - 1 {
                    assert(acc[k1] == acc_prev[k1]);
                    assert(acc[k2] == e);
                } else {
                    assert(acc[k1] == acc_prev[k1]);
                    assert(acc[k2] == acc_prev[k2]);
                }
            }
        } else {
            assert(acc == acc_prev);
        }
    }
}

/// Device filter: an entry whose device differs from the scan root's never
/// becomes a node of the tree.
pub proof fn lemma_device_filter(l: Seq<EntryMeta>, root_dev: Option<u64>, s0: Set<u64>)
    ensures
        forall|k: int|
            0 <= k < accepted_entries(l, root_dev, s0).len() ==> passes_device(
                #[trigger] accepted_entries(l, root_dev, s0)[k],
                root_dev,
            ),
    decreases l.len(),
{
    if l.len() > 0 {
        let prev = l.drop_last();
        let e = l.last();
        let acc_prev = accepted_entries(prev, root_dev, s0);
        let acc = accepted_entries(l, root_dev, s0);
        lemma_device_filter(prev, root_dev, s0);
        if accepts(e, root_dev, inodes_after(prev, root_dev, s0)) {
            assert forall|k: int| 0 <= k < acc.len() implies passes_device(
                #[trigger] acc[k],
                root_dev,
            ) by {
                if k < acc.len() - 1 {
                    assert(acc[k] == acc_prev[k]);
                } else {
                    assert(acc[k] == e);
                }
            }
        }
    }
}

/// Shape of what one listing step enqueues: each target extends the base
/// path by one child slot in the fresh range, later targets by ever later
/// slots.
pub proof fn lemma_njt_form(acc: Seq<EntryMeta>, bp: Seq<usize>, base: int)
    requires
        base >= 0,
        base + acc.len() <= usize::MAX,
    ensures
        forall|j: int|
            0 <= j < new_job_targets(acc, bp, base).len() ==> base <= (
            #[trigger] new_job_targets(acc, bp, base)[j]).last() && new_job_targets(
                acc,
                bp,
                base,
            )[j].last() < base + acc.len() && new_job_targets(acc, bp, base)[j]
                == bp.push(new_job_targets(acc, bp, base)[j].last()),
        forall|j1: int, j2: int|
            0 <= j1 < j2 < new_job_targets(acc, bp, base).len()
                ==> (#[trigger] new_job_targets(acc, bp, base)[j1]).last() < (
            #[trigger] new_job_targets(acc, bp, base)[j2]).last(),
    decreases acc.len(),
{
    if acc.len() > 0 {
        let prev = new_job_targets(acc.drop_last(), bp, base);
        let cur = new_job_targets(acc, bp, base);
        lemma_njt_form(acc.drop_last(), bp, base);
        if acc.last().is_dir {
            let x = (base + acc.len() - 1) as usize;
            assert(cur == prev.push(bp.push(x)));
            assert(forall|j: int| 0 <= j < prev.len() ==> #[trigger] cur[j] == prev[j]);
            assert(cur[cur.len() - 1] == bp.push(x));
            assert(bp.push(x).last() == x);
        } else {
            assert(cur == prev);
        }
    }
}

/// Each enqueued target of one listing step is the job for some accepted
/// directory, at the child slot that entry received.
pub proof fn lemma_njt_elem_at(acc: Seq<EntryMeta>, bp: Seq<usize>, base: int, j: int) -> (k: int)
    requires
        base >= 0,
        base + acc.len() <= usize::MAX,
        0 <= j < new_job_targets(acc, bp, base).len(),
    ensures
        0 <= k < acc.len(),
        acc[k].is_dir,
        new_job_targets(acc, bp, base)[j] == bp.push((base + k) as usize),
    decreases acc.len(),
{
    if acc.len() == 0 {
        0
    } else {
        let prevacc = acc.drop_last();
        let prev = new_job_targets(prevacc, bp, base);
        let cur = new_job_targets(acc, bp, base);
        if acc.last().is_dir && j == cur.len() - 1 {
            assert(cur == prev.push(bp.push((base + acc.len() - 1) as usize)));
            acc.len() - 1
        } else {
            if acc.last().is_dir {
                assert(cur == prev.push(bp.push((base + acc.len() - 1) as usize)));
                assert(cur[j] == prev[j]);
            } else {
                assert(cur == prev);
            }
            let k = lemma_njt_elem_at(prevacc, bp, base, j);
            assert(prevacc[k] == acc[k]);
            k
        }
    }
}

/// Each accepted directory of one listing step has an enqueued target, at
/// the child slot that entry received.
pub proof fn lemma_njt_cover_at(acc: Seq<EntryMeta>, bp: Seq<usize>, base: int, k: int) -> (j: int)
    requires
        base >= 0,
        base + acc.len() <= usize::MAX,
        0 <= k < acc.len(),
        acc[k].is_dir,
    ensures
        0 <= j < new_job_targets(acc, bp, base).len(),
        new_job_targets(acc, bp, base)[j] == bp.push((base + k) as usize),
    decreases acc.len(),
{
    let prevacc = acc.drop_last();
    let prev = new_job_targets(prevacc, bp, base);
    let cur = new_job_targets(acc, bp, base);
    if k == acc.len() - 1 {
        assert(cur == prev.push(bp.push((base + acc.len() - 1) as usize)));
        cur.len() - 1
    } else {
        assert(prevacc[k] == acc[k]);
        let j = lemma_njt_cover_at(prevacc, bp, base, k);
        if acc.last().is_dir {
            assert(cur == prev.push(bp.push((base + acc.len() - 1) as usize)));
            assert(cur[j] == prev[j]);
        } else {
            assert(cur == prev);
        }
        j
    }
}

/// A fresh node's aggregate is its entry's own contribution, and its cache
/// is already correct.
pub proof fn lemma_fresh_node(d: FileDirectory, e: EntryMeta)
    requires
        is_fresh_node_of(d, e),
    ensures
        d.subtree_size() == meta_own_size(e),
        d.cache_ok(),
        d.is_sized(),
{
    assert(d.entries@ =~= Seq::<FileDirectory>::empty());
}

/// Fresh nodes for a sequence of accepted entries total exactly those
/// entries' own contributions, and all satisfy the cache invariant.
pub proof fn lemma_fresh_nodes_total(added: Seq<FileDirectory>, acc: Seq<EntryMeta>)
    requires
        added.len() == acc.len(),
        forall|k: int| 0 <= k < added.len() ==> is_fresh_node_of(#[trigger] added[k], acc[k]),
    ensures
        FileDirectory::entries_total(added) == metas_total(acc),
        FileDirectory::entries_cache_ok(added),
    decreases added.len(),
{
    assert forall|k: int| 0 <= k < added.len() implies (#[trigger] added[k]).cache_ok() by {
        lemma_fresh_node(added[k], acc[k]);
    }
    FileDirectory::lemma_entries_cache_ok_build(added);
    if added.len() > 0 {
        lemma_fresh_node(added[0], acc[0]);
        assert forall|k: int| 0 <= k < added.drop_first().len() implies is_fresh_node_of(
            #[trigger] added.drop_first()[k],
            acc.drop_first()[k],
        ) by {
            assert(added.drop_first()[k] == added[k + 1]);
        }
        lemma_fresh_nodes_total(added.drop_first(), acc.drop_first());
    }
}

/// Copy a path of child indices.
fn clone_path(v: &Vec<usize>) -> (r: Vec<usize>)
    ensures
        r@ == v@,
{
    let mut r: Vec<usize> = Vec::new();
    let mut i: usize = 0;
    while i < v.len()
        invariant
            i <= v@.len(),
            r@ == v@.take(i as int),
        decreases v@.len() - i,
    {
        r.push(v[i]);
        proof {
            assert(v@.take(i as int + 1) =~= v@.take(i as int).push(v@[i as int]));
        }
        i = i + 1;
    }
    proof {
        assert(v@.take(v@.len() as int) =~= v@);
    }
    r
}

/// The scan engine state: one instance per scan.
pub struct ThreadPool {
    pub workers: usize,
    pub queue: Vec<Job>,
    pub inode_map: HashSetWithView<u64>,
    pub path_in_progress: String,
    pub total_files: u64,
}

impl ThreadPool {
    pub fn new(size: usize) -> (pool: Self)
        ensures
            pool.workers == size,
            pool.queue@.len() == 0,
            pool.inode_map@ == Set::<u64>::empty(),
            pool.total_files == 0,
            pool.path_in_progress@ == Seq::<char>::empty(),
    {
        ThreadPool {
            workers: size,
            queue: Vec::new(),
            inode_map: HashSetWithView::new(),
            path_in_progress: String::new(),
            total_files: 0,
        }
    }

    /// Enqueue one unit of work.
    pub fn execute(&mut self, job: Job)
        ensures
            final(self).queue@ == old(self).queue@.push(job),
            final(self).workers == old(self).workers,
            final(self).inode_map@ == old(self).inode_map@,
            final(self).path_in_progress == old(self).path_in_progress,
            final(self).total_files == old(self).total_files,
    {
        self.queue.push(job);
    }

    /// Take the oldest pending unit of work, if any.
    pub fn next_job(&mut self) -> (r: Option<Job>)
        ensures
            match r {
                None => old(self).queue@.len() == 0 && *final(self) == *old(self),
                Some(job) => {
                    &&& old(self).queue@.len() > 0
                    &&& job == old(self).queue@[0]
                    &&& final(self).queue@ == old(self).queue@.drop_first()
                    &&& final(self).workers == old(self).workers
                    &&& final(self).inode_map@ == old(self).inode_map@
                    &&& final(self).path_in_progress == old(self).path_in_progress
                    &&& final(self).total_files == old(self).total_files
                },
            },
    {
        if self.queue.len() == 0 {
            None
        } else {
            let job = self.queue.remove(0);
            proof {
                assert(old(self).queue@.remove(0) =~= old(self).queue@.drop_first());
            }
            Some(job)
        }
    }

    /// Begin a scan: record the directory as in progress, build its root
    /// node, and enqueue the unit of work that will list it.
    pub fn scan_dir(&mut self, name: String, path: String, blocks: Option<u64>, nlink: u64) -> (root:
        FileDirectory)
        ensures
            root.name == name,
            root.path == path,
            root.is_dir,
            !root.is_symlink,
            !root.is_hardlink,
            root.hardlink_count == nlink,
            root.blocks == blocks,
            root.cached_aggregate_size == 0,
            !root.dirty,
            !root.scanned,
            root.entries@.len() == 0,
            root.cache_ok(),
            job_targets(final(self).queue@) == job_targets(old(self).queue@).push(
                Seq::<usize>::empty(),
            ),
            final(self).path_in_progress@ == path@,
            final(self).workers == old(self).workers,
            final(self).inode_map@ == old(self).inode_map@,
            final(self).total_files == old(self).total_files,
    {
        self.path_in_progress = path.clone();
        let ghost q0 = self.queue@;
        let t: Vec<usize> = Vec::new();
        let ghost tv = t@;
        self.execute(Job { target: t });
        proof {
            assert(tv =~= Seq::<usize>::empty());
            assert(job_targets(self.queue@) =~= job_targets(q0).push(tv));
        }
        let root = FileDirectory {
            name,
            path,
            is_dir: true,
            is_symlink: false,
            is_hardlink: false,
            hardlink_count: nlink,
            blocks,
            cached_aggregate_size: 0,
            dirty: false,
            scanned: false,
            entries: Vec::new(),
        };
        proof {
            assert(root.entries@ =~= Seq::<FileDirectory>::empty());
            assert(root.subtree_size() == 0);
        }
        root
    }

    /// Classify one directory listing: claim inodes, count visited files,
    /// build a fresh node for each accepted entry, and enqueue a listing
    /// unit for each accepted subdirectory (addressed as child `base + k`
    /// of the listed node, for the `k`-th accepted entry).
    pub fn classify_listing(
        &mut self,
        l: Vec<EntryMeta>,
        root_dev: Option<u64>,
        base_path: &Vec<usize>,
        base: usize,
    ) -> (children: Vec<FileDirectory>)
        requires
            base + l@.len() <= usize::MAX,
        ensures
            final(self).inode_map@ == inodes_after(l@, root_dev, old(self).inode_map@),
            final(self).total_files == sat64(
                (old(self).total_files + files_counted(l@, root_dev)) as nat,
            ),
            children@.len() == accepted_entries(l@, root_dev, old(self).inode_map@).len(),
            forall|k: int|
                0 <= k < children@.len() ==> is_fresh_node_of(
                    #[trigger] children@[k],
                    accepted_entries(l@, root_dev, old(self).inode_map@)[k],
                ),
            job_targets(final(self).queue@) == job_targets(old(self).queue@) + new_job_targets(
                accepted_entries(l@, root_dev, old(self).inode_map@),
                base_path@,
                base as int,
            ),
            final(self).workers == old(self).workers,
            final(self).path_in_progress == old(self).path_in_progress,
    {
        let mut children: Vec<FileDirectory> = Vec::new();
        let n = l.len();
        let mut i: usize = 0;
        proof {
            assert(l@.take(0) =~= Seq::<EntryMeta>::empty());
            assert(job_targets(old(self).queue@) + new_job_targets(
                Seq::<EntryMeta>::empty(),
                base_path@,
                base as int,
            ) =~= job_targets(old(self).queue@));
        }
        while i < n
            invariant
                i <= n,
                n == l@.len(),
                base + n <= usize::MAX,
                self.inode_map@ == inodes_after(l@.take(i as int), root_dev, old(self).inode_map@),
                self.total_files == sat64(
                    (old(self).total_files + files_counted(l@.take(i as int), root_dev)) as nat,
                ),
                children@.len() == accepted_entries(
                    l@.take(i as int),
                    root_dev,
                    old(self).inode_map@,
                ).len(),
                children@.len() <= i,
                forall|k: int|
                    0 <= k < children@.len() ==> is_fresh_node_of(
                        #[trigger] children@[k],
                        accepted_entries(l@.take(i as int), root_dev, old(self).inode_map@)[k],
                    ),
                job_targets(self.queue@) == job_targets(old(self).queue@) + new_job_targets(
                    accepted_entries(l@.take(i as int), root_dev, old(self).inode_map@),
                    base_path@,
                    base as int,
                ),
                self.workers == old(self).workers,
                self.path_in_progress == old(self).path_in_progress,
            decreases n - i,
        {
            let ghost pre = l@.take(i as int);
            let ghost cur = l@.take(i as int + 1);
            let ghost acc_pre = accepted_entries(pre, root_dev, old(self).inode_map@);
            proof {
                assert(cur.drop_last() =~= pre);
                assert(cur.last() == l@[i as int]);
                lemma_accepted_len_le(pre, root_dev, old(self).inode_map@);
            }
            let dev_ok = match (l[i].dev, root_dev) {
                (Some(a), Some(b)) => a == b,
                (None, None) => true,
                _ => false,
            };
            if dev_ok {
                let mut dup = false;
                if let Some(ino) = l[i].inode {
                    let fresh = self.inode_map.insert(ino);
                    dup = !fresh;
                }
                if l[i].is_file || l[i].is_symlink {
                    proof {
                        crate::file_directory::lemma_sat64_add(
                            (old(self).total_files + files_counted(pre, root_dev)) as nat,
                            1,
                        );
                    }
                    self.total_files = self.total_files.saturating_add(1);
                }
                if !dup {
                    if l[i].is_file || l[i].is_symlink || l[i].is_dir {
                        let mut node = FileDirectory {
                            name: l[i].name.clone(),
                            path: l[i].path.clone(),
                            is_dir: l[i].is_dir,
                            is_symlink: l[i].is_symlink,
                            is_hardlink: !l[i].is_dir && l[i].nlink > 1,
                            hardlink_count: l[i].nlink,
                            blocks: l[i].blocks,
                            cached_aggregate_size: 0,
                            dirty: false,
                            scanned: !l[i].is_dir,
                            entries: Vec::new(),
                        };
                        let own = node.own_size();
                        node.cached_aggregate_size = own;
                        if l[i].is_dir {
                            let idx = base + children.len();
                            let mut t = clone_path(base_path);
                            t.push(idx);
                            let ghost q1 = self.queue@;
                            let ghost tv = t@;
                            self.execute(Job { target: t });
                            proof {
                                assert(job_targets(q1.push(Job { target: t })) =~= job_targets(
                                    q1,
                                ).push(tv));
                            }
                        }
                        children.push(node);
                    }
                }
            }
            proof {
                let e = l@[i as int];
                let s0 = old(self).inode_map@;
                let iset_pre = inodes_after(pre, root_dev, s0);
                let acc_cur = accepted_entries(cur, root_dev, s0);
                let jt_old = job_targets(old(self).queue@);
                let njt_pre = new_job_targets(acc_pre, base_path@, base as int);
                assert(acc_cur == if accepts(e, root_dev, iset_pre) {
                    acc_pre.push(e)
                } else {
                    acc_pre
                });
                if accepts(e, root_dev, iset_pre) {
                    assert(acc_pre.push(e).drop_last() =~= acc_pre);
                    assert(acc_pre.push(e).last() == e);
                    if e.is_dir {
                        let tv = base_path@.push((base + acc_pre.len()) as usize);
                        assert(new_job_targets(acc_cur, base_path@, base as int) == njt_pre.push(
                            tv,
                        ));
                        assert(job_targets(self.queue@) =~= (jt_old + njt_pre).push(tv));
                        assert((jt_old + njt_pre).push(tv) =~= jt_old + njt_pre.push(tv));
                    } else {
                        assert(new_job_targets(acc_cur, base_path@, base as int) == njt_pre);
                    }
                }
                assert(job_targets(old(self).queue@) + new_job_targets(
                    acc_cur,
                    base_path@,
                    base as int,
                ) =~= job_targets(self.queue@));
            }
            i = i + 1;
        }
        proof {
            assert(l@.take(n as int) =~= l@);
        }
        children
    }

    /// Run one unit of work: record the target directory as in progress,
    /// classify its listing (or, where the listing could not be read, leave
    /// the node childless), attach the accepted entries as children, mark
    /// the node scanned, and flag the caches of its ancestor chain stale.
    pub fn scan_step(
        &mut self,
        root: &mut FileDirectory,
        job: &Job,
        root_dev: Option<u64>,
        listing: Option<Vec<EntryMeta>>,
    )
        requires
            old(root).valid_path(job.target@),
            old(root).cache_ok(),
            match listing {
                Some(l) => old(root).node_at(job.target@).entries@.len() + l@.len() <= usize::MAX,
                None => true,
            },
        ensures
            final(self).workers == old(self).workers,
            final(self).path_in_progress@ == old(root).node_at(job.target@).path@,
            final(root).cache_ok(),
            final(root).valid_path(job.target@),
            final(root).node_at(job.target@).scanned,
            match listing {
                None => {
                    &&& FileDirectory::scan_updated(
                        *old(root),
                        *final(root),
                        job.target@,
                        Seq::<FileDirectory>::empty(),
                    )
                    &&& final(self).inode_map@ == old(self).inode_map@
                    &&& final(self).total_files == old(self).total_files
                    &&& job_targets(final(self).queue@) == job_targets(old(self).queue@)
                    &&& final(root).subtree_size() == old(root).subtree_size()
                },
                Some(l) => {
                    let acc = accepted_entries(l@, root_dev, old(self).inode_map@);
                    let base = old(root).node_at(job.target@).entries@.len() as int;
                    &&& final(self).inode_map@ == inodes_after(
                        l@,
                        root_dev,
                        old(self).inode_map@,
                    )
                    &&& final(self).total_files == sat64(
                        (old(self).total_files + files_counted(l@, root_dev)) as nat,
                    )
                    &&& job_targets(final(self).queue@) == job_targets(old(self).queue@)
                        + new_job_targets(acc, job.target@, base)
                    &&& final(root).subtree_size() == old(root).subtree_size() + metas_total(acc)
                    &&& final(root).node_at(job.target@).entries@.len() == base + acc.len()
                    &&& forall|k: int|
                        0 <= k < acc.len() ==> is_fresh_node_of(
                            #[trigger] final(root).node_at(job.target@).entries@[base + k],
                            acc[k],
                        )
                    &&& exists|added: Seq<FileDirectory>|
                        {
                            &&& added.len() == acc.len()
                            &&& (forall|k: int|
                                0 <= k < acc.len() ==> is_fresh_node_of(
                                    (#[trigger] added[k]),
                                    acc[k],
                                ))
                            &&& FileDirectory::scan_updated(*old(root), *final(root), job.target@, added)
                        }
                },
            },
    {
        proof {
            assert(job.target@.skip(0) =~= job.target@);
        }
        let base;
        {
            let target = root.get_at(&job.target, 0);
            let p = target.path.clone();
            base = target.entries.len();
            self.path_in_progress = p;
        }
        match listing {
            None => {
                let no_children: Vec<FileDirectory> = Vec::new();
                let ghost added = no_children@;
                root.append_children_at(&job.target, 0, no_children);
                proof {
                    assert(added =~= Seq::<FileDirectory>::empty());
                    FileDirectory::lemma_scan_updated_size(*old(root), *root, job.target@, added);
                    FileDirectory::lemma_scan_updated_cache_ok(
                        *old(root),
                        *root,
                        job.target@,
                        added,
                    );
                    FileDirectory::lemma_scan_updated_node_at(
                        *old(root),
                        *root,
                        job.target@,
                        added,
                    );
                }
            },
            Some(l) => {
                let ghost acc = accepted_entries(l@, root_dev, self.inode_map@);
                let children = self.classify_listing(l, root_dev, &job.target, base);
                let ghost added = children@;
                proof {
                    lemma_fresh_nodes_total(added, acc);
                    assert forall|k: int| 0 <= k < added.len() implies (
                    #[trigger] added[k]).is_sized() by {
                        lemma_fresh_node(added[k], acc[k]);
                    }
                }
                root.append_children_at(&job.target, 0, children);
                proof {
                    FileDirectory::lemma_scan_updated_size(*old(root), *root, job.target@, added);
                    FileDirectory::lemma_scan_updated_cache_ok(
                        *old(root),
                        *root,
                        job.target@,
                        added,
                    );
                    FileDirectory::lemma_scan_updated_node_at(
                        *old(root),
                        *root,
                        job.target@,
                        added,
                    );
                }
            },
        }
    }

    /// The correspondence the scan loop maintains between the queue and the
    /// tree: every pending unit targets a reachable directory that still
    /// awaits its listing, and every such directory has a pending unit.
    pub open spec fn scan_inv(self, root: FileDirectory) -> bool {
        &&& forall|k: int|
            0 <= k < self.queue@.len() ==> {
                let p = (#[trigger] self.queue@[k]).target@;
                root.valid_path(p) && root.node_at(p).is_dir && !root.node_at(p).scanned
            }
        &&& forall|p: Seq<usize>|
            root.valid_path(p) && (#[trigger] root.node_at(p)).is_dir && !root.node_at(p).scanned
                ==> exists|k: int| 0 <= k < self.queue@.len() && self.queue@[k].target@ == p
        &&& forall|k1: int, k2: int|
            0 <= k1 < k2 < self.queue@.len() ==> (#[trigger] self.queue@[k1]).target@ != (
            #[trigger] self.queue@[k2]).target@
    }

    /// One engine transition — taking the oldest unit of work and applying
    /// its listing step to the tree — preserves the queue/tree
    /// correspondence, so completion detection stays sound throughout a
    /// scan. `pool0` and `root0` are the state the unit was taken from,
    /// `pool1` what taking it left, `pool2` and `root2` what the listing
    /// step then left; `t` is the unit's target, `acc` the entries the step
    /// accepted (none where the listing could not be read), and `added` the
    /// nodes built for them.
    #[verifier::rlimit(100)]
    pub proof fn lemma_step_preserves_inv(
        pool0: ThreadPool,
        pool1: ThreadPool,
        pool2: ThreadPool,
        root0: FileDirectory,
        root2: FileDirectory,
        t: Seq<usize>,
        acc: Seq<EntryMeta>,
        added: Seq<FileDirectory>,
    )
        requires
            pool0.scan_inv(root0),
            pool0.queue@.len() > 0,
            t == pool0.queue@[0].target@,
            pool1.queue@ == pool0.queue@.drop_first(),
            FileDirectory::scan_updated(root0, root2, t, added),
            added.len() == acc.len(),
            forall|k: int| 0 <= k < acc.len() ==> is_fresh_node_of(#[trigger] added[k], acc[k]),
            job_targets(pool2.queue@) == job_targets(pool1.queue@) + new_job_targets(
                acc,
                t,
                root0.node_at(t).entries@.len() as int,
            ),
            root0.node_at(t).entries@.len() + acc.len() <= usize::MAX,
        ensures
            pool2.scan_inv(root2),
    {
        let base = root0.node_at(t).entries@.len() as int;
        let njt = new_job_targets(acc, t, base);
        let n1 = pool1.queue@.len() as int;
        FileDirectory::lemma_scan_updated_node_at(root0, root2, t, added);
        lemma_njt_form(acc, t, base);
        assert(forall|k: int|
            0 <= k < pool2.queue@.len() ==> #[trigger] job_targets(pool2.queue@)[k]
                == pool2.queue@[k].target@);
        assert(forall|k: int|
            0 <= k < pool1.queue@.len() ==> #[trigger] job_targets(pool1.queue@)[k]
                == pool1.queue@[k].target@);
        assert(pool2.queue@.len() == n1 + njt.len());
        assert(job_targets(pool1.queue@).len() == n1);
        assert forall|k: int| 0 <= k < n1 implies #[trigger] pool2.queue@[k].target@
            == pool0.queue@[k + 1].target@ by {
            assert(job_targets(pool2.queue@)[k] == (job_targets(pool1.queue@) + njt)[k]);
            assert((job_targets(pool1.queue@) + njt)[k] == job_targets(pool1.queue@)[k]);
            assert(pool1.queue@[k] == pool0.queue@[k + 1]);
        }
        assert forall|k: int| n1 <= k < n1 + njt.len() implies #[trigger] pool2.queue@[k].target@
            == njt[k - n1] by {
            assert(job_targets(pool2.queue@)[k] == (job_targets(pool1.queue@) + njt)[k]);
            assert((job_targets(pool1.queue@) + njt)[k] == njt[k - n1]);
        }
        assert forall|k: int| 0 <= k < pool2.queue@.len() implies {
            let p = (#[trigger] pool2.queue@[k]).target@;
            root2.valid_path(p) && root2.node_at(p).is_dir && !root2.node_at(p).scanned
        } by {
            let p = pool2.queue@[k].target@;
            if k < n1 {
                assert(p == pool0.queue@[k + 1].target@);
                assert(root0.valid_path(p) && root0.node_at(p).is_dir && !root0.node_at(
                    p,
                ).scanned);
                assert(p != t);
                FileDirectory::lemma_scan_updated_preserves(root0, root2, t, added, p);
            } else {
                let jj = k - n1;
                assert(p == njt[jj]);
                let kk = lemma_njt_elem_at(acc, t, base, jj);
                let x = (base + kk) as usize;
                root2.lemma_valid_path_push(t, x);
                assert(root2.node_at(p) == root2.node_at(t).entries@[base + kk]);
                assert(root2.node_at(t).entries@[base + kk] == added[kk]);
                assert(is_fresh_node_of(added[kk], acc[kk]));
            }
        }
        assert forall|p: Seq<usize>|
            root2.valid_path(p) && (#[trigger] root2.node_at(p)).is_dir && !root2.node_at(
                p,
            ).scanned implies exists|k: int|
            0 <= k < pool2.queue@.len() && pool2.queue@[k].target@ == p by {
            if root0.valid_path(p) {
                FileDirectory::lemma_scan_updated_preserves(root0, root2, t, added, p);
                if p == t {
                    assert(root2.node_at(t).scanned);
                }
                assert(p != t);
                assert(root0.node_at(p).is_dir && !root0.node_at(p).scanned);
                let k0 = choose|k0: int|
                    0 <= k0 < pool0.queue@.len() && pool0.queue@[k0].target@ == p;
                assert(pool0.queue@[k0].target@ == p);
                assert(k0 != 0);
                assert(pool1.queue@[k0 - 1].target@ == p);
                assert(job_targets(pool2.queue@)[k0 - 1] == job_targets(pool1.queue@)[k0 - 1]);
                assert(pool2.queue@[k0 - 1].target@ == p);
            } else {
                assert(forall|k: int|
                    0 <= k < added.len() ==> (#[trigger] added[k]).entries@.len() == 0);
                FileDirectory::lemma_scan_updated_new_paths(root0, root2, t, added, p);
                let kk = choose|kk: int|
                    0 <= kk < added.len() && p == t.push((base + kk) as usize) && root2.node_at(p)
                        == added[kk];
                assert(added[kk].is_dir);
                assert(is_fresh_node_of(added[kk], acc[kk]));
                assert(acc[kk].is_dir);
                let jj = lemma_njt_cover_at(acc, t, base, kk);
                assert(job_targets(pool2.queue@)[n1 + jj] == njt[jj]);
                assert(pool2.queue@[n1 + jj].target@ == p);
            }
        }
        assert forall|k1: int, k2: int| 0 <= k1 < k2 < pool2.queue@.len() implies (
        #[trigger] pool2.queue@[k1]).target@ != (#[trigger] pool2.queue@[k2]).target@ by {
            let p1 = pool2.queue@[k1].target@;
            let p2 = pool2.queue@[k2].target@;
            if k2 < n1 {
                assert(p1 == pool0.queue@[k1 + 1].target@);
                assert(p2 == pool0.queue@[k2 + 1].target@);
            } else if k1 < n1 {
                assert(p1 == pool0.queue@[k1 + 1].target@);
                assert(root0.valid_path(p1));
                assert(p2 == njt[k2 - n1]);
                let x = njt[k2 - n1].last();
                assert(p2 == t.push(x));
                if p1 == p2 {
                    root0.lemma_valid_path_push_inv(t, x);
                    assert(x < base);
                    assert(false);
                }
            } else {
                assert(p1 == njt[k1 - n1]);
                assert(p2 == njt[k2 - n1]);
                assert(njt[k1 - n1].last() < njt[k2 - n1].last());
                assert(p1 == t.push(njt[k1 - n1].last()));
                assert(p2 == t.push(njt[k2 - n1].last()));
                assert(p1.last() != p2.last());
            }
        }
    }

    /// At the start of a scan — the root node just built and the unit that
    /// will list it the only one pending — the queue/tree correspondence
    /// holds; each engine transition preserves it from there.
    pub proof fn lemma_scan_start_inv(self, root: FileDirectory)
        requires
            self.queue@.len() == 1,
            self.queue@[0].target@.len() == 0,
            root.is_dir,
            !root.scanned,
            root.entries@.len() == 0,
        ensures
            self.scan_inv(root),
    {
        assert(root.node_at(self.queue@[0].target@) == root);
        assert forall|p: Seq<usize>|
            root.valid_path(p) && (#[trigger] root.node_at(p)).is_dir && !root.node_at(
                p,
            ).scanned implies exists|k: int|
            0 <= k < self.queue@.len() && self.queue@[k].target@ == p by {
            assert(p.len() == 0);
            assert(p =~= self.queue@[0].target@);
            assert(self.queue@[0].target@ == p);
        }
    }

    /// Completion detection: while the queue/tree correspondence holds, the
    /// outstanding-unit count is zero exactly when every reachable
    /// directory of the tree has been fully listed.
    pub proof fn lemma_completion(self, root: FileDirectory)
        requires
            self.scan_inv(root),
        ensures
            self.queue@.len() == 0 <==> root.all_scanned(),
    {
        if self.queue@.len() == 0 {
            if !root.all_scanned() {
                root.lemma_unscanned_witness();
                let p = choose|p: Seq<usize>|
                    root.valid_path(p) && (#[trigger] root.node_at(p)).is_dir && !root.node_at(
                        p,
                    ).scanned;
                assert(exists|k: int| 0 <= k < self.queue@.len() && self.queue@[k].target@ == p);
            }
        } else {
            if root.all_scanned() {
                let p = self.queue@[0].target@;
                root.lemma_all_scanned_at(p);
            }
        }
    }

    /// How many units of work are outstanding: pending in the queue or (in
    /// a concurrent run) executing. Zero means the walk has quiesced. This
    /// counts a unit from the moment it is submitted, closing the gap in
    /// which a completion poll could fire between a submission being decided
    /// and becoming visible.
    pub fn active_count(&self) -> (r: usize)
        ensures
            r == self.queue@.len(),
    {
        self.queue.len()
    }
}

} // verus!

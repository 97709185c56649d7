//! The directory tree: one node per filesystem entry, owned children,
//! and a lazily recomputed, dirty-flag-guarded aggregate size cache.

use vstd::prelude::*;

verus! {

broadcast use
    vstd::std_specs::vec::group_vec_axioms,
    vstd::seq::group_seq_axioms,
    vstd::seq_lib::to_multiset_insert,
    vstd::seq_lib::to_multiset_remove,
    vstd::seq_lib::to_multiset_contains;

/// Saturate a mathematical byte count to the `u64` range.
pub open spec fn sat64(n: nat) -> u64 {
    if n > u64::MAX {
        u64::MAX
    } else {
        n as u64
    }
}

/// Saturated addition agrees with saturating the exact sum.
pub proof fn lemma_sat64_add(a: nat, b: nat)
    ensures
        sat64((sat64(a) + sat64(b)) as nat) == sat64(a + b),
{
}

/// Idempotent read: reading the aggregate leaves the tree with the same
/// shape it had, and the aggregate depends on the shape alone — so a second
/// read with no mutation in between returns the identical value, from the
/// cache. `s0`, `s1`, `s2` are the tree before the first read, between the
/// reads, and after the second; `r1` and `r2` are what the two reads return.
pub proof fn lemma_idempotent_read(
    s0: FileDirectory,
    s1: FileDirectory,
    s2: FileDirectory,
    r1: u64,
    r2: u64,
)
    requires
        r1 == sat64(s0.subtree_size()),
        FileDirectory::same_shape(s0, s1),
        r2 == sat64(s1.subtree_size()),
        FileDirectory::same_shape(s1, s2),
    ensures
        r1 == r2,
{
    FileDirectory::lemma_same_shape_size(s0, s1);
}

/// Dirty propagation is what keeps the lazy aggregate honest: a completed
/// listing step flags the whole ancestor chain of the node it fills, so
/// the cache invariant survives the insertions, and the next aggregate
/// read of any node returns the exact sum of the physical sizes of its
/// descendant files and symlinks — the old total plus what was inserted.
pub proof fn lemma_insertions_keep_aggregate_exact(
    a: FileDirectory,
    b: FileDirectory,
    t: Seq<usize>,
    added: Seq<FileDirectory>,
)
    requires
        a.cache_ok(),
        FileDirectory::scan_updated(a, b, t, added),
        FileDirectory::entries_cache_ok(added),
    ensures
        b.cache_ok(),
        b.subtree_size() == a.subtree_size() + FileDirectory::entries_total(added),
{
    FileDirectory::lemma_scan_updated_cache_ok(a, b, t, added);
    FileDirectory::lemma_scan_updated_size(a, b, t, added);
}

/// One filesystem entry (file, symlink or directory) together with its
/// cached aggregate size and its owned children.
pub struct FileDirectory {
    pub name: String,
    pub path: String,
    pub is_dir: bool,
    pub is_symlink: bool,
    pub is_hardlink: bool,
    pub hardlink_count: u64,
    pub blocks: Option<u64>,
    pub cached_aggregate_size: u64,
    pub dirty: bool,
    pub scanned: bool,
    pub entries: Vec<FileDirectory>,
}

impl FileDirectory {
    /// Physical bytes allocated to this entry itself: 512 bytes per block,
    /// zero where the platform reports no block count.
    pub open spec fn spec_physical_size(self) -> nat {
        match self.blocks {
            Some(b) => b as nat * 512,
            None => 0,
        }
    }

    /// What this node contributes of its own to an aggregate: directories
    /// contribute only through their descendants, never their own entry size.
    pub open spec fn spec_own_size(self) -> nat {
        if self.is_dir {
            0
        } else {
            self.spec_physical_size()
        }
    }

    /// The exact aggregate: this node's own contribution plus the aggregate
    /// of every child, recursively.
    pub open spec fn subtree_size(self) -> nat
        decreases self,
    {
        self.spec_own_size() + Self::entries_total(self.entries@)
    }

    /// Sum of the aggregates of a sequence of nodes.
    pub open spec fn entries_total(s: Seq<FileDirectory>) -> nat
        decreases s,
    {
        if s.len() == 0 {
            0
        } else {
            s[0].subtree_size() + Self::entries_total(s.drop_first())
        }
    }

    /// The cache invariant: wherever the dirty flag is clear, the cached
    /// value is the (saturated) exact aggregate; and this holds at every
    /// node of the subtree.
    pub open spec fn cache_ok(self) -> bool
        decreases self,
    {
        &&& (!self.dirty ==> self.cached_aggregate_size == sat64(self.subtree_size()))
        &&& Self::entries_cache_ok(self.entries@)
    }

    /// The cache invariant, over a sequence of nodes.
    pub open spec fn entries_cache_ok(s: Seq<FileDirectory>) -> bool
        decreases s,
    {
        if s.len() == 0 {
            true
        } else {
            s[0].cache_ok() && Self::entries_cache_ok(s.drop_first())
        }
    }

    /// Each node of a sequence satisfying the cache invariant does so itself.
    pub proof fn lemma_entries_cache_ok_index(s: Seq<FileDirectory>, i: int)
        requires
            Self::entries_cache_ok(s),
            0 <= i < s.len(),
        ensures
            s[i].cache_ok(),
        decreases s,
    {
        if i > 0 {
            Self::lemma_entries_cache_ok_index(s.drop_first(), i - 1);
        }
    }

    /// A sequence whose nodes each satisfy the cache invariant satisfies it
    /// as a whole.
    pub proof fn lemma_entries_cache_ok_build(s: Seq<FileDirectory>)
        requires
            forall|i: int| 0 <= i < s.len() ==> (#[trigger] s[i]).cache_ok(),
        ensures
            Self::entries_cache_ok(s),
        decreases s,
    {
        if s.len() > 0 {
            assert(s[0].cache_ok());
            assert(forall|i: int|
                0 <= i < s.drop_first().len() ==> (#[trigger] s.drop_first()[i]).cache_ok());
            Self::lemma_entries_cache_ok_build(s.drop_first());
        }
    }

    /// Two nodes have the same shape when they agree on everything except
    /// the aggregate cache (cached value and dirty flag), recursively.
    pub open spec fn same_shape(a: FileDirectory, b: FileDirectory) -> bool
        decreases a,
    {
        &&& b.name == a.name
        &&& b.path == a.path
        &&& b.is_dir == a.is_dir
        &&& b.is_symlink == a.is_symlink
        &&& b.is_hardlink == a.is_hardlink
        &&& b.hardlink_count == a.hardlink_count
        &&& b.blocks == a.blocks
        &&& b.scanned == a.scanned
        &&& b.entries@.len() == a.entries@.len()
        &&& forall|i: int|
            0 <= i < a.entries@.len() ==> Self::same_shape(
                #[trigger] a.entries@[i],
                b.entries@[i],
            )
    }

    /// The aggregate depends only on a node's shape, never on its cache.
    pub proof fn lemma_same_shape_size(a: FileDirectory, b: FileDirectory)
        requires
            Self::same_shape(a, b),
        ensures
            a.subtree_size() == b.subtree_size(),
        decreases a,
    {
        Self::lemma_entries_total_shape(a.entries@, b.entries@);
    }

    /// Pointwise same shape gives equal sums.
    pub proof fn lemma_entries_total_shape(s1: Seq<FileDirectory>, s2: Seq<FileDirectory>)
        requires
            s1.len() == s2.len(),
            forall|i: int| 0 <= i < s1.len() ==> Self::same_shape(#[trigger] s1[i], s2[i]),
        ensures
            Self::entries_total(s1) == Self::entries_total(s2),
        decreases s1,
    {
        if s1.len() > 0 {
            Self::lemma_same_shape_size(s1[0], s2[0]);
            Self::lemma_entries_total_shape(s1.drop_first(), s2.drop_first());
        }
    }

    /// Same shape is reflexive.
    pub proof fn lemma_same_shape_refl(a: FileDirectory)
        ensures
            Self::same_shape(a, a),
        decreases a,
    {
        assert forall|i: int| 0 <= i < a.entries@.len() implies Self::same_shape(
            #[trigger] a.entries@[i],
            a.entries@[i],
        ) by {
            Self::lemma_same_shape_refl(a.entries@[i]);
        }
    }

    /// A sum step: the sum over one more element adds that element's aggregate.
    pub proof fn lemma_entries_total_push(s: Seq<FileDirectory>, d: FileDirectory)
        ensures
            Self::entries_total(s.push(d)) == Self::entries_total(s) + d.subtree_size(),
        decreases s,
    {
        let t = s.push(d);
        if s.len() == 0 {
            assert(t.drop_first() =~= Seq::<FileDirectory>::empty());
            assert(t[0] == d);
            assert(Self::entries_total(t) == d.subtree_size() + Self::entries_total(
                Seq::<FileDirectory>::empty(),
            ));
        } else {
            assert(t[0] == s[0]);
            assert(t.drop_first() =~= s.drop_first().push(d));
            Self::lemma_entries_total_push(s.drop_first(), d);
            assert(Self::entries_total(t) == s[0].subtree_size() + Self::entries_total(
                t.drop_first(),
            ));
            assert(Self::entries_total(s) == s[0].subtree_size() + Self::entries_total(
                s.drop_first(),
            ));
        }
    }

    /// A node is sized when its cache holds exactly its own contribution
    /// and is clean: how every node looks the moment it is created.
    pub open spec fn is_sized(self) -> bool {
        self.cached_aggregate_size == sat64(self.spec_own_size()) && !self.dirty
    }

    /// The node as `add_entry` stores it: cache set to its own contribution,
    /// dirty flag clear.
    pub open spec fn sized_of(e: FileDirectory) -> FileDirectory {
        FileDirectory {
            cached_aggregate_size: sat64(e.spec_own_size()),
            dirty: false,
            ..e
        }
    }

    /// Agreement on every identity field: everything except the cache
    /// (cached value, dirty flag), the scanned flag and the children.
    pub open spec fn same_fields(a: FileDirectory, b: FileDirectory) -> bool {
        &&& b.name == a.name
        &&& b.path == a.path
        &&& b.is_dir == a.is_dir
        &&& b.is_symlink == a.is_symlink
        &&& b.is_hardlink == a.is_hardlink
        &&& b.hardlink_count == a.hardlink_count
        &&& b.blocks == a.blocks
    }

    /// A sequence of child indices leads to a node of the tree.
    pub open spec fn valid_path(self, p: Seq<usize>) -> bool
        decreases p.len(),
    {
        p.len() == 0 || (p[0] < self.entries@.len() && self.entries@[p[0] as int].valid_path(
            p.drop_first(),
        ))
    }

    /// The node reached by a sequence of child indices.
    pub open spec fn node_at(self, p: Seq<usize>) -> FileDirectory
        decreases p.len(),
    {
        if p.len() == 0 {
            self
        } else {
            self.entries@[p[0] as int].node_at(p.drop_first())
        }
    }

    /// `b` is `a` after a completed listing step at the node reached by `p`:
    /// the reached node gains `added` children and is marked scanned, every
    /// node on the way (the target's ancestor chain) is marked dirty when
    /// anything was added, and nothing else changes.
    pub open spec fn scan_updated(
        a: FileDirectory,
        b: FileDirectory,
        p: Seq<usize>,
        added: Seq<FileDirectory>,
    ) -> bool
        decreases p.len(),
    {
        &&& Self::same_fields(a, b)
        &&& b.dirty == (a.dirty || added.len() > 0)
        &&& if p.len() == 0 {
            &&& b.entries@ == a.entries@ + added
            &&& b.scanned == true
            &&& b.cached_aggregate_size == a.cached_aggregate_size
        } else {
            &&& p[0] < a.entries@.len()
            &&& b.entries@.len() == a.entries@.len()
            &&& forall|j: int|
                0 <= j < a.entries@.len() && j != p[0] ==> b.entries@[j] == #[trigger] a.entries@[j]
            &&& b.scanned == a.scanned
            &&& b.cached_aggregate_size == a.cached_aggregate_size
            &&& Self::scan_updated(
                a.entries@[p[0] as int],
                b.entries@[p[0] as int],
                p.drop_first(),
                added,
            )
        }
    }

    /// Sums append.
    pub proof fn lemma_entries_total_append(s1: Seq<FileDirectory>, s2: Seq<FileDirectory>)
        ensures
            Self::entries_total(s1 + s2) == Self::entries_total(s1) + Self::entries_total(s2),
        decreases s2,
    {
        if s2.len() == 0 {
            assert(s1 + s2 =~= s1);
        } else {
            assert(s1 + s2 =~= (s1 + s2.drop_last()).push(s2.last()));
            assert(s2 =~= s2.drop_last().push(s2.last()));
            Self::lemma_entries_total_append(s1, s2.drop_last());
            Self::lemma_entries_total_push(s1 + s2.drop_last(), s2.last());
            Self::lemma_entries_total_push(s2.drop_last(), s2.last());
        }
    }

    /// Changing one element of a sequence changes the sum by the difference
    /// of the aggregates at that position.
    pub proof fn lemma_entries_total_update(s1: Seq<FileDirectory>, s2: Seq<FileDirectory>, i: int)
        requires
            s1.len() == s2.len(),
            0 <= i < s1.len(),
            forall|j: int| 0 <= j < s1.len() && j != i ==> s2[j] == #[trigger] s1[j],
        ensures
            Self::entries_total(s2) + s1[i].subtree_size() == Self::entries_total(s1)
                + s2[i].subtree_size(),
        decreases s1,
    {
        if i == 0 {
            Self::lemma_entries_total_shape_eq(s1.drop_first(), s2.drop_first());
        } else {
            Self::lemma_entries_total_update(s1.drop_first(), s2.drop_first(), i - 1);
        }
    }

    /// Equal sequences have equal sums (stated over pointwise equality).
    pub proof fn lemma_entries_total_shape_eq(s1: Seq<FileDirectory>, s2: Seq<FileDirectory>)
        requires
            s1.len() == s2.len(),
            forall|j: int| 0 <= j < s1.len() ==> s2[j] == #[trigger] s1[j],
        ensures
            Self::entries_total(s1) == Self::entries_total(s2),
    {
        assert(s1 =~= s2);
    }

    /// A completed listing step raises the aggregate of the tree by exactly
    /// the aggregates of the added children.
    pub proof fn lemma_scan_updated_size(
        a: FileDirectory,
        b: FileDirectory,
        p: Seq<usize>,
        added: Seq<FileDirectory>,
    )
        requires
            Self::scan_updated(a, b, p, added),
        ensures
            b.subtree_size() == a.subtree_size() + Self::entries_total(added),
            b.node_at(p).subtree_size() == a.node_at(p).subtree_size() + Self::entries_total(
                added,
            ),
        decreases p.len(),
    {
        if p.len() == 0 {
            Self::lemma_entries_total_append(a.entries@, added);
        } else {
            let i = p[0] as int;
            Self::lemma_scan_updated_size(a.entries@[i], b.entries@[i], p.drop_first(), added);
            Self::lemma_entries_total_update(a.entries@, b.entries@, i);
        }
    }

    /// A completed listing step preserves the cache invariant, provided the
    /// added children satisfy it.
    pub proof fn lemma_scan_updated_cache_ok(
        a: FileDirectory,
        b: FileDirectory,
        p: Seq<usize>,
        added: Seq<FileDirectory>,
    )
        requires
            Self::scan_updated(a, b, p, added),
            a.cache_ok(),
            Self::entries_cache_ok(added),
        ensures
            b.cache_ok(),
        decreases p.len(),
    {
        Self::lemma_scan_updated_size(a, b, p, added);
        if p.len() == 0 {
            Self::lemma_entries_cache_ok_append(a.entries@, added);
        } else {
            let i = p[0] as int;
            Self::lemma_entries_cache_ok_index(a.entries@, i);
            Self::lemma_scan_updated_cache_ok(a.entries@[i], b.entries@[i], p.drop_first(), added);
            assert forall|j: int| 0 <= j < b.entries@.len() implies (
            #[trigger] b.entries@[j]).cache_ok() by {
                Self::lemma_entries_cache_ok_index(a.entries@, j);
            }
            Self::lemma_entries_cache_ok_build(b.entries@);
        }
    }

    /// What a completed listing step does at the listed node itself, and
    /// that the paths involved stay valid.
    pub proof fn lemma_scan_updated_node_at(
        a: FileDirectory,
        b: FileDirectory,
        p: Seq<usize>,
        added: Seq<FileDirectory>,
    )
        requires
            Self::scan_updated(a, b, p, added),
        ensures
            b.node_at(p).entries@ == a.node_at(p).entries@ + added,
            b.node_at(p).scanned,
            a.valid_path(p),
            b.valid_path(p),
        decreases p.len(),
    {
        if p.len() == 0 {
        } else {
            let i = p[0] as int;
            Self::lemma_scan_updated_node_at(a.entries@[i], b.entries@[i], p.drop_first(), added);
        }
    }

    /// Every directory of this subtree has had its listing completed.
    pub open spec fn all_scanned(self) -> bool
        decreases self,
    {
        &&& (self.is_dir ==> self.scanned)
        &&& Self::entries_all_scanned(self.entries@)
    }

    /// Every directory under a sequence of nodes has been listed.
    pub open spec fn entries_all_scanned(s: Seq<FileDirectory>) -> bool
        decreases s,
    {
        if s.len() == 0 {
            true
        } else {
            s[0].all_scanned() && Self::entries_all_scanned(s.drop_first())
        }
    }

    /// Index access into `entries_all_scanned`.
    pub proof fn lemma_entries_all_scanned_index(s: Seq<FileDirectory>, i: int)
        requires
            Self::entries_all_scanned(s),
            0 <= i < s.len(),
        ensures
            s[i].all_scanned(),
        decreases s,
    {
        if i > 0 {
            Self::lemma_entries_all_scanned_index(s.drop_first(), i - 1);
        }
    }

    /// In a fully listed tree, the node at any reachable path is itself
    /// fully listed.
    pub proof fn lemma_all_scanned_at(self, p: Seq<usize>)
        requires
            self.all_scanned(),
            self.valid_path(p),
        ensures
            self.node_at(p).all_scanned(),
        decreases p.len(),
    {
        if p.len() > 0 {
            Self::lemma_entries_all_scanned_index(self.entries@, p[0] as int);
            self.entries@[p[0] as int].lemma_all_scanned_at(p.drop_first());
        }
    }

    /// A tree that is not fully listed has a reachable directory that still
    /// awaits its listing.
    pub proof fn lemma_unscanned_witness(self)
        requires
            !self.all_scanned(),
        ensures
            exists|p: Seq<usize>|
                self.valid_path(p) && (#[trigger] self.node_at(p)).is_dir && !self.node_at(
                    p,
                ).scanned,
        decreases self,
    {
        if self.is_dir && !self.scanned {
            let p = Seq::<usize>::empty();
            assert(self.valid_path(p) && self.node_at(p).is_dir && !self.node_at(p).scanned);
        } else {
            let i = Self::lemma_entries_unscanned_witness(self.entries@);
            let child = self.entries@[i];
            child.lemma_unscanned_witness();
            let sub = choose|q: Seq<usize>|
                child.valid_path(q) && (#[trigger] child.node_at(q)).is_dir && !child.node_at(
                    q,
                ).scanned;
            assert(child.valid_path(sub) && child.node_at(sub).is_dir && !child.node_at(
                sub,
            ).scanned);
            assert(self.entries@.len() <= usize::MAX) by {
                assert(vstd::std_specs::vec::spec_vec_len(&self.entries) == self.entries@.len());
            }
            let p = seq![i as usize] + sub;
            assert(p.len() == sub.len() + 1);
            assert(p[0] == i as usize);
            assert(p.drop_first() =~= sub);
            assert(self.valid_path(p));
            assert(self.node_at(p) == child.node_at(sub));
        }
    }

    /// In a sequence that is not fully listed, some node is not.
    pub proof fn lemma_entries_unscanned_witness(s: Seq<FileDirectory>) -> (i: int)
        requires
            !Self::entries_all_scanned(s),
        ensures
            0 <= i < s.len(),
            !s[i].all_scanned(),
        decreases s,
    {
        if !s[0].all_scanned() {
            0
        } else {
            Self::lemma_entries_unscanned_witness(s.drop_first()) + 1
        }
    }

    /// The cache invariant over an appended sequence.
    pub proof fn lemma_entries_cache_ok_append(s1: Seq<FileDirectory>, s2: Seq<FileDirectory>)
        requires
            Self::entries_cache_ok(s1),
            Self::entries_cache_ok(s2),
        ensures
            Self::entries_cache_ok(s1 + s2),
    {
        assert forall|j: int| 0 <= j < (s1 + s2).len() implies ((s1 + s2)[j]).cache_ok() by {
            if j < s1.len() {
                Self::lemma_entries_cache_ok_index(s1, j);
            } else {
                Self::lemma_entries_cache_ok_index(s2, j - s1.len());
            }
        }
        Self::lemma_entries_cache_ok_build(s1 + s2);
    }

    pub fn blocks(&self) -> (r: u64)
        ensures
            r == match self.blocks {
                Some(b) => b,
                None => 0u64,
            },
    {
        if let Some(b) = self.blocks {
            b
        } else {
            0
        }
    }

    /// Physical bytes of this entry itself, saturated to `u64`.
    pub fn physical_size(&self) -> (r: u64)
        ensures
            r == sat64(self.spec_physical_size()),
    {
        let b = self.blocks();
        if b <= u64::MAX / 512 {
            b * 512
        } else {
            u64::MAX
        }
    }

    /// This node's own contribution, saturated to `u64`.
    pub fn own_size(&self) -> (r: u64)
        ensures
            r == sat64(self.spec_own_size()),
    {
        if self.is_dir {
            0
        } else {
            self.physical_size()
        }
    }

    /// The aggregate size of this node: own contribution plus every child,
    /// recursively. Served from the cache when the dirty flag is clear;
    /// otherwise recomputed, memoized, and the flag cleared.
    pub fn actual_size_bytes(&mut self) -> (r: u64)
        requires
            old(self).cache_ok(),
        ensures
            r == sat64(old(self).subtree_size()),
            final(self).cached_aggregate_size == r,
            !final(self).dirty,
            final(self).cache_ok(),
            Self::same_shape(*old(self), *final(self)),
        decreases *old(self),
    {
        proof {
            Self::lemma_same_shape_refl(*old(self));
        }
        if !self.dirty {
            self.cached_aggregate_size
        } else {
            let mut total: u64 = self.own_size();
            let n = self.entries.len();
            let mut i: usize = 0;
            while i < n
                invariant
                    old(self).cache_ok(),
                    i <= n,
                    n == self.entries@.len(),
                    n == old(self).entries@.len(),
                    self.name == old(self).name,
                    self.path == old(self).path,
                    self.is_dir == old(self).is_dir,
                    self.is_symlink == old(self).is_symlink,
                    self.is_hardlink == old(self).is_hardlink,
                    self.hardlink_count == old(self).hardlink_count,
                    self.blocks == old(self).blocks,
                    self.scanned == old(self).scanned,
                    self.dirty == old(self).dirty,
                    self.cached_aggregate_size == old(self).cached_aggregate_size,
                    forall|j: int| i <= j < n ==> self.entries@[j] == old(self).entries@[j],
                    forall|j: int|
                        0 <= j < i ==> Self::same_shape(
                            #[trigger] old(self).entries@[j],
                            self.entries@[j],
                        ),
                    forall|j: int|
                        0 <= j < i ==> (#[trigger] self.entries@[j]).cache_ok()
                            && !self.entries@[j].dirty,
                    total == sat64(
                        old(self).spec_own_size() + Self::entries_total(
                            old(self).entries@.take(i as int),
                        ),
                    ),
                decreases n - i,
            {
                let ghost prefix = old(self).entries@.take(i as int);
                proof {
                    Self::lemma_entries_cache_ok_index(old(self).entries@, i as int);
                }
                let c = self.entries[i].actual_size_bytes();
                proof {
                    assert(old(self).entries@.take(i as int + 1) =~= prefix.push(
                        old(self).entries@[i as int],
                    ));
                    Self::lemma_entries_total_push(prefix, old(self).entries@[i as int]);
                    lemma_sat64_add(
                        old(self).spec_own_size() + Self::entries_total(prefix),
                        old(self).entries@[i as int].subtree_size(),
                    );
                }
                total = total.saturating_add(c);
                i = i + 1;
            }
            proof {
                assert(old(self).entries@.take(n as int) =~= old(self).entries@);
                Self::lemma_entries_total_shape(old(self).entries@, self.entries@);
                Self::lemma_entries_cache_ok_build(self.entries@);
            }
            self.cached_aggregate_size = total;
            self.dirty = false;
            total
        }
    }

    /// The label shown for this entry's kind.
    pub open spec fn spec_type_label(self) -> Seq<char> {
        if self.is_hardlink {
            seq!['h', 'a', 'r', 'd', 'l', 'i', 'n', 'k', '('] + crate::utils::spec_decimal(
                self.hardlink_count as nat,
            ) + seq![')']
        } else if self.is_symlink {
            seq!['s', 'y', 'm', 'l', 'i', 'n', 'k']
        } else {
            seq!['-']
        }
    }

    /// The entry's kind as text: a hard link with its link count, a
    /// symlink, or a plain entry.
    pub fn get_type(&self) -> (r: String)
        ensures
            r@ == self.spec_type_label(),
    {
        if self.is_hardlink {
            proof {
                reveal_strlit("hardlink(");
                reveal_strlit(")");
                assert("hardlink("@ =~= seq!['h', 'a', 'r', 'd', 'l', 'i', 'n', 'k', '(']);
                assert(")"@ =~= seq![')']);
            }
            let mut s = String::new();
            s.append("hardlink(");
            let count = crate::utils::u64_to_dec(self.hardlink_count);
            s.append(count.as_str());
            s.append(")");
            proof {
                assert(s@ =~= self.spec_type_label());
            }
            s
        } else if self.is_symlink {
            proof {
                reveal_strlit("symlink");
                assert("symlink"@ =~= seq!['s', 'y', 'm', 'l', 'i', 'n', 'k']);
            }
            let mut s = String::new();
            s.append("symlink");
            s
        } else {
            proof {
                reveal_strlit("-");
                assert("-"@ =~= seq!['-']);
            }
            let mut s = String::new();
            s.append("-");
            s
        }
    }

    /// The three display cells of this entry: name, formatted cached
    /// aggregate, kind label.
    pub fn array(&self) -> (r: [String; 3])
        ensures
            r@[0] == self.name,
            r@[1]@ == crate::utils::spec_format_bytes(self.cached_aggregate_size),
            r@[2]@ == self.spec_type_label(),
    {
        [self.name.clone(), crate::utils::format_bytes(self.cached_aggregate_size), self.get_type()]
    }

    /// Removing one element lowers the sum by that element's aggregate.
    pub proof fn lemma_entries_total_remove(s: Seq<FileDirectory>, i: int)
        requires
            0 <= i < s.len(),
        ensures
            Self::entries_total(s.remove(i)) + s[i].subtree_size() == Self::entries_total(s),
        decreases s,
    {
        if i == 0 {
            assert(s.remove(0) =~= s.drop_first());
        } else {
            assert(s.remove(i).drop_first() =~= s.drop_first().remove(i - 1));
            Self::lemma_entries_total_remove(s.drop_first(), i - 1);
        }
    }

    /// Sort the children in place by cached aggregate size, largest first.
    /// A display-order change only: the set of children, every cache, and
    /// every aggregate stay exactly as they were.
    pub fn sort_entries_by_size_desc(&mut self)
        ensures
            final(self).entries@.to_multiset() == old(self).entries@.to_multiset(),
            final(self).entries@.len() == old(self).entries@.len(),
            forall|i: int, j: int|
                0 <= i <= j < final(self).entries@.len()
                    ==> (#[trigger] final(self).entries@[i]).cached_aggregate_size
                    >= (#[trigger] final(self).entries@[j]).cached_aggregate_size,
            Self::same_fields(*old(self), *final(self)),
            final(self).scanned == old(self).scanned,
            final(self).dirty == old(self).dirty,
            final(self).cached_aggregate_size == old(self).cached_aggregate_size,
            final(self).subtree_size() == old(self).subtree_size(),
            old(self).cache_ok() ==> final(self).cache_ok(),
    {
        let ghost orig = *old(self);
        let n = self.entries.len();
        proof {
            if orig.cache_ok() {
                assert forall|k: int| 0 <= k < n implies (
                #[trigger] self.entries@[k]).cache_ok() by {
                    Self::lemma_entries_cache_ok_index(orig.entries@, k);
                }
            }
        }
        let mut i: usize = 0;
        while i < n
            invariant
                i <= n,
                n == self.entries@.len(),
                self.entries@.to_multiset() == orig.entries@.to_multiset(),
                forall|a: int, b: int|
                    0 <= a <= b < i ==> self.entries@[a].cached_aggregate_size
                        >= self.entries@[b].cached_aggregate_size,
                forall|a: int, b: int|
                    0 <= a < i <= b < n ==> self.entries@[a].cached_aggregate_size
                        >= self.entries@[b].cached_aggregate_size,
                Self::entries_total(self.entries@) == Self::entries_total(orig.entries@),
                forall|k: int|
                    0 <= k < n ==> (orig.cache_ok() ==> (#[trigger] self.entries@[k]).cache_ok()),
                Self::same_fields(orig, *self),
                self.scanned == orig.scanned,
                self.dirty == orig.dirty,
                self.cached_aggregate_size == orig.cached_aggregate_size,
            decreases n - i,
        {
            let mut m: usize = i;
            let mut j: usize = i + 1;
            while j < n
                invariant
                    i <= m < j <= n,
                    n == self.entries@.len(),
                    forall|t: int|
                        i <= t < j ==> self.entries@[m as int].cached_aggregate_size >= (
                        #[trigger] self.entries@[t]).cached_aggregate_size,
                decreases n - j,
            {
                if self.entries[j].cached_aggregate_size
                    > self.entries[m].cached_aggregate_size {
                    m = j;
                }
                j = j + 1;
            }
            let ghost before = self.entries@;
            let x = self.entries.remove(m);
            let ghost mid = self.entries@;
            self.entries.insert(i, x);
            proof {
                assert(mid == before.remove(m as int));
                assert(self.entries@ == mid.insert(i as int, x));
                assert(before.contains(x)) by {
                    assert(before[m as int] == x);
                }
                assert(before.to_multiset().count(x) > 0);
                assert(self.entries@.to_multiset() =~= before.to_multiset());
                Self::lemma_entries_total_remove(before, m as int);
                Self::lemma_entries_total_insert(mid, i as int, x);
                assert forall|a: int, b: int|
                    0 <= a <= b < i + 1 implies self.entries@[a].cached_aggregate_size
                    >= self.entries@[b].cached_aggregate_size by {
                    if b == i {
                        if a < i {
                            assert(self.entries@[a] == before[a]);
                        }
                        assert(self.entries@[i as int] == x);
                    } else {
                        assert(self.entries@[a] == before[a]);
                        assert(self.entries@[b] == before[b]);
                    }
                }
                assert forall|a: int, b: int|
                    0 <= a < i + 1 <= b < n implies self.entries@[a].cached_aggregate_size
                    >= self.entries@[b].cached_aggregate_size by {
                    let src = if b - 1 < m { b - 1 } else { b };
                    assert(mid[b - 1] == before[src]);
                    assert(self.entries@[b] == mid[b - 1]);
                    if a < i {
                        assert(self.entries@[a] == before[a]);
                    } else {
                        assert(self.entries@[a] == x);
                    }
                }
                if orig.cache_ok() {
                    assert forall|k: int| 0 <= k < n implies (
                    #[trigger] self.entries@[k]).cache_ok() by {
                        if k < i {
                            assert(self.entries@[k] == before[k]);
                        } else if k == i {
                            assert(self.entries@[k] == x);
                        } else {
                            let src = if k - 1 < m { k - 1 } else { k };
                            assert(mid[k - 1] == before[src]);
                            assert(self.entries@[k] == mid[k - 1]);
                        }
                    }
                }
            }
            i = i + 1;
        }
        proof {
            if orig.cache_ok() {
                Self::lemma_entries_cache_ok_build(self.entries@);
            }
        }
    }

    /// Inserting one element raises the sum by that element's aggregate.
    pub proof fn lemma_entries_total_insert(s: Seq<FileDirectory>, i: int, x: FileDirectory)
        requires
            0 <= i <= s.len(),
        ensures
            Self::entries_total(s.insert(i, x)) == Self::entries_total(s) + x.subtree_size(),
        decreases s.len(),
    {
        if i == 0 {
            assert(s.insert(0, x).drop_first() =~= s);
            assert(s.insert(0, x)[0] == x);
        } else {
            assert(s.insert(i, x)[0] == s[0]);
            assert(s.insert(i, x).drop_first() =~= s.drop_first().insert(i - 1, x));
            Self::lemma_entries_total_insert(s.drop_first(), i - 1, x);
        }
    }

    /// Borrow the node reached from this one by the tail of `path` starting
    /// at `depth`.
    pub fn get_at(&self, path: &Vec<usize>, depth: usize) -> (r: &FileDirectory)
        requires
            depth <= path@.len(),
            self.valid_path(path@.skip(depth as int)),
        ensures
            *r == self.node_at(path@.skip(depth as int)),
        decreases path@.len() - depth,
    {
        if depth == path.len() {
            proof {
                assert(path@.skip(depth as int) =~= Seq::<usize>::empty());
            }
            self
        } else {
            let i = path[depth];
            proof {
                assert(path@.skip(depth as int)[0] == path@[depth as int]);
                assert(path@.skip(depth as int).drop_first() =~= path@.skip(depth as int + 1));
            }
            self.entries[i].get_at(path, depth + 1)
        }
    }

    /// A reachable path extends to any child of the node it reaches.
    pub proof fn lemma_valid_path_push(self, p: Seq<usize>, i: usize)
        requires
            self.valid_path(p),
            i < self.node_at(p).entries@.len(),
        ensures
            self.valid_path(p.push(i)),
            self.node_at(p.push(i)) == self.node_at(p).entries@[i as int],
        decreases p.len(),
    {
        if p.len() == 0 {
            assert(p.push(i)[0] == i);
            assert(p.push(i).drop_first() =~= Seq::<usize>::empty());
            assert(self.entries@[i as int].valid_path(p.push(i).drop_first()));
            assert(self.entries@[i as int].node_at(p.push(i).drop_first()) == self.entries@[i as int]);
            assert(self.node_at(p.push(i)) == self.entries@[i as int]);
            assert(self.node_at(p) == self);
        } else {
            assert(p.push(i)[0] == p[0]);
            assert(p.push(i).drop_first() =~= p.drop_first().push(i));
            self.entries@[p[0] as int].lemma_valid_path_push(p.drop_first(), i);
            assert(self.entries@[p[0] as int].valid_path(p.push(i).drop_first()));
            assert(self.node_at(p.push(i)) == self.entries@[p[0] as int].node_at(
                p.push(i).drop_first(),
            ));
            assert(self.node_at(p) == self.entries@[p[0] as int].node_at(p.drop_first()));
        }
    }

    /// A reachable extended path reaches a child that is really there.
    pub proof fn lemma_valid_path_push_inv(self, p: Seq<usize>, i: usize)
        requires
            self.valid_path(p.push(i)),
        ensures
            self.valid_path(p),
            i < self.node_at(p).entries@.len(),
        decreases p.len(),
    {
        if p.len() == 0 {
            assert(p.push(i)[0] == i);
            assert(self.node_at(p) == self);
        } else {
            assert(p.push(i)[0] == p[0]);
            assert(p.push(i).drop_first() =~= p.drop_first().push(i));
            self.entries@[p[0] as int].lemma_valid_path_push_inv(p.drop_first(), i);
            assert(self.node_at(p) == self.entries@[p[0] as int].node_at(p.drop_first()));
        }
    }

    /// A completed listing step keeps every previously reachable path
    /// reachable, with its node's kind unchanged, and changes no listed
    /// mark but the target's.
    pub proof fn lemma_scan_updated_preserves(
        a: FileDirectory,
        b: FileDirectory,
        t: Seq<usize>,
        added: Seq<FileDirectory>,
        q: Seq<usize>,
    )
        requires
            Self::scan_updated(a, b, t, added),
            a.valid_path(q),
        ensures
            b.valid_path(q),
            b.node_at(q).is_dir == a.node_at(q).is_dir,
            b.node_at(q).entries@.len() >= a.node_at(q).entries@.len(),
            q != t ==> b.node_at(q).scanned == a.node_at(q).scanned,
            q != t ==> b.node_at(q).entries@.len() == a.node_at(q).entries@.len(),
        decreases q.len(),
    {
        if t.len() == 0 {
            if q.len() > 0 {
                assert(b.entries@[q[0] as int] == a.entries@[q[0] as int]);
                assert(b.valid_path(q));
                assert(b.node_at(q) == a.node_at(q));
            } else {
                assert(q =~= t);
            }
        } else {
            if q.len() == 0 {
                assert(b.node_at(q) == b);
                assert(a.node_at(q) == a);
                assert(b.scanned == a.scanned);
            } else if q[0] != t[0] {
                assert(b.entries@[q[0] as int] == a.entries@[q[0] as int]);
                assert(b.valid_path(q));
                assert(b.node_at(q) == a.node_at(q));
            } else {
                Self::lemma_scan_updated_preserves(
                    a.entries@[t[0] as int],
                    b.entries@[t[0] as int],
                    t.drop_first(),
                    added,
                    q.drop_first(),
                );
                assert(b.node_at(q) == b.entries@[t[0] as int].node_at(q.drop_first()));
                assert(a.node_at(q) == a.entries@[t[0] as int].node_at(q.drop_first()));
                if q != t {
                    assert(q.drop_first() != t.drop_first()) by {
                        if q.drop_first() == t.drop_first() && q.len() == t.len() {
                            assert forall|j: int| 0 <= j < q.len() implies q[j] == t[j] by {
                                if j > 0 {
                                    assert(q[j] == q.drop_first()[j - 1]);
                                    assert(t[j] == t.drop_first()[j - 1]);
                                }
                            }
                            assert(q =~= t);
                        }
                    }
                    assert(b.node_at(q).scanned == a.node_at(q).scanned);
                    assert(b.node_at(q).entries@.len() == a.node_at(q).entries@.len());
                }
            }
        }
    }

    /// A path reachable after a completed listing step but not before leads
    /// to one of the added children (which are childless when fresh).
    pub proof fn lemma_scan_updated_new_paths(
        a: FileDirectory,
        b: FileDirectory,
        t: Seq<usize>,
        added: Seq<FileDirectory>,
        q: Seq<usize>,
    )
        requires
            Self::scan_updated(a, b, t, added),
            b.valid_path(q),
            !a.valid_path(q),
            forall|k: int| 0 <= k < added.len() ==> (#[trigger] added[k]).entries@.len() == 0,
        ensures
            exists|k: int|
                0 <= k < added.len() && q == t.push(
                    (a.node_at(t).entries@.len() + k) as usize,
                ) && b.node_at(q) == added[k],
        decreases q.len(),
    {
        assert(q.len() > 0);
        if t.len() == 0 {
            let q0 = q[0] as int;
            if q0 < a.entries@.len() {
                assert(b.entries@[q0] == a.entries@[q0]);
                assert(a.valid_path(q));
                assert(false);
            } else {
                let k = q0 - a.entries@.len();
                assert(b.entries@[q0] == added[k]);
                assert(added[k].entries@.len() == 0);
                assert(b.entries@[q0].valid_path(q.drop_first()));
                assert(q.drop_first().len() == 0);
                assert(q =~= t.push((a.node_at(t).entries@.len() + k) as usize));
                assert(b.node_at(q) == added[k]);
            }
        } else {
            let q0 = q[0] as int;
            if q[0] != t[0] {
                assert(b.entries@[q0] == a.entries@[q0]);
                assert(false);
            } else {
                Self::lemma_scan_updated_new_paths(
                    a.entries@[t[0] as int],
                    b.entries@[t[0] as int],
                    t.drop_first(),
                    added,
                    q.drop_first(),
                );
                let sa = a.entries@[t[0] as int];
                let sb = b.entries@[t[0] as int];
                let k = choose|k: int|
                    0 <= k < added.len() && q.drop_first() == t.drop_first().push(
                        (sa.node_at(t.drop_first()).entries@.len() + k) as usize,
                    ) && sb.node_at(q.drop_first()) == added[k];
                let x = (a.node_at(t).entries@.len() + k) as usize;
                assert(a.node_at(t) == sa.node_at(t.drop_first()));
                assert(q.drop_first() == t.drop_first().push(x));
                assert(q =~= t.push(x)) by {
                    assert(q.len() == t.len() + 1);
                    assert forall|j: int| 0 <= j < q.len() implies q[j] == t.push(x)[j] by {
                        if j > 0 {
                            assert(q[j] == q.drop_first()[j - 1]);
                            assert(q.drop_first()[j - 1] == t.drop_first().push(x)[j - 1]);
                            if j < q.len() - 1 {
                                assert(t.drop_first().push(x)[j - 1] == t.drop_first()[j - 1]);
                                assert(t.push(x)[j] == t[j]);
                                assert(t[j] == t.drop_first()[j - 1]);
                            }
                        }
                    }
                }
                assert(b.node_at(q) == sb.node_at(q.drop_first()));
            }
        }
    }

    /// Store the entry's own physical contribution in its cache, append it
    /// as a child, and mark this node's cache stale.
    pub fn add_entry(&mut self, entry: FileDirectory)
        ensures
            final(self).entries@ == old(self).entries@.push(Self::sized_of(entry)),
            final(self).dirty,
            Self::same_fields(*old(self), *final(self)),
            final(self).scanned == old(self).scanned,
            final(self).cached_aggregate_size == old(self).cached_aggregate_size,
    {
        let mut entry = entry;
        let own = entry.own_size();
        entry.cached_aggregate_size = own;
        entry.dirty = false;
        self.entries.push(entry);
        self.dirty = true;
    }

    /// `b` is `a` with the node reached by `p`, and every node on the way
    /// to it, marked dirty; nothing else changes.
    pub open spec fn dirty_marked(a: FileDirectory, b: FileDirectory, p: Seq<usize>) -> bool
        decreases p.len(),
    {
        &&& Self::same_fields(a, b)
        &&& b.dirty == true
        &&& b.scanned == a.scanned
        &&& b.cached_aggregate_size == a.cached_aggregate_size
        &&& if p.len() == 0 {
            b.entries@ == a.entries@
        } else {
            &&& p[0] < a.entries@.len()
            &&& b.entries@.len() == a.entries@.len()
            &&& forall|j: int|
                0 <= j < a.entries@.len() && j != p[0] ==> b.entries@[j] == #[trigger] a.entries@[j]
            &&& Self::dirty_marked(a.entries@[p[0] as int], b.entries@[p[0] as int], p.drop_first())
        }
    }

    /// Marking dirty changes no aggregate.
    pub proof fn lemma_dirty_marked_size(a: FileDirectory, b: FileDirectory, p: Seq<usize>)
        requires
            Self::dirty_marked(a, b, p),
        ensures
            b.subtree_size() == a.subtree_size(),
        decreases p.len(),
    {
        if p.len() == 0 {
        } else {
            let i = p[0] as int;
            Self::lemma_dirty_marked_size(a.entries@[i], b.entries@[i], p.drop_first());
            Self::lemma_entries_total_update(a.entries@, b.entries@, i);
        }
    }

    /// Marking dirty preserves the cache invariant.
    pub proof fn lemma_dirty_marked_cache_ok(a: FileDirectory, b: FileDirectory, p: Seq<usize>)
        requires
            Self::dirty_marked(a, b, p),
            a.cache_ok(),
        ensures
            b.cache_ok(),
        decreases p.len(),
    {
        if p.len() == 0 {
            assert(b.entries@ =~= a.entries@);
        } else {
            let i = p[0] as int;
            Self::lemma_entries_cache_ok_index(a.entries@, i);
            Self::lemma_dirty_marked_cache_ok(a.entries@[i], b.entries@[i], p.drop_first());
            assert forall|j: int| 0 <= j < b.entries@.len() implies (
            #[trigger] b.entries@[j]).cache_ok() by {
                Self::lemma_entries_cache_ok_index(a.entries@, j);
            }
            Self::lemma_entries_cache_ok_build(b.entries@);
        }
    }

    /// Flag the cached aggregate of the node reached by `path`, and of every
    /// node on the chain from here to it, as stale. Walked from this node
    /// down the given index path: those are exactly the target's ancestors.
    pub fn prograte_dirty_up(&mut self, path: &Vec<usize>, depth: usize)
        requires
            depth <= path@.len(),
            old(self).valid_path(path@.skip(depth as int)),
        ensures
            Self::dirty_marked(*old(self), *final(self), path@.skip(depth as int)),
        decreases path@.len() - depth,
    {
        self.dirty = true;
        if depth < path.len() {
            let i = path[depth];
            proof {
                assert(path@.skip(depth as int)[0] == path@[depth as int]);
                assert(path@.skip(depth as int).drop_first() =~= path@.skip(depth as int + 1));
            }
            self.entries[i].prograte_dirty_up(path, depth + 1);
        }
    }

    /// Append freshly created children to the node reached by `path`, mark
    /// it scanned, and flag the caches on the way to it as stale.
    pub fn append_children_at(&mut self, path: &Vec<usize>, depth: usize, children: Vec<
        FileDirectory,
    >)
        requires
            depth <= path@.len(),
            old(self).valid_path(path@.skip(depth as int)),
            forall|k: int| 0 <= k < children@.len() ==> (#[trigger] children@[k]).is_sized(),
        ensures
            Self::scan_updated(*old(self), *final(self), path@.skip(depth as int), children@),
        decreases path@.len() - depth,
    {
        if depth == path.len() {
            proof {
                assert(path@.skip(depth as int) =~= Seq::<usize>::empty());
            }
            let mut rest = children;
            let ghost all = rest@;
            let mut k: usize = 0;
            let n = rest.len();
            while k < n
                invariant
                    k <= n,
                    n == all.len(),
                    rest@ == all.skip(k as int),
                    forall|j: int| 0 <= j < all.len() ==> (#[trigger] all[j]).is_sized(),
                    self.entries@ == old(self).entries@ + all.take(k as int),
                    self.dirty == (old(self).dirty || k > 0),
                    Self::same_fields(*old(self), *self),
                    self.scanned == old(self).scanned,
                    self.cached_aggregate_size == old(self).cached_aggregate_size,
                decreases n - k,
            {
                let ghost before = rest@;
                let c = rest.remove(0);
                proof {
                    assert(c == all[k as int]);
                    assert(Self::sized_of(c) == c);
                    assert(all.take(k as int + 1) =~= all.take(k as int).push(c));
                    assert(old(self).entries@ + all.take(k as int + 1) =~= (old(self).entries@
                        + all.take(k as int)).push(c));
                    assert(rest@ == before.remove(0));
                    assert forall|j: int| 0 <= j < rest@.len() implies rest@[j] == all.skip(
                        k as int + 1,
                    )[j] by {
                        assert(before.remove(0)[j] == before[j + 1]);
                        assert(before[j + 1] == all[k as int + 1 + j]);
                    }
                    assert(rest@ =~= all.skip(k as int + 1));
                }
                self.add_entry(c);
                k = k + 1;
            }
            proof {
                assert(all.take(n as int) =~= all);
            }
            self.scanned = true;
        } else {
            if children.len() > 0 {
                self.dirty = true;
            }
            let i = path[depth];
            proof {
                assert(path@.skip(depth as int)[0] == path@[depth as int]);
                assert(path@.skip(depth as int).drop_first() =~= path@.skip(depth as int + 1));
            }
            self.entries[i].append_children_at(path, depth + 1, children);
        }
    }
}

} // verus!

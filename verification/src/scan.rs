//! The scan state machine: the decision core of the background traversal.
//!
//! A driver enumerates the filesystem and hands plain entries in here; this
//! module decides each entry's parent from the walk order, applies it to the
//! tree, enforces the device boundary and the cancellation and completion
//! rules, and reports progress. The driver owns the thread, the lock and the
//! directory walker; everything it needs to decide goes through this state.

use vstd::prelude::*;

use crate::filetree::tree_extended;
use crate::filetree::NodeID;
use crate::filetree::Tree;

verus! {

/// How many enumerated entries a driver should apply to the tree under one
/// lock acquisition: bounds lock hold time while amortizing its cost.
pub const CHUNK_SIZE: usize = 1000;

/// One filesystem entry as the directory walker reports it: final path
/// segment, absolute path, depth relative to the scan root, classification
/// and size in bytes.
pub struct ScanEntry {
    pub name: String,
    pub path: String,
    pub depth: usize,
    pub is_file: bool,
    pub size: u64,
}

/// A scan over one tree. It starts running; `mark_complete` ends it for
/// good (exhaustion or cancellation), and no tree mutation is possible once
/// `complete` is observable. `last_depth` and `last_node` track the walk so
/// each new entry's parent follows from the enumeration order alone.
pub struct Scan {
    pub path: String,
    pub tree: Tree,
    pub complete: bool,
    pub update_signal: bool,
    pub terminate_signal: bool,
    pub progress_count: usize,
    pub last_depth: usize,
    pub last_node: NodeID,
    pub root_device: Option<u64>,
}

/// The node reached from `node` by walking `steps` parent links, staying
/// put at the root (whose parent is `None`).
pub open spec fn spec_walk_up(t: Tree, node: int, steps: nat) -> int
    decreases steps,
{
    if steps == 0 {
        node
    } else {
        let n = spec_walk_up(t, node, (steps - 1) as nat);
        if 0 <= n < t.elems@.len() && t.elems@[n].parent is Some {
            t.elems@[n].parent->0 as int
        } else {
            n
        }
    }
}

proof fn lemma_walk_up_in_range(t: Tree, node: int, steps: nat)
    requires
        t.struct_wf(),
        0 <= node < t.elems@.len(),
    ensures
        0 <= spec_walk_up(t, node, steps) < t.elems@.len(),
    decreases steps,
{
    if steps > 0 {
        lemma_walk_up_in_range(t, node, (steps - 1) as nat);
        let n = spec_walk_up(t, node, (steps - 1) as nat);
        assert(t.node_struct_wf(n));
    }
}

/// Exactly when one entry gets recorded: the scan still runs, a parent
/// resolves from the walk order, that parent is still reachable, and the
/// entry's size fits into the aggregate.
pub open spec fn spec_record_ok(pre: Scan, e: ScanEntry) -> bool {
    &&& !pre.complete
    &&& pre.spec_resolve_parent(e.depth as int) is Some
    &&& pre.tree.linked(pre.spec_resolve_parent(e.depth as int)->0 as int)
    &&& pre.tree.elems@[0].size + e.size <= u64::MAX
}

/// The exact effect of offering one entry to the scan: a recordable entry
/// extends the tree under its resolved parent and moves the walk cursor;
/// anything else changes nothing at all.
pub open spec fn spec_record_rel(pre: Scan, e: ScanEntry, post: Scan) -> bool {
    if spec_record_ok(pre, e) {
        &&& tree_extended(
            pre.tree,
            post.tree,
            pre.spec_resolve_parent(e.depth as int)->0 as int,
            e.name@,
            e.path@,
            e.is_file,
            e.size,
        )
        &&& post.last_node == pre.tree.last_id + 1
        &&& post.last_depth == e.depth
        &&& post.complete == pre.complete
        &&& post.terminate_signal == pre.terminate_signal
        &&& post.update_signal == pre.update_signal
        &&& post.progress_count == pre.progress_count
        &&& post.path@ == pre.path@
        &&& post.root_device == pre.root_device
    } else {
        post == pre
    }
}

/// The entries of a batch folded through `spec_record_rel`, in order.
pub open spec fn spec_batch_rel(pre: Scan, entries: Seq<ScanEntry>, post: Scan) -> bool
    decreases entries.len(),
{
    if entries.len() == 0 {
        post == pre
    } else {
        exists|mid: Scan|
            spec_record_rel(pre, entries[0], mid) && spec_batch_rel(
                mid,
                entries.subrange(1, entries.len() as int),
                post,
            )
    }
}

proof fn lemma_batch_rel_extend(
    pre: Scan,
    entries: Seq<ScanEntry>,
    mid: Scan,
    e: ScanEntry,
    post: Scan,
)
    requires
        spec_batch_rel(pre, entries, mid),
        spec_record_rel(mid, e, post),
    ensures
        spec_batch_rel(pre, entries.push(e), post),
    decreases entries.len(),
{
    let pushed = entries.push(e);
    if entries.len() == 0 {
        assert(pushed[0] == e);
        assert(pushed.subrange(1, pushed.len() as int) =~= Seq::<ScanEntry>::empty());
        assert(spec_record_rel(pre, e, post) && spec_batch_rel(
            post,
            pushed.subrange(1, pushed.len() as int),
            post,
        ));
    } else {
        let m0 = choose|m0: Scan|
            spec_record_rel(pre, entries[0], m0) && spec_batch_rel(
                m0,
                entries.subrange(1, entries.len() as int),
                mid,
            );
        lemma_batch_rel_extend(m0, entries.subrange(1, entries.len() as int), mid, e, post);
        assert(pushed[0] == entries[0]);
        assert(pushed.subrange(1, pushed.len() as int) =~= entries.subrange(
            1,
            entries.len() as int,
        ).push(e));
        assert(spec_record_rel(pre, pushed[0], m0) && spec_batch_rel(
            m0,
            pushed.subrange(1, pushed.len() as int),
            post,
        ));
    }
}

impl Scan {
    /// The scan state is sound: its tree is well-formed and the walk cursor
    /// points into it.
    pub open spec fn wf(self) -> bool {
        &&& self.tree.wf()
        &&& (self.last_node as int) < self.tree.elems@.len()
    }

    /// The parent that adopts an entry discovered at `depth`, by the
    /// walk-up rule: deeper than the last entry means the last node itself;
    /// equally deep means the last node's parent (`None` only at the root,
    /// where such an entry is dropped); shallower means the ancestor
    /// reached by one parent step per level of difference, clamping at the
    /// root.
    pub open spec fn spec_resolve_parent(self, depth: int) -> Option<NodeID> {
        if depth > self.last_depth {
            Some(self.last_node)
        } else if depth == self.last_depth {
            self.tree.elems@[self.last_node as int].parent
        } else {
            Some(
                spec_walk_up(
                    self.tree,
                    self.last_node as int,
                    (self.last_depth - depth + 1) as nat,
                ) as NodeID,
            )
        }
    }

    /// Creates the state for a scan of `directory`. The driver supplies
    /// `progress_count`, a cheap count of the root's immediate children,
    /// used only as the progress denominator.
    pub fn new(directory: &str, progress_count: usize) -> (s: Scan)
        ensures
            s.wf(),
            s.path@ == directory@,
            s.tree.elems@.len() == 1,
            s.tree.elems@[0].name@ == directory@,
            s.tree.elems@[0].size == 0,
            !s.complete,
            !s.terminate_signal,
            s.update_signal,
            s.progress_count == progress_count,
            s.last_depth == 0,
            s.last_node == 0,
            s.root_device is None,
    {
        Scan {
            path: directory.to_owned(),
            tree: Tree::new(directory),
            complete: false,
            update_signal: true,
            terminate_signal: false,
            progress_count,
            last_depth: 0,
            last_node: 0,
            root_device: None,
        }
    }

    /// Walks the parent links to find the adopting node for an entry at
    /// `depth`.
    fn resolve_parent(&self, depth: usize) -> (r: Option<NodeID>)
        requires
            self.wf(),
        ensures
            r == self.spec_resolve_parent(depth as int),
            r is Some ==> (r->0 as int) < self.tree.elems@.len(),
    {
        if depth > self.last_depth {
            Some(self.last_node)
        } else if depth == self.last_depth {
            proof {
                if self.tree.elems@[self.last_node as int].parent is Some {
                    assert(self.tree.node_struct_wf(self.last_node as int));
                }
            }
            self.tree.get_elem(self.last_node).parent
        } else {
            let steps = self.last_depth - depth;
            let mut cur = self.last_node;
            let mut k: usize = 0;
            while k < steps
                invariant
                    self.wf(),
                    0 <= k <= steps,
                    steps == self.last_depth - depth,
                    (cur as int) < self.tree.elems@.len(),
                    cur as int == spec_walk_up(self.tree, self.last_node as int, k as nat),
                decreases steps - k,
            {
                cur = match self.tree.get_elem(cur).parent {
                    Some(p) => {
                        proof {
                            assert(self.tree.node_struct_wf(cur as int));
                        }
                        p
                    },
                    None => cur,  // at the root already: clamp, as a defensive fallback
                };
                k = k + 1;
            }
            // one more parent step: the rule walks `difference + 1` links
            let last = match self.tree.get_elem(cur).parent {
                Some(p) => {
                    proof {
                        assert(self.tree.node_struct_wf(cur as int));
                    }
                    p
                },
                None => cur,
            };
            proof {
                assert(last as int == spec_walk_up(
                    self.tree,
                    self.last_node as int,
                    (steps + 1) as nat,
                ));
            }
            Some(last)
        }
    }

    /// Applies one discovered entry to the tree and advances the walk
    /// cursor. Returns whether the entry was recorded. Nothing is recorded
    /// once the scan is complete; an entry is also dropped when its resolved
    /// parent has been invalidated meanwhile, when an equal-depth entry
    /// arrives while the cursor is at the root, or when its size would push
    /// the total past the integer range.
    pub fn record_entry(&mut self, entry: &ScanEntry) -> (recorded: bool)
        requires
            old(self).wf(),
        ensures
            final(self).wf(),
            // success is owed exactly when the scan runs, a parent resolves,
            // it is still reachable, and the size fits ...
            recorded == spec_record_ok(*old(self), *entry),
            // ... and the effect is exactly one recorded entry, or nothing
            spec_record_rel(*old(self), *entry, *final(self)),
            !recorded ==> *final(self) == *old(self),
            final(self).complete == old(self).complete,
            final(self).terminate_signal == old(self).terminate_signal,
            final(self).update_signal == old(self).update_signal,
            // the root's child list never shrinks, so progress is monotone
            final(self).tree.elems@[0].children@.len() >= old(
                self,
            ).tree.elems@[0].children@.len(),
    {
        if self.complete {
            return false;
        }
        let parent_opt = self.resolve_parent(entry.depth);
        match parent_opt {
            None => false,
            Some(p) => {
                if !self.tree.is_linked_elem(p) {
                    return false;
                }
                let root_size = self.tree.get_elem(0).size;
                if entry.size > u64::MAX - root_size {
                    return false;
                }
                let ghost t0 = self.tree;
                let id = self.tree.add_elem(
                    p,
                    entry.name.clone(),
                    entry.path.clone(),
                    entry.is_file,
                    entry.size,
                );
                self.last_depth = entry.depth;
                self.last_node = id;
                proof {
                    assert(tree_extended(
                        t0,
                        self.tree,
                        p as int,
                        entry.name@,
                        entry.path@,
                        entry.is_file,
                        entry.size,
                    ));
                }
                true
            },
        }
    }

    /// Applies a whole batch of entries under one ownership of the state.
    /// Cancellation is checked once, here at the batch boundary: a batch
    /// that starts after a termination request or after completion changes
    /// nothing at all. Otherwise every entry is offered to `record_entry`
    /// in order and the update signal is raised.
    pub fn apply_batch(&mut self, entries: &Vec<ScanEntry>)
        requires
            old(self).wf(),
        ensures
            final(self).wf(),
            final(self).complete == old(self).complete,
            final(self).terminate_signal == old(self).terminate_signal,
            final(self).progress_count == old(self).progress_count,
            final(self).path@ == old(self).path@,
            old(self).terminate_signal || old(self).complete ==> *final(self) == *old(self),
            // a batch that does start is applied whole, entry by entry
            !(old(self).terminate_signal || old(self).complete) ==> exists|p: Scan|
                spec_batch_rel(*old(self), entries@, p) && *final(self) == (Scan {
                    update_signal: true,
                    ..p
                }),
            final(self).tree.elems@[0].children@.len() >= old(
                self,
            ).tree.elems@[0].children@.len(),
    {
        if self.terminate_signal || self.complete {
            return ;
        }
        proof {
            assert(entries@.subrange(0, 0) =~= Seq::<ScanEntry>::empty());
        }
        let mut k: usize = 0;
        while k < entries.len()
            invariant
                self.wf(),
                0 <= k <= entries@.len(),
                self.complete == old(self).complete,
                self.terminate_signal == old(self).terminate_signal,
                self.progress_count == old(self).progress_count,
                self.path@ == old(self).path@,
                spec_batch_rel(*old(self), entries@.subrange(0, k as int), *self),
                self.tree.elems@[0].children@.len() >= old(
                    self,
                ).tree.elems@[0].children@.len(),
            decreases entries@.len() - k,
        {
            let ghost mid = *self;
            self.record_entry(&entries[k]);
            proof {
                lemma_batch_rel_extend(
                    *old(self),
                    entries@.subrange(0, k as int),
                    mid,
                    entries@[k as int],
                    *self,
                );
                assert(entries@.subrange(0, k as int + 1) =~= entries@.subrange(
                    0,
                    k as int,
                ).push(entries@[k as int]));
            }
            k = k + 1;
        }
        let ghost folded = *self;
        proof {
            assert(entries@.subrange(0, entries@.len() as int) =~= entries@);
        }
        self.update_signal = true;
        proof {
            assert(spec_batch_rel(*old(self), entries@, folded) && *self == (Scan {
                update_signal: true,
                ..folded
            }));
        }
    }

    /// Requests cancellation: fire-and-forget; the scan applies no batch
    /// that starts after this. Nothing else changes.
    pub fn request_cancel(&mut self)
        ensures
            (*final(self) == (Scan { terminate_signal: true, ..*old(self) })),
    {
        self.terminate_signal = true;
    }

    /// Marks the traversal finished, for any reason. The flag is monotonic:
    /// no function of this library ever clears it, and `record_entry`
    /// refuses all mutation once it is set.
    pub fn mark_complete(&mut self)
        ensures
            (*final(self) == (Scan { complete: true, ..*old(self) })),
    {
        self.complete = true;
    }

    /// The device-boundary policy: the first directory seen pins the scan's
    /// device; afterwards only directories on that same device are entered.
    /// The caller records the directory itself either way and simply does
    /// not enumerate the children of one on a foreign device.
    pub fn is_same_device(&mut self, device: u64) -> (r: bool)
        ensures
            match old(self).root_device {
                None => r && *final(self) == (Scan {
                    root_device: Some(device),
                    ..*old(self)
                }),
                Some(d) => r == (device == d) && *final(self) == *old(self),
            },
    {
        match self.root_device {
            None => {
                self.root_device = Some(device);
                true
            },
            Some(d) => device == d,
        }
    }

    /// Progress in permille, a heuristic lower bound: while running, the
    /// share of the root's direct children discovered so far against the
    /// preliminary count, scaled by 0.9 and clamped to one; exactly 1000
    /// once complete. A preliminary count of zero reports full progress.
    pub fn progress_permille(&self) -> (r: u32)
        requires
            self.wf(),
        ensures
            r == spec_progress_permille(*self),
            r <= 1000,
    {
        if self.complete {
            1000
        } else if self.progress_count == 0 {
            1000
        } else {
            let children = self.tree.get_elem(0).children.len();
            let scaled = (children as u128) * 900 / (self.progress_count as u128);
            if scaled > 1000 {
                1000
            } else {
                scaled as u32
            }
        }
    }
}

/// The progress formula: `min(1000, children * 900 / count)` while running,
/// 1000 once complete (and when the denominator is zero).
pub open spec fn spec_progress_permille(s: Scan) -> int {
    if s.complete {
        1000
    } else if s.progress_count == 0 {
        1000
    } else {
        let frac = (s.tree.elems@[0].children@.len() as int) * 900 / (s.progress_count as int);
        if frac > 1000 {
            1000
        } else {
            frac
        }
    }
}

/// Progress law: over the life of one scan the progress value never
/// decreases. Recording entries only appends to the root's child list, the
/// preliminary count is fixed, completion is monotonic, and completion
/// reports exactly full progress.
pub proof fn lemma_progress_monotonic(s1: Scan, s2: Scan)
    requires
        s2.progress_count == s1.progress_count,
        s2.tree.elems@[0].children@.len() >= s1.tree.elems@[0].children@.len(),
        s1.complete ==> s2.complete,
    ensures
        spec_progress_permille(s2) >= spec_progress_permille(s1),
        s2.complete ==> spec_progress_permille(s2) == 1000,
{
    if !s2.complete && s2.progress_count != 0 {
        let c1 = s1.tree.elems@[0].children@.len() as int;
        let c2 = s2.tree.elems@[0].children@.len() as int;
        let n = s1.progress_count as int;
        assert(c1 * 900 <= c2 * 900) by (nonlinear_arith)
            requires
                0 <= c1 <= c2,
        ;
        assert(c1 * 900 / n <= c2 * 900 / n) by (nonlinear_arith)
            requires
                n > 0,
                c1 * 900 <= c2 * 900,
        ;
    }
}

} // verus!

//! Squarified treemap layout: a pure function from a tree snapshot and a
//! bounding rectangle to one rectangle per visible node.
//!
//! Children of a node are laid out by recursive bisection: sort by size
//! ascending, accumulate from the smallest until the running sum first
//! reaches half the total, split the bound along its longer axis at the
//! proportional position, and recurse on both groups. Coordinates are
//! integer pixels, so the result is a mathematical function of the snapshot
//! and the bound: identical inputs give identical rectangles.

use std::collections::HashMap;

use vstd::prelude::*;

use crate::filetree::ids_size_sum;
use crate::filetree::Node;
use crate::filetree::NodeID;
use crate::filetree::Tree;

verus! {

/// Maximum directory depth the layout descends into.
pub const MAX_FS_DEPTH: usize = 16;

/// Branches whose rectangle is narrower or flatter than this are not drawn.
pub const MIN_BOX_SIZE: i64 = 20;

/// Vertical room reserved for a directory label.
pub const TEXT_OFFSET: i64 = 13;

/// Inward padding around a single leaf rectangle.
pub const PAD: i64 = 1;

/// Bound on the coordinates the layout accepts; keeps all rectangle
/// arithmetic far away from machine limits.
pub const COORD_LIMIT: i64 = 0x4_0000_0000;

/// A rectangle in integer pixel coordinates.
#[derive(Debug, Clone, Copy, PartialEq, Eq, Structural)]
pub struct Rect {
    pub x: i64,
    pub y: i64,
    pub w: i64,
    pub h: i64,
}

/// One laid-out node: its rectangle and its id in the tree.
#[derive(Debug, Clone, Copy, PartialEq, Eq, Structural)]
pub struct GUINode {
    pub rect: Rect,
    pub node_id: NodeID,
}

/// The rectangle's coordinates are well within machine range. Widths may go
/// slightly negative on degenerate splits; such branches are never drawn.
pub open spec fn rect_ok(r: Rect) -> bool {
    &&& r.w >= -16
    &&& r.h >= -16
    &&& -COORD_LIMIT <= r.x
    &&& -COORD_LIMIT <= r.y
    &&& r.x + r.w <= COORD_LIMIT
    &&& r.y + r.h <= COORD_LIMIT
}

/// A layout item: the size a node is weighted with, and its id.
pub open spec fn item_le(a: (u64, NodeID), b: (u64, NodeID)) -> bool {
    a.0 < b.0 || (a.0 == b.0 && a.1 <= b.1)
}

/// Sorted ascending by size, ties by id. Since ids are distinct, this is the
/// unique stable order of a child list (children are stored in id order).
pub open spec fn items_sorted(s: Seq<(u64, NodeID)>) -> bool {
    forall|i: int, j: int| 0 <= i < j < s.len() ==> item_le(s[i], s[j])
}

/// Insertion of one item into a sorted sequence, from the right.
pub open spec fn spec_insert_item(s: Seq<(u64, NodeID)>, x: (u64, NodeID)) -> Seq<(u64, NodeID)>
    decreases s.len(),
{
    if s.len() == 0 {
        seq![x]
    } else if item_le(s.last(), x) {
        s.push(x)
    } else {
        spec_insert_item(s.drop_last(), x).push(s.last())
    }
}

/// Insertion sort of a layout item sequence; the specification the exec sort
/// is proved against.
pub open spec fn spec_sort_items(s: Seq<(u64, NodeID)>) -> Seq<(u64, NodeID)>
    decreases s.len(),
{
    if s.len() == 0 {
        s
    } else {
        spec_insert_item(spec_sort_items(s.drop_last()), s.last())
    }
}

/// Sum of the item sizes.
pub open spec fn items_sum(s: Seq<(u64, NodeID)>) -> int
    decreases s.len(),
{
    if s.len() == 0 {
        0
    } else {
        s[0].0 + items_sum(s.subrange(1, s.len() as int))
    }
}

proof fn lemma_items_sum_nonneg(s: Seq<(u64, NodeID)>)
    ensures
        items_sum(s) >= 0,
    decreases s.len(),
{
    if s.len() > 0 {
        lemma_items_sum_nonneg(s.subrange(1, s.len() as int));
    }
}

proof fn lemma_items_sum_push(s: Seq<(u64, NodeID)>, x: (u64, NodeID))
    ensures
        items_sum(s.push(x)) == items_sum(s) + x.0,
    decreases s.len(),
{
    let pushed = s.push(x);
    if s.len() == 0 {
        assert(pushed.subrange(1, pushed.len() as int) =~= s);
        assert(pushed[0] == x);
        assert(items_sum(pushed) == x.0 + items_sum(s));
    } else {
        assert(pushed.subrange(1, pushed.len() as int) =~= s.subrange(1, s.len() as int).push(x));
        assert(pushed[0] == s[0]);
        lemma_items_sum_push(s.subrange(1, s.len() as int), x);
    }
}

proof fn lemma_items_sum_prefix(s: Seq<(u64, NodeID)>, k: int)
    requires
        0 <= k < s.len(),
    ensures
        items_sum(s.subrange(0, k + 1)) == items_sum(s.subrange(0, k)) + s[k].0,
{
    assert(s.subrange(0, k + 1) =~= s.subrange(0, k).push(s[k]));
    lemma_items_sum_push(s.subrange(0, k), s[k]);
}

proof fn lemma_insert_item_len(s: Seq<(u64, NodeID)>, x: (u64, NodeID))
    ensures
        spec_insert_item(s, x).len() == s.len() + 1,
    decreases s.len(),
{
    if s.len() > 0 && !item_le(s.last(), x) {
        lemma_insert_item_len(s.drop_last(), x);
    }
}

proof fn lemma_sort_items_len(s: Seq<(u64, NodeID)>)
    ensures
        spec_sort_items(s).len() == s.len(),
    decreases s.len(),
{
    if s.len() > 0 {
        lemma_sort_items_len(s.drop_last());
        lemma_insert_item_len(spec_sort_items(s.drop_last()), s.last());
    }
}

proof fn lemma_insert_item_sum(s: Seq<(u64, NodeID)>, x: (u64, NodeID))
    ensures
        items_sum(spec_insert_item(s, x)) == items_sum(s) + x.0,
    decreases s.len(),
{
    if s.len() == 0 {
        lemma_items_sum_push(Seq::empty(), x);
        assert(spec_insert_item(s, x) =~= Seq::<(u64, NodeID)>::empty().push(x));
    } else if item_le(s.last(), x) {
        lemma_items_sum_push(s, x);
    } else {
        lemma_insert_item_sum(s.drop_last(), x);
        lemma_items_sum_push(spec_insert_item(s.drop_last(), x), s.last());
        lemma_items_sum_push(s.drop_last(), s.last());
        assert(s.drop_last().push(s.last()) =~= s);
    }
}

proof fn lemma_sort_items_sum(s: Seq<(u64, NodeID)>)
    ensures
        items_sum(spec_sort_items(s)) == items_sum(s),
    decreases s.len(),
{
    if s.len() > 0 {
        lemma_sort_items_sum(s.drop_last());
        lemma_insert_item_sum(spec_sort_items(s.drop_last()), s.last());
        lemma_items_sum_push(s.drop_last(), s.last());
        assert(s.drop_last().push(s.last()) =~= s);
    }
}

/// Inserting into a sorted sequence at the boundary position `k` (everything
/// before is `<=` the new item, everything after is greater) is the same as
/// splicing the item in at `k`.
proof fn lemma_insert_item_at(s: Seq<(u64, NodeID)>, x: (u64, NodeID), k: int)
    requires
        items_sorted(s),
        0 <= k <= s.len(),
        forall|a: int| 0 <= a < k ==> item_le(#[trigger] s[a], x),
        forall|a: int| k <= a < s.len() ==> !item_le(#[trigger] s[a], x),
    ensures
        spec_insert_item(s, x) == s.subrange(0, k) + seq![x] + s.subrange(k, s.len() as int),
    decreases s.len(),
{
    if s.len() == 0 {
        assert(spec_insert_item(s, x) =~= s.subrange(0, 0) + seq![x] + s.subrange(0, 0));
    } else if item_le(s.last(), x) {
        assert(k == s.len());
        assert(spec_insert_item(s, x) =~= s.subrange(0, k) + seq![x] + s.subrange(
            k,
            s.len() as int,
        ));
    } else {
        assert(k < s.len());
        let d = s.drop_last();
        assert(forall|a: int| 0 <= a < k ==> item_le(#[trigger] d[a], x));
        assert(forall|a: int| k <= a < d.len() ==> !item_le(#[trigger] d[a], x));
        lemma_insert_item_at(d, x, k);
        assert(spec_insert_item(s, x) =~= s.subrange(0, k) + seq![x] + s.subrange(
            k,
            s.len() as int,
        ));
    }
}

proof fn lemma_insert_item_sorted(s: Seq<(u64, NodeID)>, x: (u64, NodeID))
    requires
        items_sorted(s),
    ensures
        items_sorted(spec_insert_item(s, x)),
    decreases s.len(),
{
    if s.len() == 0 {
    } else if item_le(s.last(), x) {
        assert forall|i: int, j: int|
            0 <= i < j < s.push(x).len() implies item_le(s.push(x)[i], s.push(x)[j]) by {
            if j == s.len() as int {
                if i < s.len() - 1 {
                    assert(item_le(s[i], s.last()));
                }
            }
        }
    } else {
        lemma_insert_item_sorted(s.drop_last(), x);
        let t = spec_insert_item(s.drop_last(), x);
        lemma_insert_item_len(s.drop_last(), x);
        // every element of t is <= s.last(): it is either x or from drop_last
        assert forall|i: int, j: int|
            0 <= i < j < t.push(s.last()).len() implies item_le(
            t.push(s.last())[i],
            t.push(s.last())[j],
        ) by {
            if j == t.len() as int {
                lemma_insert_item_elems(s.drop_last(), x, i);
                if !item_le(t[i], s.last()) {
                    // t[i] is x or an element of drop_last; both are <= last here
                    assert(item_le(x, s.last()) || exists|a: int|
                        0 <= a < s.len() - 1 && t[i] == s[a]);
                }
            }
        }
    }
}

/// Every element of an insertion result is the new item or one of the
/// original elements.
proof fn lemma_insert_item_elems(s: Seq<(u64, NodeID)>, x: (u64, NodeID), i: int)
    requires
        0 <= i < spec_insert_item(s, x).len(),
    ensures
        spec_insert_item(s, x)[i] == x || exists|a: int|
            0 <= a < s.len() && spec_insert_item(s, x)[i] == #[trigger] s[a],
    decreases s.len(),
{
    lemma_insert_item_len(s, x);
    if s.len() == 0 {
    } else if item_le(s.last(), x) {
        if i < s.len() {
            assert(spec_insert_item(s, x)[i] == s[i]);
        }
    } else {
        let t = spec_insert_item(s.drop_last(), x);
        lemma_insert_item_len(s.drop_last(), x);
        if i < t.len() {
            lemma_insert_item_elems(s.drop_last(), x, i);
            if t[i] != x {
                let a = choose|a: int| 0 <= a < s.len() - 1 && t[i] == s.drop_last()[a];
                assert(s.drop_last()[a] == s[a]);
                assert(spec_insert_item(s, x)[i] == s[a]);
            }
        } else {
            assert(spec_insert_item(s, x)[i] == s[s.len() - 1]);
        }
    }
}

proof fn lemma_sort_items_sorted(s: Seq<(u64, NodeID)>)
    ensures
        items_sorted(spec_sort_items(s)),
    decreases s.len(),
{
    if s.len() > 0 {
        lemma_sort_items_sorted(s.drop_last());
        lemma_insert_item_sorted(spec_sort_items(s.drop_last()), s.last());
    }
}

/// Insertion sort, proved equal to its specification; stable by
/// construction since ties are broken by the (distinct) ids.
fn sort_items(v: &mut Vec<(u64, NodeID)>)
    ensures
        final(v)@ == spec_sort_items(old(v)@),
{
    let ghost orig = v@;
    let mut i: usize = 0;
    while i < v.len()
        invariant
            0 <= i <= v@.len(),
            v@.len() == orig.len(),
            forall|a: int| i <= a < orig.len() ==> v@[a] == orig[a],
            v@.subrange(0, i as int) == spec_sort_items(orig.subrange(0, i as int)),
        decreases v@.len() - i,
    {
        let x = v[i];
        let ghost prefix = v@.subrange(0, i as int);
        proof {
            lemma_sort_items_sorted(orig.subrange(0, i as int));
            lemma_sort_items_len(orig.subrange(0, i as int));
            assert(items_sorted(prefix));
            assert(prefix.len() == i as int);
            assert(x == orig[i as int]);
            assert(forall|a: int| 0 <= a < i ==> v@[a] == prefix[a]);
        }
        let mut j: usize = i;
        while j > 0 && item_gt(v[j - 1], x)
            invariant
                0 <= j <= i < v@.len(),
                v@.len() == orig.len(),
                prefix.len() == i as int,
                items_sorted(prefix),
                x == orig[i as int],
                forall|a: int| 0 <= a < j ==> v@[a] == prefix[a],
                forall|a: int| j < a <= i ==> v@[a] == prefix[a - 1],
                forall|a: int| i < a < orig.len() ==> v@[a] == orig[a],
                forall|a: int| j <= a < i ==> !item_le(#[trigger] prefix[a], x),
            decreases j,
        {
            let moved = v[j - 1];
            proof {
                assert(moved == prefix[j - 1]);
            }
            v[j] = moved;
            j = j - 1;
        }
        v[j] = x;
        proof {
            assert forall|a: int| 0 <= a < j implies item_le(#[trigger] prefix[a], x) by {
                assert(item_le(prefix[j - 1], x));
                if a < j - 1 {
                    assert(item_le(prefix[a], prefix[j - 1]));
                }
            }
            lemma_insert_item_at(prefix, x, j as int);
            assert(v@.subrange(0, i as int + 1) =~= prefix.subrange(0, j as int) + seq![x]
                + prefix.subrange(j as int, prefix.len() as int));
            assert(orig.subrange(0, i as int + 1).drop_last() =~= orig.subrange(0, i as int));
            assert(orig.subrange(0, i as int + 1).last() == orig[i as int]);
            assert(v@.subrange(0, i as int + 1) == spec_sort_items(orig.subrange(0, i as int + 1)));
        }
        i = i + 1;
    }
    proof {
        assert(orig.subrange(0, orig.len() as int) =~= orig);
        assert(v@.subrange(0, v@.len() as int) =~= v@);
    }
}

/// Strict "greater" on items, the executable counterpart of `!item_le`.
fn item_gt(a: (u64, NodeID), b: (u64, NodeID)) -> (r: bool)
    ensures
        r == !item_le(a, b),
{
    a.0 > b.0 || (a.0 == b.0 && a.1 > b.1)
}

proof fn lemma_items_sum_mono(s: Seq<(u64, NodeID)>, a: int, b: int)
    requires
        0 <= a <= b <= s.len(),
    ensures
        items_sum(s.subrange(0, a)) <= items_sum(s.subrange(0, b)),
    decreases b - a,
{
    if a < b {
        lemma_items_sum_prefix(s, b - 1);
        lemma_items_sum_mono(s, a, b - 1);
    }
}

proof fn lemma_items_sum_split(s: Seq<(u64, NodeID)>, k: int)
    requires
        0 <= k <= s.len(),
    ensures
        items_sum(s) == items_sum(s.subrange(0, k)) + items_sum(s.subrange(k, s.len() as int)),
    decreases s.len() - k,
{
    if k == s.len() {
        assert(s.subrange(0, k) =~= s);
        assert(items_sum(s.subrange(k, s.len() as int)) == 0);
    } else {
        lemma_items_sum_split(s, k + 1);
        lemma_items_sum_prefix(s, k);
        let suffix = s.subrange(k, s.len() as int);
        assert(suffix[0] == s[k]);
        assert(suffix.subrange(1, suffix.len() as int) =~= s.subrange(k + 1, s.len() as int));
    }
}

/// Every element of the sorted sequence is one of the input elements.
proof fn lemma_sort_items_elems(s: Seq<(u64, NodeID)>)
    ensures
        forall|i: int|
            0 <= i < spec_sort_items(s).len() ==> s.contains(#[trigger] spec_sort_items(s)[i]),
    decreases s.len(),
{
    lemma_sort_items_len(s);
    if s.len() > 0 {
        let d = s.drop_last();
        lemma_sort_items_elems(d);
        lemma_sort_items_len(d);
        assert forall|i: int| 0 <= i < spec_sort_items(s).len() implies s.contains(
            #[trigger] spec_sort_items(s)[i],
        ) by {
            lemma_insert_item_elems(spec_sort_items(d), s.last(), i);
            if spec_sort_items(s)[i] == s.last() {
                assert(spec_sort_items(s)[i] == s[s.len() - 1]);
            } else {
                let a0 = choose|a0: int|
                    0 <= a0 < spec_sort_items(d).len() && spec_sort_items(s)[i]
                        == spec_sort_items(d)[a0];
                assert(d.contains(spec_sort_items(d)[a0]));
                let a1 = choose|a1: int| 0 <= a1 < d.len() && d[a1] == spec_sort_items(d)[a0];
                assert(s[a1] == d[a1]);
            }
        }
    }
}

/// The scan that accumulates the smallest items until the running sum first
/// reaches `half`: returns how many items were consumed and their sum.
pub open spec fn spec_split_scan(
    s: Seq<(u64, NodeID)>,
    half: int,
    from: int,
    acc: int,
) -> (int, int)
    decreases s.len() - from,
{
    if from < 0 || from >= s.len() || acc >= half {
        (from, acc)
    } else {
        spec_split_scan(s, half, from + 1, acc + s[from].0)
    }
}

/// Split point and group-A size for a sorted item list: accumulate to half
/// the total, back one item off if everything was consumed, and never leave
/// group A empty when two or more items are present.
pub open spec fn spec_split_index(s: Seq<(u64, NodeID)>, total: u64) -> (int, int) {
    let scanned = spec_split_scan(s, total as int / 2, 0, 0);
    let backed = if scanned.0 == s.len() && s.len() >= 1 {
        (scanned.0 - 1, scanned.1 - s[scanned.0 - 1].0 as int)
    } else {
        scanned
    };
    if backed.0 == 0 && s.len() >= 2 {
        (1, s[0].0 as int)
    } else {
        backed
    }
}

proof fn lemma_split_scan_props(s: Seq<(u64, NodeID)>, half: int, from: int, acc: int)
    requires
        0 <= from <= s.len(),
        acc == items_sum(s.subrange(0, from)),
    ensures
        from <= spec_split_scan(s, half, from, acc).0 <= s.len(),
        spec_split_scan(s, half, from, acc).1 == items_sum(
            s.subrange(0, spec_split_scan(s, half, from, acc).0),
        ),
    decreases s.len() - from,
{
    if !(from >= s.len() || acc >= half) {
        lemma_items_sum_prefix(s, from);
        lemma_split_scan_props(s, half, from + 1, acc + s[from].0);
    }
}

proof fn lemma_split_index_props(s: Seq<(u64, NodeID)>, total: u64)
    requires
        s.len() >= 1,
    ensures
        0 <= spec_split_index(s, total).0 <= s.len() - 1,
        s.len() >= 2 ==> 1 <= spec_split_index(s, total).0,
        spec_split_index(s, total).1 == items_sum(s.subrange(0, spec_split_index(s, total).0)),
        0 <= spec_split_index(s, total).1 <= items_sum(s),
{
    assert(items_sum(s.subrange(0, 0)) == 0) by {
        assert(s.subrange(0, 0).len() == 0);
    }
    lemma_split_scan_props(s, total as int / 2, 0, 0);
    let scanned = spec_split_scan(s, total as int / 2, 0, 0);
    if scanned.0 == s.len() {
        lemma_items_sum_prefix(s, s.len() - 1);
    }
    let r = spec_split_index(s, total);
    if r.0 == 1 && r.1 == s[0].0 as int {
        lemma_items_sum_prefix(s, 0);
    }
    lemma_items_sum_nonneg(s.subrange(0, r.0));
    lemma_items_sum_mono(s, r.0, s.len() as int);
    assert(s.subrange(0, s.len() as int) =~= s);
}

/// The inward inset that reserves label room inside a directory rectangle.
pub open spec fn spec_inset_rect(r: Rect) -> Rect {
    Rect {
        x: (r.x + 3) as i64,
        y: (r.y + TEXT_OFFSET) as i64,
        w: (r.w - 6) as i64,
        h: (r.h - TEXT_OFFSET - 3) as i64,
    }
}

/// The small inward padding that visually separates single leaves.
pub open spec fn spec_pad_rect(r: Rect) -> Rect {
    Rect {
        x: (r.x + PAD) as i64,
        y: (r.y + PAD) as i64,
        w: (r.w - 2 * PAD) as i64,
        h: (r.h - 2 * PAD) as i64,
    }
}

/// The two sub-bounds of one bisection step: the bound is split along its
/// longer axis at the position proportional to group A's share of `total`,
/// and a group of exactly one item is padded inward.
pub open spec fn spec_split_bounds(
    bound: Rect,
    size_a: int,
    total: u64,
    len_a: int,
    len_b: int,
) -> (Rect, Rect) {
    let pair = if bound.w > bound.h {
        let wa = if total == 0 {
            0int
        } else {
            bound.w * size_a / (total as int)
        };
        (
            Rect { x: bound.x, y: bound.y, w: wa as i64, h: bound.h },
            Rect {
                x: (bound.x + wa) as i64,
                y: bound.y,
                w: (bound.w - wa) as i64,
                h: bound.h,
            },
        )
    } else {
        let ha = if total == 0 {
            0int
        } else {
            bound.h * size_a / (total as int)
        };
        (
            Rect { x: bound.x, y: bound.y, w: bound.w, h: ha as i64 },
            Rect {
                x: bound.x,
                y: (bound.y + ha) as i64,
                w: bound.w,
                h: (bound.h - ha) as i64,
            },
        )
    };
    let ra = if len_a == 1 {
        spec_pad_rect(pair.0)
    } else {
        pair.0
    };
    let rb = if len_b == 1 {
        spec_pad_rect(pair.1)
    } else {
        pair.1
    };
    (ra, rb)
}

/// Applies the single-leaf padding.
fn pad_rect(r: Rect) -> (p: Rect)
    requires
        rect_ok(r),
        r.w >= 0,
        r.h >= 0,
    ensures
        p == spec_pad_rect(r),
        rect_ok(p),
    no_unwind
{
    Rect { x: r.x + PAD, y: r.y + PAD, w: r.w - 2 * PAD, h: r.h - 2 * PAD }
}

/// Sorts the items by size and splits them into the two groups and
/// sub-bounds of one bisection step. A total of zero (possible only for
/// degenerate zero-size subtrees) puts the whole area on group B.
fn squarify(nodes: Vec<(u64, NodeID)>, bound: Rect, total: u64) -> (r: (
    Vec<(u64, NodeID)>,
    Rect,
    Vec<(u64, NodeID)>,
    Rect,
))
    requires
        nodes@.len() >= 1,
        items_sum(nodes@) <= total as int,
        rect_ok(bound),
        bound.w >= 0,
        bound.h >= 0,
    ensures
        ({
            let sorted = spec_sort_items(nodes@);
            let sp = spec_split_index(sorted, total);
            let bs = spec_split_bounds(bound, sp.1, total, sp.0, sorted.len() - sp.0);
            &&& r.0@ == sorted.subrange(0, sp.0)
            &&& r.2@ == sorted.subrange(sp.0, sorted.len() as int)
            &&& r.1 == bs.0
            &&& r.3 == bs.1
            &&& rect_ok(r.1)
            &&& rect_ok(r.3)
        }),
{
    let ghost orig = nodes@;
    let mut nodes = nodes;
    sort_items(&mut nodes);
    let ghost sorted = nodes@;
    proof {
        lemma_sort_items_len(orig);
        lemma_sort_items_sum(orig);
        lemma_split_index_props(sorted, total);
    }
    let half = total / 2;
    let mut size_a: u64 = 0;
    let mut split: usize = 0;
    while split < nodes.len() && size_a < half
        invariant
            nodes@ == sorted,
            sorted.len() >= 1,
            items_sum(sorted) <= total as int,
            0 <= split <= sorted.len(),
            half == total / 2,
            size_a == items_sum(sorted.subrange(0, split as int)),
            spec_split_scan(sorted, half as int, split as int, size_a as int) == spec_split_scan(
                sorted,
                half as int,
                0,
                0,
            ),
        decreases sorted.len() - split,
    {
        proof {
            lemma_items_sum_prefix(sorted, split as int);
            lemma_items_sum_mono(sorted, split as int + 1, sorted.len() as int);
            assert(sorted.subrange(0, sorted.len() as int) =~= sorted);
            lemma_items_sum_nonneg(sorted.subrange(0, split as int));
        }
        size_a = size_a + nodes[split].0;
        split = split + 1;
    }
    proof {
        lemma_split_scan_props(sorted, half as int, 0, 0);
    }
    if split == nodes.len() {
        split = split - 1;
        proof {
            lemma_items_sum_prefix(sorted, split as int);
            lemma_items_sum_nonneg(sorted.subrange(0, split as int));
        }
        size_a = size_a - nodes[split].0;
    }
    if split == 0 && nodes.len() >= 2 {
        split = 1;
        size_a = nodes[0].0;
        proof {
            lemma_items_sum_prefix(sorted, 0);
            assert(items_sum(sorted.subrange(0, 0)) == 0);
        }
    }
    let ghost sp = spec_split_index(sorted, total);
    proof {
        assert(split as int == sp.0);
        assert(size_a as int == sp.1);
    }
    let mut vec_a = nodes;
    let vec_b = vec_a.split_off(split);
    // orientation: split the longer axis at the proportional position
    let (bound_a, bound_b) = if bound.w > bound.h {
        let wa: i64 = if total == 0 {
            0
        } else {
            proof {
                assert(bound.w <= 2 * COORD_LIMIT);
                assert((bound.w as int) * (size_a as int) <= (2 * COORD_LIMIT as int) * (
                u64::MAX as int)) by (nonlinear_arith)
                    requires
                        0 <= bound.w <= 2 * COORD_LIMIT as int,
                        0 <= size_a as int <= u64::MAX as int,
                ;
                assert(bound.w * (size_a as int) / (total as int) <= bound.w) by (nonlinear_arith)
                    requires
                        bound.w >= 0,
                        total > 0,
                        0 <= size_a <= total,
                ;
                assert(bound.w * (size_a as int) / (total as int) >= 0) by (nonlinear_arith)
                    requires
                        bound.w >= 0,
                        total > 0,
                        size_a >= 0,
                ;
            }
            (((bound.w as u128) * (size_a as u128)) / (total as u128)) as i64
        };
        (
            Rect { x: bound.x, y: bound.y, w: wa, h: bound.h },
            Rect { x: bound.x + wa, y: bound.y, w: bound.w - wa, h: bound.h },
        )
    } else {
        let ha: i64 = if total == 0 {
            0
        } else {
            proof {
                assert(bound.h <= 2 * COORD_LIMIT);
                assert((bound.h as int) * (size_a as int) <= (2 * COORD_LIMIT as int) * (
                u64::MAX as int)) by (nonlinear_arith)
                    requires
                        0 <= bound.h <= 2 * COORD_LIMIT as int,
                        0 <= size_a as int <= u64::MAX as int,
                ;
                assert(bound.h * (size_a as int) / (total as int) <= bound.h) by (nonlinear_arith)
                    requires
                        bound.h >= 0,
                        total > 0,
                        0 <= size_a <= total,
                ;
                assert(bound.h * (size_a as int) / (total as int) >= 0) by (nonlinear_arith)
                    requires
                        bound.h >= 0,
                        total > 0,
                        size_a >= 0,
                ;
            }
            (((bound.h as u128) * (size_a as u128)) / (total as u128)) as i64
        };
        (
            Rect { x: bound.x, y: bound.y, w: bound.w, h: ha },
            Rect { x: bound.x, y: bound.y + ha, w: bound.w, h: bound.h - ha },
        )
    };
    let bound_a = if vec_a.len() == 1 {
        pad_rect(bound_a)
    } else {
        bound_a
    };
    let bound_b = if vec_b.len() == 1 {
        pad_rect(bound_b)
    } else {
        bound_b
    };
    (vec_a, bound_a, vec_b, bound_b)
}

/// The weighted items for the children of node `id`: each child with its
/// aggregated size.
pub open spec fn spec_child_items(t: Tree, id: int) -> Seq<(u64, NodeID)> {
    t.elems@[id].children@.map_values(|c: NodeID| (t.elems@[c as int].size, c))
}

proof fn lemma_mapped_items_sum(elems: Seq<crate::filetree::Node>, ids: Seq<NodeID>)
    ensures
        items_sum(ids.map_values(|c: NodeID| (elems[c as int].size, c))) == ids_size_sum(
            elems,
            ids,
        ),
    decreases ids.len(),
{
    let f = |c: NodeID| (elems[c as int].size, c);
    if ids.len() > 0 {
        lemma_mapped_items_sum(elems, ids.subrange(1, ids.len() as int));
        assert(ids.map_values(f).subrange(1, ids.map_values(f).len() as int) =~= ids.subrange(
            1,
            ids.len() as int,
        ).map_values(f));
        assert(ids.map_values(f)[0] == f(ids[0]));
    }
}

/// The full layout of a set of sibling items inside a bound: the
/// mathematical function the executable layout is proved to compute. A
/// single item receives the bound as its rectangle and, if it has children,
/// the label inset followed by a recursive bisection of the children; two or
/// more items are bisected directly. Branches past the depth cap or below
/// the minimum visual size contribute nothing.
pub open spec fn spec_layout(t: Tree, items: Seq<(u64, NodeID)>, bound: Rect, dir_level: int) -> Seq<
    GUINode,
>
    decreases MAX_FS_DEPTH as int + 2 - dir_level, items.len(),
    via spec_layout_decreases
{
    if dir_level > MAX_FS_DEPTH as int || bound.w < MIN_BOX_SIZE || bound.h < MIN_BOX_SIZE
        || items.len() == 0 {
        Seq::empty()
    } else if items.len() == 1 {
        let id = items[0].1;
        let own = seq![GUINode { rect: bound, node_id: id }];
        if id < t.elems@.len() && t.elems@[id as int].children@.len() > 0 {
            let inner = spec_inset_rect(bound);
            let total = t.elems@[id as int].size;
            let citems = spec_sort_items(spec_child_items(t, id as int));
            let sp = spec_split_index(citems, total);
            let bs = spec_split_bounds(inner, sp.1, total, sp.0, citems.len() - sp.0);
            own + spec_layout(t, citems.subrange(0, sp.0), bs.0, dir_level + 1) + spec_layout(
                t,
                citems.subrange(sp.0, citems.len() as int),
                bs.1,
                dir_level + 1,
            )
        } else {
            own
        }
    } else {
        let sorted = spec_sort_items(items);
        let total = items_sum(items) as u64;
        let sp = spec_split_index(sorted, total);
        let bs = spec_split_bounds(bound, sp.1, total, sp.0, sorted.len() - sp.0);
        spec_layout(t, sorted.subrange(0, sp.0), bs.0, dir_level) + spec_layout(
            t,
            sorted.subrange(sp.0, sorted.len() as int),
            bs.1,
            dir_level,
        )
    }
}

#[via_fn]
proof fn spec_layout_decreases(t: Tree, items: Seq<(u64, NodeID)>, bound: Rect, dir_level: int) {
    if !(dir_level > MAX_FS_DEPTH as int || bound.w < MIN_BOX_SIZE || bound.h < MIN_BOX_SIZE
        || items.len() == 0) {
        if items.len() == 1 {
            let id = items[0].1;
            if id < t.elems@.len() && t.elems@[id as int].children@.len() > 0 {
                let citems = spec_sort_items(spec_child_items(t, id as int));
                lemma_sort_items_len(spec_child_items(t, id as int));
                if citems.len() >= 1 {
                    lemma_split_index_props(citems, t.elems@[id as int].size);
                }
            }
        } else {
            let sorted = spec_sort_items(items);
            lemma_sort_items_len(items);
            lemma_split_index_props(sorted, items_sum(items) as u64);
        }
    }
}

/// The recursive layout worker: computes exactly `spec_layout` for the given
/// sibling items.
fn compute_gui_nodes_imp(tree: &Tree, nodes: Vec<(u64, NodeID)>, bound: Rect, dir_level: usize) -> (r:
    Vec<GUINode>)
    requires
        tree.wf(),
        dir_level <= MAX_FS_DEPTH + 1,
        forall|k: int| 0 <= k < nodes@.len() ==> (#[trigger] nodes@[k]).1 < tree.elems@.len(),
        items_sum(nodes@) <= u64::MAX,
        rect_ok(bound),
    ensures
        r@ == spec_layout(*tree, nodes@, bound, dir_level as int),
    decreases MAX_FS_DEPTH as int + 2 - dir_level as int, nodes@.len(),
{
    if dir_level > MAX_FS_DEPTH || bound.w < MIN_BOX_SIZE || bound.h < MIN_BOX_SIZE
        || nodes.len() == 0 {
        let out: Vec<GUINode> = Vec::new();
        proof {
            assert(out@ =~= spec_layout(*tree, nodes@, bound, dir_level as int));
        }
        out
    } else if nodes.len() == 1 {
        let id = nodes[0].1;
        let mut out: Vec<GUINode> = Vec::new();
        out.push(GUINode { rect: bound, node_id: id });
        if tree.elems[id].children.len() > 0 {
            proof {
                assert(tree.node_struct_wf(id as int));
            }
            let inner = Rect {
                x: bound.x + 3,
                y: bound.y + TEXT_OFFSET,
                w: bound.w - 6,
                h: bound.h - TEXT_OFFSET - 3,
            };
            proof {
                assert(inner == spec_inset_rect(bound));
                assert(rect_ok(inner));
            }
            // collect the children as weighted items
            let child_count = tree.elems[id].children.len();
            let mut citems: Vec<(u64, NodeID)> = Vec::new();
            let mut k: usize = 0;
            while k < child_count
                invariant
                    tree.wf(),
                    id < tree.elems@.len(),
                    child_count == tree.elems@[id as int].children@.len(),
                    0 <= k <= child_count,
                    citems@ =~= spec_child_items(*tree, id as int).subrange(0, k as int),
                decreases child_count - k,
            {
                proof {
                    assert(tree.node_struct_wf(id as int));
                }
                let c = tree.elems[id].children[k];
                citems.push((tree.elems[c].size, c));
                proof {
                    assert(citems@ =~= spec_child_items(*tree, id as int).subrange(
                        0,
                        k as int + 1,
                    ));
                }
                k = k + 1;
            }
            proof {
                assert(citems@ =~= spec_child_items(*tree, id as int));
            }
            let total = tree.elems[id].size;
            proof {
                lemma_mapped_items_sum(tree.elems@, tree.elems@[id as int].children@);
                assert(tree.size_ok_at(id as int));
                assert(items_sum(citems@) <= total as int);
                assert(tree.node_struct_wf(id as int));
                assert forall|a: int| 0 <= a < citems@.len() implies (#[trigger] citems@[a]).1
                    < tree.elems@.len() by {
                    assert(citems@[a].1 == tree.elems@[id as int].children@[a]);
                }
            }
            let (va, ra, vb, rb) = squarify(citems, inner, total);
            proof {
                layout_parts_ok(*tree, spec_child_items(*tree, id as int), total);
            }
            let mut res_a = compute_gui_nodes_imp(tree, va, ra, dir_level + 1);
            let mut res_b = compute_gui_nodes_imp(tree, vb, rb, dir_level + 1);
            out.append(&mut res_a);
            out.append(&mut res_b);
            proof {
                assert(out@ =~= spec_layout(*tree, nodes@, bound, dir_level as int));
            }
        } else {
            proof {
                assert(out@ =~= spec_layout(*tree, nodes@, bound, dir_level as int));
            }
        }
        out
    } else {
        let mut total: u64 = 0;
        let mut k: usize = 0;
        while k < nodes.len()
            invariant
                0 <= k <= nodes@.len(),
                items_sum(nodes@) <= u64::MAX,
                total == items_sum(nodes@.subrange(0, k as int)),
            decreases nodes@.len() - k,
        {
            proof {
                lemma_items_sum_prefix(nodes@, k as int);
                lemma_items_sum_mono(nodes@, k as int + 1, nodes@.len() as int);
                assert(nodes@.subrange(0, nodes@.len() as int) =~= nodes@);
                lemma_items_sum_nonneg(nodes@.subrange(0, k as int));
            }
            total = total + nodes[k].0;
            k = k + 1;
        }
        proof {
            assert(nodes@.subrange(0, nodes@.len() as int) =~= nodes@);
            assert(total as int == items_sum(nodes@));
        }
        let ghost orig_items = nodes@;
        let (va, ra, vb, rb) = squarify(nodes, bound, total);
        proof {
            layout_parts_ok(*tree, orig_items, total);
            lemma_sort_items_len(orig_items);
            lemma_split_index_props(spec_sort_items(orig_items), total);
        }
        let mut out = compute_gui_nodes_imp(tree, va, ra, dir_level);
        let mut res_b = compute_gui_nodes_imp(tree, vb, rb, dir_level);
        out.append(&mut res_b);
        proof {
            assert(out@ =~= spec_layout(*tree, orig_items, bound, dir_level as int));
        }
        out
    }
}

/// The recursion preconditions carry over to both groups of a split: ids
/// stay in range and each group's sum is bounded by the whole.
proof fn layout_parts_ok(t: Tree, items: Seq<(u64, NodeID)>, total: u64)
    requires
        items.len() >= 1,
        forall|k: int| 0 <= k < items.len() ==> (#[trigger] items[k]).1 < t.elems@.len(),
        items_sum(items) <= total as int,
    ensures
        ({
            let sorted = spec_sort_items(items);
            let sp = spec_split_index(sorted, total);
            &&& forall|k: int|
                0 <= k < sorted.subrange(0, sp.0).len() ==> (#[trigger] sorted.subrange(
                    0,
                    sp.0,
                )[k]).1 < t.elems@.len()
            &&& forall|k: int|
                0 <= k < sorted.subrange(sp.0, sorted.len() as int).len() ==> (
                #[trigger] sorted.subrange(sp.0, sorted.len() as int)[k]).1 < t.elems@.len()
            &&& items_sum(sorted.subrange(0, sp.0)) <= u64::MAX
            &&& items_sum(sorted.subrange(sp.0, sorted.len() as int)) <= u64::MAX
        }),
{
    let sorted = spec_sort_items(items);
    let sp = spec_split_index(sorted, total);
    lemma_sort_items_len(items);
    lemma_sort_items_sum(items);
    lemma_sort_items_elems(items);
    lemma_split_index_props(sorted, total);
    assert forall|k: int| 0 <= k < sorted.len() implies (#[trigger] sorted[k]).1
        < t.elems@.len() by {
        assert(items.contains(sorted[k]));
        let a = choose|a: int| 0 <= a < items.len() && items[a] == sorted[k];
    }
    lemma_items_sum_split(sorted, sp.0);
    lemma_items_sum_nonneg(sorted.subrange(0, sp.0));
    lemma_items_sum_nonneg(sorted.subrange(sp.0, sorted.len() as int));
    assert(forall|k: int|
        0 <= k < sorted.subrange(0, sp.0).len() ==> (#[trigger] sorted.subrange(0, sp.0)[k])
            == sorted[k]);
    assert(forall|k: int|
        0 <= k < sorted.subrange(sp.0, sorted.len() as int).len() ==> (#[trigger] sorted.subrange(
            sp.0,
            sorted.len() as int,
        )[k]) == sorted[k + sp.0]);
}

/// Bisection law: the two sub-bounds of a split step lie inside the bound
/// and do not overlap. Along the split axis, group A ends at or before the
/// edge where group B begins, so no layout step hands overlapping areas to
/// the two groups.
pub proof fn lemma_split_bounds_disjoint(
    bound: Rect,
    size_a: int,
    total: u64,
    len_a: int,
    len_b: int,
)
    requires
        rect_ok(bound),
        bound.w >= 0,
        bound.h >= 0,
        0 <= size_a <= total,
    ensures
        ({
            let bs = spec_split_bounds(bound, size_a, total, len_a, len_b);
            &&& bs.0.x >= bound.x
            &&& bs.0.y >= bound.y
            &&& bs.0.x + bs.0.w <= bound.x + bound.w
            &&& bs.0.y + bs.0.h <= bound.y + bound.h
            &&& bs.1.x >= bound.x
            &&& bs.1.y >= bound.y
            &&& bs.1.x + bs.1.w <= bound.x + bound.w
            &&& bs.1.y + bs.1.h <= bound.y + bound.h
            &&& (bs.0.x + bs.0.w <= bs.1.x || bs.0.y + bs.0.h <= bs.1.y)
            &&& rect_ok(bs.0)
            &&& rect_ok(bs.1)
        }),
{
    if total != 0 {
        assert(0 <= bound.w * size_a / (total as int) <= bound.w) by (nonlinear_arith)
            requires
                bound.w >= 0,
                total > 0,
                0 <= size_a <= total,
        ;
        assert(0 <= bound.h * size_a / (total as int) <= bound.h) by (nonlinear_arith)
            requires
                bound.h >= 0,
                total > 0,
                0 <= size_a <= total,
        ;
    }
}

/// Whether the point lies in the rectangle, edges included.
pub open spec fn spec_rect_contains(r: Rect, x: i64, y: i64) -> bool {
    &&& r.x <= x
    &&& x <= r.x + r.w
    &&& r.y <= y
    &&& y <= r.y + r.h
}

/// The hit-test result for the subtree under `id`: the deepest laid-out
/// node whose rectangle contains the point, later siblings winning. A node
/// absent from the layout map hides its whole subtree.
pub open spec fn spec_locate(
    t: Tree,
    m: Map<NodeID, GUINode>,
    id: NodeID,
    x: i64,
    y: i64,
) -> Option<NodeID>
    decreases t.elems@.len() - id, t.elems@[id as int].children@.len() + 1,
{
    if !(id < t.elems@.len()) {
        None
    } else if !m.contains_key(id) {
        None
    } else {
        let self_hit = if spec_rect_contains(m[id].rect, x, y) {
            Some(id)
        } else {
            None
        };
        match spec_locate_children(t, m, id, t.elems@[id as int].children@.len() as int, x, y) {
            Some(c) => Some(c),
            None => self_hit,
        }
    }
}

/// The hit-test over the first `k` children of `id`, scanning from the
/// last one back so that the latest sibling match wins.
pub open spec fn spec_locate_children(
    t: Tree,
    m: Map<NodeID, GUINode>,
    id: NodeID,
    k: int,
    x: i64,
    y: i64,
) -> Option<NodeID>
    decreases t.elems@.len() - id, k,
{
    if k <= 0 || !(id < t.elems@.len()) {
        None
    } else {
        let c = t.elems@[id as int].children@[k - 1];
        let deep = if id < c && c < t.elems@.len() {
            spec_locate(t, m, c, x, y)
        } else {
            None
        };
        match deep {
            Some(f) => Some(f),
            None => spec_locate_children(t, m, id, k - 1, x, y),
        }
    }
}

/// Hit-tests a point against a computed layout map combined with the tree:
/// returns the deepest visible node under the point, used for tooltips and
/// context actions.
pub fn locate_node(tree: &Tree, map: &HashMap<NodeID, GUINode>, id: NodeID, x: i64, y: i64) -> (r:
    Option<NodeID>)
    requires
        tree.wf(),
        id < tree.elems@.len(),
    ensures
        r == spec_locate(*tree, map@, id, x, y),
    decreases tree.elems@.len() - id, tree.elems@[id as int].children@.len() + 1,
{
    match map.get(&id) {
        None => None,
        Some(g) => {
            let self_contains = g.rect.x <= x && (x as i128) <= (g.rect.x as i128) + (
            g.rect.w as i128) && g.rect.y <= y && (y as i128) <= (g.rect.y as i128) + (
            g.rect.h as i128);
            let mut found: Option<NodeID> = if self_contains {
                Some(id)
            } else {
                None
            };
            let ghost self_hit = found;
            proof {
                assert(self_hit == (if spec_rect_contains(map@[id].rect, x, y) {
                    Some(id)
                } else {
                    Option::<NodeID>::None
                }));
            }
            let child_count = tree.elems[id].children.len();
            let mut k: usize = 0;
            while k < child_count
                invariant
                    tree.wf(),
                    id < tree.elems@.len(),
                    map@.contains_key(id),
                    child_count == tree.elems@[id as int].children@.len(),
                    0 <= k <= child_count,
                    match spec_locate_children(*tree, map@, id, k as int, x, y) {
                        Some(c) => found == Some(c),
                        None => found == self_hit,
                    },
                decreases child_count - k,
            {
                proof {
                    assert(tree.node_struct_wf(id as int));
                }
                let c = tree.elems[id].children[k];
                let deep = locate_node(tree, map, c, x, y);
                if deep.is_some() {
                    found = deep;
                }
                k = k + 1;
            }
            found
        },
    }
}

/// Proportionality law: one bisection step splits the bound's longer axis
/// at exactly the floor of that axis's extent times group A's share of the
/// total, group B keeping the rest; a single-item group loses only the
/// fixed padding on each side. So a group's area is its size share of the
/// bound, up to integer rounding and padding.
pub proof fn lemma_split_proportional(
    bound: Rect,
    size_a: int,
    total: u64,
    len_a: int,
    len_b: int,
)
    requires
        rect_ok(bound),
        bound.w >= 0,
        bound.h >= 0,
        0 <= size_a <= total,
        total > 0,
    ensures
        ({
            let bs = spec_split_bounds(bound, size_a, total, len_a, len_b);
            let pad_a = if len_a == 1 {
                2 * PAD
            } else {
                0int
            };
            let pad_b = if len_b == 1 {
                2 * PAD
            } else {
                0int
            };
            &&& bound.w > bound.h ==> {
                let share = bound.w * size_a / (total as int);
                &&& bs.0.w == share - pad_a
                &&& bs.1.w == bound.w - share - pad_b
                &&& bs.0.h == bound.h - pad_a
                &&& bs.1.h == bound.h - pad_b
            }
            &&& bound.w <= bound.h ==> {
                let share = bound.h * size_a / (total as int);
                &&& bs.0.h == share - pad_a
                &&& bs.1.h == bound.h - share - pad_b
                &&& bs.0.w == bound.w - pad_a
                &&& bs.1.w == bound.w - pad_b
            }
        }),
{
    assert(0 <= bound.w * size_a / (total as int) <= bound.w) by (nonlinear_arith)
        requires
            bound.w >= 0,
            total > 0,
            0 <= size_a <= total,
    ;
    assert(0 <= bound.h * size_a / (total as int) <= bound.h) by (nonlinear_arith)
        requires
            bound.h >= 0,
            total > 0,
            0 <= size_a <= total,
    ;
}

/// `r` lies inside `b`.
pub open spec fn rect_within(r: Rect, b: Rect) -> bool {
    &&& r.x >= b.x
    &&& r.y >= b.y
    &&& r.x + r.w <= b.x + b.w
    &&& r.y + r.h <= b.y + b.h
}

/// Containment law: every rectangle the layout emits lies inside the bound
/// it was handed, so the whole treemap stays within the widget's area and
/// every subtree stays within its directory's rectangle.
pub proof fn lemma_layout_within_bound(
    t: Tree,
    items: Seq<(u64, NodeID)>,
    bound: Rect,
    dir_level: int,
)
    requires
        t.wf(),
        rect_ok(bound),
        forall|k: int| 0 <= k < items.len() ==> (#[trigger] items[k]).1 < t.elems@.len(),
        items_sum(items) <= u64::MAX,
    ensures
        forall|k: int|
            0 <= k < spec_layout(t, items, bound, dir_level).len() ==> rect_within(
                (#[trigger] spec_layout(t, items, bound, dir_level)[k]).rect,
                bound,
            ),
    decreases MAX_FS_DEPTH as int + 2 - dir_level, items.len(),
{
    let out = spec_layout(t, items, bound, dir_level);
    if dir_level > MAX_FS_DEPTH as int || bound.w < MIN_BOX_SIZE || bound.h < MIN_BOX_SIZE
        || items.len() == 0 {
        // nothing is emitted
    } else if items.len() == 1 {
        let id = items[0].1;
        if id < t.elems@.len() && t.elems@[id as int].children@.len() > 0 {
            let inner = spec_inset_rect(bound);
            let total = t.elems@[id as int].size;
            let citems_raw = spec_child_items(t, id as int);
            let citems = spec_sort_items(citems_raw);
            let sp = spec_split_index(citems, total);
            let bs = spec_split_bounds(inner, sp.1, total, sp.0, citems.len() - sp.0);
            assert(t.node_struct_wf(id as int));
            assert(rect_ok(inner));
            assert(rect_within(inner, bound));
            // the children's weights are in range and sum below the node size
            assert forall|k: int| 0 <= k < citems_raw.len() implies (#[trigger] citems_raw[k]).1
                < t.elems@.len() by {
                assert(citems_raw[k].1 == t.elems@[id as int].children@[k]);
            }
            lemma_mapped_items_sum(t.elems@, t.elems@[id as int].children@);
            assert(t.size_ok_at(id as int));
            assert(items_sum(citems_raw) <= total as int);
            lemma_sort_items_len(citems_raw);
            lemma_sort_items_sum(citems_raw);
            lemma_split_index_props(citems, total);
            lemma_split_bounds_disjoint(inner, sp.1, total, sp.0, citems.len() - sp.0);
            layout_parts_ok(t, citems_raw, total);
            let part_a = citems.subrange(0, sp.0);
            let part_b = citems.subrange(sp.0, citems.len() as int);
            lemma_layout_within_bound(t, part_a, bs.0, dir_level + 1);
            lemma_layout_within_bound(t, part_b, bs.1, dir_level + 1);
            let la = spec_layout(t, part_a, bs.0, dir_level + 1);
            let lb = spec_layout(t, part_b, bs.1, dir_level + 1);
            assert forall|k: int| 0 <= k < out.len() implies rect_within(
                (#[trigger] out[k]).rect,
                bound,
            ) by {
                let own = seq![GUINode { rect: bound, node_id: id }];
                assert(out == own + la + lb);
                if k == 0 {
                    assert(out[k].rect == bound);
                } else if k < 1 + la.len() {
                    assert(out[k] == la[k - 1]);
                } else {
                    assert(out[k] == lb[k - 1 - la.len()]);
                }
            }
        }
    } else {
        let sorted = spec_sort_items(items);
        let total = items_sum(items) as u64;
        let sp = spec_split_index(sorted, total);
        let bs = spec_split_bounds(bound, sp.1, total, sp.0, sorted.len() - sp.0);
        lemma_sort_items_len(items);
        lemma_sort_items_sum(items);
        lemma_items_sum_nonneg(items);
        lemma_split_index_props(sorted, total);
        lemma_split_bounds_disjoint(bound, sp.1, total, sp.0, sorted.len() - sp.0);
        layout_parts_ok(t, items, total);
        let part_a = sorted.subrange(0, sp.0);
        let part_b = sorted.subrange(sp.0, sorted.len() as int);
        lemma_layout_within_bound(t, part_a, bs.0, dir_level);
        lemma_layout_within_bound(t, part_b, bs.1, dir_level);
        let la = spec_layout(t, part_a, bs.0, dir_level);
        let lb = spec_layout(t, part_b, bs.1, dir_level);
        assert forall|k: int| 0 <= k < out.len() implies rect_within(
            (#[trigger] out[k]).rect,
            bound,
        ) by {
            assert(out == la + lb);
            if k < la.len() {
                assert(out[k] == la[k]);
            } else {
                assert(out[k] == lb[k - la.len()]);
            }
        }
    }
}

/// `r1` and `r2` share no area: they are separated along some axis.
pub open spec fn rect_disjoint(r1: Rect, r2: Rect) -> bool {
    ||| r1.x + r1.w <= r2.x
    ||| r2.x + r2.w <= r1.x
    ||| r1.y + r1.h <= r2.y
    ||| r2.y + r2.h <= r1.y
}

/// Non-overlap law: any two rectangles the layout emits are either nested
/// (the later one lies inside the earlier, which is its ancestor's) or
/// disjoint. Sibling subtrees never overlap on screen.
pub proof fn lemma_layout_disjoint(t: Tree, items: Seq<(u64, NodeID)>, bound: Rect, dir_level: int)
    requires
        t.wf(),
        rect_ok(bound),
        forall|k: int| 0 <= k < items.len() ==> (#[trigger] items[k]).1 < t.elems@.len(),
        items_sum(items) <= u64::MAX,
    ensures
        forall|k1: int, k2: int|
            0 <= k1 < k2 < spec_layout(t, items, bound, dir_level).len() ==> rect_within(
                (#[trigger] spec_layout(t, items, bound, dir_level)[k2]).rect,
                (#[trigger] spec_layout(t, items, bound, dir_level)[k1]).rect,
            ) || rect_disjoint(
                spec_layout(t, items, bound, dir_level)[k1].rect,
                spec_layout(t, items, bound, dir_level)[k2].rect,
            ),
    decreases MAX_FS_DEPTH as int + 2 - dir_level, items.len(),
{
    let out = spec_layout(t, items, bound, dir_level);
    if dir_level > MAX_FS_DEPTH as int || bound.w < MIN_BOX_SIZE || bound.h < MIN_BOX_SIZE
        || items.len() == 0 {
        // nothing is emitted
    } else if items.len() == 1 {
        let id = items[0].1;
        if id < t.elems@.len() && t.elems@[id as int].children@.len() > 0 {
            let inner = spec_inset_rect(bound);
            let total = t.elems@[id as int].size;
            let citems_raw = spec_child_items(t, id as int);
            let citems = spec_sort_items(citems_raw);
            let sp = spec_split_index(citems, total);
            let bs = spec_split_bounds(inner, sp.1, total, sp.0, citems.len() - sp.0);
            assert(t.node_struct_wf(id as int));
            assert(rect_ok(inner));
            assert(rect_within(inner, bound));
            assert forall|k: int| 0 <= k < citems_raw.len() implies (#[trigger] citems_raw[k]).1
                < t.elems@.len() by {
                assert(citems_raw[k].1 == t.elems@[id as int].children@[k]);
            }
            lemma_mapped_items_sum(t.elems@, t.elems@[id as int].children@);
            assert(t.size_ok_at(id as int));
            assert(items_sum(citems_raw) <= total as int);
            lemma_sort_items_len(citems_raw);
            lemma_sort_items_sum(citems_raw);
            lemma_split_index_props(citems, total);
            lemma_split_bounds_disjoint(inner, sp.1, total, sp.0, citems.len() - sp.0);
            layout_parts_ok(t, citems_raw, total);
            let part_a = citems.subrange(0, sp.0);
            let part_b = citems.subrange(sp.0, citems.len() as int);
            lemma_layout_within_bound(t, part_a, bs.0, dir_level + 1);
            lemma_layout_within_bound(t, part_b, bs.1, dir_level + 1);
            lemma_layout_disjoint(t, part_a, bs.0, dir_level + 1);
            lemma_layout_disjoint(t, part_b, bs.1, dir_level + 1);
            let la = spec_layout(t, part_a, bs.0, dir_level + 1);
            let lb = spec_layout(t, part_b, bs.1, dir_level + 1);
            let own = seq![GUINode { rect: bound, node_id: id }];
            assert(out == own + la + lb);
            assert forall|k1: int, k2: int| 0 <= k1 < k2 < out.len() implies rect_within(
                out[k2].rect,
                out[k1].rect,
            ) || rect_disjoint(out[k1].rect, out[k2].rect) by {
                if k2 < 1 + la.len() {
                    assert(out[k2] == la[k2 - 1]);
                    assert(rect_within(la[k2 - 1].rect, bs.0));
                } else {
                    assert(out[k2] == lb[k2 - 1 - la.len()]);
                    assert(rect_within(lb[k2 - 1 - la.len()].rect, bs.1));
                }
                if k1 == 0 {
                    // everything after the node's own rectangle nests in it
                    assert(out[k1].rect == bound);
                } else if k1 < 1 + la.len() {
                    assert(out[k1] == la[k1 - 1]);
                    assert(rect_within(la[k1 - 1].rect, bs.0));
                    if k2 < 1 + la.len() {
                        // both in group A: its own law applies
                        assert(rect_within(la[k2 - 1].rect, la[k1 - 1].rect) || rect_disjoint(
                            la[k1 - 1].rect,
                            la[k2 - 1].rect,
                        ));
                    } else {
                        // across the split: the groups' bounds are separated
                        assert(rect_disjoint(out[k1].rect, out[k2].rect));
                    }
                } else {
                    assert(out[k1] == lb[k1 - 1 - la.len()]);
                    assert(rect_within(lb[k2 - 1 - la.len()].rect, lb[k1 - 1 - la.len()].rect)
                        || rect_disjoint(lb[k1 - 1 - la.len()].rect, lb[k2 - 1 - la.len()].rect));
                }
            }
        }
    } else {
        let sorted = spec_sort_items(items);
        let total = items_sum(items) as u64;
        let sp = spec_split_index(sorted, total);
        let bs = spec_split_bounds(bound, sp.1, total, sp.0, sorted.len() - sp.0);
        lemma_sort_items_len(items);
        lemma_sort_items_sum(items);
        lemma_items_sum_nonneg(items);
        lemma_split_index_props(sorted, total);
        lemma_split_bounds_disjoint(bound, sp.1, total, sp.0, sorted.len() - sp.0);
        layout_parts_ok(t, items, total);
        let part_a = sorted.subrange(0, sp.0);
        let part_b = sorted.subrange(sp.0, sorted.len() as int);
        lemma_layout_within_bound(t, part_a, bs.0, dir_level);
        lemma_layout_within_bound(t, part_b, bs.1, dir_level);
        lemma_layout_disjoint(t, part_a, bs.0, dir_level);
        lemma_layout_disjoint(t, part_b, bs.1, dir_level);
        let la = spec_layout(t, part_a, bs.0, dir_level);
        let lb = spec_layout(t, part_b, bs.1, dir_level);
        assert(out == la + lb);
        assert forall|k1: int, k2: int| 0 <= k1 < k2 < out.len() implies rect_within(
            out[k2].rect,
            out[k1].rect,
        ) || rect_disjoint(out[k1].rect, out[k2].rect) by {
            if k2 < la.len() {
                assert(out[k1] == la[k1] && out[k2] == la[k2]);
                assert(rect_within(la[k2].rect, la[k1].rect) || rect_disjoint(
                    la[k1].rect,
                    la[k2].rect,
                ));
            } else if k1 >= la.len() {
                assert(out[k1] == lb[k1 - la.len()] && out[k2] == lb[k2 - la.len()]);
                assert(rect_within(lb[k2 - la.len()].rect, lb[k1 - la.len()].rect)
                    || rect_disjoint(lb[k1 - la.len()].rect, lb[k2 - la.len()].rect));
            } else {
                assert(out[k1] == la[k1] && out[k2] == lb[k2 - la.len()]);
                assert(rect_within(la[k1].rect, bs.0));
                assert(rect_within(lb[k2 - la.len()].rect, bs.1));
                assert(rect_disjoint(out[k1].rect, out[k2].rect));
            }
        }
    }
}

/// The id-keyed map built from a rectangle sequence, later entries winning.
pub open spec fn spec_gui_map(s: Seq<GUINode>) -> Map<NodeID, GUINode>
    decreases s.len(),
{
    if s.len() == 0 {
        Map::empty()
    } else {
        spec_gui_map(s.drop_last()).insert(s.last().node_id, s.last())
    }
}

/// Lays out the tree under `root` inside `bound` and returns one rectangle
/// per visible node, keyed by node id. Pure and deterministic: the result is
/// a mathematical function of the tree snapshot and the bound alone, so
/// identical inputs always produce identical rectangles.
pub fn compute_gui_nodes(tree: &Tree, root: &Node, bound: Rect) -> (m: HashMap<NodeID, GUINode>)
    requires
        tree.wf(),
        root.id < tree.elems@.len(),
        *root == tree.elems@[root.id as int],
        rect_ok(bound),
    ensures
        m@ == spec_gui_map(spec_layout(*tree, seq![(root.size, root.id)], bound, 0)),
{
    let mut items: Vec<(u64, NodeID)> = Vec::new();
    items.push((root.size, root.id));
    proof {
        assert(items@ =~= seq![(root.size, root.id)]);
        assert(items@.subrange(1, 1) =~= Seq::<(u64, NodeID)>::empty());
        assert(items_sum(items@) == root.size + items_sum(items@.subrange(1, 1)));
        assert(items_sum(items@) <= u64::MAX);
    }
    let gui_nodes = compute_gui_nodes_imp(tree, items, bound, 0);
    let mut hmap: HashMap<NodeID, GUINode> = HashMap::with_capacity(gui_nodes.len());
    let mut k: usize = 0;
    while k < gui_nodes.len()
        invariant
            0 <= k <= gui_nodes@.len(),
            hmap@ == spec_gui_map(gui_nodes@.subrange(0, k as int)),
        decreases gui_nodes@.len() - k,
    {
        let g = gui_nodes[k];
        hmap.insert(g.node_id, g);
        proof {
            let pre = gui_nodes@.subrange(0, k as int + 1);
            assert(pre.drop_last() =~= gui_nodes@.subrange(0, k as int));
            assert(pre.last() == gui_nodes@[k as int]);
        }
        k = k + 1;
    }
    proof {
        assert(gui_nodes@.subrange(0, gui_nodes@.len() as int) =~= gui_nodes@);
    }
    hmap
}

} // verus!

use vstd::prelude::*;

use crate::larp::bvh_node::BvhNode;

verus! {

/// Number of node positions taken by the subtree rooted at `i`; children are laid out in
/// pre-order, so the subtree occupies the positions `i .. i + span(nodes, i)`.
pub open spec fn span<B>(nodes: Seq<BvhNode<B>>, i: int) -> nat
    decreases nodes.len() - i,
{
    if 0 <= i < nodes.len() {
        match nodes[i] {
            BvhNode::Leaf { .. } => 1,
            BvhNode::Internal { left, right, .. } => {
                if i < left < nodes.len() && i < right < nodes.len() {
                    1 + span(nodes, left as int) + span(nodes, right as int)
                } else {
                    1
                }
            },
        }
    } else {
        0
    }
}

/// First position of the primitive index range covered by the subtree rooted at `i`.
pub open spec fn first<B>(nodes: Seq<BvhNode<B>>, i: int) -> int
    decreases nodes.len() - i,
{
    if 0 <= i < nodes.len() {
        match nodes[i] {
            BvhNode::Leaf { start, .. } => start as int,
            BvhNode::Internal { left, .. } => {
                if i < left < nodes.len() {
                    first(nodes, left as int)
                } else {
                    0
                }
            },
        }
    } else {
        0
    }
}

/// End (exclusive) of the primitive index range covered by the subtree rooted at `i`.
pub open spec fn last<B>(nodes: Seq<BvhNode<B>>, i: int) -> int
    decreases nodes.len() - i,
{
    if 0 <= i < nodes.len() {
        match nodes[i] {
            BvhNode::Leaf { end, .. } => end as int,
            BvhNode::Internal { right, .. } => {
                if i < right < nodes.len() {
                    last(nodes, right as int)
                } else {
                    0
                }
            },
        }
    } else {
        0
    }
}

/// The subtree rooted at `i` is a proper binary tree in pre-order layout: the left child
/// follows its parent, the right child follows the left subtree, and the two children
/// cover adjacent non-empty ranges of primitive index positions.
pub open spec fn wf_subtree<B>(nodes: Seq<BvhNode<B>>, i: int) -> bool
    decreases nodes.len() - i,
{
    &&& 0 <= i < nodes.len()
    &&& match nodes[i] {
        BvhNode::Leaf { start, end, .. } => start <= end,
        BvhNode::Internal { left, right, .. } => {
            &&& left == i + 1
            &&& i < left < nodes.len()
            &&& i < right < nodes.len()
            &&& right == left + span(nodes, left as int)
            &&& right + span(nodes, right as int) <= nodes.len()
            &&& wf_subtree(nodes, left as int)
            &&& wf_subtree(nodes, right as int)
            &&& first(nodes, left as int) < last(nodes, left as int)
            &&& last(nodes, left as int) == first(nodes, right as int)
            &&& first(nodes, right as int) < last(nodes, right as int)
        },
    }
}

/// `s` lists each of `0 .. s.len()` exactly once.
pub open spec fn is_index_permutation(s: Seq<usize>) -> bool {
    &&& forall|i: int| 0 <= i < s.len() ==> s[i] < s.len()
    &&& forall|i: int, j: int| 0 <= i < s.len() && 0 <= j < s.len() && i != j ==> s[i] != s[j]
}

/// `perm` is a permutation of `0 .. n`.
pub open spec fn is_perm_of_range(perm: Seq<int>, n: int) -> bool {
    &&& perm.len() == n
    &&& forall|k: int| 0 <= k < n ==> 0 <= #[trigger] perm[k] < n
    &&& forall|a: int, b: int| 0 <= a < n && 0 <= b < n && a != b ==> perm[a] != perm[b]
}

/// A whole hierarchy: either no node and no primitive, or a well-formed tree rooted at `0`
/// that fills the node array and covers every primitive index position, over a primitive
/// index array that lists each primitive once.
pub open spec fn tree_wf<B>(nodes: Seq<BvhNode<B>>, prims: Seq<usize>) -> bool {
    &&& prims.len() <= u32::MAX
    &&& is_index_permutation(prims)
    &&& if nodes.len() == 0 {
        prims.len() == 0
    } else {
        &&& wf_subtree(nodes, 0)
        &&& span(nodes, 0) == nodes.len()
        &&& first(nodes, 0) == 0
        &&& last(nodes, 0) == prims.len()
    }
}

/// The primitives that a depth-first descent from node `i` reports, left subtree first,
/// when `hit(k)` tells whether the bounding volume of node `k` is hit: nothing below a node
/// that is missed, the primitive range of a leaf that is hit.
pub open spec fn reached<B>(nodes: Seq<BvhNode<B>>, prims: Seq<usize>, i: int, hit: spec_fn(int) -> bool) -> Seq<usize>
    decreases nodes.len() - i,
{
    if 0 <= i < nodes.len() && hit(i) {
        match nodes[i] {
            BvhNode::Leaf { start, end, .. } => {
                if start <= end <= prims.len() {
                    prims.subrange(start as int, end as int)
                } else {
                    Seq::empty()
                }
            },
            BvhNode::Internal { left, right, .. } => {
                if i < left < nodes.len() && i < right < nodes.len() {
                    reached(nodes, prims, left as int, hit) + reached(nodes, prims, right as int, hit)
                } else {
                    Seq::empty()
                }
            },
        }
    } else {
        Seq::empty()
    }
}

/// What a descent reports from each node of a stack of pending nodes, the top (last) first.
pub open spec fn reached_from_stack<B>(nodes: Seq<BvhNode<B>>, prims: Seq<usize>, stack: Seq<u32>, hit: spec_fn(int) -> bool) -> Seq<usize>
    decreases stack.len(),
{
    if stack.len() == 0 {
        Seq::empty()
    } else {
        reached(nodes, prims, stack.last() as int, hit) + reached_from_stack(
            nodes,
            prims,
            stack.drop_last(),
            hit,
        )
    }
}

/// The nodes that a depth-first descent from node `i` asks `hit` about: the node itself, and
/// the nodes below it only when it is an internal node that is hit.
pub open spec fn asked<B>(nodes: Seq<BvhNode<B>>, i: int, hit: spec_fn(int) -> bool) -> Set<int>
    decreases nodes.len() - i,
{
    if 0 <= i < nodes.len() {
        if hit(i) {
            match nodes[i] {
                BvhNode::Leaf { .. } => set![i],
                BvhNode::Internal { left, right, .. } => {
                    if i < left < nodes.len() && i < right < nodes.len() {
                        set![i] + asked(nodes, left as int, hit) + asked(nodes, right as int, hit)
                    } else {
                        set![i]
                    }
                },
            }
        } else {
            set![i]
        }
    } else {
        Set::empty()
    }
}

/// The nodes a descent asks about from each node of a stack of pending nodes.
pub open spec fn asked_from_stack<B>(nodes: Seq<BvhNode<B>>, stack: Seq<u32>, hit: spec_fn(int) -> bool) -> Set<int>
    decreases stack.len(),
{
    if stack.len() == 0 {
        Set::empty()
    } else {
        asked(nodes, stack.last() as int, hit) + asked_from_stack(nodes, stack.drop_last(), hit)
    }
}

/// `hit` gives the recorded verdict for every node that has one.
pub open spec fn agrees(verdicts: Map<int, bool>, hit: spec_fn(int) -> bool) -> bool {
    forall|k: int| #[trigger] verdicts.dom().contains(k) ==> hit(k) == verdicts[k]
}

proof fn lemma_agrees_insert(verdicts: Map<int, bool>, k: int, v: bool, hit: spec_fn(int) -> bool)
    requires
        !verdicts.dom().contains(k),
        agrees(verdicts.insert(k, v), hit),
    ensures
        agrees(verdicts, hit),
        hit(k) == v,
{
    assert(verdicts.insert(k, v).dom().contains(k));
    assert forall|j: int| verdicts.dom().contains(j) implies hit(j) == verdicts[j] by {
        assert(verdicts.insert(k, v).dom().contains(j));
    }
}

/// The whole primitive index range under node `i` when every node is hit.
proof fn lemma_reached_all_subtree<B>(nodes: Seq<BvhNode<B>>, prims: Seq<usize>, i: int)
    requires
        wf_subtree(nodes, i),
        0 <= first(nodes, i),
        last(nodes, i) <= prims.len(),
    ensures
        reached(nodes, prims, i, |k: int| true) == prims.subrange(first(nodes, i), last(nodes, i)),
    decreases nodes.len() - i,
{
    match nodes[i] {
        BvhNode::Leaf { .. } => {},
        BvhNode::Internal { left, right, .. } => {
            let l = left as int;
            let r = right as int;
            lemma_wf_extent(nodes, l);
            lemma_wf_extent(nodes, r);
            lemma_reached_all_subtree(nodes, prims, l);
            lemma_reached_all_subtree(nodes, prims, r);
            assert(prims.subrange(first(nodes, i), last(nodes, i)) =~= prims.subrange(
                first(nodes, l),
                last(nodes, l),
            ) + prims.subrange(first(nodes, r), last(nodes, r)));
        },
    }
}

/// When every bounding volume is hit, a descent reports every primitive of the hierarchy,
/// each exactly once, in the order of the primitive index array.
pub proof fn lemma_reached_all<B>(nodes: Seq<BvhNode<B>>, prims: Seq<usize>)
    requires
        tree_wf(nodes, prims),
    ensures
        reached(nodes, prims, 0, |k: int| true) == prims,
        forall|p: usize| p < prims.len() ==> #[trigger] prims.contains(p),
        prims.no_duplicates(),
{
    if nodes.len() > 0 {
        lemma_reached_all_subtree(nodes, prims, 0);
        assert(prims.subrange(0, prims.len() as int) =~= prims);
    } else {
        assert(prims =~= Seq::<usize>::empty());
    }
    lemma_index_permutation_covers(prims);
}

#[verifier::rlimit(40)]
proof fn lemma_reached_drawn<B>(nodes: Seq<BvhNode<B>>, prims: Seq<usize>, i: int, hit: spec_fn(int) -> bool)
    requires
        wf_subtree(nodes, i),
        0 <= first(nodes, i),
        last(nodes, i) <= prims.len(),
        prims.no_duplicates(),
    ensures
        reached(nodes, prims, i, hit).no_duplicates(),
        forall|a: int|
            0 <= a < reached(nodes, prims, i, hit).len() ==> prims.subrange(
                first(nodes, i),
                last(nodes, i),
            ).contains(#[trigger] reached(nodes, prims, i, hit)[a]),
    decreases nodes.len() - i,
{
    let r = reached(nodes, prims, i, hit);
    let whole = prims.subrange(first(nodes, i), last(nodes, i));
    if hit(i) {
        match nodes[i] {
            BvhNode::Leaf { start, end, .. } => {
                assert forall|a: int| 0 <= a < r.len() implies whole.contains(#[trigger] r[a]) by {
                    assert(whole[a] == r[a]);
                }
            },
            BvhNode::Internal { left, right, .. } => {
                let l = left as int;
                let rr = right as int;
                lemma_wf_extent(nodes, l);
                lemma_wf_extent(nodes, rr);
                lemma_reached_drawn(nodes, prims, l, hit);
                lemma_reached_drawn(nodes, prims, rr, hit);
                let x = reached(nodes, prims, l, hit);
                let y = reached(nodes, prims, rr, hit);
                let xs = prims.subrange(first(nodes, l), last(nodes, l));
                let ys = prims.subrange(first(nodes, rr), last(nodes, rr));
                assert(r == x + y);
                assert forall|a: int| 0 <= a < r.len() implies whole.contains(#[trigger] r[a]) by {
                    if a < x.len() {
                        assert(xs.contains(x[a]));
                        let j = choose|j: int| 0 <= j < xs.len() && xs[j] == x[a];
                        assert(whole[j] == r[a]);
                    } else {
                        assert(ys.contains(y[a - x.len()]));
                        let j = choose|j: int| 0 <= j < ys.len() && ys[j] == y[a - x.len()];
                        assert(whole[xs.len() + j] == r[a]);
                    }
                }
                assert forall|a: int, b: int|
                    0 <= a < r.len() && 0 <= b < r.len() && a != b implies r[a] != r[b] by {
                    if a < x.len() && b >= x.len() {
                        assert(xs.contains(x[a]));
                        assert(ys.contains(y[b - x.len()]));
                        let ja = choose|j: int| 0 <= j < xs.len() && xs[j] == x[a];
                        let jb = choose|j: int| 0 <= j < ys.len() && ys[j] == y[b - x.len()];
                        assert(prims[first(nodes, l) + ja] == x[a]);
                        assert(prims[first(nodes, rr) + jb] == y[b - x.len()]);
                    } else if b < x.len() && a >= x.len() {
                        assert(xs.contains(x[b]));
                        assert(ys.contains(y[a - x.len()]));
                        let jb = choose|j: int| 0 <= j < xs.len() && xs[j] == x[b];
                        let ja = choose|j: int| 0 <= j < ys.len() && ys[j] == y[a - x.len()];
                        assert(prims[first(nodes, l) + jb] == x[b]);
                        assert(prims[first(nodes, rr) + ja] == y[a - x.len()]);
                    } else if a < x.len() {
                        assert(x[a] != x[b]);
                    } else {
                        assert(y[a - x.len()] != y[b - x.len()]);
                    }
                }
            },
        }
    }
}

/// Whatever the bounding volume tests answer, a descent reports primitives of the hierarchy,
/// each at most once.
pub proof fn lemma_reached_distinct<B>(nodes: Seq<BvhNode<B>>, prims: Seq<usize>, hit: spec_fn(int) -> bool)
    requires
        tree_wf(nodes, prims),
    ensures
        reached(nodes, prims, 0, hit).no_duplicates(),
        forall|a: int|
            0 <= a < reached(nodes, prims, 0, hit).len() ==> #[trigger] reached(nodes, prims, 0, hit)[a]
                < prims.len(),
{
    lemma_index_permutation_covers(prims);
    if nodes.len() > 0 {
        lemma_reached_drawn(nodes, prims, 0, hit);
        let r = reached(nodes, prims, 0, hit);
        assert forall|a: int| 0 <= a < r.len() implies #[trigger] r[a] < prims.len() by {
            let whole = prims.subrange(first(nodes, 0), last(nodes, 0));
            assert(whole.contains(r[a]));
            let j = choose|j: int| 0 <= j < whole.len() && whole[j] == r[a];
            assert(prims[j] == r[a]);
        }
    }
}

proof fn lemma_reached_monotonic_subtree<B>(
    nodes: Seq<BvhNode<B>>,
    prims: Seq<usize>,
    i: int,
    h1: spec_fn(int) -> bool,
    h2: spec_fn(int) -> bool,
)
    requires
        forall|k: int| #[trigger] h1(k) ==> h2(k),
    ensures
        forall|a: int|
            0 <= a < reached(nodes, prims, i, h1).len() ==> reached(nodes, prims, i, h2).contains(
                #[trigger] reached(nodes, prims, i, h1)[a],
            ),
    decreases nodes.len() - i,
{
    let r1 = reached(nodes, prims, i, h1);
    let r2 = reached(nodes, prims, i, h2);
    if 0 <= i < nodes.len() && h1(i) {
        assert(h2(i));
        match nodes[i] {
            BvhNode::Leaf { .. } => {
                assert(r1 == r2);
                assert forall|a: int| 0 <= a < r1.len() implies r2.contains(#[trigger] r1[a]) by {
                    assert(r2[a] == r1[a]);
                }
            },
            BvhNode::Internal { left, right, .. } => {
                if i < left < nodes.len() && i < right < nodes.len() {
                    let l = left as int;
                    let rr = right as int;
                    lemma_reached_monotonic_subtree(nodes, prims, l, h1, h2);
                    lemma_reached_monotonic_subtree(nodes, prims, rr, h1, h2);
                    let x1 = reached(nodes, prims, l, h1);
                    let y1 = reached(nodes, prims, rr, h1);
                    let x2 = reached(nodes, prims, l, h2);
                    let y2 = reached(nodes, prims, rr, h2);
                    assert forall|a: int| 0 <= a < r1.len() implies r2.contains(#[trigger] r1[a]) by {
                        if a < x1.len() {
                            assert(x2.contains(x1[a]));
                            let j = choose|j: int| 0 <= j < x2.len() && x2[j] == x1[a];
                            assert(r2[j] == x1[a]);
                        } else {
                            assert(y2.contains(y1[a - x1.len()]));
                            let j = choose|j: int| 0 <= j < y2.len() && y2[j] == y1[a - x1.len()];
                            assert(r2[x2.len() + j] == y1[a - x1.len()]);
                        }
                    }
                }
            },
        }
    }
}

/// A bounding volume test that says "hit" at least wherever another one does makes a descent
/// report at least the primitives the other one reports.
pub proof fn lemma_reached_monotonic<B>(
    nodes: Seq<BvhNode<B>>,
    prims: Seq<usize>,
    h1: spec_fn(int) -> bool,
    h2: spec_fn(int) -> bool,
)
    requires
        forall|k: int| #[trigger] h1(k) ==> h2(k),
    ensures
        forall|a: int|
            0 <= a < reached(nodes, prims, 0, h1).len() ==> reached(nodes, prims, 0, h2).contains(
                #[trigger] reached(nodes, prims, 0, h1)[a],
            ),
{
    lemma_reached_monotonic_subtree(nodes, prims, 0, h1, h2);
}

proof fn lemma_reached_complete_subtree<B>(
    nodes: Seq<BvhNode<B>>,
    prims: Seq<usize>,
    i: int,
    hit: spec_fn(int) -> bool,
    p: int,
)
    requires
        wf_subtree(nodes, i),
        0 <= first(nodes, i) <= p < last(nodes, i) <= prims.len(),
        forall|k: int|
            0 <= k < nodes.len() && first(nodes, k) <= p < last(nodes, k) ==> #[trigger] hit(k),
    ensures
        reached(nodes, prims, i, hit).contains(prims[p]),
    decreases nodes.len() - i,
{
    let r = reached(nodes, prims, i, hit);
    assert(hit(i));
    match nodes[i] {
        BvhNode::Leaf { start, .. } => {
            assert(r[p - start] == prims[p]);
        },
        BvhNode::Internal { left, right, .. } => {
            let l = left as int;
            let rr = right as int;
            lemma_wf_extent(nodes, l);
            lemma_wf_extent(nodes, rr);
            let x = reached(nodes, prims, l, hit);
            let y = reached(nodes, prims, rr, hit);
            assert(r == x + y);
            if p < last(nodes, l) {
                lemma_reached_complete_subtree(nodes, prims, l, hit, p);
                let j = choose|j: int| 0 <= j < x.len() && x[j] == prims[p];
                assert(r[j] == prims[p]);
            } else {
                lemma_reached_complete_subtree(nodes, prims, rr, hit, p);
                let j = choose|j: int| 0 <= j < y.len() && y[j] == prims[p];
                assert(r[x.len() + j] == prims[p]);
            }
        },
    }
}

/// A descent misses no primitive whose bounding volumes are all hit: the primitive at
/// position `p` of the primitive index array is reported whenever every node whose range
/// holds `p` is hit.
pub proof fn lemma_reached_complete<B>(
    nodes: Seq<BvhNode<B>>,
    prims: Seq<usize>,
    hit: spec_fn(int) -> bool,
    p: int,
)
    requires
        tree_wf(nodes, prims),
        0 <= p < prims.len(),
        forall|k: int|
            0 <= k < nodes.len() && first(nodes, k) <= p < last(nodes, k) ==> #[trigger] hit(k),
    ensures
        reached(nodes, prims, 0, hit).contains(prims[p]),
{
    lemma_reached_complete_subtree(nodes, prims, 0, hit, p);
}

/// A permutation of `0 .. n` holds each of them.
proof fn lemma_index_permutation_covers(s: Seq<usize>)
    requires
        is_index_permutation(s),
    ensures
        forall|p: usize| p < s.len() ==> #[trigger] s.contains(p),
        s.no_duplicates(),
{
    let t = s.map_values(|x: usize| x as int);
    assert(t.no_duplicates());
    t.unique_seq_to_set();
    vstd::set_lib::lemma_int_range(0, s.len() as int);
    let range = vstd::set_lib::set_int_range(0, s.len() as int);
    assert(t.to_set().subset_of(range)) by {
        assert forall|x: int| t.to_set().contains(x) implies range.contains(x) by {
            let i = choose|i: int| 0 <= i < t.len() && t[i] == x;
            assert(s[i] < s.len());
        }
    }
    vstd::set_lib::lemma_subset_equality(t.to_set(), range);
    assert forall|p: usize| p < s.len() implies s.contains(p) by {
        assert(range.contains(p as int));
        assert(t.to_set().contains(p as int));
        let i = choose|i: int| 0 <= i < t.len() && t[i] == p as int;
        assert(s[i] == p);
    }
}

/// A well-formed subtree ends inside the node array and covers an ordered range.
pub proof fn lemma_wf_extent<B>(nodes: Seq<BvhNode<B>>, i: int)
    requires
        wf_subtree(nodes, i),
    ensures
        i + span(nodes, i) <= nodes.len(),
        span(nodes, i) >= 1,
        first(nodes, i) <= last(nodes, i),
{
}

/// The shape of a well-formed subtree depends only on the node positions it occupies.
pub proof fn lemma_wf_frame<B>(n1: Seq<BvhNode<B>>, n2: Seq<BvhNode<B>>, i: int)
    requires
        wf_subtree(n1, i),
        i + span(n1, i) <= n2.len(),
        forall|k: int| i <= k < i + span(n1, i) ==> n1[k] == n2[k],
    ensures
        wf_subtree(n2, i),
        span(n2, i) == span(n1, i),
        first(n2, i) == first(n1, i),
        last(n2, i) == last(n1, i),
    decreases n1.len() - i,
{
    match n1[i] {
        BvhNode::Leaf { .. } => {},
        BvhNode::Internal { left, right, .. } => {
            lemma_wf_extent(n1, left as int);
            lemma_wf_extent(n1, right as int);
            lemma_wf_frame(n1, n2, left as int);
            lemma_wf_frame(n1, n2, right as int);
        },
    }
}

/// Exchanges the entries at `i` and `j`.
fn swap_entries<T: Copy>(v: &mut Vec<T>, i: usize, j: usize)
    requires
        i < old(v).len(),
        j < old(v).len(),
    ensures
        final(v)@ == old(v)@.update(i as int, old(v)@[j as int]).update(j as int, old(v)@[i as int]),
{
    let a = v[i];
    let b = v[j];
    v.set(i, b);
    v.set(j, a);
}

/// Exchanging two entries of a sequence keeps its multiset of entries.
proof fn lemma_swap_multiset<T>(s: Seq<T>, a: int, b: int)
    requires
        0 <= a < s.len(),
        0 <= b < s.len(),
    ensures
        s.update(a, s[b]).update(b, s[a]).to_multiset() =~= s.to_multiset(),
{
    broadcast use {
        vstd::seq_lib::to_multiset_update,
        vstd::seq_lib::to_multiset_contains,
        vstd::multiset::group_multiset_axioms,
    };

    let s1 = s.update(a, s[b]);
    let m = s.to_multiset();
    assert(s.contains(s[a]));
    assert(m.count(s[a]) > 0);
    assert(s1[b] == s[b]);
    assert(s1.to_multiset() =~= m.insert(s[b]).remove(s[a]));
    assert(s1.update(b, s[a]).to_multiset() =~= s1.to_multiset().insert(s[a]).remove(s[b]));
}

/// Exchanges the entries at `a` and `b`.
pub open spec fn swapped<T>(s: Seq<T>, a: int, b: int) -> Seq<T> {
    s.update(a, s[b]).update(b, s[a])
}

/// The two-cursor pass over `entries` with the sides `sides`, from cursors `left` and
/// `right`: an entry on the left side is kept and the left cursor moves on; an entry on the
/// right side is exchanged with the entry under the right cursor, which moves back. Gives the
/// reordered entries and the position where the cursors meet.
pub open spec fn two_cursor_pass<T>(entries: Seq<T>, sides: Seq<bool>, left: int, right: int) -> (Seq<T>, int)
    decreases right - left,
{
    if left < right {
        if sides[left] {
            two_cursor_pass(entries, sides, left + 1, right)
        } else {
            two_cursor_pass(swapped(entries, left, right), swapped(sides, left, right), left, right - 1)
        }
    } else {
        (entries, left)
    }
}

/// The two-cursor pass moves entries and their sides together, whatever the entries are.
proof fn lemma_pass_map<T, U>(entries: Seq<T>, sides: Seq<bool>, left: int, right: int, f: spec_fn(T) -> U)
    requires
        0 <= left <= right < entries.len(),
        sides.len() == entries.len(),
    ensures
        two_cursor_pass(entries.map_values(f), sides, left, right) == (
            two_cursor_pass(entries, sides, left, right).0.map_values(f),
            two_cursor_pass(entries, sides, left, right).1,
        ),
    decreases right - left,
{
    if left < right {
        if sides[left] {
            lemma_pass_map(entries, sides, left + 1, right, f);
        } else {
            assert(swapped(entries.map_values(f), left, right) =~= swapped(entries, left, right).map_values(f));
            lemma_pass_map(swapped(entries, left, right), swapped(sides, left, right), left, right - 1, f);
        }
    }
}

/// The two-cursor pass only reorders entries.
proof fn lemma_pass_multiset<T>(entries: Seq<T>, sides: Seq<bool>, left: int, right: int)
    requires
        0 <= left <= right < entries.len(),
        sides.len() == entries.len(),
    ensures
        two_cursor_pass(entries, sides, left, right).0.len() == entries.len(),
        two_cursor_pass(entries, sides, left, right).0.to_multiset() == entries.to_multiset(),
    decreases right - left,
{
    if left < right {
        if sides[left] {
            lemma_pass_multiset(entries, sides, left + 1, right);
        } else {
            lemma_swap_multiset(entries, left, right);
            lemma_pass_multiset(swapped(entries, left, right), swapped(sides, left, right), left, right - 1);
        }
    }
}

/// The sides themselves, moved by the pass, are all left before where the cursors meet and
/// all right after it.
proof fn lemma_pass_own_sides(s: Seq<bool>, left: int, right: int)
    requires
        0 <= left <= right < s.len(),
        forall|k: int| 0 <= k < left ==> s[k],
        forall|k: int| right < k < s.len() ==> !s[k],
    ensures
        left <= two_cursor_pass(s, s, left, right).1 <= right,
        two_cursor_pass(s, s, left, right).0.len() == s.len(),
        forall|k: int| 0 <= k < two_cursor_pass(s, s, left, right).1 ==> two_cursor_pass(s, s, left, right).0[k],
        forall|k: int|
            two_cursor_pass(s, s, left, right).1 < k < s.len() ==> !two_cursor_pass(s, s, left, right).0[k],
    decreases right - left,
{
    if left < right {
        if s[left] {
            lemma_pass_own_sides(s, left + 1, right);
        } else {
            lemma_pass_own_sides(swapped(s, left, right), left, right - 1);
        }
    }
}

/// Splitting a node keeps each entry on the side its answer gave it. After the two-cursor
/// pass over the entries of a node covering `f .. l` with the answer `sides`, the split
/// position lies strictly inside the range, every entry strictly between `f` and the split
/// position came from a position whose side is left, and every entry after the split position
/// came from a position whose side is right.
pub proof fn lemma_split_sides(entries: Seq<usize>, sides: Seq<bool>, f: int, l: int)
    requires
        l - f >= 2,
        entries.len() == l - f,
        sides.len() == l - f,
    ensures
        f < split_position(entries, sides, f, l) < l,
        forall|k: int|
            f < k < split_position(entries, sides, f, l) ==> exists|j: int|
                0 <= j < l - f && entries[j] == #[trigger] two_cursor_pass(entries, sides, 0, l - f - 1).0[k - f]
                    && sides[j],
        forall|k: int|
            split_position(entries, sides, f, l) < k < l ==> exists|j: int|
                0 <= j < l - f && entries[j] == #[trigger] two_cursor_pass(entries, sides, 0, l - f - 1).0[k - f]
                    && !sides[j],
{
    broadcast use vstd::seq_lib::to_multiset_contains;

    let n = l - f;
    let zip = Seq::new(n as nat, |i: int| (entries[i], sides[i]));
    let fst = |p: (usize, bool)| p.0;
    let snd = |p: (usize, bool)| p.1;
    assert(zip.map_values(fst) =~= entries);
    assert(zip.map_values(snd) =~= sides);
    lemma_pass_map(zip, sides, 0, n - 1, fst);
    lemma_pass_map(zip, sides, 0, n - 1, snd);
    lemma_pass_multiset(zip, sides, 0, n - 1);
    lemma_pass_own_sides(sides, 0, n - 1);
    let pz = two_cursor_pass(zip, sides, 0, n - 1).0;
    let m = two_cursor_pass(zip, sides, 0, n - 1).1;
    let pe = two_cursor_pass(entries, sides, 0, n - 1).0;
    let ps = two_cursor_pass(sides, sides, 0, n - 1).0;
    assert(pe == pz.map_values(fst));
    assert(ps == pz.map_values(snd));
    assert(two_cursor_pass(entries, sides, 0, n - 1).1 == m);
    assert forall|k: int| 0 <= k < n implies exists|j: int|
        0 <= j < n && entries[j] == #[trigger] pe[k] && sides[j] == ps[k] by {
        let p = pz[k];
        assert(pz.contains(p));
        assert(pz.to_multiset().count(p) > 0);
        assert(zip.contains(p));
        let j = choose|j: int| 0 <= j < zip.len() && zip[j] == p;
        assert(entries[j] == pe[k] && sides[j] == ps[k]);
    }
    let sp = split_position(entries, sides, f, l);
    assert(sp == if m < 1 { f + 1 } else { f + m });
    assert forall|k: int| f < k < sp implies exists|j: int|
        0 <= j < l - f && entries[j] == #[trigger] pe[k - f] && sides[j] by {
        assert(0 <= k - f < m);
        assert(ps[k - f]);
        let j = choose|j: int| 0 <= j < n && entries[j] == pe[k - f] && sides[j] == ps[k - f];
        assert(entries[j] == pe[k - f] && sides[j]);
    }
    assert forall|k: int| sp < k < l implies exists|j: int|
        0 <= j < l - f && entries[j] == #[trigger] pe[k - f] && !sides[j] by {
        assert(m < k - f < n);
        assert(!ps[k - f]);
        let j = choose|j: int| 0 <= j < n && entries[j] == pe[k - f] && sides[j] == ps[k - f];
        assert(entries[j] == pe[k - f] && !sides[j]);
    }
}

/// Reorders `indices[start..end]` in place with two cursors, the way the surface area
/// heuristic splits a node: `goes_left[k]` tells on which side the entry found at
/// `start + k` belongs. Returns the position `left` where the cursors met. Every entry
/// before `left` belongs on the left, every entry after it on the right; the entry at
/// `left` is the one the cursors never examined. Entries outside the range do not move.
pub fn partition_range(indices: &mut Vec<usize>, start: usize, end: usize, goes_left: Vec<bool>) -> (left: usize)
    requires
        start < end <= old(indices).len(),
        goes_left.len() == end - start,
    ensures
        start <= left < end,
        final(indices).len() == old(indices).len(),
        final(indices)@.subrange(start as int, end as int).to_multiset() == old(indices)@.subrange(
            start as int,
            end as int,
        ).to_multiset(),
        (final(indices)@.subrange(start as int, end as int), left - start) == two_cursor_pass(
            old(indices)@.subrange(start as int, end as int),
            goes_left@,
            0,
            end - start - 1,
        ),
        forall|k: int|
            0 <= k < old(indices).len() && !(start <= k < end) ==> final(indices)@[k] == old(indices)@[k],
        exists|perm: Seq<int>|
            {
                &&& #[trigger] is_perm_of_range(perm, end - start)
                &&& forall|k: int|
                    0 <= k < end - start ==> #[trigger] final(indices)@[start + k] == old(indices)@[start
                        + perm[k]]
                &&& forall|k: int| 0 <= k < left - start ==> goes_left@[#[trigger] perm[k]]
                &&& forall|k: int| left - start < k < end - start ==> !goes_left@[#[trigger] perm[k]]
            },
{
    let ghost c: int = end - start;
    let ghost orig = indices@;
    let mut sides = goes_left;
    let ghost mut perm: Seq<int> = Seq::new(c as nat, |k: int| k);
    let mut left = start;
    let mut right = end - 1;
    while left < right
        invariant
            start <= left <= right < end <= indices.len(),
            c == end - start,
            indices.len() == orig.len(),
            sides.len() == c,
            forall|k: int| 0 <= k < orig.len() && !(start <= k < end) ==> indices@[k] == orig[k],
            indices@.subrange(start as int, end as int).to_multiset() == orig.subrange(
                start as int,
                end as int,
            ).to_multiset(),
            is_perm_of_range(perm, c),
            forall|k: int| 0 <= k < c ==> #[trigger] indices@[start + k] == orig[start + perm[k]],
            forall|k: int| 0 <= k < c ==> #[trigger] sides@[k] == goes_left@[perm[k]],
            forall|k: int| 0 <= k < left - start ==> sides@[k],
            forall|k: int| right - start < k < c ==> !sides@[k],
            two_cursor_pass(indices@.subrange(start as int, end as int), sides@, left - start, right - start)
                == two_cursor_pass(orig.subrange(start as int, end as int), goes_left@, 0, c - 1),
        decreases right - left,
    {
        if sides[left - start] {
            left = left + 1;
        } else {
            let ghost p0 = perm;
            let ghost i0 = indices@;
            let ghost s0 = sides@;
            swap_entries(indices, left, right);
            swap_entries(&mut sides, left - start, right - start);
            proof {
                let a = left - start;
                let b = right - start;
                perm = p0.update(a, p0[b]).update(b, p0[a]);
                let sub0 = i0.subrange(start as int, end as int);
                assert(indices@.subrange(start as int, end as int) =~= swapped(sub0, a, b));
                assert(sides@ =~= swapped(s0, a, b));
                lemma_swap_multiset(sub0, a, b);
                assert(indices@.subrange(start as int, end as int) =~= sub0.update(a, sub0[b]).update(
                    b,
                    sub0[a],
                ));
                assert forall|k: int| 0 <= k < c implies #[trigger] indices@[start + k] == orig[start
                    + perm[k]] by {
                    assert(i0[start + k] == orig[start + p0[k]]);
                    assert(i0[start + a] == orig[start + p0[a]]);
                    assert(i0[start + b] == orig[start + p0[b]]);
                }
                assert forall|k: int| 0 <= k < c implies #[trigger] sides@[k] == goes_left@[perm[k]] by {
                    assert(s0[k] == goes_left@[p0[k]]);
                    assert(s0[a] == goes_left@[p0[a]]);
                    assert(s0[b] == goes_left@[p0[b]]);
                }
            }
            right = right - 1;
        }
    }
    proof {
        assert forall|k: int| 0 <= k < left - start implies goes_left@[#[trigger] perm[k]] by {
            assert(sides@[k] == goes_left@[perm[k]]);
        }
        assert forall|k: int| left - start < k < c implies !goes_left@[#[trigger] perm[k]] by {
            assert(sides@[k] == goes_left@[perm[k]]);
        }
        assert(is_perm_of_range(perm, c));
    }
    left
}

/// Number of buckets the surface area heuristic sorts primitive centroids into.
pub const BUCKET_COUNT: usize = 12;

/// Sum of the entries of `s`.
pub open spec fn count_sum(s: Seq<usize>) -> int
    decreases s.len(),
{
    if s.len() == 0 {
        0
    } else {
        count_sum(s.drop_last()) + s.last()
    }
}

/// The sum of a concatenation is the sum of the sums.
pub proof fn lemma_count_sum_concat(a: Seq<usize>, b: Seq<usize>)
    ensures
        count_sum(a + b) == count_sum(a) + count_sum(b),
    decreases b.len(),
{
    if b.len() == 0 {
        assert(a + b =~= a);
    } else {
        lemma_count_sum_concat(a, b.drop_last());
        assert((a + b).drop_last() =~= a + b.drop_last());
    }
}

/// Counting one more bucket adds exactly its count, however large: the sum of no counts is
/// zero, of one count is that count, and appending a count adds it.
pub proof fn lemma_count_sum_step(s: Seq<usize>, v: usize)
    ensures
        count_sum(Seq::<usize>::empty()) == 0,
        count_sum(seq![v]) == v,
        count_sum(s.push(v)) == count_sum(s) + v,
        count_sum(seq![v] + s) == v + count_sum(s),
{
    assert(seq![v].drop_last() =~= Seq::<usize>::empty());
    assert(count_sum(seq![v].drop_last()) == 0);
    assert(count_sum(seq![v]) == v);
    assert(s.push(v).drop_last() =~= s);
    lemma_count_sum_concat(seq![v], s);
}

/// The primitives counted left of a bucket boundary and right of it add up to all of them.
pub proof fn lemma_bucket_totals(counts: Seq<usize>, i: int)
    requires
        0 <= i <= counts.len(),
    ensures
        count_sum(counts.take(i)) + count_sum(counts.skip(i)) == count_sum(counts),
        0 <= count_sum(counts.take(i)) <= count_sum(counts),
        0 <= count_sum(counts.skip(i)) <= count_sum(counts),
{
    lemma_count_sum_concat(counts.take(i), counts.skip(i));
    assert(counts.take(i) + counts.skip(i) =~= counts);
    lemma_count_sum_nonnegative(counts.take(i));
    lemma_count_sum_nonnegative(counts.skip(i));
}

proof fn lemma_count_sum_nonnegative(s: Seq<usize>)
    ensures
        count_sum(s) >= 0,
    decreases s.len(),
{
    if s.len() > 0 {
        lemma_count_sum_nonnegative(s.drop_last());
    }
}

/// The bucket of a centroid whose scaled position truncates to `raw`: the last bucket takes
/// every position at or past the end.
pub fn bucket_slot(raw: usize) -> (slot: usize)
    ensures
        slot == if raw >= BUCKET_COUNT {
            (BUCKET_COUNT - 1) as usize
        } else {
            raw
        },
        slot < BUCKET_COUNT,
{
    if raw >= BUCKET_COUNT {
        BUCKET_COUNT - 1
    } else {
        raw
    }
}

/// Running totals from the left: entry `i` counts the primitives in buckets `0 ..= i`.
pub fn left_counts(counts: &[usize]) -> (totals: Vec<usize>)
    requires
        count_sum(counts@) <= usize::MAX,
    ensures
        totals.len() == counts.len(),
        forall|i: int| 0 <= i < counts.len() ==> #[trigger] totals@[i] == count_sum(counts@.take(i + 1)),
        counts.len() > 0 ==> totals@[0] == counts@[0],
        forall|i: int| 0 < i < counts.len() ==> #[trigger] totals@[i] == totals@[i - 1] + counts@[i],
{
    let mut totals: Vec<usize> = Vec::with_capacity(counts.len());
    let mut accumulated: usize = 0;
    let mut i: usize = 0;
    while i < counts.len()
        invariant
            i <= counts.len(),
            count_sum(counts@) <= usize::MAX,
            totals.len() == i,
            accumulated == count_sum(counts@.take(i as int)),
            forall|j: int| 0 <= j < i ==> #[trigger] totals@[j] == count_sum(counts@.take(j + 1)),
        decreases counts.len() - i,
    {
        proof {
            assert(counts@.take(i + 1).drop_last() =~= counts@.take(i as int));
            lemma_bucket_totals(counts@, i + 1);
        }
        accumulated = accumulated + counts[i];
        totals.push(accumulated);
        i = i + 1;
    }
    proof {
        assert forall|i: int| 0 <= i < counts.len() implies #[trigger] totals@[i] == (if i == 0 {
            0
        } else {
            totals@[i - 1] as int
        }) + counts@[i] by {
            lemma_count_sum_step(counts@.take(i), counts@[i]);
            assert(counts@.take(i).push(counts@[i]) =~= counts@.take(i + 1));
            if i > 0 {
                assert(totals@[i - 1] == count_sum(counts@.take(i)));
            } else {
                assert(counts@.take(0) =~= Seq::<usize>::empty());
            }
        }
        if counts.len() > 0 {
            assert(totals@[0] == 0 + counts@[0]);
        }
    }
    totals
}

/// Running totals from the right: entry `i` counts the primitives in buckets `i ..`.
pub fn right_counts(counts: &[usize]) -> (totals: Vec<usize>)
    requires
        count_sum(counts@) <= usize::MAX,
    ensures
        totals.len() == counts.len(),
        forall|i: int| 0 <= i < counts.len() ==> #[trigger] totals@[i] == count_sum(counts@.skip(i)),
        counts.len() > 0 ==> totals@[counts.len() - 1] == counts@[counts.len() - 1],
        forall|i: int| 0 <= i < counts.len() - 1 ==> #[trigger] totals@[i] == totals@[i + 1] + counts@[i],
{
    let n = counts.len();
    let mut totals: Vec<usize> = Vec::with_capacity(n);
    let mut k: usize = 0;
    while k < n
        invariant
            k <= n,
            n == counts.len(),
            totals.len() == k,
            forall|j: int| 0 <= j < k ==> totals@[j] == 0,
        decreases n - k,
    {
        totals.push(0);
        k = k + 1;
    }
    let mut accumulated: usize = 0;
    let mut i: usize = n;
    while i > 0
        invariant
            i <= n,
            n == counts.len(),
            count_sum(counts@) <= usize::MAX,
            totals.len() == n,
            accumulated == count_sum(counts@.skip(i as int)),
            forall|j: int| i <= j < n ==> #[trigger] totals@[j] == count_sum(counts@.skip(j)),
        decreases i,
    {
        proof {
            lemma_count_sum_concat(seq![counts@[i - 1]], counts@.skip(i as int));
            assert(seq![counts@[i - 1]] + counts@.skip(i as int) =~= counts@.skip(i - 1));
            assert(count_sum(seq![counts@[i - 1]]) == counts@[i - 1]) by {
                let one = seq![counts@[i - 1]];
                assert(one.drop_last() =~= Seq::<usize>::empty());
                assert(count_sum(one.drop_last()) == 0);
                assert(one.last() == counts@[i - 1]);
            }
            lemma_bucket_totals(counts@, i - 1);
        }
        i = i - 1;
        accumulated = accumulated + counts[i];
        totals.set(i, accumulated);
    }
    proof {
        assert forall|i: int| 0 <= i < n implies #[trigger] totals@[i] == (if i == n - 1 {
            0
        } else {
            totals@[i + 1] as int
        }) + counts@[i] by {
            lemma_count_sum_step(counts@.skip(i + 1), counts@[i]);
            assert(seq![counts@[i]] + counts@.skip(i + 1) =~= counts@.skip(i));
            if i < n - 1 {
                assert(totals@[i + 1] == count_sum(counts@.skip(i + 1)));
            } else {
                assert(counts@.skip(i + 1) =~= Seq::<usize>::empty());
            }
        }
        if n > 0 {
            assert(totals@[n - 1] == 0 + counts@[n - 1]);
        }
    }
    totals
}

/// Moving the entries of a range by a permutation keeps a permutation of the indices.
proof fn lemma_permuted_range(old_s: Seq<usize>, new_s: Seq<usize>, start: int, end: int, perm: Seq<int>)
    requires
        is_index_permutation(old_s),
        0 <= start <= end <= old_s.len(),
        new_s.len() == old_s.len(),
        forall|k: int| 0 <= k < old_s.len() && !(start <= k < end) ==> new_s[k] == old_s[k],
        is_perm_of_range(perm, end - start),
        forall|k: int| 0 <= k < end - start ==> #[trigger] new_s[start + k] == old_s[start + perm[k]],
    ensures
        is_index_permutation(new_s),
{
    assert forall|i: int| 0 <= i < new_s.len() implies new_s[i] < new_s.len() by {
        if start <= i < end {
            assert(new_s[start + (i - start)] == old_s[start + perm[i - start]]);
        }
    }
    assert forall|i: int, j: int|
        0 <= i < new_s.len() && 0 <= j < new_s.len() && i != j implies new_s[i] != new_s[j] by {
        if start <= i < end {
            assert(new_s[start + (i - start)] == old_s[start + perm[i - start]]);
        }
        if start <= j < end {
            assert(new_s[start + (j - start)] == old_s[start + perm[j - start]]);
        }
    }
}

/// The entries of `v` and of `s` at positions `f .. l` are the same, counted with multiplicity.
pub open spec fn same_contents(v: Seq<usize>, s: Seq<usize>, f: int, l: int) -> bool {
    v.subrange(f, l).to_multiset() == s.subrange(f, l).to_multiset()
}

/// A split answer that a node of `count` primitives can use.
pub open spec fn usable_split(answer: Option<Vec<bool>>, count: int) -> bool {
    answer is Some && answer->0.len() == count
}

/// What building notes of a node as it makes it: the primitive index array as it stood
/// when the node was begun, and the answer `split` gave for the node, if it was asked.
pub struct BuildStep {
    pub indices: Vec<usize>,
    pub answer: Option<Option<Vec<bool>>>,
}

/// The entries at `f .. l` of `indices` after the two-cursor pass with `sides`.
pub open spec fn split_pass(indices: Seq<usize>, sides: Seq<bool>, f: int, l: int) -> Seq<usize> {
    two_cursor_pass(indices.subrange(f, l), sides, 0, l - f - 1).0
}

/// Where a node covering `f .. l` splits, given its entries and their sides at the time it
/// was split: where the two-cursor pass met, kept at least one entry away from either end.
pub open spec fn split_position(entries: Seq<usize>, sides: Seq<bool>, f: int, l: int) -> int {
    let met = f + two_cursor_pass(entries, sides, 0, l - f - 1).1;
    let m = if met < f + 1 {
        f + 1
    } else {
        met
    };
    if m > l - 1 {
        l - 1
    } else {
        m
    }
}

/// Node `k` is what building makes from the step `trace[k - base]` noted for it. Its bounding
/// volume is what `bound` gave for the primitive index array as it stood when the node was
/// begun; `split` was asked about the node exactly when it covers more than four primitives.
/// A leaf keeps its entries in the order in which the node was begun, and is a leaf because
/// it covers at most four primitives or `split` gave no usable answer. An internal node took
/// a usable answer, splits where the two-cursor pass with that answer puts it, and its left
/// child was begun on the array that the pass left, its right child on that array once the
/// left subtree had been built.
pub open spec fn built_step<B, FB: Fn(&Vec<usize>, usize, usize) -> B, FS: Fn(&Vec<usize>, usize, usize, &B) -> Option<Vec<bool>>>(
    bound: FB,
    split: FS,
    nodes: Seq<BvhNode<B>>,
    prims: Seq<usize>,
    trace: Seq<BuildStep>,
    base: int,
    k: int,
) -> bool {
    let f = first(nodes, k);
    let l = last(nodes, k);
    let v = trace[k - base].indices;
    let answer = trace[k - base].answer;
    &&& call_ensures(bound, (&v, f as usize, l as usize), nodes[k].bbox())
    &&& same_contents(v@, prims, f, l)
    &&& (answer is None <==> l - f <= 4)
    &&& (answer matches Some(a) ==> call_ensures(
        split,
        (&v, f as usize, l as usize, &nodes[k].bbox()),
        a,
    ))
    &&& match nodes[k] {
        BvhNode::Leaf { .. } => {
            &&& prims.subrange(f, l) == v@.subrange(f, l)
            &&& !(answer matches Some(a) && usable_split(a, l - f))
        },
        BvhNode::Internal { left, right, .. } => {
            let sides = answer->0->0@;
            let mid = first(nodes, right as int);
            let pass = split_pass(v@, sides, f, l);
            &&& l - f > 4
            &&& answer matches Some(a) && usable_split(a, l - f)
            &&& mid == split_position(v@.subrange(f, l), sides, f, l)
            &&& trace[left - base].indices@ == v@.subrange(0, f) + pass + v@.subrange(l, v@.len() as int)
            &&& trace[right - base].indices@ == v@.subrange(0, f) + prims.subrange(f, mid)
                + pass.subrange(mid - f, l - f) + v@.subrange(l, v@.len() as int)
        },
    }
}

/// The hierarchy `nodes` over `prims` is what building makes, with `trace` the steps noted
/// for its nodes in order: the root was begun on the identity array `0 .. prims.len()`.
pub open spec fn built_with<B, FB: Fn(&Vec<usize>, usize, usize) -> B, FS: Fn(&Vec<usize>, usize, usize, &B) -> Option<Vec<bool>>>(
    bound: FB,
    split: FS,
    nodes: Seq<BvhNode<B>>,
    prims: Seq<usize>,
    trace: Seq<BuildStep>,
) -> bool {
    &&& trace.len() == nodes.len()
    &&& nodes.len() > 0 ==> trace[0].indices@.len() == prims.len()
    &&& nodes.len() > 0 ==> forall|i: int| 0 <= i < prims.len() ==> #[trigger] trace[0].indices@[i] == i
    &&& forall|k: int| 0 <= k < nodes.len() ==> #[trigger] built_step(bound, split, nodes, prims, trace, 0, k)
}

/// Node `k` is a well-formed subtree that covers part of `start .. end` and is what building
/// makes from the steps in `trace`, noted from node `base` on.
spec fn built_within<B, FB: Fn(&Vec<usize>, usize, usize) -> B, FS: Fn(&Vec<usize>, usize, usize, &B) -> Option<Vec<bool>>>(
    bound: FB,
    split: FS,
    nodes: Seq<BvhNode<B>>,
    prims: Seq<usize>,
    trace: Seq<BuildStep>,
    base: int,
    k: int,
    start: int,
    end: int,
) -> bool {
    &&& wf_subtree(nodes, k)
    &&& start <= first(nodes, k)
    &&& last(nodes, k) <= end
    &&& built_step(bound, split, nodes, prims, trace, base, k)
}

/// What building says of a node survives changes to other nodes, to other primitive index
/// positions, and to where its steps are kept.
proof fn lemma_built_step_frame<B, FB: Fn(&Vec<usize>, usize, usize) -> B, FS: Fn(&Vec<usize>, usize, usize, &B) -> Option<Vec<bool>>>(
    bound: FB,
    split: FS,
    n1: Seq<BvhNode<B>>,
    p1: Seq<usize>,
    t1: Seq<BuildStep>,
    b1: int,
    n2: Seq<BvhNode<B>>,
    p2: Seq<usize>,
    t2: Seq<BuildStep>,
    b2: int,
    k: int,
)
    requires
        wf_subtree(n1, k),
        k + span(n1, k) <= n2.len(),
        forall|j: int| k <= j < k + span(n1, k) ==> #[trigger] n1[j] == n2[j] && t1[j - b1] == t2[j - b2],
        0 <= first(n1, k),
        last(n1, k) <= p1.len(),
        last(n1, k) <= p2.len(),
        forall|j: int| first(n1, k) <= j < last(n1, k) ==> p1[j] == p2[j],
        built_step(bound, split, n1, p1, t1, b1, k),
    ensures
        wf_subtree(n2, k),
        first(n2, k) == first(n1, k),
        last(n2, k) == last(n1, k),
        built_step(bound, split, n2, p2, t2, b2, k),
{
    lemma_wf_extent(n1, k);
    lemma_wf_frame(n1, n2, k);
    let f = first(n1, k);
    let l = last(n1, k);
    assert(p1.subrange(f, l) =~= p2.subrange(f, l));
    assert(n1[k] == n2[k]);
    match n1[k] {
        BvhNode::Leaf { .. } => {},
        BvhNode::Internal { left, right, .. } => {
            let mid = first(n1, right as int);
            lemma_wf_extent(n1, left as int);
            lemma_wf_extent(n1, right as int);
            lemma_wf_frame(n1, n2, right as int);
            assert(n1[left as int] == n2[left as int]);
            assert(n1[right as int] == n2[right as int]);
            assert(p1.subrange(f, mid) =~= p2.subrange(f, mid));
        },
    }
}

/// Permuting a range and then each of its two halves permutes the whole range.
proof fn lemma_multiset_split(s0: Seq<usize>, s1: Seq<usize>, s2: Seq<usize>, s3: Seq<usize>, start: int, mid: int, end: int)
    requires
        0 <= start <= mid <= end <= s0.len(),
        s1.len() == s0.len(),
        s2.len() == s0.len(),
        s3.len() == s0.len(),
        s1.subrange(start, end).to_multiset() == s0.subrange(start, end).to_multiset(),
        s2.subrange(start, mid).to_multiset() == s1.subrange(start, mid).to_multiset(),
        forall|k: int| mid <= k < end ==> s2[k] == s1[k],
        s3.subrange(mid, end).to_multiset() == s2.subrange(mid, end).to_multiset(),
        forall|k: int| start <= k < mid ==> s3[k] == s2[k],
    ensures
        s3.subrange(start, end).to_multiset() == s0.subrange(start, end).to_multiset(),
{
    broadcast use vstd::seq_lib::lemma_multiset_commutative;

    assert(s1.subrange(start, end) =~= s1.subrange(start, mid) + s1.subrange(mid, end));
    assert(s2.subrange(start, end) =~= s2.subrange(start, mid) + s2.subrange(mid, end));
    assert(s3.subrange(start, end) =~= s3.subrange(start, mid) + s3.subrange(mid, end));
    assert(s2.subrange(mid, end) =~= s1.subrange(mid, end));
    assert(s3.subrange(start, mid) =~= s2.subrange(start, mid));
}

/// A bounding volume hierarchy over primitives `0 .. n`: a binary tree of nodes in
/// pre-order layout, whose leaves name ranges of a permutation of the primitive indices.
#[derive(Debug)]
pub struct Bvh<B> {
    nodes: Vec<BvhNode<B>>,
    primitive_indices: Vec<usize>,
}

impl<B> Bvh<B> {
    /// The node array, root first.
    pub closed spec fn nodes(self) -> Seq<BvhNode<B>> {
        self.nodes@
    }

    /// The primitive index array that the leaves name ranges of.
    pub closed spec fn primitive_indices(self) -> Seq<usize> {
        self.primitive_indices@
    }

    #[verifier::type_invariant]
    closed spec fn inv(self) -> bool {
        tree_wf(self.nodes@, self.primitive_indices@)
    }

    /// A hierarchy with no node and no primitive.
    pub fn empty() -> (bvh: Self)
        ensures
            bvh.nodes().len() == 0,
            bvh.primitive_indices().len() == 0,
            tree_wf(bvh.nodes(), bvh.primitive_indices()),
    {
        Bvh { nodes: Vec::new(), primitive_indices: Vec::new() }
    }

    /// Builds a hierarchy over the primitives `0 .. primitive_count`. `bound` gives the
    /// bounding volume of the primitives listed in `indices[start..end]`; for a node of more
    /// than four primitives, `split` either declines (`None`), which makes the node a leaf, or
    /// tells for each entry of `indices[start..end]` whether it goes to the left child.
    /// Nodes of at most four primitives are leaves, a leaf keeps its entries in the order
    /// its parent's split left them, and `n >= 1` primitives give at most `2n - 1` nodes.
    pub fn build<FB, FS>(primitive_count: usize, bound: &FB, split: &FS) -> (bvh: Self) where
        FB: Fn(&Vec<usize>, usize, usize) -> B,
        FS: Fn(&Vec<usize>, usize, usize, &B) -> Option<Vec<bool>>,

        requires
            primitive_count < 0x8000_0000,
            forall|v: &Vec<usize>, s: usize, e: usize| call_requires(*bound, (v, s, e)),
            forall|v: &Vec<usize>, s: usize, e: usize, b: &B| call_requires(*split, (v, s, e, b)),
        ensures
            tree_wf(bvh.nodes(), bvh.primitive_indices()),
            bvh.nodes().len() >= 1,
            bvh.primitive_indices().len() == primitive_count,
            primitive_count > 0 ==> bvh.nodes().len() <= 2 * primitive_count - 1,
            primitive_count == 0 ==> bvh.nodes().len() == 1,
            exists|trace: Seq<BuildStep>|
                #[trigger] built_with(*bound, *split, bvh.nodes(), bvh.primitive_indices(), trace),
    {
        let mut nodes: Vec<BvhNode<B>> = Vec::with_capacity(2 * primitive_count);
        let mut primitive_indices: Vec<usize> = Vec::new();
        let mut i: usize = 0;
        while i < primitive_count
            invariant
                i <= primitive_count,
                primitive_indices.len() == i,
                forall|k: int| 0 <= k < i ==> primitive_indices@[k] == k,
            decreases primitive_count - i,
        {
            primitive_indices.push(i);
            i = i + 1;
        }
        let ghost identity: Vec<usize> = primitive_indices;
        let (_, Ghost(steps)) = Self::build_recursive(
            bound,
            split,
            &mut primitive_indices,
            0,
            primitive_count,
            &mut nodes,
        );
        proof {
            assert forall|k: int| 0 <= k < nodes.len() implies #[trigger] built_step(
                *bound,
                *split,
                nodes@,
                primitive_indices@,
                steps,
                0,
                k,
            ) by {
                assert(built_within(
                    *bound,
                    *split,
                    nodes@,
                    primitive_indices@,
                    steps,
                    0,
                    k,
                    0,
                    primitive_count as int,
                ));
            }
            assert(steps[0].indices == identity);
            assert(built_with(*bound, *split, nodes@, primitive_indices@, steps));
        }
        Bvh { nodes, primitive_indices }
    }

    /// Number of nodes.
    pub fn node_count(&self) -> (count: usize)
        ensures
            count == self.nodes().len(),
    {
        self.nodes.len()
    }

    /// The bounding volume of the root, which bounds every primitive of the hierarchy.
    pub fn bounding_box(&self) -> (bbox: &B)
        requires
            self.nodes().len() > 0,
        ensures
            *bbox == self.nodes()[0].bbox(),
    {
        self.nodes[0].bounding_box()
    }

    /// The primitives a descent reports when `hit(k)` tells whether node `k` is hit.
    pub open spec fn reached_by(self, hit: spec_fn(int) -> bool) -> Seq<usize> {
        reached(self.nodes(), self.primitive_indices(), 0, hit)
    }

    /// The nodes a descent asks about when `hit(k)` tells whether node `k` is hit.
    pub open spec fn asked_by(self, hit: spec_fn(int) -> bool) -> Set<int> {
        asked(self.nodes(), 0, hit)
    }

    /// Each recorded verdict is one that `hit` can give for the bounding volume of that node.
    pub open spec fn verdicts_from<F: Fn(&B) -> bool>(self, hit: F, verdicts: Map<int, bool>) -> bool {
        forall|k: int|
            #[trigger] verdicts.dom().contains(k) ==> 0 <= k < self.nodes().len() && call_ensures(
                hit,
                (&self.nodes()[k].bbox(),),
                verdicts[k],
            )
    }

    /// Walks the hierarchy depth first, left child before right child, asking `hit` about
    /// the bounding volume of each node it reaches, and lists the primitives of every leaf
    /// that is hit below nodes that are all hit. Nodes below a missed node are not asked about.
    #[verifier::rlimit(40)]
    pub fn intersect_ray<F: Fn(&B) -> bool>(&self, hit: &F) -> (hits: Vec<usize>)
        requires
            forall|b: &B| call_requires(*hit, (b,)),
        ensures
            tree_wf(self.nodes(), self.primitive_indices()),
            exists|verdicts: Map<int, bool>|
                #[trigger] self.verdicts_from(*hit, verdicts) && forall|h: spec_fn(int) -> bool|
                    #[trigger] agrees(verdicts, h) ==> hits@ == self.reached_by(h)
                        && verdicts.dom() == self.asked_by(h),
    {
        proof {
            use_type_invariant(self);
        }
        let mut hits: Vec<usize> = Vec::new();
        if self.nodes.len() == 0 {
            let ghost verdicts = Map::<int, bool>::empty();
            assert(self.verdicts_from(*hit, verdicts));
            assert forall|h: spec_fn(int) -> bool| #[trigger] agrees(verdicts, h) implies verdicts.dom()
                == self.asked_by(h) by {
                assert(verdicts.dom() =~= self.asked_by(h));
            }
            return hits;
        }
        let mut stack: Vec<u32> = Vec::with_capacity(64);
        stack.push(0);
        let ghost mut verdicts = Map::<int, bool>::empty();
        let ghost nodes = self.nodes@;
        let ghost prims = self.primitive_indices@;
        assert forall|h: spec_fn(int) -> bool| #[trigger] agrees(verdicts, h) implies reached(nodes, prims, 0, h)
            == hits@ + reached_from_stack(nodes, prims, stack@, h) by {
            assert(stack@.drop_last() =~= Seq::<u32>::empty());
            assert(reached_from_stack(nodes, prims, stack@.drop_last(), h) =~= Seq::<usize>::empty());
            assert(reached_from_stack(nodes, prims, stack@, h) =~= reached(nodes, prims, 0, h));
        }
        assert forall|h: spec_fn(int) -> bool| #[trigger] agrees(verdicts, h) implies asked(nodes, 0, h)
            == verdicts.dom() + asked_from_stack(nodes, stack@, h) by {
            assert(asked_from_stack(nodes, stack@.drop_last(), h) =~= Set::<int>::empty());
            assert(asked(nodes, 0, h) =~= verdicts.dom() + asked_from_stack(nodes, stack@, h));
        }
        while stack.len() > 0
            invariant
                nodes == self.nodes@,
                prims == self.primitive_indices@,
                tree_wf(nodes, prims),
                nodes.len() > 0,
                forall|b: &B| call_requires(*hit, (b,)),
                forall|j: int|
                    0 <= j < stack.len() ==> wf_subtree(nodes, #[trigger] stack@[j] as int) && last(
                        nodes,
                        stack@[j] as int,
                    ) <= prims.len(),
                forall|j: int|
                    0 <= j < stack.len() - 1 ==> #[trigger] stack@[j] == stack@[j + 1] + span(
                        nodes,
                        stack@[j + 1] as int,
                    ),
                stack.len() > 0 ==> stack@[0] + span(nodes, stack@[0] as int) == nodes.len(),
                forall|k: int|
                    #[trigger] verdicts.dom().contains(k) ==> 0 <= k && (if stack.len() > 0 {
                        k < stack@.last()
                    } else {
                        k < nodes.len()
                    }),
                self.verdicts_from(*hit, verdicts),
                forall|h: spec_fn(int) -> bool| #[trigger]
                    agrees(verdicts, h) ==> reached(nodes, prims, 0, h) == hits@ + reached_from_stack(
                        nodes,
                        prims,
                        stack@,
                        h,
                    ),
                forall|h: spec_fn(int) -> bool| #[trigger]
                    agrees(verdicts, h) ==> asked(nodes, 0, h) == verdicts.dom() + asked_from_stack(
                        nodes,
                        stack@,
                        h,
                    ),
            decreases nodes.len() - (if stack.len() > 0 {
                stack@.last() as int
            } else {
                nodes.len() as int
            }),
        {
            let ghost stack0 = stack@;
            let ghost hits0 = hits@;
            let ghost verdicts0 = verdicts;
            let node_index = stack.pop().unwrap();
            let node = &self.nodes[node_index as usize];
            let is_hit = hit(node.bounding_box());
            proof {
                assert(!verdicts.dom().contains(node_index as int));
                verdicts = verdicts.insert(node_index as int, is_hit);
                lemma_wf_extent(nodes, node_index as int);
            }
            if !is_hit {
                proof {
                    assert forall|h: spec_fn(int) -> bool| #[trigger]
                        agrees(verdicts, h) implies reached(nodes, prims, 0, h) == hits@
                        + reached_from_stack(nodes, prims, stack@, h) by {
                        lemma_agrees_insert(verdicts0, node_index as int, is_hit, h);
                        assert(reached_from_stack(nodes, prims, stack0, h) == reached(nodes, prims, node_index as int, h) + reached_from_stack(nodes, prims, stack@, h));
                        assert(reached(nodes, prims, node_index as int, h) =~= Seq::<usize>::empty());
                        assert(hits@ + reached_from_stack(nodes, prims, stack@, h) =~= hits0 + (Seq::<usize>::empty() + reached_from_stack(nodes, prims, stack@, h)));
                    }
                    assert forall|h: spec_fn(int) -> bool| #[trigger]
                        agrees(verdicts, h) implies asked(nodes, 0, h) == verdicts.dom()
                        + asked_from_stack(nodes, stack@, h) by {
                        lemma_agrees_insert(verdicts0, node_index as int, is_hit, h);
                        assert(asked_from_stack(nodes, stack0, h) == asked(nodes, node_index as int, h) + asked_from_stack(nodes, stack@, h));
                        assert(asked(nodes, node_index as int, h) =~= set![node_index as int]);
                        assert(verdicts.dom() =~= verdicts0.dom().insert(node_index as int));
                        assert(asked(nodes, 0, h) =~= verdicts.dom() + asked_from_stack(nodes, stack@, h));
                    }
                }
                continue;
            }
            match node {
                BvhNode::Leaf { start, end, .. } => {
                    let s = *start;
                    let e = *end;
                    let mut i = s;
                    while i < e
                        invariant
                            s <= i <= e,
                            e as int <= prims.len(),
                            prims == self.primitive_indices@,
                            hits@ == hits0 + prims.subrange(s as int, i as int),
                        decreases e - i,
                    {
                        hits.push(self.primitive_indices[i as usize]);
                        proof {
                            assert(prims.subrange(s as int, i + 1) =~= prims.subrange(s as int, i as int).push(prims[i as int]));
                        }
                        i = i + 1;
                    }
                    proof {
                        assert forall|h: spec_fn(int) -> bool| #[trigger]
                            agrees(verdicts, h) implies reached(nodes, prims, 0, h) == hits@
                            + reached_from_stack(nodes, prims, stack@, h) by {
                            lemma_agrees_insert(verdicts0, node_index as int, is_hit, h);
                            assert(reached_from_stack(nodes, prims, stack0, h) == reached(nodes, prims, node_index as int, h) + reached_from_stack(nodes, prims, stack@, h));
                            assert(reached(nodes, prims, node_index as int, h) =~= prims.subrange(s as int, e as int));
                            assert(hits@ + reached_from_stack(nodes, prims, stack@, h) =~= hits0 + (prims.subrange(s as int, e as int) + reached_from_stack(nodes, prims, stack@, h)));
                        }
                        assert forall|h: spec_fn(int) -> bool| #[trigger]
                            agrees(verdicts, h) implies asked(nodes, 0, h) == verdicts.dom()
                            + asked_from_stack(nodes, stack@, h) by {
                            lemma_agrees_insert(verdicts0, node_index as int, is_hit, h);
                            assert(asked_from_stack(nodes, stack0, h) == asked(nodes, node_index as int, h) + asked_from_stack(nodes, stack@, h));
                            assert(asked(nodes, node_index as int, h) =~= set![node_index as int]);
                            assert(verdicts.dom() =~= verdicts0.dom().insert(node_index as int));
                            assert(asked(nodes, 0, h) =~= verdicts.dom() + asked_from_stack(nodes, stack@, h));
                        }
                    }
                },
                BvhNode::Internal { left, right, .. } => {
                    stack.push(*right);
                    stack.push(*left);
                    proof {
                        let l = *left as int;
                        let r = *right as int;
                        lemma_wf_extent(nodes, l);
                        lemma_wf_extent(nodes, r);
                        assert(stack@.drop_last().drop_last() =~= stack0.drop_last());
                        assert forall|h: spec_fn(int) -> bool| #[trigger]
                            agrees(verdicts, h) implies reached(nodes, prims, 0, h) == hits@
                            + reached_from_stack(nodes, prims, stack@, h) by {
                            lemma_agrees_insert(verdicts0, node_index as int, is_hit, h);
                            let rest = reached_from_stack(nodes, prims, stack0.drop_last(), h);
                            assert(reached_from_stack(nodes, prims, stack0, h) == reached(nodes, prims, node_index as int, h) + rest);
                            assert(reached(nodes, prims, node_index as int, h) == reached(nodes, prims, l, h) + reached(nodes, prims, r, h));
                            assert(stack@.last() == *left);
                            assert(stack@.drop_last().last() == *right);
                            assert(reached_from_stack(nodes, prims, stack@.drop_last(), h) == reached(nodes, prims, r, h) + rest);
                            assert(reached_from_stack(nodes, prims, stack@, h) == reached(nodes, prims, l, h) + (reached(nodes, prims, r, h) + rest));
                            assert(hits@ + reached_from_stack(nodes, prims, stack@, h) =~= hits0 + (reached(nodes, prims, node_index as int, h) + rest));
                        }
                        assert forall|h: spec_fn(int) -> bool| #[trigger]
                            agrees(verdicts, h) implies asked(nodes, 0, h) == verdicts.dom()
                            + asked_from_stack(nodes, stack@, h) by {
                            lemma_agrees_insert(verdicts0, node_index as int, is_hit, h);
                            let rest = asked_from_stack(nodes, stack0.drop_last(), h);
                            assert(asked_from_stack(nodes, stack0, h) == asked(nodes, node_index as int, h) + rest);
                            assert(asked(nodes, node_index as int, h) == set![node_index as int] + asked(nodes, l, h) + asked(nodes, r, h));
                            assert(stack@.last() == *left);
                            assert(stack@.drop_last().last() == *right);
                            assert(asked_from_stack(nodes, stack@.drop_last(), h) == asked(nodes, r, h) + rest);
                            assert(asked_from_stack(nodes, stack@, h) == asked(nodes, l, h) + (asked(nodes, r, h) + rest));
                            assert(verdicts.dom() =~= verdicts0.dom().insert(node_index as int));
                            assert(asked(nodes, 0, h) =~= verdicts.dom() + asked_from_stack(nodes, stack@, h));
                        }
                    }
                },
            }
        }
        proof {
            assert forall|h: spec_fn(int) -> bool| #[trigger] agrees(verdicts, h) implies hits@
                == self.reached_by(h) && verdicts.dom() == self.asked_by(h) by {
                assert(hits@ + reached_from_stack(nodes, prims, stack@, h) =~= hits@);
                assert(verdicts.dom() + asked_from_stack(nodes, stack@, h) =~= verdicts.dom());
            }
        }
        hits
    }

    #[verifier::rlimit(40)]
    #[verifier::spinoff_prover]
    fn build_recursive<FB, FS>(
        bound: &FB,
        split: &FS,
        indices: &mut Vec<usize>,
        start: usize,
        end: usize,
        nodes: &mut Vec<BvhNode<B>>,
    ) -> (built: (usize, Ghost<Seq<BuildStep>>)) where
        FB: Fn(&Vec<usize>, usize, usize) -> B,
        FS: Fn(&Vec<usize>, usize, usize, &B) -> Option<Vec<bool>>,

        requires
            start <= end <= old(indices).len() <= u32::MAX,
            old(nodes).len() + 2 * (end - start) <= 0x1_0000_0000,
            is_index_permutation(old(indices)@),
            forall|v: &Vec<usize>, s: usize, e: usize| call_requires(*bound, (v, s, e)),
            forall|v: &Vec<usize>, s: usize, e: usize, b: &B| call_requires(*split, (v, s, e, b)),
        ensures
            built.0 == old(nodes).len(),
            final(nodes).len() == old(nodes).len() + span(final(nodes)@, built.0 as int),
            built.1@.len() == span(final(nodes)@, built.0 as int),
            built.1@[0].indices == *old(indices),
            forall|k: int| 0 <= k < old(nodes).len() ==> final(nodes)@[k] == old(nodes)@[k],
            wf_subtree(final(nodes)@, built.0 as int),
            first(final(nodes)@, built.0 as int) == start,
            last(final(nodes)@, built.0 as int) == end,
            if end > start {
                span(final(nodes)@, built.0 as int) + 1 <= 2 * (end - start)
            } else {
                span(final(nodes)@, built.0 as int) == 1
            },
            forall|k: int|
                old(nodes).len() <= k < final(nodes).len() ==> #[trigger] built_within(
                    *bound,
                    *split,
                    final(nodes)@,
                    final(indices)@,
                    built.1@,
                    built.0 as int,
                    k,
                    start as int,
                    end as int,
                ),
            final(indices).len() == old(indices).len(),
            forall|k: int|
                0 <= k < old(indices).len() && !(start <= k < end) ==> final(indices)@[k] == old(
                    indices,
                )@[k],
            final(indices)@.subrange(start as int, end as int).to_multiset() == old(
                indices,
            )@.subrange(start as int, end as int).to_multiset(),
            is_index_permutation(final(indices)@),
        decreases end - start,
    {
        let ghost entry: Vec<usize> = *indices;
        let bbox = bound(indices, start, end);
        let node_index = nodes.len();
        if end - start <= 4 {
            nodes.push(BvhNode::new_leaf(bbox, start, end));
            let ghost steps = seq![BuildStep { indices: entry, answer: None }];
            proof {
                let n = nodes@;
                let ni = node_index as int;
                assert(first(n, ni) == start);
                assert(last(n, ni) == end);
                assert(steps[ni - ni] == steps[0]);
                assert(indices@ == entry@);
                assert(call_ensures(*bound, (&entry, start, end), n[ni].bbox()));
                assert(built_step(*bound, *split, n, indices@, steps, ni, ni));
                assert forall|k: int| node_index <= k < n.len() implies #[trigger] built_within(
                    *bound,
                    *split,
                    n,
                    indices@,
                    steps,
                    ni,
                    k,
                    start as int,
                    end as int,
                ) by {
                    assert(k == node_index);
                }
            }
            return (node_index, Ghost(steps));
        }
        let answer = split(indices, start, end, &bbox);
        let ghost asked = answer;
        let mut mid = start;
        let ghost mut passed: Seq<usize> = Seq::empty();
        match answer {
            Some(sides) => {
                if sides.len() == end - start {
                    let ghost before = indices@;
                    let met = partition_range(indices, start, end, sides);
                    proof {
                        let perm = choose|perm: Seq<int>|
                            {
                                &&& #[trigger] is_perm_of_range(perm, end - start)
                                &&& forall|k: int|
                                    0 <= k < end - start ==> #[trigger] indices@[start + k]
                                        == before[start + perm[k]]
                                &&& forall|k: int| 0 <= k < met - start ==> sides@[#[trigger] perm[k]]
                                &&& forall|k: int|
                                    met - start < k < end - start ==> !sides@[#[trigger] perm[k]]
                            };
                        lemma_permuted_range(before, indices@, start as int, end as int, perm);
                        passed = indices@.subrange(start as int, end as int);
                    }
                    mid = if met < start + 1 {
                        start + 1
                    } else {
                        met
                    };
                    mid = if mid > end - 1 {
                        end - 1
                    } else {
                        mid
                    };
                }
            },
            None => {},
        }
        if mid == start || mid == end {
            nodes.push(BvhNode::new_leaf(bbox, start, end));
            let ghost steps = seq![BuildStep { indices: entry, answer: Some(asked) }];
            proof {
                let n = nodes@;
                let ni = node_index as int;
                assert(first(n, ni) == start);
                assert(last(n, ni) == end);
                assert(steps[ni - ni] == steps[0]);
                assert(!(asked is Some && asked->0.len() == end - start));
                assert(indices@ == entry@);
                assert(call_ensures(*bound, (&entry, start, end), n[ni].bbox()));
                assert(built_step(*bound, *split, n, indices@, steps, ni, ni));
                assert forall|k: int| node_index <= k < n.len() implies #[trigger] built_within(
                    *bound,
                    *split,
                    n,
                    indices@,
                    steps,
                    ni,
                    k,
                    start as int,
                    end as int,
                ) by {
                    assert(k == node_index);
                }
            }
            return (node_index, Ghost(steps));
        }
        let ghost after_split = indices@;
        proof {
            assert(after_split =~= entry@.subrange(0, start as int) + split_pass(
                entry@,
                asked->0@,
                start as int,
                end as int,
            ) + entry@.subrange(end as int, entry@.len() as int));
        }
        nodes.push(BvhNode::Internal { bbox, left: 0, right: 0 });
        let ghost n1 = nodes@;
        let (left, Ghost(left_steps)) = Self::build_recursive(bound, split, indices, start, mid, nodes);
        let ghost n2 = nodes@;
        let ghost i2 = indices@;
        let (right, Ghost(right_steps)) = Self::build_recursive(bound, split, indices, mid, end, nodes);
        let ghost n3 = nodes@;
        let ghost i3 = indices@;
        proof {
            lemma_wf_extent(n2, left as int);
            lemma_wf_frame(n2, n3, left as int);
        }
        nodes[node_index].set_children(left, right);
        let ghost steps = seq![BuildStep { indices: entry, answer: Some(asked) }] + left_steps
            + right_steps;
        proof {
            let n4 = nodes@;
            let i4 = indices@;
            let ni = node_index as int;
            let li = left as int;
            let ri = right as int;
            lemma_wf_extent(n3, li);
            lemma_wf_extent(n3, ri);
            lemma_wf_frame(n3, n4, li);
            lemma_wf_frame(n3, n4, ri);
            assert(n4[ni] == (BvhNode::Internal {
                bbox: n1[ni].bbox(),
                left: left as u32,
                right: right as u32,
            }));
            assert(ri == ni + 1 + left_steps.len());
            lemma_multiset_split(entry@, after_split, i2, i4, start as int, mid as int, end as int);
            assert forall|k: int| left <= k < right implies #[trigger] built_within(
                *bound,
                *split,
                n4,
                i4,
                steps,
                ni,
                k,
                start as int,
                end as int,
            ) by {
                assert(built_within(*bound, *split, n2, i2, left_steps, li, k, start as int, mid as int));
                lemma_wf_extent(n2, k);
                assert forall|j: int| k <= j < k + span(n2, k) implies #[trigger] n2[j] == n4[j]
                    && left_steps[j - li] == steps[j - ni] by {
                    assert(n2[j] == n3[j]);
                }
                lemma_built_step_frame(*bound, *split, n2, i2, left_steps, li, n4, i4, steps, ni, k);
            }
            assert forall|k: int| right <= k < n4.len() implies #[trigger] built_within(
                *bound,
                *split,
                n4,
                i4,
                steps,
                ni,
                k,
                start as int,
                end as int,
            ) by {
                assert(built_within(*bound, *split, n3, i3, right_steps, ri, k, mid as int, end as int));
                lemma_wf_extent(n3, k);
                assert forall|j: int| k <= j < k + span(n3, k) implies #[trigger] n3[j] == n4[j]
                    && right_steps[j - ri] == steps[j - ni] by {
                }
                lemma_built_step_frame(*bound, *split, n3, i3, right_steps, ri, n4, i4, steps, ni, k);
            }
            assert(call_ensures(*bound, (&entry, start, end), n4[ni].bbox()));
            assert(same_contents(entry@, i4, start as int, end as int));
            assert(call_ensures(*split, (&entry, start, end, &n4[ni].bbox()), asked));
            assert(usable_split(asked, end - start));
            assert(mid == split_position(entry@.subrange(start as int, end as int), asked->0@, start as int, end as int));
            assert(first(n4, ri) == mid);
            assert(steps[li - ni] == left_steps[0]);
            assert(steps[ri - ni] == right_steps[0]);
            assert(passed == split_pass(entry@, asked->0@, start as int, end as int));
            assert(i4.subrange(start as int, mid as int) =~= i2.subrange(start as int, mid as int));
            assert(i2 =~= entry@.subrange(0, start as int) + i4.subrange(start as int, mid as int)
                + passed.subrange(mid - start, end - start) + entry@.subrange(end as int, entry@.len() as int));
            assert(built_step(*bound, *split, n4, i4, steps, ni, ni));
            assert(wf_subtree(n4, ni));
            assert forall|k: int| node_index <= k < n4.len() implies #[trigger] built_within(
                *bound,
                *split,
                n4,
                i4,
                steps,
                ni,
                k,
                start as int,
                end as int,
            ) by {
                if k >= right {
                } else if k >= left {
                } else {
                    assert(k == ni);
                }
            }
        }
        (node_index, Ghost(steps))
    }
}

} // verus!

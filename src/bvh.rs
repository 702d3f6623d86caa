//! Bounding-volume hierarchy over a scene's primitives.
//!
//! The hierarchy is a binary tree stored in an arena: each node lies after
//! the nodes of its subtrees, and the subtree of a node occupies the index
//! range from its `first` field up to the node itself. Primitives are named
//! by their index in the scene's primitive list.
//!
//! Geometry stays with the caller. To build, the caller gives, for each
//! primitive and axis, an integer that orders primitives as the minimum
//! corner of their bounding boxes does. To query, the caller gives the box
//! test of a node and the hit test of a primitive; a hit carries an integer
//! key that orders hits as their ray parameter `t` does.
use vstd::prelude::*;
use vstd::seq_lib::*;

verus! {

broadcast use vstd::seq_lib::group_to_multiset_ensures;

/// One side of a node: a primitive or another node of the arena.
#[derive(Clone, Copy, Debug, PartialEq, Eq, Structural)]
pub enum Child {
    Prim(usize),
    Node(usize),
}

/// One node of the hierarchy, as stored in the arena.
#[derive(Clone, Copy, Debug, PartialEq, Eq, Structural)]
pub struct ArenaNode {
    /// The axis (0, 1 or 2) along which the primitives were ordered before
    /// being split between the two sides.
    pub axis: usize,
    /// The lowest arena index of the node's subtree.
    pub first: usize,
    pub left: Child,
    pub right: Child,
}

/// The root of a hierarchy over the primitives `0 .. n_prims`, with the arena
/// of all its nodes; the root is the last one.
#[derive(Debug)]
pub struct BVHNode {
    pub nodes: Vec<ArenaNode>,
    pub n_prims: usize,
}

/// The sort key of primitive `p` on `axis`.
pub open spec fn key_of(keys: Seq<[u64; 3]>, p: int, axis: int) -> u64 {
    keys[p]@[axis]
}

/// The arena index just past a child's subtree, when that subtree starts at `start`.
pub open spec fn child_end(c: Child, start: int) -> int {
    match c {
        Child::Prim(_) => start,
        Child::Node(a) => a + 1,
    }
}

/// A child is a known primitive, or a node whose subtree starts at `start`.
pub open spec fn child_ok(nodes: Seq<ArenaNode>, c: Child, start: int, n_prims: nat) -> bool {
    match c {
        Child::Prim(p) => p < n_prims,
        Child::Node(a) => start <= a < nodes.len() && nodes[a as int].first == start,
    }
}

/// Node `n`'s two subtrees fill the range from its `first` index up to `n`, left then right.
pub open spec fn node_ok(nodes: Seq<ArenaNode>, n: int, n_prims: nat) -> bool {
    let nd = nodes[n];
    let mid = child_end(nd.left, nd.first as int);
    &&& nd.axis < 3
    &&& nd.first <= n
    &&& child_ok(nodes, nd.left, nd.first as int, n_prims)
    &&& child_ok(nodes, nd.right, mid, n_prims)
    &&& child_end(nd.right, mid) == n
}

/// Every node of the arena is laid out as `node_ok` says.
pub open spec fn nodes_ok(nodes: Seq<ArenaNode>, n_prims: nat) -> bool {
    forall|n: int| 0 <= n < nodes.len() ==> #[trigger] node_ok(nodes, n, n_prims)
}

/// The primitives under node `n`.
pub open spec fn leaves(nodes: Seq<ArenaNode>, n: int) -> Set<usize>
    decreases n,
{
    if 0 <= n < nodes.len() {
        child_leaves(nodes, nodes[n].left, n) + child_leaves(nodes, nodes[n].right, n)
    } else {
        Set::empty()
    }
}

/// The primitives under a child of node `n`.
pub open spec fn child_leaves(nodes: Seq<ArenaNode>, c: Child, n: int) -> Set<usize>
    decreases n, 0int,
{
    match c {
        Child::Prim(p) => set![p],
        Child::Node(a) => if 0 <= a < n {
            leaves(nodes, a as int)
        } else {
            Set::empty()
        },
    }
}

/// Node `n`'s left primitives come no later than its right ones on the node's axis.
pub open spec fn node_ordered(nodes: Seq<ArenaNode>, keys: Seq<[u64; 3]>, n: int) -> bool {
    forall|p: usize, q: usize|
        #[trigger] child_leaves(nodes, nodes[n].left, n).contains(p) && #[trigger] child_leaves(
            nodes,
            nodes[n].right,
            n,
        ).contains(q) ==> key_of(keys, p as int, nodes[n].axis as int) <= key_of(
            keys,
            q as int,
            nodes[n].axis as int,
        )
}

/// Every node splits its primitives in order along its axis.
pub open spec fn split_ordered(nodes: Seq<ArenaNode>, keys: Seq<[u64; 3]>) -> bool {
    forall|n: int| 0 <= n < nodes.len() ==> #[trigger] node_ordered(nodes, keys, n)
}

/// Node `n` splits its primitives at the midpoint: a node over a single
/// primitive holds it on both sides; any other node holds half of its
/// primitives, rounded down, on the left and the rest on the right.
pub open spec fn node_balanced(nodes: Seq<ArenaNode>, n: int) -> bool {
    let l = child_leaves(nodes, nodes[n].left, n);
    let r = child_leaves(nodes, nodes[n].right, n);
    if leaves(nodes, n).len() == 1 {
        nodes[n].left is Prim && nodes[n].left == nodes[n].right
    } else {
        l.len() == leaves(nodes, n).len() / 2 && l.disjoint(r)
    }
}

/// Every node splits its primitives at the midpoint.
pub open spec fn balanced(nodes: Seq<ArenaNode>) -> bool {
    forall|n: int| 0 <= n < nodes.len() ==> #[trigger] node_balanced(nodes, n)
}

/// The set `{0, .., n - 1}`.
pub open spec fn prims_below(n: nat) -> Set<usize> {
    Set::new(|p: usize| p < n)
}

impl BVHNode {
    pub open spec fn root(&self) -> int {
        self.nodes.len() - 1
    }

    /// A well-formed hierarchy: its arena is laid out as described above and
    /// its root covers every primitive.
    pub open spec fn wf(&self) -> bool {
        &&& self.nodes.len() >= 1
        &&& nodes_ok(self.nodes@, self.n_prims as nat)
        &&& leaves(self.nodes@, self.root()) == prims_below(self.n_prims as nat)
    }
}

/// Leaves of a node depend only on the arena up to that node.
proof fn lemma_leaves_prefix(s1: Seq<ArenaNode>, s2: Seq<ArenaNode>, n: int)
    requires
        0 <= n < s1.len() <= s2.len(),
        forall|i: int| 0 <= i < s1.len() ==> s1[i] == s2[i],
    ensures
        leaves(s1, n) == leaves(s2, n),
        child_leaves(s1, s1[n].left, n) == child_leaves(s2, s2[n].left, n),
        child_leaves(s1, s1[n].right, n) == child_leaves(s2, s2[n].right, n),
    decreases n,
{
    let nd = s1[n];
    if let Child::Node(a) = nd.left {
        if 0 <= a < n {
            lemma_leaves_prefix(s1, s2, a as int);
        }
    }
    if let Child::Node(a) = nd.right {
        if 0 <= a < n {
            lemma_leaves_prefix(s1, s2, a as int);
        }
    }
}

/// Appending to the arena keeps the shape and order of the nodes already there.
proof fn lemma_append_keeps(s1: Seq<ArenaNode>, s2: Seq<ArenaNode>, n_prims: nat, keys: Seq<[u64; 3]>)
    requires
        s1.len() <= s2.len(),
        forall|i: int| 0 <= i < s1.len() ==> s1[i] == s2[i],
        nodes_ok(s1, n_prims),
        split_ordered(s1, keys),
        balanced(s1),
    ensures
        forall|n: int| 0 <= n < s1.len() ==> #[trigger] node_ok(s2, n, n_prims),
        forall|n: int| 0 <= n < s1.len() ==> #[trigger] node_balanced(s2, n),
        forall|n: int| 0 <= n < s1.len() ==> #[trigger] node_ordered(s2, keys, n),
        forall|n: int| 0 <= n < s1.len() ==> #[trigger] leaves(s2, n) == leaves(s1, n),
{
    assert forall|n: int| 0 <= n < s1.len() implies #[trigger] leaves(s2, n) == leaves(s1, n) by {
        lemma_leaves_prefix(s1, s2, n);
    }
    assert forall|n: int| 0 <= n < s1.len() implies #[trigger] node_ok(s2, n, n_prims) by {
        assert(node_ok(s1, n, n_prims));
    }
    assert forall|n: int| 0 <= n < s1.len() implies #[trigger] node_ordered(s2, keys, n) by {
        assert(node_ordered(s1, keys, n));
        lemma_leaves_prefix(s1, s2, n);
    }
    assert forall|n: int| 0 <= n < s1.len() implies #[trigger] node_balanced(s2, n) by {
        assert(node_balanced(s1, n));
        lemma_leaves_prefix(s1, s2, n);
    }
}

/// Relies on rand's `Rng::gen_range` over the thread-local generator: a value
/// drawn uniformly from `0..3`, which panics only on an empty range.
#[verifier::external_body]
fn random_axis() -> (r: usize)
    ensures
        r < 3,
{
    rand::Rng::gen_range(&mut rand::thread_rng(), 0..3usize)
}

/// `items` sorted by their key on `axis`.
fn sort_by_axis(items: &Vec<usize>, keys: &Vec<[u64; 3]>, axis: usize) -> (r: Vec<usize>)
    requires
        axis < 3,
        forall|i: int| 0 <= i < items.len() ==> items[i] < keys.len(),
    ensures
        r@.to_multiset() == items@.to_multiset(),
        r.len() == items.len(),
        forall|i: int| 0 <= i < r.len() ==> r[i] < keys.len(),
        forall|i: int, j: int|
            0 <= i < j < r.len() ==> key_of(keys@, r[i] as int, axis as int) <= key_of(
                keys@,
                r[j] as int,
                axis as int,
            ),
{
    let mut out: Vec<usize> = Vec::new();
    let mut i: usize = 0;
    while i < items.len()
        invariant
            axis < 3,
            i <= items.len(),
            forall|k: int| 0 <= k < items.len() ==> items[k] < keys.len(),
            out@.to_multiset() == items@.subrange(0, i as int).to_multiset(),
            out.len() == i,
            forall|k: int| 0 <= k < out.len() ==> out[k] < keys.len(),
            forall|a: int, b: int|
                0 <= a < b < out.len() ==> key_of(keys@, out[a] as int, axis as int) <= key_of(
                    keys@,
                    out[b] as int,
                    axis as int,
                ),
        decreases items.len() - i,
    {
        let x = items[i];
        let kx = keys[x][axis];
        let mut pos: usize = out.len();
        while pos > 0 && keys[out[pos - 1]][axis] > kx
            invariant
                axis < 3,
                x < keys.len(),
                kx == key_of(keys@, x as int, axis as int),
                pos <= out.len(),
                forall|k: int| 0 <= k < out.len() ==> out[k] < keys.len(),
                forall|k: int| pos <= k < out.len() ==> key_of(keys@, out[k] as int, axis as int) > kx,
            decreases pos,
        {
            pos = pos - 1;
        }
        proof {
            assert forall|k: int| 0 <= k < pos implies key_of(keys@, out[k] as int, axis as int)
                <= kx by {
                if pos > 0 {
                    assert(key_of(keys@, out[pos - 1] as int, axis as int) <= kx);
                }
            }
            to_multiset_insert(out@, pos as int, x);
            assert(items@.subrange(0, i + 1) =~= items@.subrange(0, i as int).push(x));
            to_multiset_build(items@.subrange(0, i as int), x);
        }
        out.insert(pos, x);
        i = i + 1;
    }
    assert(items@.subrange(0, i as int) =~= items@);
    out
}

/// Builds the subtree over `items` at the end of the arena and returns its root.
fn build_node(keys: &Vec<[u64; 3]>, items: Vec<usize>, nodes: &mut Vec<ArenaNode>) -> (n: usize)
    requires
        items.len() >= 1,
        forall|i: int| 0 <= i < items.len() ==> items[i] < keys.len(),
        nodes_ok(old(nodes)@, keys.len() as nat),
        split_ordered(old(nodes)@, keys@),
        balanced(old(nodes)@),
        items@.no_duplicates(),
        old(nodes).len() + 2 * items.len() <= usize::MAX,
    ensures
        old(nodes).len() < final(nodes).len() <= old(nodes).len() + 2 * items.len() - 1,
        forall|i: int| 0 <= i < old(nodes).len() ==> final(nodes)[i] == old(nodes)[i],
        n == final(nodes).len() - 1,
        final(nodes)[n as int].first == old(nodes).len(),
        nodes_ok(final(nodes)@, keys.len() as nat),
        split_ordered(final(nodes)@, keys@),
        balanced(final(nodes)@),
        leaves(final(nodes)@, n as int) == items@.to_set(),
    decreases items.len(),
{
    let ghost n_prims = keys.len() as nat;
    let ghost s0 = nodes@;
    let axis = random_axis();
    let sorted = sort_by_axis(&items, keys, axis);
    proof {
        assert forall|x: usize| sorted@.contains(x) <==> items@.contains(x) by {
            assert(sorted@.to_multiset().count(x) == items@.to_multiset().count(x));
        }
        assert(sorted@.to_set() =~= items@.to_set());
        items@.lemma_multiset_has_no_duplicates();
        assert forall|x: usize| sorted@.to_multiset().contains(x) implies sorted@.to_multiset().count(x)
            == 1 by {
            assert(items@.to_multiset().contains(x));
        }
        sorted@.lemma_multiset_has_no_duplicates_conv();
        sorted@.unique_seq_to_set();
    }
    let first = nodes.len();
    if sorted.len() <= 2 {
        let l = sorted[0];
        let r = sorted[sorted.len() - 1];
        nodes.push(ArenaNode { axis, first, left: Child::Prim(l), right: Child::Prim(r) });
        proof {
            lemma_append_keeps(s0, nodes@, n_prims, keys@);
            let n = first as int;
            assert(node_ok(nodes@, n, n_prims));
            assert(leaves(nodes@, n) =~= sorted@.to_set());
            assert(node_ordered(nodes@, keys@, n));
            let ls = child_leaves(nodes@, nodes@[n].left, n);
            let rs = child_leaves(nodes@, nodes@[n].right, n);
            if sorted.len() == 2 {
                assert(sorted@[0] != sorted@[1]);
                assert(ls.disjoint(rs));
                assert(ls =~= set![l]);
                assert(ls.len() == 1);
            }
            assert(node_balanced(nodes@, n));
        }
    } else {
        let mid = sorted.len() / 2;
        let ghost sv = sorted@;
        let mut left_items = sorted;
        let right_items = left_items.split_off(mid);
        proof {
            assert(left_items@.no_duplicates());
            assert(right_items@.no_duplicates()) by {
                assert forall|i: int, j: int|
                    0 <= i < right_items.len() && 0 <= j < right_items.len() && i != j implies right_items@[i]
                    != right_items@[j] by {
                    assert(right_items@[i] == sv[mid + i]);
                    assert(right_items@[j] == sv[mid + j]);
                }
            }
            left_items@.unique_seq_to_set();
        }
        let a = build_node(keys, left_items, nodes);
        let ghost s1 = nodes@;
        let b = build_node(keys, right_items, nodes);
        let ghost s2 = nodes@;
        nodes.push(ArenaNode { axis, first, left: Child::Node(a), right: Child::Node(b) });
        proof {
            lemma_append_keeps(s2, nodes@, n_prims, keys@);
            lemma_append_keeps(s1, s2, n_prims, keys@);
            let n = s2.len() as int;
            let ls = left_items@.to_set();
            let rs = right_items@.to_set();
            assert(node_ok(nodes@, n, n_prims));
            assert(leaves(nodes@, a as int) == ls);
            assert(leaves(nodes@, b as int) == rs);
            assert(child_leaves(nodes@, nodes@[n].left, n) == ls);
            assert(child_leaves(nodes@, nodes@[n].right, n) == rs);
            assert(leaves(nodes@, n) == ls + rs);
            assert forall|x: usize| sv.to_set().contains(x) implies (ls + rs).contains(x) by {
                let k = choose|k: int| 0 <= k < sv.len() && sv[k] == x;
                if k < mid {
                    assert(left_items@[k] == sv[k]);
                } else {
                    assert(right_items@[k - mid] == sv[k]);
                }
            }
            assert(leaves(nodes@, n) =~= sv.to_set());
            assert forall|p: usize, q: usize|
                #[trigger] child_leaves(nodes@, nodes@[n].left, n).contains(p)
                    && #[trigger] child_leaves(nodes@, nodes@[n].right, n).contains(q)
                implies key_of(keys@, p as int, axis as int) <= key_of(keys@, q as int, axis as int) by {
                assert(ls.contains(p));
                assert(rs.contains(q));
                let i = choose|i: int| 0 <= i < left_items.len() && left_items@[i] == p;
                let j = choose|j: int| 0 <= j < right_items.len() && right_items@[j] == q;
                assert(sv[i] == left_items@[i]);
                assert(sv[mid + j] == right_items@[j]);
            }
            assert(node_ordered(nodes@, keys@, n));
            assert(ls.disjoint(rs)) by {
                assert forall|x: usize| ls.contains(x) implies !rs.contains(x) by {
                    let i = choose|i: int| 0 <= i < left_items.len() && left_items@[i] == x;
                    if rs.contains(x) {
                        let j = choose|j: int| 0 <= j < right_items.len() && right_items@[j] == x;
                        assert(sv[i] == left_items@[i]);
                        assert(sv[mid + j] == right_items@[j]);
                    }
                }
            }
            assert(node_balanced(nodes@, n));
        }
    }
    nodes.len() - 1
}

/// The nearer of two hits; on equal keys the second one wins.
pub open spec fn nearest<H>(a: Option<(u64, H)>, b: Option<(u64, H)>) -> Option<(u64, H)> {
    match a {
        Some(x) => match b {
            Some(y) => if x.0 < y.0 {
                a
            } else {
                b
            },
            None => a,
        },
        None => b,
    }
}

/// The side of a node that slot `s` stands for: slot `2n` is the left side of
/// node `n`, slot `2n + 1` its right side.
pub open spec fn slot_child(nodes: Seq<ArenaNode>, s: int) -> Child {
    if s % 2 == 0 {
        nodes[s / 2].left
    } else {
        nodes[s / 2].right
    }
}

/// The hit found under node `n`, given the outcome `boxes[m]` of each node's
/// box test and the outcome `slots[s]` of each primitive test made at a slot.
/// A node whose box is missed yields no hit; otherwise the nearer of its two
/// sides' hits.
pub open spec fn hit_spec<H>(
    nodes: Seq<ArenaNode>,
    n: int,
    boxes: Map<int, bool>,
    slots: Map<int, Option<(u64, H)>>,
) -> Option<(u64, H)>
    decreases n, 1int,
{
    if 0 <= n < nodes.len() && boxes[n] {
        nearest(
            child_hit(nodes, nodes[n].left, n, 2 * n, boxes, slots),
            child_hit(nodes, nodes[n].right, n, 2 * n + 1, boxes, slots),
        )
    } else {
        None
    }
}

/// The hit found under a child of node `n`, standing at slot `s`.
pub open spec fn child_hit<H>(
    nodes: Seq<ArenaNode>,
    c: Child,
    n: int,
    s: int,
    boxes: Map<int, bool>,
    slots: Map<int, Option<(u64, H)>>,
) -> Option<(u64, H)>
    decreases n, 0int,
{
    match c {
        Child::Prim(_) => slots[s],
        Child::Node(a) => if 0 <= a < n {
            hit_spec(nodes, a as int, boxes, slots)
        } else {
            None
        },
    }
}

/// Every test that `hit_spec` reads under node `n` has an outcome.
pub open spec fn answered<H>(
    nodes: Seq<ArenaNode>,
    n: int,
    boxes: Map<int, bool>,
    slots: Map<int, Option<(u64, H)>>,
) -> bool
    decreases n, 1int,
{
    0 <= n < nodes.len() ==> {
        &&& boxes.contains_key(n)
        &&& boxes[n] ==> child_answered(nodes, nodes[n].left, n, 2 * n, boxes, slots)
        &&& boxes[n] ==> child_answered(nodes, nodes[n].right, n, 2 * n + 1, boxes, slots)
    }
}

/// Every test that `child_hit` reads under a child of node `n` has an outcome.
pub open spec fn child_answered<H>(
    nodes: Seq<ArenaNode>,
    c: Child,
    n: int,
    s: int,
    boxes: Map<int, bool>,
    slots: Map<int, Option<(u64, H)>>,
) -> bool
    decreases n, 0int,
{
    match c {
        Child::Prim(_) => slots.contains_key(s),
        Child::Node(a) => 0 <= a < n ==> answered(nodes, a as int, boxes, slots),
    }
}

/// Each recorded outcome is one that the tests can return: `boxes[m]` of the
/// box test of node `m`, `slots[s]` of the hit test of the primitive at slot `s`.
pub open spec fn answers_from<H, B: Fn(usize) -> bool, P: Fn(usize) -> Option<(u64, H)>>(
    nodes: Seq<ArenaNode>,
    box_hit: B,
    prim_hit: P,
    boxes: Map<int, bool>,
    slots: Map<int, Option<(u64, H)>>,
) -> bool {
    &&& forall|m: int| #[trigger]
        boxes.contains_key(m) ==> 0 <= m <= usize::MAX && box_hit.ensures((m as usize,), boxes[m])
    &&& forall|s: int| #[trigger]
        slots.contains_key(s) ==> match slot_child(nodes, s) {
            Child::Prim(p) => prim_hit.ensures((p,), slots[s]),
            Child::Node(_) => false,
        }
}

/// The subtree of node `n` reads box outcomes only within its arena range and
/// slot outcomes only within the slots of that range.
proof fn lemma_frame<H>(
    nodes: Seq<ArenaNode>,
    n_prims: nat,
    n: int,
    b1: Map<int, bool>,
    s1: Map<int, Option<(u64, H)>>,
    b2: Map<int, bool>,
    s2: Map<int, Option<(u64, H)>>,
)
    requires
        nodes_ok(nodes, n_prims),
        0 <= n < nodes.len(),
        answered(nodes, n, b1, s1),
        forall|k: int|
            nodes[n].first <= k <= n && #[trigger] b1.contains_key(k) ==> b2.contains_key(k)
                && b2[k] == b1[k],
        forall|k: int|
            2 * nodes[n].first <= k <= 2 * n + 1 && #[trigger] s1.contains_key(k)
                ==> s2.contains_key(k) && s2[k] == s1[k],
    ensures
        answered(nodes, n, b2, s2),
        hit_spec(nodes, n, b2, s2) == hit_spec(nodes, n, b1, s1),
    decreases n,
{
    assert(node_ok(nodes, n, n_prims));
    assert(b1.contains_key(n));
    if b1[n] {
        if let Child::Node(a) = nodes[n].left {
            assert(node_ok(nodes, a as int, n_prims));
            lemma_frame(nodes, n_prims, a as int, b1, s1, b2, s2);
        }
        if let Child::Node(a) = nodes[n].right {
            assert(node_ok(nodes, a as int, n_prims));
            lemma_frame(nodes, n_prims, a as int, b1, s1, b2, s2);
        }
    }
}

/// The nearest of the hits of primitives `0 .. k`, each tested in turn.
pub open spec fn brute_force<H>(prims: spec_fn(usize) -> Option<(u64, H)>, k: nat) -> Option<(u64, H)>
    decreases k,
{
    if k == 0 {
        None
    } else {
        nearest(brute_force(prims, (k - 1) as nat), prims((k - 1) as usize))
    }
}

/// The key of a hit, if any.
pub open spec fn hit_key<H>(h: Option<(u64, H)>) -> Option<u64> {
    match h {
        Some(x) => Some(x.0),
        None => None,
    }
}

/// `h` is a hit of some primitive of `s` with no hit of `s` nearer, and is
/// none only when no primitive of `s` is hit.
pub open spec fn nearest_among<H>(
    h: Option<(u64, H)>,
    s: Set<usize>,
    prims: spec_fn(usize) -> Option<(u64, H)>,
) -> bool {
    &&& h is None <==> forall|p: usize| #[trigger] s.contains(p) ==> prims(p) is None
    &&& h matches Some(x) ==> exists|p: usize| #[trigger] s.contains(p) && prims(p) == h
    &&& h matches Some(x) ==> forall|p: usize| #[trigger]
        s.contains(p) && prims(p) is Some ==> x.0 <= prims(p)->Some_0.0
}

/// Each recorded primitive outcome is the one `prims` gives for the primitive at that slot.
pub open spec fn slots_agree<H>(
    nodes: Seq<ArenaNode>,
    slots: Map<int, Option<(u64, H)>>,
    prims: spec_fn(usize) -> Option<(u64, H)>,
) -> bool {
    forall|s: int| #[trigger]
        slots.contains_key(s) ==> (slot_child(nodes, s) matches Child::Prim(p) && slots[s] == prims(p))
}

/// Each recorded box test reports a hit whenever some primitive under its node is hit.
pub open spec fn boxes_enclose<H>(
    nodes: Seq<ArenaNode>,
    boxes: Map<int, bool>,
    prims: spec_fn(usize) -> Option<(u64, H)>,
) -> bool {
    forall|m: int, p: usize|
        #[trigger] boxes.contains_key(m) && #[trigger] leaves(nodes, m).contains(p) && prims(p) is Some
            ==> boxes[m]
}

/// The nearer of the nearest hits of two sets is a nearest hit of their union.
proof fn lemma_nearest_union<H>(
    a: Option<(u64, H)>,
    b: Option<(u64, H)>,
    s1: Set<usize>,
    s2: Set<usize>,
    prims: spec_fn(usize) -> Option<(u64, H)>,
)
    requires
        nearest_among(a, s1, prims),
        nearest_among(b, s2, prims),
    ensures
        nearest_among(nearest(a, b), s1 + s2, prims),
{
    let h = nearest(a, b);
    if let Some(x) = a {
        let pa = choose|p: usize| #[trigger] s1.contains(p) && prims(p) == a;
        assert((s1 + s2).contains(pa));
    }
    if let Some(y) = b {
        let pb = choose|p: usize| #[trigger] s2.contains(p) && prims(p) == b;
        assert((s1 + s2).contains(pb));
    }
    assert forall|p: usize| #[trigger] (s1 + s2).contains(p) && h is None implies prims(p) is None by {
        assert(s1.contains(p) || s2.contains(p));
    }
}

/// Two nearest hits of one set lie at the same key.
proof fn lemma_nearest_same_key<H>(
    a: Option<(u64, H)>,
    b: Option<(u64, H)>,
    s: Set<usize>,
    prims: spec_fn(usize) -> Option<(u64, H)>,
)
    requires
        nearest_among(a, s, prims),
        nearest_among(b, s, prims),
    ensures
        hit_key(a) == hit_key(b),
{
    if let Some(x) = a {
        let pa = choose|p: usize| #[trigger] s.contains(p) && prims(p) == a;
        assert(b is Some);
        let pb = choose|p: usize| #[trigger] s.contains(p) && prims(p) == b;
    }
}

/// Testing primitives `0 .. k` in turn finds a nearest hit among them.
proof fn lemma_brute_force_nearest<H>(prims: spec_fn(usize) -> Option<(u64, H)>, k: nat)
    requires
        k <= usize::MAX + 1,
    ensures
        nearest_among(brute_force(prims, k), prims_below(k), prims),
    decreases k,
{
    if k > 0 {
        let j = (k - 1) as nat;
        lemma_brute_force_nearest(prims, j);
        let single = set![j as usize];
        assert(nearest_among(prims(j as usize), single, prims)) by {
            if prims(j as usize) is Some {
                assert(single.contains(j as usize));
            }
        }
        lemma_nearest_union(brute_force(prims, j), prims(j as usize), prims_below(j), single, prims);
        assert(prims_below(j) + single =~= prims_below(k));
    }
}

/// With box tests that never miss a node over a hit primitive, and primitive
/// outcomes given by `prims`, the search under node `n` finds a nearest hit
/// among the primitives under `n`.
proof fn lemma_node_nearest<H>(
    nodes: Seq<ArenaNode>,
    n_prims: nat,
    n: int,
    prims: spec_fn(usize) -> Option<(u64, H)>,
    boxes: Map<int, bool>,
    slots: Map<int, Option<(u64, H)>>,
)
    requires
        nodes_ok(nodes, n_prims),
        0 <= n < nodes.len(),
        answered(nodes, n, boxes, slots),
        slots_agree(nodes, slots, prims),
        boxes_enclose(nodes, boxes, prims),
    ensures
        nearest_among(hit_spec(nodes, n, boxes, slots), leaves(nodes, n), prims),
    decreases n,
{
    let nd = nodes[n];
    assert(node_ok(nodes, n, n_prims));
    assert(boxes.contains_key(n));
    if !boxes[n] {
        assert forall|p: usize| #[trigger] leaves(nodes, n).contains(p) implies prims(p) is None by {
            if prims(p) is Some {
                assert(boxes[n]);
            }
        }
    } else {
        lemma_child_nearest(nodes, n_prims, nd.left, n, 2 * n, prims, boxes, slots);
        lemma_child_nearest(nodes, n_prims, nd.right, n, 2 * n + 1, prims, boxes, slots);
        lemma_nearest_union(
            child_hit(nodes, nd.left, n, 2 * n, boxes, slots),
            child_hit(nodes, nd.right, n, 2 * n + 1, boxes, slots),
            child_leaves(nodes, nd.left, n),
            child_leaves(nodes, nd.right, n),
            prims,
        );
    }
}

proof fn lemma_child_nearest<H>(
    nodes: Seq<ArenaNode>,
    n_prims: nat,
    c: Child,
    n: int,
    s: int,
    prims: spec_fn(usize) -> Option<(u64, H)>,
    boxes: Map<int, bool>,
    slots: Map<int, Option<(u64, H)>>,
)
    requires
        nodes_ok(nodes, n_prims),
        0 <= n < nodes.len(),
        s == 2 * n || s == 2 * n + 1,
        c == slot_child(nodes, s),
        node_ok(nodes, n, n_prims),
        child_answered(nodes, c, n, s, boxes, slots),
        slots_agree(nodes, slots, prims),
        boxes_enclose(nodes, boxes, prims),
    ensures
        nearest_among(child_hit(nodes, c, n, s, boxes, slots), child_leaves(nodes, c, n), prims),
    decreases n, 0int,
{
    match c {
        Child::Prim(p) => {
            assert(slots.contains_key(s));
            let single = child_leaves(nodes, c, n);
            assert(single.contains(p));
            assert(single =~= set![p]);
        },
        Child::Node(a) => {
            if 0 <= a < n {
                lemma_node_nearest(nodes, n_prims, a as int, prims, boxes, slots);
            }
        },
    }
}

/// The hierarchy finds the hit that testing every primitive finds, at the
/// same key, provided each box test reports a hit whenever some primitive
/// under its node is hit, and each primitive test gives the primitive's own
/// outcome.
pub proof fn lemma_bvh_matches_brute_force<H>(
    t: &BVHNode,
    prims: spec_fn(usize) -> Option<(u64, H)>,
    boxes: Map<int, bool>,
    slots: Map<int, Option<(u64, H)>>,
)
    requires
        t.wf(),
        answered(t.nodes@, t.root(), boxes, slots),
        slots_agree(t.nodes@, slots, prims),
        boxes_enclose(t.nodes@, boxes, prims),
    ensures
        hit_key(hit_spec(t.nodes@, t.root(), boxes, slots)) == hit_key(brute_force(prims, t.n_prims as nat)),
{
    lemma_node_nearest(t.nodes@, t.n_prims as nat, t.root(), prims, boxes, slots);
    lemma_brute_force_nearest(prims, t.n_prims as nat);
    lemma_nearest_same_key(
        hit_spec(t.nodes@, t.root(), boxes, slots),
        brute_force(prims, t.n_prims as nat),
        prims_below(t.n_prims as nat),
        prims,
    );
}

/// The same law for a result of `BVHNode::hit`: when the primitive test can
/// only give `prims(p)` for primitive `p`, and the box test of a node can only
/// report a miss when no primitive under the node is hit, the hit found has
/// the key that testing every primitive finds.
pub proof fn lemma_hit_is_brute_force<H, B: Fn(usize) -> bool, P: Fn(usize) -> Option<(u64, H)>>(
    t: &BVHNode,
    box_hit: B,
    prim_hit: P,
    prims: spec_fn(usize) -> Option<(u64, H)>,
    r: Option<(u64, H)>,
)
    requires
        t.wf(),
        forall|p: usize, h: Option<(u64, H)>| #[trigger] prim_hit.ensures((p,), h) ==> h == prims(p),
        forall|m: usize, p: usize|
            #[trigger] box_hit.ensures((m,), false) && #[trigger] leaves(t.nodes@, m as int).contains(p)
                ==> prims(p) is None,
        exists|boxes: Map<int, bool>, slots: Map<int, Option<(u64, H)>>|
            #[trigger] answers_from(t.nodes@, box_hit, prim_hit, boxes, slots) && answered(
                t.nodes@,
                t.root(),
                boxes,
                slots,
            ) && r == hit_spec(t.nodes@, t.root(), boxes, slots),
    ensures
        hit_key(r) == hit_key(brute_force(prims, t.n_prims as nat)),
{
    let (boxes, slots) = choose|boxes: Map<int, bool>, slots: Map<int, Option<(u64, H)>>|
        #[trigger] answers_from(t.nodes@, box_hit, prim_hit, boxes, slots) && answered(
            t.nodes@,
            t.root(),
            boxes,
            slots,
        ) && r == hit_spec(t.nodes@, t.root(), boxes, slots);
    assert(slots_agree(t.nodes@, slots, prims)) by {
        assert forall|s: int| #[trigger] slots.contains_key(s) implies (slot_child(t.nodes@, s) matches Child::Prim(p)
            && slots[s] == prims(p)) by {
            if let Child::Prim(p) = slot_child(t.nodes@, s) {
                assert(prim_hit.ensures((p,), slots[s]));
            }
        }
    }
    assert(boxes_enclose(t.nodes@, boxes, prims)) by {
        assert forall|m: int, p: usize|
            #[trigger] boxes.contains_key(m) && #[trigger] leaves(t.nodes@, m).contains(p) && prims(
                p,
            ) is Some implies boxes[m] by {
            if !boxes[m] {
                assert(box_hit.ensures((m as usize,), false));
                assert(leaves(t.nodes@, (m as usize) as int).contains(p));
            }
        }
    }
    lemma_bvh_matches_brute_force(t, prims, boxes, slots);
}

/// The nearer of two hits; on equal keys the second one wins.
fn pick_nearest<H>(a: Option<(u64, H)>, b: Option<(u64, H)>) -> (r: Option<(u64, H)>)
    ensures
        r == nearest(a, b),
{
    match a {
        Some(x) => match b {
            Some(y) => if x.0 < y.0 {
                Some(x)
            } else {
                Some(y)
            },
            None => Some(x),
        },
        None => b,
    }
}

impl BVHNode {
    /// Builds a hierarchy over the primitives `0 .. keys.len()`, where
    /// `keys[p][axis]` orders primitive `p` on `axis` as the minimum corner of
    /// its bounding box does. At each node an axis is drawn at random, the
    /// node's primitives are sorted on it and split at the midpoint; a single
    /// primitive fills both sides of its node. Returns `None` when there is
    /// no primitive.
    pub fn new(keys: &Vec<[u64; 3]>) -> (r: Option<BVHNode>)
        requires
            2 * keys.len() <= usize::MAX,
        ensures
            r is None <==> keys.len() == 0,
            r matches Some(t) ==> {
                &&& t.wf()
                &&& t.n_prims == keys.len()
                &&& split_ordered(t.nodes@, keys@)
                &&& balanced(t.nodes@)
                &&& t.nodes.len() < 2 * keys.len()
            },
    {
        if keys.len() == 0 {
            return None;
        }
        let mut items: Vec<usize> = Vec::new();
        let mut i: usize = 0;
        while i < keys.len()
            invariant
                i <= keys.len(),
                items@ == Seq::new(i as nat, |k: int| k as usize),
            decreases keys.len() - i,
        {
            items.push(i);
            i = i + 1;
        }
        let ghost all = items@;
        assert(all.no_duplicates());
        let mut nodes: Vec<ArenaNode> = Vec::new();
        let root = build_node(keys, items, &mut nodes);
        let t = BVHNode { nodes, n_prims: keys.len() };
        proof {
            assert(all.to_set() =~= prims_below(keys.len() as nat)) by {
                assert forall|p: usize| p < keys.len() implies all.to_set().contains(p) by {
                    assert(all[p as int] == p);
                }
            }
        }
        Some(t)
    }
}

impl BVHNode {
    /// Searches the subtree of node `n`, recording the outcome of each test
    /// it makes on top of `boxes` and `slots`.
    fn hit_node<H, B, P>(
        &self,
        n: usize,
        box_hit: &B,
        prim_hit: &P,
        Ghost(boxes): Ghost<Map<int, bool>>,
        Ghost(slots): Ghost<Map<int, Option<(u64, H)>>>,
    ) -> (res: (Option<(u64, H)>, Ghost<Map<int, bool>>, Ghost<Map<int, Option<(u64, H)>>>)) where
        B: Fn(usize) -> bool,
        P: Fn(usize) -> Option<(u64, H)>,

        requires
            nodes_ok(self.nodes@, self.n_prims as nat),
            n < self.nodes.len(),
            forall|i: usize| box_hit.requires((i,)),
            forall|i: usize| prim_hit.requires((i,)),
            answers_from(self.nodes@, *box_hit, *prim_hit, boxes, slots),
        ensures
            answers_from(self.nodes@, *box_hit, *prim_hit, res.1@, res.2@),
            answered(self.nodes@, n as int, res.1@, res.2@),
            res.0 == hit_spec(self.nodes@, n as int, res.1@, res.2@),
            forall|k: int|
                !(self.nodes[n as int].first <= k <= n) && #[trigger] boxes.contains_key(k)
                    ==> res.1@.contains_key(k) && res.1@[k] == boxes[k],
            forall|k: int|
                !(2 * self.nodes[n as int].first <= k <= 2 * n + 1) && #[trigger] slots.contains_key(k)
                    ==> res.2@.contains_key(k) && res.2@[k] == slots[k],
        decreases n,
    {
        let ghost nodes = self.nodes@;
        let nd = self.nodes[n];
        assert(node_ok(nodes, n as int, self.n_prims as nat));
        let b = box_hit(n);
        let ghost b1 = boxes.insert(n as int, b);
        if !b {
            return (None, Ghost(b1), Ghost(slots));
        }
        let (lh, Ghost(b2), Ghost(s2)) = match nd.left {
            Child::Prim(p) => {
                let h = prim_hit(p);
                (h, Ghost(b1), Ghost(slots.insert(2 * n as int, h)))
            },
            Child::Node(a) => self.hit_node(a, box_hit, prim_hit, Ghost(b1), Ghost(slots)),
        };
        let (rh, Ghost(b3), Ghost(s3)) = match nd.right {
            Child::Prim(p) => {
                let h = prim_hit(p);
                (h, Ghost(b2), Ghost(s2.insert(2 * n + 1, h)))
            },
            Child::Node(a) => self.hit_node(a, box_hit, prim_hit, Ghost(b2), Ghost(s2)),
        };
        proof {
            let first = nd.first as int;
            let mid = child_end(nd.left, first);
            if let Child::Node(a) = nd.left {
                assert(node_ok(nodes, a as int, self.n_prims as nat));
                lemma_frame(nodes, self.n_prims as nat, a as int, b2, s2, b3, s3);
            }
            if let Child::Node(a) = nd.right {
                assert(node_ok(nodes, a as int, self.n_prims as nat));
            }
            assert(b1.contains_key(n as int));
            assert(b2.contains_key(n as int) && b2[n as int] == b);
            assert(b3.contains_key(n as int) && b3[n as int] == b);
            if let Child::Prim(p) = nd.left {
                assert(s2.contains_key(2 * n as int));
                assert(s3.contains_key(2 * n as int));
            }
            assert(child_answered(nodes, nd.left, n as int, 2 * n as int, b3, s3));
            assert(child_answered(nodes, nd.right, n as int, 2 * n + 1, b3, s3));
            assert forall|k: int|
                !(first <= k <= n) && #[trigger] boxes.contains_key(k) implies b3.contains_key(k)
                && b3[k] == boxes[k] by {
                assert(b1.contains_key(k) && b1[k] == boxes[k]);
                assert(b2.contains_key(k) && b2[k] == boxes[k]);
            }
            assert forall|k: int|
                !(2 * first <= k <= 2 * n + 1) && #[trigger] slots.contains_key(k) implies s3.contains_key(k)
                && s3[k] == slots[k] by {
                assert(s2.contains_key(k) && s2[k] == slots[k]);
            }
        }
        (pick_nearest(lh, rh), Ghost(b3), Ghost(s3))
    }

    /// The nearest hit of a ray in the scene. `box_hit(m)` tests the ray
    /// against the bounding box of node `m`; `prim_hit(p)` tests it against
    /// primitive `p` and gives the hit's key and record. A node's box is tested
    /// first; when it is hit, both sides are searched and the nearer hit wins
    /// (the right one on equal keys).
    pub fn hit<H, B, P>(&self, box_hit: &B, prim_hit: &P) -> (r: Option<(u64, H)>) where
        B: Fn(usize) -> bool,
        P: Fn(usize) -> Option<(u64, H)>,

        requires
            self.wf(),
            forall|i: usize| box_hit.requires((i,)),
            forall|i: usize| prim_hit.requires((i,)),
        ensures
            exists|boxes: Map<int, bool>, slots: Map<int, Option<(u64, H)>>|
                #[trigger] answers_from(self.nodes@, *box_hit, *prim_hit, boxes, slots)
                    && answered(self.nodes@, self.root(), boxes, slots) && r == hit_spec(
                    self.nodes@,
                    self.root(),
                    boxes,
                    slots,
                ),
    {
        let root = self.nodes.len() - 1;
        let (r, Ghost(boxes), Ghost(slots)) = self.hit_node(
            root,
            box_hit,
            prim_hit,
            Ghost(Map::empty()),
            Ghost(Map::empty()),
        );
        r
    }
}

} // verus!

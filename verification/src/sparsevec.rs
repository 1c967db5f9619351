//! A persistent sparse vector: a 32-way trie from `usize` indices to shared values.
use std::sync::Arc;
use vstd::prelude::*;

use crate::radix::{
    capacity, digit, find_level, high_digits, lemma_capacity_fits, lemma_capacity_mono, lemma_high_decompose,
    lemma_high_mono, lemma_high_succ, lemma_high_zero, lemma_num_digits_capacity, lemma_num_digits_mono,
    index_fits, level_bits, num_digits, BRANCH,
};

verus! {

/// `Arc::clone`: the new pointer shares the allocation, so it points to the same value.
#[verifier::external_body]
fn arc_clone<T>(a: &Arc<T>) -> (res: Arc<T>)
    ensures
        res == *a,
{
    Arc::clone(a)
}

/// A trie node. A leaf holds one value; a branch holds `BRANCH` optional children,
/// the child at position `d` covering the indices whose digit at this level is `d`.
#[derive(Debug, Hash, PartialEq, Eq)]
enum Node<T> {
    Leaf(Arc<T>),
    Branch(Vec<Option<Arc<Node<T>>>>),
}

/// The value an `Arc` points to.
spec fn pointee<A>(a: Arc<A>) -> A {
    *a
}

/// A node of height `h` is a leaf when `h == -1`, and otherwise a branch whose slots are
/// well formed at height `h`.
spec fn node_wf<T>(n: Node<T>, h: int) -> bool
    decreases h + 1, 1nat,
{
    if h < 0 {
        n is Leaf
    } else {
        match n {
            Node::Leaf(_) => false,
            Node::Branch(xs) => children_wf(xs@, h),
        }
    }
}

/// The `BRANCH` slots of a branch of height `h`: each child, where present, has height `h - 1`.
spec fn children_wf<T>(xs: Seq<Option<Arc<Node<T>>>>, h: int) -> bool
    decreases h + 1, 0nat,
{
    &&& xs.len() == 32
    &&& forall|c: int|
        #![trigger xs[c]]
        0 <= c < 32 ==> match xs[c] {
            None => true,
            Some(child) => h >= 0 && node_wf(*child, h - 1),
        }
}

/// The value stored for index `k` below node `n` of height `h`: follow the digit of `k`
/// at each level down to a leaf.
spec fn node_lookup<T>(n: Node<T>, k: nat, h: int) -> Option<T>
    decreases h + 1, 1nat,
{
    if h < 0 {
        match n {
            Node::Leaf(v) => Some(*v),
            Node::Branch(_) => None,
        }
    } else {
        match n {
            Node::Leaf(_) => None,
            Node::Branch(xs) => branch_lookup(xs@, k, h),
        }
    }
}

/// Lookup in the slots of a branch of height `h`: the slot is the digit of `k` at level `h`.
spec fn branch_lookup<T>(xs: Seq<Option<Arc<Node<T>>>>, k: nat, h: int) -> Option<T>
    decreases h + 1, 0nat,
{
    let d = digit(k, h as nat);
    if h >= 0 && d < xs.len() {
        match xs[d as int] {
            None => None,
            Some(child) => node_lookup(*child, k, h - 1),
        }
    } else {
        None
    }
}

/// The entries below node `n`, in order; `j` is the index prefix of the node, so a child at
/// position `c` has prefix `32 * j + c` and a leaf's index is its prefix.
spec fn node_entries<T>(n: Node<T>, j: nat) -> Seq<(nat, T)>
    decreases n,
{
    match n {
        Node::Leaf(v) => seq![(j, *v)],
        Node::Branch(xs) => children_entries(xs@, j, xs@.len()),
    }
}

/// The entries below the first `i` children of a branch with prefix `j`.
spec fn children_entries<T>(xs: Seq<Option<Arc<Node<T>>>>, j: nat, i: nat) -> Seq<(nat, T)>
    decreases xs, i,
{
    if i == 0 || i > xs.len() {
        seq![]
    } else {
        children_entries(xs, j, (i - 1) as nat) + match xs[i - 1] {
            Some(c) => node_entries(*c, (32 * j + i - 1) as nat),
            None => seq![],
        }
    }
}

/// Number of leaves below node `n`.
spec fn node_size<T>(n: Node<T>) -> nat
    decreases n,
{
    match n {
        Node::Leaf(_) => 1,
        Node::Branch(xs) => children_size(xs@, xs@.len()),
    }
}

/// Number of leaves below the first `i` children of a branch.
spec fn children_size<T>(xs: Seq<Option<Arc<Node<T>>>>, i: nat) -> nat
    decreases xs, i,
{
    if i == 0 || i > xs.len() {
        0
    } else {
        children_size(xs, (i - 1) as nat) + match xs[i - 1] {
            Some(c) => node_size(*c),
            None => 0,
        }
    }
}

/// Keys of a sequence of entries strictly increase.
pub open spec fn keys_increasing<T>(e: Seq<(nat, T)>) -> bool {
    forall|a: int, b: int| 0 <= a < b < e.len() ==> #[trigger] e[a].0 < #[trigger] e[b].0
}

/// `e` lists exactly the entries of `m`, in increasing order of index.
pub open spec fn lists_map<T>(e: Seq<(nat, T)>, m: Map<nat, T>) -> bool {
    &&& keys_increasing(e)
    &&& forall|a: int|
        0 <= a < e.len() ==> (#[trigger] m.dom().contains(e[a].0)) && m[e[a].0] == e[a].1
    &&& forall|k: nat| #[trigger]
        m.dom().contains(k) ==> exists|a: int| 0 <= a < e.len() && e[a].0 == k
}

/// Properties of the entries of a well-formed node of height `h` with prefix `j`: every
/// index has `j` above its lowest `h + 1` digits, indices increase, each entry is what a
/// lookup finds, and every index that a lookup finds is listed.
proof fn lemma_node_entries<T>(n: Node<T>, j: nat, h: int)
    requires
        h >= -1,
        node_wf(n, h),
    ensures
        ({
            let e = node_entries(n, j);
            &&& e.len() == node_size(n)
            &&& forall|a: int|
                0 <= a < e.len() ==> high_digits(#[trigger] e[a].0, (h + 1) as nat) == j
            &&& keys_increasing(e)
            &&& forall|a: int| 0 <= a < e.len() ==> node_lookup(n, #[trigger] e[a].0, h) == Some(e[a].1)
            &&& forall|k: nat|
                high_digits(k, (h + 1) as nat) == j && #[trigger] node_lookup(n, k, h) is Some
                    ==> exists|a: int| 0 <= a < e.len() && e[a].0 == k
        }),
    decreases h + 1, 33nat,
{
    match n {
        Node::Leaf(v) => {
            assert(node_entries(n, j) == seq![(j, *v)]);
            assert forall|k: nat| high_digits(k, (h + 1) as nat) == j && #[trigger] node_lookup(n, k, h) is Some
                implies exists|a: int| 0 <= a < node_entries(n, j).len() && node_entries(n, j)[a].0 == k by {
                assert(node_entries(n, j)[0].0 == k);
            }
        },
        Node::Branch(xs) => {
            lemma_children_entries(xs@, j, 32, h);
            let e = node_entries(n, j);
            assert forall|a: int| 0 <= a < e.len() implies high_digits(#[trigger] e[a].0, (h + 1) as nat) == j by {
                lemma_high_succ(e[a].0, h as nat);
            }
            assert forall|k: nat|
                high_digits(k, (h + 1) as nat) == j && #[trigger] node_lookup(n, k, h) is Some
                implies exists|a: int| 0 <= a < e.len() && e[a].0 == k by {
                lemma_high_succ(k, h as nat);
                assert(node_lookup(n, k, h) == branch_lookup(xs@, k, h));
                assert(branch_lookup(xs@, k, h) is Some);
            }
        },
    }
}

/// The same properties for the first `i` slots of a well-formed branch of height `h`
/// with prefix `j`: the indices have a prefix of `h` digits in `[32 * j, 32 * j + i)`.
proof fn lemma_children_entries<T>(xs: Seq<Option<Arc<Node<T>>>>, j: nat, i: nat, h: int)
    requires
        h >= 0,
        i <= 32,
        children_wf(xs, h),
    ensures
        ({
            let e = children_entries(xs, j, i);
            &&& e.len() == children_size(xs, i)
            &&& forall|a: int|
                0 <= a < e.len() ==> 32 * j <= high_digits(#[trigger] e[a].0, h as nat) < 32 * j + i
            &&& keys_increasing(e)
            &&& forall|a: int| 0 <= a < e.len() ==> branch_lookup(xs, #[trigger] e[a].0, h) == Some(e[a].1)
            &&& forall|k: nat|
                32 * j <= high_digits(k, h as nat) < 32 * j + i && #[trigger] branch_lookup(xs, k, h) is Some
                    ==> exists|a: int| 0 <= a < e.len() && e[a].0 == k
        }),
    decreases h + 1, i,
{
    if i > 0 {
        let c = (i - 1) as nat;
        lemma_children_entries(xs, j, c, h);
        let e0 = children_entries(xs, j, c);
        let e = children_entries(xs, j, i);
        let p = 32 * j + c;
        assert(xs[c as int] == xs[i - 1]);
        match xs[c as int] {
            None => {
                assert(e == e0);
                assert forall|k: nat|
                    32 * j <= high_digits(k, h as nat) < 32 * j + i && #[trigger] branch_lookup(xs, k, h) is Some
                    implies exists|a: int| 0 <= a < e.len() && e[a].0 == k by {
                    if high_digits(k, h as nat) == p {
                        assert(digit(k, h as nat) == c);
                    }
                }
            },
            Some(child) => {
                lemma_node_entries(pointee(child), p, h - 1);
                let ce = node_entries(pointee(child), p);
                assert(e == e0 + ce);
                assert forall|a: int| 0 <= a < e.len() implies branch_lookup(xs, #[trigger] e[a].0, h) == Some(e[a].1) by {
                    if a >= e0.len() {
                        assert(e[a] == ce[a - e0.len()]);
                        assert(digit(e[a].0, h as nat) == c);
                    }
                }
                assert forall|a: int| 0 <= a < e.len() implies 32 * j <= high_digits(#[trigger] e[a].0, h as nat) < 32 * j + i by {
                    if a >= e0.len() {
                        assert(e[a] == ce[a - e0.len()]);
                    }
                }
                assert forall|a: int, b: int| 0 <= a < b < e.len() implies #[trigger] e[a].0 < #[trigger] e[b].0 by {
                    if b < e0.len() {
                        assert(e[a] == e0[a] && e[b] == e0[b]);
                    } else if a >= e0.len() {
                        assert(e[a] == ce[a - e0.len()] && e[b] == ce[b - e0.len()]);
                    } else {
                        assert(e[a] == e0[a] && e[b] == ce[b - e0.len()]);
                        if e[b].0 <= e[a].0 {
                            lemma_high_mono(e[b].0, e[a].0, h as nat);
                        }
                    }
                }
                assert forall|k: nat|
                    32 * j <= high_digits(k, h as nat) < 32 * j + i && #[trigger] branch_lookup(xs, k, h) is Some
                    implies exists|a: int| 0 <= a < e.len() && e[a].0 == k by {
                    if high_digits(k, h as nat) == p {
                        assert(digit(k, h as nat) == c);
                        assert(node_lookup(pointee(child), k, h - 1) is Some);
                        let a0 = choose|a: int| 0 <= a < ce.len() && ce[a].0 == k;
                        assert(e[e0.len() + a0] == ce[a0]);
                    } else {
                        let a0 = choose|a: int| 0 <= a < e0.len() && e0[a].0 == k;
                        assert(e[a0] == e0[a0]);
                    }
                }
            },
        }
    }
}


/// Leaf counts only grow with the number of slots counted.
proof fn lemma_children_size_mono<T>(xs: Seq<Option<Arc<Node<T>>>>, a: nat, b: nat)
    requires
        a <= b <= xs.len(),
    ensures
        children_size(xs, a) <= children_size(xs, b),
    decreases b,
{
    if a < b {
        lemma_children_size_mono(xs, a, (b - 1) as nat);
    }
}

/// In a sequence with strictly increasing indices, the index at position `a` is at least `a`.
proof fn lemma_increasing_ge_position<T>(e: Seq<(nat, T)>, a: int)
    requires
        keys_increasing(e),
        0 <= a < e.len(),
    ensures
        e[a].0 >= a,
    decreases a,
{
    if a > 0 {
        lemma_increasing_ge_position(e, a - 1);
    }
}

/// A root whose only possible child is the one at slot 0, as every index it stores is below
/// `32^level`.
spec fn root_single<T>(n: Node<T>) -> bool {
    match n {
        Node::Leaf(_) => false,
        Node::Branch(xs) => forall|c: int| 1 <= c < xs@.len() ==> #[trigger] xs@[c] is None,
    }
}

/// A node whose leaf indices, built from prefix `j`, all fit in a `usize`.
spec fn prefix_fits<T>(n: Node<T>, j: nat, h: int) -> bool {
    match n {
        Node::Leaf(_) => j <= usize::MAX,
        Node::Branch(xs) => slots_fit(xs@, j, h),
    }
}

/// Every present slot `c` of a branch of height `h` with prefix `j` covers indices below
/// `(32 * j + c + 1) * 32^h`, which is at most one past `usize::MAX`.
spec fn slots_fit<T>(xs: Seq<Option<Arc<Node<T>>>>, j: nat, h: int) -> bool {
    forall|c: int|
        0 <= c < 32 && c < xs.len() && #[trigger] xs[c] is Some ==> (32 * j + c + 1) * capacity(
            h as nat,
        ) <= usize::MAX + 1
}

/// The child at slot `c` of a fitting branch fits with prefix `32 * j + c`.
proof fn lemma_prefix_fits_child<T>(xs: Seq<Option<Arc<Node<T>>>>, j: nat, h: int, c: int)
    requires
        h >= 0,
        children_wf(xs, h),
        slots_fit(xs, j, h),
        0 <= c < 32,
        xs[c] is Some,
    ensures
        32 * j + c <= usize::MAX,
        prefix_fits(pointee(xs[c]->0), (32 * j + c) as nat, h - 1),
{
    let p = (32 * j + c) as nat;
    let ch = capacity(h as nat);
    lemma_capacity_mono(0, h as nat);
    assert((p + 1) * ch <= usize::MAX + 1);
    assert(p + 1 <= (p + 1) * ch) by (nonlinear_arith)
        requires
            ch >= 1,
    ;
    let child = pointee(xs[c]->0);
    assert(node_wf(child, h - 1));
    if h >= 1 {
        match child {
            Node::Leaf(_) => {},
            Node::Branch(ys) => {
                let ch1 = capacity((h - 1) as nat);
                assert(ch == 32 * ch1);
                assert forall|c2: int|
                    0 <= c2 < 32 && c2 < ys@.len() && #[trigger] ys@[c2] is Some implies (32 * p + c2 + 1)
                    * ch1 <= usize::MAX + 1 by {
                    assert((32 * p + c2 + 1) * ch1 <= (p + 1) * (32 * ch1)) by (nonlinear_arith)
                        requires
                            0 <= c2 < 32,
                            ch1 >= 0,
                    ;
                }
            },
        }
    }
}

/// The entries of a vector of `(index, shared value)` pairs, as indices and values.
pub open spec fn arc_listing<T>(v: Seq<(usize, Arc<T>)>) -> Seq<(nat, T)> {
    v.map_values(|p: (usize, Arc<T>)| (p.0 as nat, *p.1))
}

/// The entries of a vector of `(index, borrowed value)` pairs, as indices and values.
pub open spec fn ref_listing<T>(v: Seq<(usize, &T)>) -> Seq<(nat, T)> {
    v.map_values(|p: (usize, &T)| (p.0 as nat, *p.1))
}

/// Lookup in an optional child of height `h`: nothing where there is no child.
spec fn slot_lookup<T>(s: Option<Arc<Node<T>>>, k: nat, h: int) -> Option<T> {
    match s {
        None => None,
        Some(child) => node_lookup(*child, k, h),
    }
}

/// The value from `a` where it has one, else the value from `b`.
pub open spec fn prefer<T>(a: Option<T>, b: Option<T>) -> Option<T> {
    if a is Some {
        a
    } else {
        b
    }
}

/// `BRANCH` empty slots.
fn empty_slots<T>() -> (xs: Vec<Option<Arc<Node<T>>>>)
    ensures
        xs@.len() == 32,
        forall|c: int| 0 <= c < 32 ==> #[trigger] xs@[c] is None,
{
    let mut xs: Vec<Option<Arc<Node<T>>>> = Vec::new();
    for c in 0..BRANCH
        invariant
            xs@.len() == c,
            forall|c2: int| 0 <= c2 < c ==> #[trigger] xs@[c2] is None,
    {
        xs.push(None);
    }
    xs
}

/// A copy of a slot that shares its child.
fn clone_slot<T>(s: &Option<Arc<Node<T>>>) -> (r: Option<Arc<Node<T>>>)
    ensures
        r == *s,
{
    match s {
        Some(child) => Some(arc_clone(child)),
        None => None,
    }
}

impl<T> Node<T> {
    /// Number of leaves below this node.
    fn count(&self, Ghost(h): Ghost<int>) -> (r: usize)
        requires
            h >= -1,
            node_wf(*self, h),
            node_size(*self) <= usize::MAX,
        ensures
            r == node_size(*self),
        decreases h + 1,
    {
        match self {
            Node::Leaf(_) => 1,
            Node::Branch(xs) => {
                let mut total: usize = 0;
                for c in 0..BRANCH
                    invariant
                        h >= 0,
                        children_wf(xs@, h),
                        children_size(xs@, 32) <= usize::MAX,
                        total == children_size(xs@, c as nat),
                {
                    proof {
                        lemma_children_size_mono(xs@, (c + 1) as nat, 32);
                    }
                    match &xs[c] {
                        Some(child) => {
                            total = total + child.count(Ghost(h - 1));
                        },
                        None => {},
                    }
                }
                total
            },
        }
    }

    /// The entries below this node, with shared values, in increasing order of index;
    /// `j` is the node's index prefix.
    fn entries_arc(&self, j: usize, Ghost(h): Ghost<int>) -> (r: Vec<(usize, Arc<T>)>)
        requires
            h >= -1,
            node_wf(*self, h),
            prefix_fits(*self, j as nat, h),
        ensures
            arc_listing(r@) == node_entries(*self, j as nat),
        decreases h + 1,
    {
        match self {
            Node::Leaf(x) => {
                let r = vec![(j, arc_clone(x))];
                assert(arc_listing(r@) =~= node_entries(*self, j as nat));
                r
            },
            Node::Branch(xs) => {
                let mut r: Vec<(usize, Arc<T>)> = Vec::new();
                for c in 0..BRANCH
                    invariant
                        h >= 0,
                        children_wf(xs@, h),
                        slots_fit(xs@, j as nat, h),
                        arc_listing(r@) == children_entries(xs@, j as nat, c as nat),
                {
                    match &xs[c] {
                        Some(child) => {
                            proof {
                                lemma_prefix_fits_child(xs@, j as nat, h, c as int);
                            }
                            let mut sub = child.entries_arc(j * BRANCH + c, Ghost(h - 1));
                            let ghost r0 = r@;
                            r.append(&mut sub);
                            assert(arc_listing(r@) =~= arc_listing(r0) + children_entries(xs@, j as nat, (c + 1) as nat).skip(arc_listing(r0).len() as int)) by {
                                assert(children_entries(xs@, j as nat, (c + 1) as nat) =~= children_entries(xs@, j as nat, c as nat) + node_entries(pointee(xs@[c as int]->0), (32 * j + c) as nat));
                            }
                        },
                        None => {},
                    }
                    assert(arc_listing(r@) =~= children_entries(xs@, j as nat, (c + 1) as nat));
                }
                r
            },
        }
    }
}

impl<T> Node<T> {
    /// The entries below this node, with borrowed values, in increasing order of index;
    /// `j` is the node's index prefix.
    fn entries(&self, j: usize, Ghost(h): Ghost<int>) -> (r: Vec<(usize, &T)>)
        requires
            h >= -1,
            node_wf(*self, h),
            prefix_fits(*self, j as nat, h),
        ensures
            ref_listing(r@) == node_entries(*self, j as nat),
        decreases h + 1,
    {
        match self {
            Node::Leaf(x) => {
                let v: &T = &**x;
                let r = vec![(j, v)];
                assert(ref_listing(r@) =~= node_entries(*self, j as nat));
                r
            },
            Node::Branch(xs) => {
                let mut r: Vec<(usize, &T)> = Vec::new();
                for c in 0..BRANCH
                    invariant
                        h >= 0,
                        children_wf(xs@, h),
                        slots_fit(xs@, j as nat, h),
                        ref_listing(r@) == children_entries(xs@, j as nat, c as nat),
                {
                    match &xs[c] {
                        Some(child) => {
                            proof {
                                lemma_prefix_fits_child(xs@, j as nat, h, c as int);
                            }
                            let mut sub = child.entries(j * BRANCH + c, Ghost(h - 1));
                            let ghost r0 = r@;
                            let ghost s0 = sub@;
                            r.append(&mut sub);
                            assert(ref_listing(r@) =~= ref_listing(r0) + ref_listing(s0));
                            assert(children_entries(xs@, j as nat, (c + 1) as nat) =~= children_entries(xs@, j as nat, c as nat) + node_entries(pointee(xs@[c as int]->0), (32 * j + c) as nat));
                        },
                        None => {},
                    }
                    assert(ref_listing(r@) =~= children_entries(xs@, j as nat, (c + 1) as nat));
                }
                r
            },
        }
    }

    /// This node with `other` laid over it: where `other` has a value it wins.
    fn merged(&self, other: &Self, Ghost(h): Ghost<int>) -> (r: Self)
        requires
            h >= -1,
            node_wf(*self, h),
            node_wf(*other, h),
        ensures
            node_wf(r, h),
            forall|k: nat| (#[trigger] node_lookup(r, k, h)) == prefer(node_lookup(*other, k, h), node_lookup(*self, k, h)),
            h >= 0 ==> (r matches Node::Branch(zs) && self matches Node::Branch(xs) && other matches Node::Branch(ys)
                && forall|c: int| 0 <= c < 32 ==> (#[trigger] zs@[c] is Some <==> (xs@[c] is Some || ys@[c] is Some))),
        decreases h + 1,
    {
        match self {
            Node::Leaf(_) => {
                match other {
                    Node::Leaf(y) => Node::Leaf(arc_clone(y)),
                    Node::Branch(_) => {
                        // Nodes of the same height have the same shape.
                        proof { assert(false); }
                        Node::Branch(Vec::new())
                    }
                }
            },
            Node::Branch(xs) => {
                match other {
                    Node::Leaf(_) => {
                        // Nodes of the same height have the same shape.
                        proof { assert(false); }
                        Node::Branch(Vec::new())
                    },
                    Node::Branch(ys) => {
                        let mut zs: Vec<Option<Arc<Node<T>>>> = Vec::new();
                        for c in 0..BRANCH
                            invariant
                                h >= 0,
                                children_wf(xs@, h),
                                children_wf(ys@, h),
                                zs@.len() == c,
                                forall|c2: int| 0 <= c2 < c ==> match #[trigger] zs@[c2] {
                                    None => true,
                                    Some(z) => node_wf(*z, h - 1),
                                },
                                forall|c2: int| 0 <= c2 < c ==> (#[trigger] zs@[c2] is Some <==> (xs@[c2] is Some || ys@[c2] is Some)),
                                forall|c2: int, k: nat| 0 <= c2 < c ==> (#[trigger] slot_lookup(zs@[c2], k, h - 1)) == prefer(slot_lookup(ys@[c2], k, h - 1), slot_lookup(xs@[c2], k, h - 1)),
                        {
                            let z = match &ys[c] {
                                Some(y) => match &xs[c] {
                                    Some(x) => {
                                        let m = x.merged(y, Ghost(h - 1));
                                        Some(Arc::new(m))
                                    },
                                    None => Some(arc_clone(y)),
                                },
                                None => clone_slot(&xs[c]),
                            };
                            zs.push(z);
                        }
                        let r = Node::Branch(zs);
                        assert forall|k: nat| (#[trigger] node_lookup(r, k, h)) == prefer(node_lookup(*other, k, h), node_lookup(*self, k, h)) by {
                            let d = digit(k, h as nat);
                            if d < 32 {
                                assert(slot_lookup(zs@[d as int], k, h - 1) == prefer(slot_lookup(ys@[d as int], k, h - 1), slot_lookup(xs@[d as int], k, h - 1)));
                            }
                        }
                        r
                    },
                }
            },
        }
    }
}

/// The map built by setting the entries of `s` in turn, so a later entry for an index wins.
pub open spec fn map_of<T>(s: Seq<(nat, T)>) -> Map<nat, T>
    decreases s.len(),
{
    if s.len() == 0 {
        Map::empty()
    } else {
        map_of(s.drop_last()).insert(s.last().0, s.last().1)
    }
}

/// `(index, value)` pairs as natural-number indices and values.
pub open spec fn pair_listing<T>(v: Seq<(usize, T)>) -> Seq<(nat, T)> {
    v.map_values(|p: (usize, T)| (p.0 as nat, p.1))
}

/// The smallest index of a map, or 0 when it is empty.
pub open spec fn min_index<T>(m: Map<nat, T>) -> nat {
    if m.dom() == Set::<nat>::empty() {
        0
    } else {
        choose|k: nat| m.dom().contains(k) && forall|k2: nat| #[trigger] m.dom().contains(k2) ==> k <= k2
    }
}

/// The largest index of a map, or 0 when it is empty.
pub open spec fn max_index<T>(m: Map<nat, T>) -> nat {
    if m.dom() == Set::<nat>::empty() {
        0
    } else {
        choose|k: nat| m.dom().contains(k) && forall|k2: nat| #[trigger] m.dom().contains(k2) ==> k2 <= k
    }
}

/// The index just past the largest index of a map, or 0 when it is empty.
pub open spec fn index_after<T>(m: Map<nat, T>) -> nat {
    if m.dom() == Set::<nat>::empty() {
        0
    } else {
        max_index(m) + 1
    }
}

/// The entries of `m` moved by `d` places: index `k + d` holds what `k` held.
pub open spec fn shift<T>(m: Map<nat, T>, d: int) -> Map<nat, T> {
    Map::new(|k: nat| k - d >= 0 && m.dom().contains((k - d) as nat), |k: nat| m[(k - d) as nat])
}

/// Building a map from entries with increasing indices gives a map that they list.
pub proof fn lemma_map_of_increasing<T>(s: Seq<(nat, T)>)
    requires
        keys_increasing(s),
    ensures
        lists_map(s, map_of(s)),
    decreases s.len(),
{
    if s.len() > 0 {
        let s0 = s.drop_last();
        lemma_map_of_increasing(s0);
        let m = map_of(s);
        assert forall|a: int| 0 <= a < s.len() implies (#[trigger] m.dom().contains(s[a].0)) && m[s[a].0] == s[a].1 by {
            if a < s.len() - 1 {
                assert(s0[a] == s[a]);
                assert(s[a].0 < s[s.len() - 1].0);
            }
        }
        assert forall|k: nat| #[trigger] m.dom().contains(k) implies exists|a: int| 0 <= a < s.len() && s[a].0 == k by {
            if k != s.last().0 {
                let a = choose|a: int| 0 <= a < s0.len() && s0[a].0 == k;
                assert(s[a] == s0[a]);
            }
        }
    }
}

/// A listing of a map builds that map back.
pub proof fn lemma_map_of_listing<T>(e: Seq<(nat, T)>, m: Map<nat, T>)
    requires
        lists_map(e, m),
    ensures
        map_of(e) == m,
{
    lemma_map_of_increasing(e);
    let m2 = map_of(e);
    assert forall|k: nat| m.dom().contains(k) <==> m2.dom().contains(k) by {
        if m.dom().contains(k) {
            let a = choose|a: int| 0 <= a < e.len() && e[a].0 == k;
        }
        if m2.dom().contains(k) {
            let a = choose|a: int| 0 <= a < e.len() && e[a].0 == k;
        }
    }
    assert forall|k: nat| #[trigger] m.dom().contains(k) implies m[k] == m2[k] by {
        let a = choose|a: int| 0 <= a < e.len() && e[a].0 == k;
    }
    assert(m =~= m2);
}

/// Two listings of the same map are the same sequence: a map has exactly one listing.
pub proof fn law_listing_unique<T>(e1: Seq<(nat, T)>, e2: Seq<(nat, T)>, m: Map<nat, T>)
    requires
        lists_map(e1, m),
        lists_map(e2, m),
    ensures
        e1 == e2,
{
    let big = (e1.len() + e2.len()) as int;
    lemma_listing_keys_agree(e1, e2, m, big);
    if e1.len() > e2.len() {
        let n = e2.len() as int;
        let k = e1[n].0;
        assert(m.dom().contains(k));
        let p = choose|a: int| 0 <= a < e2.len() && e2[a].0 == k;
        assert(e1[p].0 == e2[p].0);
        assert(e1[p].0 < e1[n].0);
    }
    if e2.len() > e1.len() {
        let n = e1.len() as int;
        let k = e2[n].0;
        assert(m.dom().contains(k));
        let p = choose|a: int| 0 <= a < e1.len() && e1[a].0 == k;
        assert(e1[p].0 == e2[p].0);
        assert(e2[p].0 < e2[n].0);
    }
    assert forall|a: int| 0 <= a < e1.len() implies e1[a] == e2[a] by {
        assert(e1[a].0 == e2[a].0);
        assert(m.dom().contains(e1[a].0));
    }
    assert(e1 =~= e2);
}

/// Two listings of the same map agree on the indices at positions `a` and below, as far as
/// the shorter one reaches.
proof fn lemma_listing_keys_agree<T>(e1: Seq<(nat, T)>, e2: Seq<(nat, T)>, m: Map<nat, T>, a: int)
    requires
        lists_map(e1, m),
        lists_map(e2, m),
        0 <= a,
    ensures
        forall|b: int| 0 <= b <= a && b < e1.len() && b < e2.len() ==> #[trigger] e1[b].0 == e2[b].0,
    decreases a,
{
    if a > 0 {
        lemma_listing_keys_agree(e1, e2, m, a - 1);
    }
    if a < e1.len() && a < e2.len() {
        // the index at position a of either listing sits at position a or later in the other
        let k2 = e2[a].0;
        assert(m.dom().contains(k2));
        let p1 = choose|p: int| 0 <= p < e1.len() && e1[p].0 == k2;
        if p1 < a {
            assert(e2[p1].0 == e1[p1].0);
            assert(e2[p1].0 < e2[a].0);
        }
        if p1 > a {
            assert(e1[a].0 < e1[p1].0);
        }
        let k1 = e1[a].0;
        assert(m.dom().contains(k1));
        let p2 = choose|p: int| 0 <= p < e2.len() && e2[p].0 == k1;
        if p2 < a {
            assert(e1[p2].0 == e2[p2].0);
            assert(e1[p2].0 < e1[a].0);
        }
        if p2 > a {
            assert(e2[a].0 < e2[p2].0);
        }
    }
}

/// The entries of `s` with each index moved up by `d`.
pub open spec fn shift_listing<T>(s: Seq<(nat, T)>, d: int) -> Seq<(nat, T)> {
    s.map_values(|e: (nat, T)| ((e.0 + d) as nat, e.1))
}

/// Moving every index of a listing by `d` lists the moved map.
pub proof fn lemma_shift_listing<T>(e: Seq<(nat, T)>, m: Map<nat, T>, d: int)
    requires
        lists_map(e, m),
        forall|k: nat| #[trigger] m.dom().contains(k) ==> k + d >= 0,
    ensures
        lists_map(shift_listing(e, d), shift(m, d)),
{
    let e2 = shift_listing(e, d);
    let m2 = shift(m, d);
    assert forall|a: int, b: int| 0 <= a < b < e2.len() implies #[trigger] e2[a].0 < #[trigger] e2[b].0 by {
        assert(m.dom().contains(e[a].0));
        assert(m.dom().contains(e[b].0));
        assert(e[a].0 < e[b].0);
    }
    assert forall|a: int| 0 <= a < e2.len() implies (#[trigger] m2.dom().contains(e2[a].0)) && m2[e2[a].0] == e2[a].1 by {
        assert(m.dom().contains(e[a].0));
    }
    assert forall|k: nat| #[trigger] m2.dom().contains(k) implies exists|a: int| 0 <= a < e2.len() && e2[a].0 == k by {
        let a = choose|a: int| 0 <= a < e.len() && e[a].0 == (k - d) as nat;
        assert(e2[a].0 == k);
    }
}

/// In a sequence with strictly increasing indices, indices at least `b - a` apart sit `b - a`
/// positions apart or more.
proof fn lemma_increasing_gap<T>(e: Seq<(nat, T)>, a: int, b: int)
    requires
        keys_increasing(e),
        0 <= a <= b < e.len(),
    ensures
        e[b].0 - e[a].0 >= b - a,
    decreases b - a,
{
    if a < b {
        lemma_increasing_gap(e, a, b - 1);
        assert(e[b - 1].0 < e[b].0);
    }
}

/// Setting one more entry after the entries of `s`, laid over `m`, is laying `s` with that
/// entry over `m`.
proof fn lemma_union_map_of_push<T>(m: Map<nat, T>, s: Seq<(nat, T)>, x: (nat, T))
    ensures
        m.union_prefer_right(map_of(s)).insert(x.0, x.1) == m.union_prefer_right(map_of(s.push(x))),
{
    assert(s.push(x).drop_last() =~= s);
    assert(m.union_prefer_right(map_of(s)).insert(x.0, x.1) =~= m.union_prefer_right(map_of(s.push(x))));
}

/// Moving the first `a + 1` entries is moving the first `a` and then entry `a`.
proof fn lemma_shift_take_step<T>(e: Seq<(nat, T)>, d: int, a: int)
    requires
        0 <= a < e.len(),
    ensures
        shift_listing(e.take(a + 1), d) == shift_listing(e.take(a), d).push(((e[a].0 + d) as nat, e[a].1)),
{
    assert(shift_listing(e.take(a + 1), d) =~= shift_listing(e.take(a), d).push(((e[a].0 + d) as nat, e[a].1)));
}

/// The map holding the elements of `s` at indices `0, 1, ..., s.len() - 1`.
pub open spec fn dense<T>(s: Seq<T>) -> Map<nat, T> {
    Map::new(|k: nat| k < s.len(), |k: nat| s[k as int])
}

/// A dense map starts at 0, ends just before its length and has as many entries as its
/// length: converting it back to a `Vec` succeeds.
pub proof fn law_dense_bounds<T>(s: Seq<T>)
    ensures
        min_index(dense(s)) == 0,
        index_after(dense(s)) == s.len(),
        dense(s).dom().finite(),
        dense(s).dom().len() == s.len(),
{
    let m = dense(s);
    assert(m.dom() =~= Set::new(|k: nat| k < s.len()));
    let r = Set::new(|k: nat| k < s.len());
    lemma_nat_range_len(s.len());
    if s.len() > 0 {
        assert(m.dom().contains(0));
        assert(m.dom() != Set::<nat>::empty());
        let mn = min_index(m);
        assert(m.dom().contains(0nat) && forall|k2: nat| #[trigger] m.dom().contains(k2) ==> 0 <= k2);
        assert(mn <= 0);
        let last = (s.len() - 1) as nat;
        assert(m.dom().contains(last) && forall|k2: nat| #[trigger] m.dom().contains(k2) ==> k2 <= last);
        let mx = max_index(m);
        assert(mx >= last);
    } else {
        assert(m.dom() =~= Set::<nat>::empty());
    }
}

/// The numbers below `n` form a finite set of `n` elements.
proof fn lemma_nat_range_len(n: nat)
    ensures
        Set::new(|k: nat| k < n).finite(),
        Set::new(|k: nat| k < n).len() == n,
    decreases n,
{
    if n == 0 {
        assert(Set::new(|k: nat| k < n) =~= Set::<nat>::empty());
    } else {
        lemma_nat_range_len((n - 1) as nat);
        assert(Set::new(|k: nat| k < n) =~= Set::new(|k: nat| k < (n - 1) as nat).insert((n - 1) as nat));
    }
}

/// Appending a dense vector to a dense vector gives the dense vector of the concatenation:
/// the elements of the second follow those of the first without a gap.
pub proof fn law_append_dense<T>(s1: Seq<T>, s2: Seq<T>)
    ensures
        dense(s1).union_prefer_right(shift(dense(s2), index_after(dense(s1)) - min_index(dense(s2))))
            == dense(s1 + s2),
{
    law_dense_bounds(s1);
    law_dense_bounds(s2);
    let d1 = dense(s1);
    let sh = shift(dense(s2), s1.len() as int);
    let m = d1.union_prefer_right(sh);
    let t = dense(s1 + s2);
    assert forall|k: nat| #[trigger] m.dom().contains(k) == t.dom().contains(k) by {
        if k >= s1.len() {
            assert(sh.dom().contains(k) == (k - s1.len() < s2.len()));
        }
    }
    assert forall|k: nat| #[trigger] t.dom().contains(k) implies m[k] == t[k] by {
        if k < s1.len() {
            assert(d1.dom().contains(k));
            assert((s1 + s2)[k as int] == s1[k as int]);
        } else {
            assert(sh.dom().contains(k));
            assert(!d1.dom().contains(k));
            assert((s1 + s2)[k as int] == s2[k - s1.len()]);
        }
    }
    assert(m =~= t);
}

/// Setting the entries of a listing, in order, rebuilds the map it lists: a vector made from
/// the entries of another holds the same entries.
pub proof fn law_rebuild_from_listing<T>(e: Seq<(nat, T)>, m: Map<nat, T>)
    requires
        lists_map(e, m),
    ensures
        map_of(e) == m,
{
    lemma_map_of_listing(e, m);
}

/// Laying a map over itself leaves it unchanged: merging a vector with a copy of itself
/// changes nothing.
pub proof fn law_merge_idempotent<T>(m: Map<nat, T>)
    ensures
        m.union_prefer_right(m) == m,
{
    assert(m.union_prefer_right(m) =~= m);
}

/// Merging is associative.
pub proof fn law_merge_associative<T>(a: Map<nat, T>, b: Map<nat, T>, c: Map<nat, T>)
    ensures
        a.union_prefer_right(b).union_prefer_right(c) == a.union_prefer_right(b.union_prefer_right(c)),
{
    assert(a.union_prefer_right(b).union_prefer_right(c) =~= a.union_prefer_right(b.union_prefer_right(c)));
}

/// The maps laid one after another: each moves to start just past the largest index of
/// those before it, keeping its own spacing.
pub open spec fn concat_map<T>(ms: Seq<Map<nat, T>>) -> Map<nat, T>
    decreases ms.len(),
{
    if ms.len() == 0 {
        Map::empty()
    } else {
        let prev = concat_map(ms.drop_last());
        prev.union_prefer_right(shift(ms.last(), index_after(prev) - min_index(ms.last())))
    }
}

/// Laying the map at position `k` after those before it keeps its largest index within
/// reach of the machine word's shifts.
pub open spec fn fits_at<T>(ms: Seq<Map<nat, T>>, k: int) -> bool {
    ms[k].dom() != Set::<nat>::empty() ==> 5 * num_digits(
        (index_after(concat_map(ms.take(k))) + max_index(ms[k]) - min_index(ms[k])) as nat,
    ) < usize::BITS
}

/// Laying the maps one after another keeps the largest index of each within reach of the
/// machine word's shifts.
pub open spec fn concat_fits<T>(ms: Seq<Map<nat, T>>) -> bool {
    forall|k: int| 0 <= k < ms.len() ==> #[trigger] fits_at(ms, k)
}

/// Converting back what was numbered from 0 succeeds: `from_vec(v)` views `dense(v)`, which
/// starts at 0 and has no gaps, which is when `try_into_vec` returns `Ok(w)`; and its entry
/// `k` is `v[k]`, so `w[k]` is a clone of `v[k]` for every `k`.
pub proof fn law_vec_round_trip<T>(v: Seq<T>)
    ensures
        min_index(dense(v)) == 0,
        index_after(dense(v)) == dense(v).dom().len(),
        dense(v).dom().len() == v.len(),
        forall|k: int| 0 <= k < v.len() ==> dense(v)[k as nat] == v[k],
{
    law_dense_bounds(v);
}

/// The sequences one after another.
pub open spec fn flatten<T>(ss: Seq<Seq<T>>) -> Seq<T>
    decreases ss.len(),
{
    if ss.len() == 0 {
        Seq::empty()
    } else {
        flatten(ss.drop_last()) + ss.last()
    }
}

/// Laying dense vectors one after another gives the dense vector of their elements one after
/// another: concatenating lists concatenates them.
pub proof fn law_concat_dense<T>(ss: Seq<Seq<T>>)
    ensures
        concat_map(ss.map_values(|s: Seq<T>| dense(s))) == dense(flatten(ss)),
    decreases ss.len(),
{
    let ms = ss.map_values(|s: Seq<T>| dense(s));
    if ss.len() == 0 {
        assert(dense(flatten(ss)) =~= Map::<nat, T>::empty());
    } else {
        assert(ms.drop_last() =~= ss.drop_last().map_values(|s: Seq<T>| dense(s)));
        law_concat_dense(ss.drop_last());
        assert(ms.last() == dense(ss.last()));
        law_append_dense(flatten(ss.drop_last()), ss.last());
    }
}

/// An index past `usize::MAX` has too many digits.
proof fn lemma_too_big(x: nat)
    requires
        x > usize::MAX,
    ensures
        5 * num_digits(x) >= usize::BITS,
{
    let l = num_digits(x);
    if 5 * l < usize::BITS {
        lemma_capacity_fits(l);
        lemma_num_digits_capacity(x, l);
    }
}

/// A sparse vector: a persistent map from `usize` indices to values, stored as a trie with
/// `BRANCH`-way branches that shares structure between copies.
#[derive(Debug, Hash, PartialEq, Eq)]
pub struct SparseVec<T> {
    root: Arc<Node<T>>,
    level: usize,
}

impl<T> Clone for SparseVec<T> {
    /// A copy that shares the trie with this vector.
    fn clone(&self) -> (r: Self)
        ensures
            r == *self,
    {
        proof {
            use_type_invariant(self);
        }
        SparseVec { root: arc_clone(&self.root), level: self.level }
    }
}

impl<T> View for SparseVec<T> {
    type V = Map<nat, T>;

    /// The indices that fit in `level` digits and that a lookup finds, with their values.
    closed spec fn view(&self) -> Map<nat, T> {
        Map::new(
            |k: nat| num_digits(k) <= self.level && node_lookup(*self.root, k, self.level as int) is Some,
            |k: nat| node_lookup(*self.root, k, self.level as int)->0,
        )
    }
}

impl<T> SparseVec<T> {
    /// The trie is well formed at its level, its root holds nothing but slot 0, and its level
    /// is low enough that every digit shift fits in a `usize`.
    #[verifier::type_invariant]
    pub closed spec fn wf(&self) -> bool {
        &&& 5 * self.level < usize::BITS
        &&& node_wf(*self.root, self.level as int)
        &&& root_single(*self.root)
    }

    /// The entries of the vector in increasing order of index.
    pub closed spec fn listing(&self) -> Seq<(nat, T)> {
        node_entries(*self.root, 0)
    }

    /// The listing lists exactly the entries of the map, in increasing order of index; the
    /// map is finite, with as many entries as the listing, all below `32^level`.
    proof fn lemma_root(&self)
        requires
            self.wf(),
        ensures
            lists_map(self.listing(), self@),
            self.listing().len() == node_size(*self.root),
            self@.dom().finite(),
            self@.dom().len() == self.listing().len(),
            self.listing().len() <= capacity(self.level as nat),
            forall|k: nat| #[trigger] self@.dom().contains(k) ==> k < capacity(self.level as nat),
    {
        let l = self.level as nat;
        let root = *self.root;
        lemma_node_entries(root, 0, l as int);
        let e = self.listing();
        assert forall|a: int| 0 <= a < e.len() implies (#[trigger] self@.dom().contains(e[a].0)) && self@[e[a].0]
            == e[a].1 by {
            let k = e[a].0;
            lemma_high_decompose(k, l);
            if digit(k, l) != 0 {
                match root {
                    Node::Branch(xs) => {
                        assert(xs@[digit(k, l) as int] is None);
                    },
                    Node::Leaf(_) => {},
                }
            }
            lemma_high_zero(k, l);
        }
        assert forall|k: nat| #[trigger] self@.dom().contains(k) implies exists|a: int|
            0 <= a < e.len() && e[a].0 == k by {
            lemma_high_zero(k, l);
            lemma_high_succ(k, l);
        }
        let keys = e.map_values(|x: (nat, T)| x.0);
        assert(self@.dom() =~= keys.to_set()) by {
            assert forall|k: nat| self@.dom().contains(k) implies keys.to_set().contains(k) by {
                let a = choose|a: int| 0 <= a < e.len() && e[a].0 == k;
                assert(keys[a] == k);
            }
        }
        assert(keys.no_duplicates()) by {
            assert forall|a: int, b: int| 0 <= a < keys.len() && 0 <= b < keys.len() && a != b implies keys[a]
                != keys[b] by {
                if a < b {
                    assert(e[a].0 < e[b].0);
                } else {
                    assert(e[b].0 < e[a].0);
                }
            }
        }
        keys.unique_seq_to_set();
        assert forall|k: nat| #[trigger] self@.dom().contains(k) implies k < capacity(l) by {
            lemma_num_digits_capacity(k, l);
        }
        if e.len() > 0 {
            lemma_increasing_ge_position(e, e.len() - 1);
            assert(self@.dom().contains(e[e.len() - 1].0));
        }
    }

    /// The root fits the `usize` index range at the vector's level.
    proof fn lemma_root_fits(&self)
        requires
            self.wf(),
        ensures
            prefix_fits(*self.root, 0, self.level as int),
            capacity(self.level as nat) <= usize::MAX,
    {
        lemma_capacity_fits(self.level as nat);
        match *self.root {
            Node::Branch(xs) => {
                assert forall|c: int|
                    0 <= c < 32 && c < xs@.len() && #[trigger] xs@[c] is Some implies (32 * 0 + c + 1) * capacity(
                        self.level as nat,
                    ) <= usize::MAX + 1 by {
                    assert(c == 0);
                    let cl = capacity(self.level as nat);
                    assert((32 * 0 + c + 1) * cl == cl) by (nonlinear_arith)
                        requires
                            c == 0,
                    ;
                }
            },
            Node::Leaf(_) => {},
        }
    }

    /// An empty vector.
    pub fn new() -> (r: Self)
        ensures
            r@ == Map::<nat, T>::empty(),
    {
        let r = SparseVec { root: Arc::new(Node::Branch(empty_slots())), level: 0 };
        assert(r@ =~= Map::<nat, T>::empty());
        r
    }

    /// A vector holding the shared value `v` at index `i` and nothing else.
    pub fn unit_arc(i: usize, v: Arc<T>) -> (r: Self)
        requires
            5 * num_digits(i as nat) < usize::BITS,
        ensures
            r@ == map![i as nat => *v],
    {
        let ghost gv = pointee(v);
        let top = find_level(i);
        let mut child: Node<T> = Node::Leaf(v);
        assert forall|k: nat| high_digits(k, 0) == high_digits(i as nat, 0) implies (#[trigger] node_lookup(child, k, -1))
            == (if k == i { Some(gv) } else { None }) by {}
        let mut lvl: usize = 0;
        while lvl <= top
            invariant
                lvl <= top + 1,
                top == num_digits(i as nat),
                5 * top < usize::BITS,
                node_wf(child, lvl - 1),
                forall|k: nat| high_digits(k, lvl as nat) == high_digits(i as nat, lvl as nat) ==>
                    (#[trigger] node_lookup(child, k, lvl - 1)) == (if k == i { Some(gv) } else { None }),
                lvl > 0 ==> (child matches Node::Branch(xs) && forall|c: int| 0 <= c < 32 && c != digit(i as nat, (lvl - 1) as nat) ==> #[trigger] xs@[c] is None),
            decreases top + 1 - lvl,
        {
            let ghost old_child = child;
            let mut xs = empty_slots();
            let d = level_bits(i, lvl);
            xs.set(d, Some(Arc::new(child)));
            child = Node::Branch(xs);
            assert forall|k: nat| high_digits(k, (lvl + 1) as nat) == high_digits(i as nat, (lvl + 1) as nat) implies
                (#[trigger] node_lookup(child, k, lvl as int)) == (if k == i { Some(gv) } else { None }) by {
                lemma_high_decompose(k, lvl as nat);
                lemma_high_decompose(i as nat, lvl as nat);
                assert(node_lookup(child, k, lvl as int) == branch_lookup(xs@, k, lvl as int));
                if digit(k, lvl as nat) == d {
                    assert(high_digits(k, lvl as nat) == high_digits(i as nat, lvl as nat));
                    assert(xs@[d as int] == Some(Arc::new(old_child)));
                    assert(branch_lookup(xs@, k, lvl as int) == node_lookup(old_child, k, lvl - 1));
                    assert(node_lookup(old_child, k, lvl - 1) == (if k == i { Some(gv) } else { None }));
                } else {
                    assert(k != i);
                }
            }
            lvl += 1;
        }
        proof {
            lemma_high_zero(i as nat, top as nat);
            lemma_high_decompose(i as nat, top as nat);
        }
        let r = SparseVec { root: Arc::new(child), level: top };
        proof {
            assert forall|k: nat| num_digits(k) <= top implies (#[trigger] node_lookup(child, k, top as int)) == (if k == i { Some(gv) } else { None }) by {
                lemma_high_zero(k, (top + 1) as nat);
                lemma_high_zero(i as nat, (top + 1) as nat);
            }
            assert(r@ =~= map![i as nat => gv]);
        }
        r
    }

    /// A vector holding `v` at index `i` and nothing else.
    pub fn unit(i: usize, v: T) -> (r: Self)
        requires
            5 * num_digits(i as nat) < usize::BITS,
        ensures
            r@ == map![i as nat => v],
    {
        Self::unit_arc(i, Arc::new(v))
    }

    /// Put one more level above the root, keeping the entries.
    fn add_level(&mut self)
        requires
            old(self).wf(),
            5 * (old(self).level + 1) < usize::BITS,
        ensures
            final(self).wf(),
            final(self)@ == old(self)@,
            final(self).level == old(self).level + 1,
    {
        let ghost old_root = pointee(self.root);
        let ghost l = self.level as nat;
        let ghost m0 = self@;
        let mut branch = empty_slots();
        branch.set(0, Some(arc_clone(&self.root)));
        let lvl = self.level + 1;
        *self = SparseVec { root: Arc::new(Node::Branch(branch)), level: lvl };
        proof {
            assert forall|k: nat| (#[trigger] self@.dom().contains(k)) == m0.dom().contains(k) && (m0.dom().contains(k) ==> self@[k] == m0[k]) by {
                lemma_high_zero(k, l);
                lemma_high_zero(k, l + 1);
                lemma_high_decompose(k, l);
                lemma_high_decompose(k, l + 1);
                if num_digits(k) <= l + 1 {
                    assert(node_lookup(*self.root, k, (l + 1) as int) == node_lookup(old_root, k, l as int));
                    if num_digits(k) > l {
                        match old_root {
                            Node::Branch(xs) => {
                                assert(xs@[digit(k, l) as int] is None);
                            },
                            Node::Leaf(_) => {},
                        }
                    }
                }
            }
            assert(self@ =~= m0);
        }
    }

    /// Lay `other` over this vector: afterwards it holds the entries of both, with the value
    /// from `other` where both have an index.
    pub fn merge(&mut self, other: Self)
        ensures
            final(self)@ == old(self)@.union_prefer_right(other@),
    {
        proof {
            use_type_invariant(&*self);
            use_type_invariant(&other);
        }
        let ghost m0 = self@;
        let ghost m1 = other@;
        let mut other = other;
        while self.level < other.level
            invariant
                self.wf(),
                other.wf(),
                self@ == m0,
                other@ == m1,
            decreases other.level - self.level,
        {
            self.add_level();
        }
        while other.level < self.level
            invariant
                other.level <= self.level,
                self.wf(),
                other.wf(),
                self@ == m0,
                other@ == m1,
            decreases self.level - other.level,
        {
            other.add_level();
        }
        let ghost old_root = pointee(self.root);
        let merged = self.root.merged(&other.root, Ghost(self.level as int));
        let ghost gm = merged;
        let ghost other_root = pointee(other.root);
        self.root = Arc::new(merged);
        proof {
            match (old_root, other_root, gm) {
                (Node::Branch(xs), Node::Branch(ys), Node::Branch(zs)) => {
                    assert forall|c: int| 1 <= c < zs@.len() implies #[trigger] zs@[c] is None by {
                        assert(xs@[c] is None && ys@[c] is None);
                    }
                },
                _ => {},
            }
            assert(self@ =~= m0.union_prefer_right(m1));
        }
    }

    /// Set index `i` to `v`.
    pub fn insert(&mut self, i: usize, v: T)
        requires
            5 * num_digits(i as nat) < usize::BITS,
        ensures
            final(self)@ == old(self)@.insert(i as nat, v),
    {
        proof {
            use_type_invariant(&*self);
        }
        let ghost m0 = self@;
        self.merge(Self::unit(i, v));
        assert(self@ =~= m0.insert(i as nat, v));
    }

    /// Set index `i` to the shared value `v`.
    pub fn insert_arc(&mut self, i: usize, v: Arc<T>)
        requires
            5 * num_digits(i as nat) < usize::BITS,
        ensures
            final(self)@ == old(self)@.insert(i as nat, *v),
    {
        proof {
            use_type_invariant(&*self);
        }
        let ghost m0 = self@;
        let ghost gv = pointee(v);
        self.merge(Self::unit_arc(i, v));
        assert(self@ =~= m0.insert(i as nat, gv));
    }

    /// Number of entries.
    pub fn count(&self) -> (r: usize)
        ensures
            r == self@.dom().len(),
    {
        proof {
            use_type_invariant(self);
        }
        proof {
            self.lemma_root();
            lemma_capacity_fits(self.level as nat);
        }
        self.root.count(Ghost(self.level as int))
    }

    /// The entries with shared values, in increasing order of index.
    pub fn entries_arc(&self) -> (r: Vec<(usize, Arc<T>)>)
        ensures
            arc_listing(r@) == self.listing(),
            lists_map(arc_listing(r@), self@),
    {
        proof {
            use_type_invariant(self);
        }
        proof {
            self.lemma_root();
            self.lemma_root_fits();
        }
        self.root.entries_arc(0, Ghost(self.level as int))
    }

    /// The entries with borrowed values, in increasing order of index.
    pub fn entries(&self) -> (r: Vec<(usize, &T)>)
        ensures
            ref_listing(r@) == self.listing(),
            lists_map(ref_listing(r@), self@),
    {
        proof {
            use_type_invariant(self);
        }
        proof {
            self.lemma_root();
            self.lemma_root_fits();
        }
        self.root.entries(0, Ghost(self.level as int))
    }

    /// The value at index `i`, if any.
    pub fn get(&self, i: usize) -> (r: Option<&T>)
        ensures
            r is Some <==> self@.dom().contains(i as nat),
            r matches Some(v) ==> *v == self@[i as nat],
    {
        proof {
            use_type_invariant(self);
        }
        if find_level(i) > self.level {
            return None;
        }
        let ghost root = pointee(self.root);
        let ghost top = self.level;
        let mut node: &Node<T> = &*self.root;
        let mut lvl: usize = self.level;
        loop
            invariant
                lvl <= top,
                5 * top < usize::BITS,
                node is Branch ==> node_wf(*node, lvl as int) && node_lookup(*node, i as nat, lvl as int)
                    == node_lookup(root, i as nat, top as int),
                node matches Node::Leaf(v) ==> node_lookup(root, i as nat, top as int) == Some(**v),
                num_digits(i as nat) <= top,
                self@.dom().contains(i as nat) == (node_lookup(root, i as nat, top as int) is Some),
                node_lookup(root, i as nat, top as int) is Some ==> self@[i as nat] == node_lookup(root, i as nat, top as int)->0,
            decreases (if node is Branch { 2 * lvl + 1 } else { 0 }),
        {
            match node {
                Node::Leaf(v) => {
                    return Some(&**v);
                },
                Node::Branch(xs) => {
                    let d = level_bits(i, lvl);
                    match &xs[d] {
                        Some(node2) => {
                            proof {
                                assert(xs@[d as int] == Some(*node2));
                                assert(node_wf(**node2, lvl - 1));
                                assert(node_lookup(*node, i as nat, lvl as int) == node_lookup(**node2, i as nat, lvl - 1));
                            }
                            node = &**node2;
                            if let Node::Branch(_) = node {
                                lvl = lvl - 1;
                            }
                        },
                        None => {
                            return None;
                        },
                    }
                },
            }
        }
    }

    /// The listing of a well-formed vector lists exactly its map, in increasing order of
    /// index; the map is finite, with as many entries as the listing.
    pub proof fn lemma_listing(&self)
        requires
            self.wf(),
        ensures
            lists_map(self.listing(), self@),
            self@.dom().finite(),
            self@.dom().len() == self.listing().len(),
    {
        self.lemma_root();
    }

    /// The smallest index and the largest, where the vector is not empty.
    proof fn lemma_ends(&self)
        requires
            self.wf(),
        ensures
            self.listing().len() == 0 <==> self@.dom() == Set::<nat>::empty(),
            self.listing().len() > 0 ==> self.listing()[0].0 == min_index(self@),
            self.listing().len() > 0 ==> self.listing()[self.listing().len() - 1].0 == max_index(self@),
            self.listing().len() > 0 ==> max_index(self@) < capacity(self.level as nat),
            self.listing().len() > 0 ==> self@.dom().contains(min_index(self@)) && self@.dom().contains(max_index(self@)),
            forall|k2: nat| #[trigger] self@.dom().contains(k2) ==> min_index(self@) <= k2 <= max_index(self@),
    {
        self.lemma_root();
        let e = self.listing();
        let m = self@;
        if e.len() == 0 {
            assert(m.dom() =~= Set::<nat>::empty()) by {
                assert forall|k: nat| !m.dom().contains(k) by {
                    if m.dom().contains(k) {
                        let a = choose|a: int| 0 <= a < e.len() && e[a].0 == k;
                    }
                }
            }
        } else {
            assert(m.dom().contains(e[0].0));
            assert(m.dom() != Set::<nat>::empty());
            let first = e[0].0;
            let last = e[e.len() - 1].0;
            assert(m.dom().contains(last));
            assert forall|k2: nat| #[trigger] m.dom().contains(k2) implies first <= k2 && k2 <= last by {
                let a = choose|a: int| 0 <= a < e.len() && e[a].0 == k2;
                if a > 0 {
                    assert(e[0].0 < e[a].0);
                }
                if a < e.len() - 1 {
                    assert(e[a].0 < e[e.len() - 1].0);
                }
            }
            let mn = min_index(m);
            let mx = max_index(m);
            assert(m.dom().contains(mn) && forall|k2: nat| #[trigger] m.dom().contains(k2) ==> mn <= k2);
            assert(m.dom().contains(mx) && forall|k2: nat| #[trigger] m.dom().contains(k2) ==> k2 <= mx);
        }
    }

    /// Every index lies between the smallest and the largest, below `32^level`.
    proof fn lemma_bounds(&self)
        requires
            self.wf(),
        ensures
            forall|k: nat| #[trigger] self@.dom().contains(k) ==> min_index(self@) <= k <= max_index(self@)
                && k < capacity(self.level as nat),
            capacity(self.level as nat) < i64::MAX,
            index_after(self@) <= capacity(self.level as nat),
            min_index(self@) < capacity(self.level as nat),
    {
        self.lemma_root();
        self.lemma_ends();
        lemma_capacity_fits(self.level as nat);
        lemma_capacity_mono(0, self.level as nat);
    }

    /// The smallest index, if the vector is not empty.
    pub fn first_index(&self) -> (r: Option<usize>)
        ensures
            r == (if self@.dom() == Set::<nat>::empty() {
                None
            } else {
                Some(min_index(self@) as usize)
            }),
    {
        proof {
            use_type_invariant(self);
        }
        proof {
            self.lemma_ends();
        }
        let es = self.entries();
        if es.len() == 0 {
            None
        } else {
            Some(es[0].0)
        }
    }

    /// The largest index, if the vector is not empty.
    pub fn last_index(&self) -> (r: Option<usize>)
        ensures
            r == (if self@.dom() == Set::<nat>::empty() {
                None
            } else {
                Some(max_index(self@) as usize)
            }),
    {
        proof {
            use_type_invariant(self);
        }
        proof {
            self.lemma_ends();
        }
        let es = self.entries();
        if es.len() == 0 {
            None
        } else {
            Some(es[es.len() - 1].0)
        }
    }

    /// The smallest index, or 0 for an empty vector.
    pub fn start_index(&self) -> (r: usize)
        ensures
            r == min_index(self@),
    {
        proof {
            use_type_invariant(self);
        }
        proof {
            self.lemma_ends();
            self.lemma_root_fits();
            self.lemma_root();
            let e = self.listing();
            if e.len() > 1 {
                assert(e[0].0 < e[e.len() - 1].0);
            }
        }
        match self.first_index() {
            Some(i) => i,
            None => 0,
        }
    }

    /// The index just past the largest one, or 0 for an empty vector.
    pub fn next_index(&self) -> (r: usize)
        ensures
            r == index_after(self@),
    {
        proof {
            use_type_invariant(self);
        }
        proof {
            self.lemma_ends();
            self.lemma_root_fits();
        }
        match self.last_index() {
            Some(i) => i + 1,
            None => 0,
        }
    }

    /// The values in increasing order of index, without their indices.
    pub fn unsparse(&self) -> (r: Vec<&T>)
        ensures
            r@.len() == self.listing().len(),
            forall|a: int| 0 <= a < r@.len() ==> *r@[a] == self.listing()[a].1,
    {
        proof {
            use_type_invariant(self);
        }
        let es = self.entries();
        let mut r: Vec<&T> = Vec::new();
        for a in 0..es.len()
            invariant
                ref_listing(es@) == self.listing(),
                r@.len() == a,
                forall|b: int| 0 <= b < a ==> *r@[b] == self.listing()[b].1,
        {
            r.push(es[a].1);
        }
        r
    }

    /// A vector holding the given entries, with shared values; where an index comes more than
    /// once, the last entry for it wins.
    pub fn from_entries_arc(xs: Vec<(usize, Arc<T>)>) -> (r: Self)
        requires
            forall|a: int| 0 <= a < xs@.len() ==> 5 * num_digits(#[trigger] xs@[a].0 as nat) < usize::BITS,
        ensures
            r@ == map_of(arc_listing(xs@)),
    {
        let ghost s = xs@;
        let mut res = Self::new();
        for p in it: xs
            invariant
                it.seq() == s,
                forall|a: int| 0 <= a < s.len() ==> 5 * num_digits(#[trigger] s[a].0 as nat) < usize::BITS,
                res@ == map_of(arc_listing(s.take(it.index() as int))),
        {
            let ghost n = it.index() as int;
            assert(res@ == map_of(arc_listing(s.take(n))));
            assert(arc_listing(s.take(n + 1)) =~= arc_listing(s.take(n)).push((p.0 as nat, *p.1)));
            let (i, x) = p;
            let ghost gx = pointee(x);
            let ghost m0 = res@;
            res.merge(Self::unit_arc(i, x));
            assert(res@ =~= m0.insert(i as nat, gx));
            assert(arc_listing(s.take(n + 1)).drop_last() =~= arc_listing(s.take(n)));
        }
        assert(s.take(s.len() as int) =~= s);
        res
    }

    /// A vector holding the given entries; where an index comes more than once, the last
    /// entry for it wins.
    pub fn from_entries(xs: Vec<(usize, T)>) -> (r: Self)
        requires
            forall|a: int| 0 <= a < xs@.len() ==> 5 * num_digits(#[trigger] xs@[a].0 as nat) < usize::BITS,
        ensures
            r@ == map_of(pair_listing(xs@)),
    {
        let ghost s = xs@;
        let mut res = Self::new();
        for p in it: xs
            invariant
                it.seq() == s,
                forall|a: int| 0 <= a < s.len() ==> 5 * num_digits(#[trigger] s[a].0 as nat) < usize::BITS,
                res@ == map_of(pair_listing(s.take(it.index() as int))),
        {
            let ghost n = it.index() as int;
            assert(pair_listing(s.take(n + 1)) =~= pair_listing(s.take(n)).push((p.0 as nat, p.1)));
            assert(pair_listing(s.take(n + 1)).drop_last() =~= pair_listing(s.take(n)));
            let (i, x) = p;
            let ghost gx = x;
            let ghost m0 = res@;
            res.merge(Self::unit(i, x));
            assert(res@ =~= m0.insert(i as nat, gx));
        }
        assert(s.take(s.len() as int) =~= s);
        res
    }

    /// Indices listed by a well-formed vector fit the digit range of any vector.
    proof fn lemma_keys_fit(&self)
        requires
            self.wf(),
        ensures
            forall|k: nat| #[trigger] self@.dom().contains(k) ==> 5 * num_digits(k) < usize::BITS,
    {
        self.lemma_root();
        assert forall|k: nat| #[trigger] self@.dom().contains(k) implies 5 * num_digits(k) < usize::BITS by {
            lemma_num_digits_capacity(k, self.level as nat);
        }
    }

    /// A vector holding `f(i, v)` at each index `i` that holds `v`.
    pub fn map_indexed<D, F: Fn(usize, &T) -> D>(&self, f: F) -> (r: SparseVec<D>)
        requires
            forall|k: nat| #[trigger] self@.dom().contains(k) ==> f.requires((k as usize, &self@[k])),
        ensures
            r@.dom() == self@.dom(),
            forall|k: nat| #[trigger] self@.dom().contains(k) ==> f.ensures((k as usize, &self@[k]), r@[k]),
    {
        proof {
            use_type_invariant(self);
        }
        proof {
            self.lemma_root();
            self.lemma_keys_fit();
        }
        let es = self.entries();
        let ghost e = self.listing();
        let mut out: Vec<(usize, D)> = Vec::new();
        for a in 0..es.len()
            invariant
                ref_listing(es@) == e,
                lists_map(e, self@),
                forall|k: nat| #[trigger] self@.dom().contains(k) ==> f.requires((k as usize, &self@[k])),
                out@.len() == a,
                forall|b: int| 0 <= b < a ==> (#[trigger] out@[b]).0 == e[b].0 && f.ensures((out@[b].0, &self@[e[b].0]), out@[b].1),
        {
            let (i, x) = es[a];
            proof {
                assert(self@.dom().contains(e[a as int].0));
            }
            let y = f(i, x);
            out.push((i, y));
        }
        let ghost ol = pair_listing(out@);
        proof {
            assert forall|a: int| 0 <= a < out@.len() implies 5 * num_digits(#[trigger] out@[a].0 as nat) < usize::BITS by {
                assert(self@.dom().contains(e[a].0));
            }
            assert(keys_increasing(ol)) by {
                assert forall|a: int, b: int| 0 <= a < b < ol.len() implies #[trigger] ol[a].0 < #[trigger] ol[b].0 by {
                    assert(e[a].0 < e[b].0);
                }
            }
            lemma_map_of_increasing(ol);
        }
        let r = SparseVec::from_entries(out);
        proof {
            assert forall|k: nat| r@.dom().contains(k) <==> self@.dom().contains(k) by {
                if r@.dom().contains(k) {
                    let a = choose|a: int| 0 <= a < ol.len() && ol[a].0 == k;
                    assert(self@.dom().contains(e[a].0));
                }
                if self@.dom().contains(k) {
                    let a = choose|a: int| 0 <= a < e.len() && e[a].0 == k;
                    assert(r@.dom().contains(ol[a].0));
                }
            }
            assert(r@.dom() =~= self@.dom());
            assert forall|k: nat| #[trigger] self@.dom().contains(k) implies f.ensures((k as usize, &self@[k]), r@[k]) by {
                let a = choose|a: int| 0 <= a < e.len() && e[a].0 == k;
                assert(r@.dom().contains(ol[a].0));
            }
        }
        r
    }

    /// The entries whose index `f` accepts, sharing their values with this vector.
    pub fn retain<F: Fn(usize) -> bool>(&self, f: F) -> (r: Self)
        requires
            forall|k: nat| #[trigger] self@.dom().contains(k) ==> f.requires((k as usize,)),
        ensures
            forall|k: nat| #[trigger] r@.dom().contains(k) ==> self@.dom().contains(k) && r@[k] == self@[k]
                && f.ensures((k as usize,), true),
            forall|k: nat| #[trigger] self@.dom().contains(k) && !r@.dom().contains(k) ==> f.ensures(
                (k as usize,),
                false,
            ),
    {
        proof {
            use_type_invariant(self);
        }
        proof {
            self.lemma_root();
            self.lemma_keys_fit();
        }
        let es = self.entries_arc();
        let ghost e = self.listing();
        let mut out: Vec<(usize, Arc<T>)> = Vec::new();
        let mut a: usize = 0;
        while a < es.len()
            invariant
                a <= es@.len(),
                arc_listing(es@) == e,
                lists_map(e, self@),
                forall|k: nat| #[trigger] self@.dom().contains(k) ==> f.requires((k as usize,)),
                forall|b: int| #![trigger out@[b]] 0 <= b < out@.len() ==> exists|c: int| #![trigger e[c]] 0 <= c < a && out@[b].0 == e[c].0,
                keys_increasing(arc_listing(out@)),
                forall|b: int| 0 <= b < out@.len() ==> *(#[trigger] out@[b]).1 == self@[out@[b].0 as nat] && f.ensures((out@[b].0,), true),
                forall|c: int| 0 <= c < a ==> f.ensures((#[trigger] e[c].0 as usize,), false) || exists|b: int| 0 <= b < out@.len() && out@[b].0 == e[c].0,
            decreases es@.len() - a,
        {
            let i = es[a].0;
            proof {
                assert(self@.dom().contains(e[a as int].0));
            }
            if f(i) {
                let ghost o0 = out@;
                out.push((i, arc_clone(&es[a].1)));
                proof {
                    assert forall|b: int| #![trigger out@[b]] 0 <= b < out@.len() implies exists|c: int| #![trigger e[c]] 0 <= c < a + 1 && out@[b].0 == e[c].0 by {
                        if b < o0.len() {
                            assert(out@[b] == o0[b]);
                        } else {
                            assert(out@[b].0 == e[a as int].0);
                        }
                    }
                    assert(keys_increasing(arc_listing(out@))) by {
                        assert forall|b1: int, b2: int| 0 <= b1 < b2 < out@.len() implies #[trigger] arc_listing(out@)[b1].0 < #[trigger] arc_listing(out@)[b2].0 by {
                            if b2 == o0.len() {
                                let c = choose|c: int| 0 <= c < a && o0[b1].0 == e[c].0;
                                assert(e[c].0 < e[a as int].0);
                            } else {
                                assert(arc_listing(o0)[b1].0 < arc_listing(o0)[b2].0);
                            }
                        }
                    }
                    assert forall|c: int| 0 <= c < a + 1 implies f.ensures((#[trigger] e[c].0 as usize,), false) || exists|b: int| 0 <= b < out@.len() && out@[b].0 == e[c].0 by {
                        if c == a {
                            assert(out@[o0.len() as int].0 == e[c].0);
                        } else if !f.ensures((e[c].0 as usize,), false) {
                            let b = choose|b: int| 0 <= b < o0.len() && o0[b].0 == e[c].0;
                            assert(out@[b] == o0[b]);
                        }
                    }
                }
            }
            a += 1;
        }
        let ghost ol = arc_listing(out@);
        proof {
            assert forall|a: int| 0 <= a < out@.len() implies 5 * num_digits(#[trigger] out@[a].0 as nat) < usize::BITS by {
                let c = choose|c: int| 0 <= c < es@.len() && out@[a].0 == e[c].0;
                assert(self@.dom().contains(e[c].0));
            }
            lemma_map_of_increasing(ol);
        }
        let r = SparseVec::from_entries_arc(out);
        proof {
            assert forall|k: nat| #[trigger] r@.dom().contains(k) implies self@.dom().contains(k) && r@[k] == self@[k]
                && f.ensures((k as usize,), true) by {
                let b = choose|b: int| 0 <= b < ol.len() && ol[b].0 == k;
                let c = choose|c: int| 0 <= c < es@.len() && out@[b].0 == e[c].0;
                assert(self@.dom().contains(e[c].0));
            }
            assert forall|k: nat| #[trigger] self@.dom().contains(k) && !r@.dom().contains(k) implies f.ensures((k as usize,), false) by {
                let c = choose|c: int| 0 <= c < e.len() && e[c].0 == k;
                if !f.ensures((e[c].0 as usize,), false) {
                    let b = choose|b: int| 0 <= b < out@.len() && out@[b].0 == e[c].0;
                    assert(r@.dom().contains(ol[b].0));
                }
            }
        }
        r
    }

    /// A vector holding `x` at each index `i` of this vector for which `f(i)` gives `Some(x)`.
    pub fn bake<D, F: Fn(usize) -> Option<D>>(&self, f: F) -> (r: SparseVec<D>)
        requires
            forall|k: nat| #[trigger] self@.dom().contains(k) ==> f.requires((k as usize,)),
        ensures
            forall|k: nat| #[trigger] r@.dom().contains(k) ==> self@.dom().contains(k) && f.ensures(
                (k as usize,),
                Some(r@[k]),
            ),
            forall|k: nat| #[trigger] self@.dom().contains(k) && !r@.dom().contains(k) ==> f.ensures(
                (k as usize,),
                None,
            ),
    {
        proof {
            use_type_invariant(self);
        }
        proof {
            self.lemma_root();
            self.lemma_keys_fit();
        }
        let es = self.entries();
        let ghost e = self.listing();
        let mut out: Vec<(usize, D)> = Vec::new();
        let mut a: usize = 0;
        while a < es.len()
            invariant
                a <= es@.len(),
                ref_listing(es@) == e,
                lists_map(e, self@),
                forall|k: nat| #[trigger] self@.dom().contains(k) ==> f.requires((k as usize,)),
                forall|b: int| #![trigger out@[b]] 0 <= b < out@.len() ==> exists|c: int| #![trigger e[c]] 0 <= c < a && out@[b].0 == e[c].0,
                keys_increasing(pair_listing(out@)),
                forall|b: int| 0 <= b < out@.len() ==> f.ensures(((#[trigger] out@[b]).0,), Some(out@[b].1)),
                forall|c: int| 0 <= c < a ==> f.ensures((#[trigger] e[c].0 as usize,), None) || exists|b: int| 0 <= b < out@.len() && out@[b].0 == e[c].0,
            decreases es@.len() - a,
        {
            let i = es[a].0;
            proof {
                assert(self@.dom().contains(e[a as int].0));
            }
            match f(i) {
                Some(x) => {
                    let ghost o0 = out@;
                    out.push((i, x));
                    proof {
                        assert forall|b: int| #![trigger out@[b]] 0 <= b < out@.len() implies exists|c: int| #![trigger e[c]] 0 <= c < a + 1 && out@[b].0 == e[c].0 by {
                            if b < o0.len() {
                                assert(out@[b] == o0[b]);
                            } else {
                                assert(out@[b].0 == e[a as int].0);
                            }
                        }
                        assert(keys_increasing(pair_listing(out@))) by {
                            assert forall|b1: int, b2: int| 0 <= b1 < b2 < out@.len() implies #[trigger] pair_listing(out@)[b1].0 < #[trigger] pair_listing(out@)[b2].0 by {
                                if b2 == o0.len() {
                                    let c = choose|c: int| 0 <= c < a && o0[b1].0 == e[c].0;
                                    assert(e[c].0 < e[a as int].0);
                                } else {
                                    assert(pair_listing(o0)[b1].0 < pair_listing(o0)[b2].0);
                                }
                            }
                        }
                        assert forall|c: int| 0 <= c < a + 1 implies f.ensures((#[trigger] e[c].0 as usize,), None) || exists|b: int| 0 <= b < out@.len() && out@[b].0 == e[c].0 by {
                            if c == a {
                                assert(out@[o0.len() as int].0 == e[c].0);
                            } else if !f.ensures((e[c].0 as usize,), None) {
                                let b = choose|b: int| 0 <= b < o0.len() && o0[b].0 == e[c].0;
                                assert(out@[b] == o0[b]);
                            }
                        }
                    }
                },
                None => {},
            }
            a += 1;
        }
        let ghost ol = pair_listing(out@);
        proof {
            assert forall|a: int| 0 <= a < out@.len() implies 5 * num_digits(#[trigger] out@[a].0 as nat) < usize::BITS by {
                let c = choose|c: int| 0 <= c < es@.len() && out@[a].0 == e[c].0;
                assert(self@.dom().contains(e[c].0));
            }
            lemma_map_of_increasing(ol);
        }
        let r = SparseVec::from_entries(out);
        proof {
            assert forall|k: nat| #[trigger] r@.dom().contains(k) implies self@.dom().contains(k) && f.ensures((k as usize,), Some(r@[k])) by {
                let b = choose|b: int| 0 <= b < ol.len() && ol[b].0 == k;
                let c = choose|c: int| 0 <= c < es@.len() && out@[b].0 == e[c].0;
                assert(self@.dom().contains(e[c].0));
            }
            assert forall|k: nat| #[trigger] self@.dom().contains(k) && !r@.dom().contains(k) implies f.ensures((k as usize,), None) by {
                let c = choose|c: int| 0 <= c < e.len() && e[c].0 == k;
                if !f.ensures((e[c].0 as usize,), None) {
                    let b = choose|b: int| 0 <= b < out@.len() && out@[b].0 == e[c].0;
                    assert(r@.dom().contains(ol[b].0));
                }
            }
        }
        r
    }

    /// Set each entry of `es` with its index moved by `offset`, in order.
    fn insert_shifted(&mut self, es: &Vec<(usize, Arc<T>)>, offset: i64)
        requires
            forall|a: int| 0 <= a < es@.len() ==> 0 <= #[trigger] es@[a].0 + offset,
            forall|a: int| 0 <= a < es@.len() ==> #[trigger] es@[a].0 < i64::MAX,
            forall|a: int| 0 <= a < es@.len() ==> 5 * num_digits((#[trigger] es@[a].0 + offset) as nat) < usize::BITS,
        ensures
            final(self)@ == old(self)@.union_prefer_right(map_of(shift_listing(arc_listing(es@), offset as int))),
    {
        let ghost m0 = self@;
        let ghost e = arc_listing(es@);
        let ghost d = offset as int;
        assert(shift_listing(e.take(0), d) =~= Seq::<(nat, T)>::empty());
        assert(m0.union_prefer_right(map_of(shift_listing(e.take(0), d))) =~= m0);
        let mut a: usize = 0;
        while a < es.len()
            invariant
                a <= es@.len(),
                e == arc_listing(es@),
                d == offset,
                forall|b: int| 0 <= b < es@.len() ==> 0 <= #[trigger] es@[b].0 + offset,
                forall|b: int| 0 <= b < es@.len() ==> #[trigger] es@[b].0 < i64::MAX,
                forall|b: int| 0 <= b < es@.len() ==> 5 * num_digits((#[trigger] es@[b].0 + offset) as nat) < usize::BITS,
                self@ == m0.union_prefer_right(map_of(shift_listing(e.take(a as int), d))),
            decreases es@.len() - a,
        {
            let i = es[a].0;
            proof {
                let nd = num_digits((i + d) as nat);
                lemma_num_digits_capacity((i + d) as nat, nd);
                lemma_capacity_fits(nd);
            }
            let j = (i as i64 + offset) as usize;
            let ghost x = pointee(es@[a as int].1);
            proof {
                lemma_shift_take_step(e, d, a as int);
                lemma_union_map_of_push(m0, shift_listing(e.take(a as int), d), (j as nat, x));
            }
            self.insert_arc(j, arc_clone(&es[a].1));
            a += 1;
        }
        assert(e.take(e.len() as int) =~= e);
    }

    /// Put the entries of `other` after this vector's: they keep their order and spacing, and
    /// the smallest index of `other` lands just past this vector's largest index.
    pub fn append(&mut self, other: &Self)
        requires
            forall|k: nat| #[trigger] other@.dom().contains(k) ==> 5 * num_digits(
                (k - min_index(other@) + index_after(old(self)@)) as nat,
            ) < usize::BITS,
        ensures
            final(self)@ == old(self)@.union_prefer_right(
                shift(other@, index_after(old(self)@) - min_index(other@)),
            ),
    {
        proof {
            use_type_invariant(&*self);
            use_type_invariant(other);
        }
        proof {
            self.lemma_bounds();
            other.lemma_bounds();
        }
        let ghost m1 = other@;
        let next = self.next_index();
        let start = other.start_index();
        let offset: i64 = next as i64 - start as i64;
        let es = other.entries_arc();
        proof {
            let e = arc_listing(es@);
            assert forall|a: int| 0 <= a < es@.len() implies 0 <= #[trigger] es@[a].0 + offset && es@[a].0 < i64::MAX
                && 5 * num_digits((es@[a].0 + offset) as nat) < usize::BITS by {
                assert(e[a].0 == es@[a].0);
                assert(m1.dom().contains(e[a].0));
            }
            assert forall|k: nat| #[trigger] m1.dom().contains(k) implies k + offset >= 0 by {}
            lemma_shift_listing(e, m1, offset as int);
            lemma_map_of_listing(shift_listing(e, offset as int), shift(m1, offset as int));
        }
        self.insert_shifted(&es, offset);
    }

    /// The value at index `i`, which must be present.
    pub fn index(&self, i: usize) -> (r: &T)
        requires
            self@.dom().contains(i as nat),
        ensures
            *r == self@[i as nat],
    {
        proof {
            use_type_invariant(self);
        }
        self.get(i).unwrap()
    }

    /// Append `other` when its indices, moved past this vector's, stay within reach of the
    /// machine word's shifts; else leave this vector as it is and return `false`.
    fn append_checked(&mut self, other: &Self) -> (ok: bool)
        ensures
            ok <==> (other@.dom() != Set::<nat>::empty() ==> 5 * num_digits(
                (index_after(old(self)@) + max_index(other@) - min_index(other@)) as nat,
            ) < usize::BITS),
            ok ==> final(self)@ == old(self)@.union_prefer_right(
                shift(other@, index_after(old(self)@) - min_index(other@)),
            ),
    {
        proof {
            use_type_invariant(&*self);
            use_type_invariant(other);
            other.lemma_ends();
            lemma_capacity_fits(other.level as nat);
        }
        let next = self.next_index();
        match other.last_index() {
            Some(last) => {
                let start = other.start_index();
                assert(other@.dom().contains(max_index(other@)));
                let top = match next.checked_add(last - start) {
                    Some(t) => t,
                    None => {
                        proof {
                            lemma_too_big((next + last - start) as nat);
                        }
                        return false;
                    },
                };
                if !index_fits(top) {
                    return false;
                }
                assert forall|k: nat| #[trigger] other@.dom().contains(k) implies 5 * num_digits(
                    (k - min_index(other@) + index_after(self@)) as nat,
                ) < usize::BITS by {
                    lemma_num_digits_mono((k - min_index(other@) + index_after(self@)) as nat, top as nat);
                }
            },
            None => {},
        }
        self.append(other);
        true
    }

    /// Appending puts no entry of `other` on an index this vector holds, so afterwards the
    /// vector holds as many entries as both did.
    pub proof fn law_append_count(&self, other: &Self)
        requires
            self.wf(),
            other.wf(),
        ensures
            self@.union_prefer_right(shift(other@, index_after(self@) - min_index(other@))).dom().len()
                == self@.dom().len() + other@.dom().len(),
    {
        self.lemma_root();
        other.lemma_root();
        self.lemma_ends();
        other.lemma_ends();
        let d = index_after(self@) - min_index(other@);
        let sh = shift(other@, d);
        let f = |k: nat| (k + d) as nat;
        assert forall|k: nat| #[trigger] other@.dom().contains(k) implies k + d >= index_after(self@) by {}
        assert(vstd::relations::injective_on(f, other@.dom())) by {
            assert forall|a: nat, b: nat| other@.dom().contains(a) && other@.dom().contains(b) && #[trigger] f(a)
                == #[trigger] f(b) implies a == b by {}
        }
        assert(sh.dom() =~= other@.dom().map(f)) by {
            assert forall|k: nat| sh.dom().contains(k) implies #[trigger] other@.dom().map(f).contains(k) by {
                let j = (k - d) as nat;
                assert(other@.dom().contains(j) && f(j) == k);
            }
            assert forall|k: nat| #[trigger] other@.dom().map(f).contains(k) implies sh.dom().contains(k) by {
                let j = choose|j: nat| other@.dom().contains(j) && f(j) == k;
                assert(k - d == j);
            }
        }
        vstd::set_lib::lemma_map_size(other@.dom(), sh.dom(), f);
        assert(self@.dom().disjoint(sh.dom())) by {
            assert forall|k: nat| self@.dom().contains(k) implies !sh.dom().contains(k) by {
                if sh.dom().contains(k) {
                    let j = (k - d) as nat;
                    assert(other@.dom().contains(j));
                }
            }
        }
        assert(self@.union_prefer_right(sh).dom() =~= self@.dom() + sh.dom());
        vstd::set_lib::lemma_set_disjoint_lens(self@.dom(), sh.dom());
    }

    /// The vectors laid one after another, as `append` lays two; `None` where an index would
    /// grow past the reach of the machine word.
    pub fn concat(parts: &Vec<Self>) -> (r: Option<Self>)
        ensures
            r is Some <==> concat_fits(parts@.map_values(|p: Self| p@)),
            r matches Some(v) ==> v@ == concat_map(parts@.map_values(|p: Self| p@)),
    {
        let ghost ms = parts@.map_values(|p: Self| p@);
        let mut res = Self::new();
        assert(ms.take(0) =~= Seq::<Map<nat, T>>::empty());
        let mut i: usize = 0;
        while i < parts.len()
            invariant
                i <= parts@.len(),
                ms == parts@.map_values(|p: Self| p@),
                res@ == concat_map(ms.take(i as int)),
                forall|j: int| 0 <= j < i ==> #[trigger] fits_at(ms, j),
            decreases parts@.len() - i,
        {
            let ghost m = ms[i as int];
            assert(ms.take(i + 1).drop_last() =~= ms.take(i as int));
            assert(m == parts@[i as int]@);
            let part = &parts[i];
            let ok = res.append_checked(part);
            assert(ok == fits_at(ms, i as int));
            if !ok {
                return None;
            }
            i += 1;
        }
        assert(ms.take(i as int) =~= ms);
        Some(res)
    }

    /// A vector holding the elements of `xs` at indices `0, 1, 2, ...`.
    pub fn from_vec(xs: Vec<T>) -> (r: Self)
        requires
            xs@.len() > 0 ==> 5 * num_digits((xs@.len() - 1) as nat) < usize::BITS,
        ensures
            r@ == dense(xs@),
    {
        let ghost s = xs@;
        let n = xs.len();
        let mut pairs: Vec<(usize, T)> = Vec::new();
        let mut idx: usize = 0;
        for x in it: xs
            invariant
                it.seq() == s,
                n == s.len(),
                idx == it.index(),
                pairs@.len() == idx,
                forall|a: int| 0 <= a < idx ==> (#[trigger] pairs@[a]).0 == a && pairs@[a].1 == s[a],
        {
            pairs.push((idx, x));
            idx = idx + 1;
        }
        let ghost pl = pair_listing(pairs@);
        proof {
            if n > 0 {
                lemma_num_digits_capacity((n - 1) as nat, num_digits((n - 1) as nat));
            }
            assert forall|a: int| 0 <= a < pairs@.len() implies 5 * num_digits(#[trigger] pairs@[a].0 as nat) < usize::BITS by {
                let l = num_digits((n - 1) as nat);
                lemma_num_digits_capacity(a as nat, l);
            }
            assert(keys_increasing(pl));
            lemma_map_of_increasing(pl);
        }
        let r = Self::from_entries(pairs);
        proof {
            assert forall|k: nat| r@.dom().contains(k) <==> k < s.len() by {
                if r@.dom().contains(k) {
                    let a = choose|a: int| 0 <= a < pl.len() && pl[a].0 == k;
                }
                if k < s.len() {
                    assert(pl[k as int].0 == k);
                }
            }
            assert(r@.dom() =~= Set::new(|k: nat| k < s.len()));
            assert forall|k: nat| k < s.len() implies (#[trigger] r@[k]) == s[k as int] by {
                assert(pl[k as int].0 == k);
                assert(pl[k as int].1 == s[k as int]);
                assert(map_of(pl).dom().contains(pl[k as int].0));
            }
            assert(r@ =~= dense(s));
        }
        r
    }

    /// The elements in index order, provided the indices are exactly `0, 1, ..., count - 1`;
    /// otherwise the reason why not.
    pub fn try_into_vec(&self) -> (r: Result<Vec<T>, &'static str>)
        where
            T: Clone,
        ensures
            min_index(self@) != 0 ==> (r matches Err(msg) && msg@ == "Not starting at 0"@),
            min_index(self@) == 0 && index_after(self@) != self@.dom().len() ==> (r matches Err(msg) && msg@
                == "Not contiguous"@),
            min_index(self@) == 0 && index_after(self@) == self@.dom().len() ==> (r matches Ok(v) && v@.len()
                == self@.dom().len() && forall|k: int| 0 <= k < v@.len() ==> cloned(self@[k as nat], #[trigger] v@[k])),
    {
        proof {
            use_type_invariant(self);
        }
        proof {
            self.lemma_root();
            self.lemma_ends();
        }
        if self.start_index() != 0 {
            return Err("Not starting at 0");
        }
        if self.next_index() != self.count() {
            return Err("Not contiguous");
        }
        let vals = self.unsparse();
        let ghost e = self.listing();
        proof {
            if e.len() > 0 {
                assert forall|a: int| 0 <= a < e.len() implies #[trigger] e[a].0 == a by {
                    lemma_increasing_ge_position(e, a);
                    lemma_increasing_gap(e, a, e.len() - 1);
                }
            }
        }
        let mut out: Vec<T> = Vec::new();
        for a in 0..vals.len()
            invariant
                vals@.len() == e.len(),
                forall|b: int| 0 <= b < vals@.len() ==> *vals@[b] == e[b].1,
                out@.len() == a,
                forall|b: int| 0 <= b < a ==> cloned(e[b].1, #[trigger] out@[b]),
        {
            out.push(vals[a].clone());
        }
        proof {
            assert forall|k: int| 0 <= k < out@.len() implies cloned(self@[k as nat], #[trigger] out@[k]) by {
                assert(e[k].0 == k);
                assert(self@.dom().contains(e[k].0));
            }
        }
        Ok(out)
    }
}

impl<T> SparseVec<T> {
    /// A vector holding `f(i)` at each index `i` in `[from, to)`.
    fn range_with<F: Fn(usize) -> T>(from: usize, to: usize, f: F) -> (r: Self)
        requires
            from < to ==> 5 * num_digits((to - 1) as nat) < usize::BITS,
            forall|i: usize| from <= i < to ==> f.requires((i,)),
        ensures
            r@.dom() == Set::new(|k: nat| from <= k < to),
            forall|k: nat| from <= k < to ==> f.ensures((k as usize,), #[trigger] r@[k]),
    {
        let mut pairs: Vec<(usize, T)> = Vec::new();
        let mut i = from;
        while i < to
            invariant
                from <= i <= to || (to < from && i == from),
                forall|j: usize| from <= j < to ==> f.requires((j,)),
                pairs@.len() == if i >= from { i - from } else { 0 },
                forall|a: int| 0 <= a < pairs@.len() ==> (#[trigger] pairs@[a]).0 == from + a && f.ensures((pairs@[a].0,), pairs@[a].1),
            decreases to - i,
        {
            let x = f(i);
            pairs.push((i, x));
            i = i + 1;
        }
        let ghost pl = pair_listing(pairs@);
        proof {
            if from < to {
                lemma_num_digits_capacity((to - 1) as nat, num_digits((to - 1) as nat));
            }
            assert forall|a: int| 0 <= a < pairs@.len() implies 5 * num_digits(#[trigger] pairs@[a].0 as nat) < usize::BITS by {
                let l = num_digits((to - 1) as nat);
                lemma_num_digits_capacity(pairs@[a].0 as nat, l);
            }
            assert(keys_increasing(pl));
            lemma_map_of_increasing(pl);
        }
        let r = Self::from_entries(pairs);
        proof {
            assert forall|k: nat| r@.dom().contains(k) <==> from <= k < to by {
                if r@.dom().contains(k) {
                    let a = choose|a: int| 0 <= a < pl.len() && pl[a].0 == k;
                }
                if from <= k < to {
                    assert(pl[k - from].0 == k);
                }
            }
            assert(r@.dom() =~= Set::new(|k: nat| from <= k < to));
            assert forall|k: nat| from <= k < to implies f.ensures((k as usize,), #[trigger] r@[k]) by {
                let a = k - from;
                assert(pl[a].0 == k);
                assert(map_of(pl).dom().contains(pl[a].0));
                assert(f.ensures((pairs@[a].0,), pairs@[a].1));
            }
        }
        r
    }
}

impl<T: From<usize>> SparseVec<T> {
    /// A vector holding `T::from(i)` at each index `i` in `[from, to)`.
    pub fn range(from: usize, to: usize) -> (r: Self)
        requires
            from < to ==> 5 * num_digits((to - 1) as nat) < usize::BITS,
        ensures
            r@.dom() == Set::new(|k: nat| from <= k < to),
            forall|k: nat| from <= k < to ==> call_ensures(T::from, (k as usize,), #[trigger] r@[k]),
    {
        let r = Self::range_with(from, to, |i: usize| -> (x: T)
            ensures
                call_ensures(T::from, (i,), x),
            { T::from(i) });
        r
    }
}

impl SparseVec<usize> {
    /// A vector holding each index `i` in `[from, to)` at index `i`.
    pub fn range_usize(from: usize, to: usize) -> (r: Self)
        requires
            from < to ==> 5 * num_digits((to - 1) as nat) < usize::BITS,
        ensures
            r@.dom() == Set::new(|k: nat| from <= k < to),
            forall|k: nat| from <= k < to ==> #[trigger] r@[k] == k,
    {
        Self::range_with(from, to, |i: usize| -> (x: usize)
            ensures
                x == i,
            { i })
    }
}

} // verus!

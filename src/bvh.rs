use crate::aabb::Aabb;
use crate::order::{is_sorted_order, lemma_sorted_order_unique, sorted_order, ShapeKey};
use vstd::prelude::*;

verus! {

/// What the hierarchy is built from, one per primitive: its sort key and the
/// box it sweeps over the shutter interval (`None` for an unbounded one, such
/// as a plane).
#[derive(Clone, Copy, Debug, PartialEq, Eq, Structural)]
pub struct BvhItem {
    pub key: ShapeKey,
    pub hit_box: Option<Aabb>,
}

/// A hit: the primitive's position and the key of its hit time.
pub type Hit = Option<(usize, u64)>;

/// The earlier of two hits. A miss on one side gives the other; between equal
/// times the right-hand one is kept.
pub open spec fn closer(a: Hit, b: Hit) -> Hit {
    match (a, b) {
        (None, _) => b,
        (_, None) => a,
        (Some(x), Some(y)) => if x.1 < y.1 { a } else { b },
    }
}

fn pick_closer(a: Hit, b: Hit) -> (r: Hit)
    ensures
        r == closer(a, b),
{
    match (a, b) {
        (None, _) => b,
        (_, None) => a,
        (Some(x), Some(y)) => if x.1 < y.1 { a } else { b },
    }
}

/// A node of the bounding-volume hierarchy. A leaf binds one primitive by its
/// position in the list the hierarchy was built from.
#[derive(Debug, PartialEq, Eq)]
pub enum Node {
    /// Binds nothing and is never hit: the hierarchy over no primitives.
    Empty,
    /// One primitive with its swept box.
    Leaf { prim: usize, hit_box: Option<Aabb> },
    /// Two subtrees and the union of their boxes.
    Inner { lch: Box<Node>, rch: Box<Node>, hit_box: Option<Aabb> },
}

/// The union of two optional boxes; an unbounded side leaves it unbounded.
pub open spec fn union_opt(a: Option<Aabb>, b: Option<Aabb>) -> Option<Aabb> {
    match (a, b) {
        (Some(x), Some(y)) => Some(Aabb::union(x, y)),
        _ => None,
    }
}

fn merge_opt(a: Option<Aabb>, b: Option<Aabb>) -> (r: Option<Aabb>)
    ensures
        r == union_opt(a, b),
{
    match (a, b) {
        (Some(x), Some(y)) => Some(Aabb::merge_aabb(&x, &y)),
        _ => None,
    }
}

/// The sort keys of the items, in list order.
pub open spec fn keys_of(items: Seq<BvhItem>) -> Seq<ShapeKey> {
    items.map_values(|it: BvhItem| it.key)
}

/// The hierarchy over `order`: split at the midpoint, each node bounded by
/// the union of its children.
pub open spec fn tree_of(order: Seq<usize>, items: Seq<BvhItem>) -> Node
    decreases order.len(),
{
    if order.len() == 0 {
        Node::Empty
    } else if order.len() == 1 {
        Node::Leaf { prim: order[0], hit_box: items[order[0] as int].hit_box }
    } else {
        let mid = order.len() / 2;
        let l = tree_of(order.take(mid as int), items);
        let r = tree_of(order.skip(mid as int), items);
        Node::Inner { lch: Box::new(l), rch: Box::new(r), hit_box: union_opt(l.bound(), r.bound()) }
    }
}

impl Node {
    /// The box of the node; `None` where it is unbounded or empty.
    pub open spec fn bound(self) -> Option<Aabb> {
        match self {
            Node::Empty => None,
            Node::Leaf { hit_box, .. } => hit_box,
            Node::Inner { hit_box, .. } => hit_box,
        }
    }

    /// The bound primitives, left to right.
    pub open spec fn leaves(self) -> Seq<usize>
        decreases self,
    {
        match self {
            Node::Empty => Seq::empty(),
            Node::Leaf { prim, .. } => seq![prim],
            Node::Inner { lch, rch, .. } => lch.leaves() + rch.leaves(),
        }
    }

    /// A node that binds nothing and is never hit.
    pub fn make_node() -> (r: Node)
        ensures
            r == Node::Empty,
    {
        Node::Empty
    }

    /// Turns the node into a leaf that binds primitive `prim` with its box.
    pub fn bind_entity(&mut self, prim: usize, hit_box: Option<Aabb>)
        ensures
            *final(self) == (Node::Leaf { prim, hit_box }),
    {
        *self = Node::Leaf { prim, hit_box };
    }

    /// The box of the node.
    pub fn hit_box(&self) -> (r: Option<Aabb>)
        ensures
            r == self.bound(),
    {
        match self {
            Node::Empty => None,
            Node::Leaf { hit_box, .. } => *hit_box,
            Node::Inner { hit_box, .. } => *hit_box,
        }
    }
}

/// The leaves of the hierarchy over `order` are `order` itself.
pub proof fn lemma_tree_leaves(order: Seq<usize>, items: Seq<BvhItem>)
    ensures
        tree_of(order, items).leaves() == order,
    decreases order.len(),
{
    if order.len() == 0 {
        assert(tree_of(order, items).leaves() =~= order);
    } else if order.len() == 1 {
        assert(tree_of(order, items).leaves() =~= order);
    } else {
        let mid = order.len() / 2;
        lemma_tree_leaves(order.take(mid as int), items);
        lemma_tree_leaves(order.skip(mid as int), items);
        assert(order.take(mid as int) + order.skip(mid as int) =~= order);
    }
}

fn build_range(order: &Vec<usize>, items: &Vec<BvhItem>, lo: usize, hi: usize) -> (r: Node)
    requires
        lo <= hi <= order.len(),
        forall|i: int| 0 <= i < order.len() ==> order[i] < items.len(),
    ensures
        r == tree_of(order@.subrange(lo as int, hi as int), items@),
    decreases hi - lo,
{
    let ghost part = order@.subrange(lo as int, hi as int);
    if hi - lo == 0 {
        Node::Empty
    } else if hi - lo == 1 {
        let p = order[lo];
        Node::Leaf { prim: p, hit_box: items[p].hit_box }
    } else {
        let mid = lo + (hi - lo) / 2;
        let l = build_range(order, items, lo, mid);
        let r = build_range(order, items, mid, hi);
        proof {
            assert(part.take(((hi - lo) / 2) as int) =~= order@.subrange(lo as int, mid as int));
            assert(part.skip(((hi - lo) / 2) as int) =~= order@.subrange(mid as int, hi as int));
        }
        let hit_box = merge_opt(l.hit_box(), r.hit_box());
        Node::Inner { lch: Box::new(l), rch: Box::new(r), hit_box }
    }
}

/// Builds the hierarchy: the primitives are stably sorted by key, split at
/// the midpoint, and each half built in turn.
pub fn build_bvh(items: &Vec<BvhItem>) -> (r: Node)
    ensures
        is_sorted_order(r.leaves(), keys_of(items@)),
        r == tree_of(r.leaves(), items@),
{
    let mut keys: Vec<ShapeKey> = Vec::new();
    let mut i: usize = 0;
    while i < items.len()
        invariant
            i <= items.len(),
            keys@ == keys_of(items@).take(i as int),
        decreases items.len() - i,
    {
        keys.push(items[i].key);
        i = i + 1;
        assert(keys@ =~= keys_of(items@).take(i as int));
    }
    assert(keys@ =~= keys_of(items@));
    let order = sorted_order(&keys);
    let r = build_range(&order, items, 0, order.len());
    proof {
        assert(order@.subrange(0, order@.len() as int) =~= order@);
        lemma_tree_leaves(order@, items@);
    }
    r
}

/// Primitive `p` as a hit, where `hit` gives it a time.
pub open spec fn hit_of(p: usize, hit: spec_fn(usize) -> Option<u64>) -> Hit {
    match hit(p) {
        Some(t) => Some((p, t)),
        None => None,
    }
}

/// `f` answers box tests as `bx` does.
pub open spec fn answers_box<B: Fn(Aabb) -> bool>(f: B, bx: spec_fn(Aabb) -> bool) -> bool {
    forall|b: Aabb, r: bool| #[trigger] f.ensures((b,), r) ==> r == bx(b)
}

/// `f` answers hit tests as `hit` does.
pub open spec fn answers_hit<H: Fn(usize) -> Option<u64>>(
    f: H,
    hit: spec_fn(usize) -> Option<u64>,
) -> bool {
    forall|p: usize, r: Option<u64>| #[trigger] f.ensures((p,), r) ==> r == hit(p)
}

impl Node {
    /// The nearest hit that the traversal finds when `bx` says whether a ray
    /// meets a box and `hit` when, if ever, it meets a primitive: a leaf is
    /// tested directly; an inner node whose box the ray misses is skipped
    /// whole; otherwise the closer of its children's hits is taken.
    pub open spec fn spec_nearest(
        self,
        bx: spec_fn(Aabb) -> bool,
        hit: spec_fn(usize) -> Option<u64>,
    ) -> Hit
        decreases self,
    {
        match self {
            Node::Empty => None,
            Node::Leaf { prim, .. } => hit_of(prim, hit),
            Node::Inner { lch, rch, hit_box } => {
                if hit_box.is_some() && !bx(hit_box.unwrap()) {
                    None
                } else {
                    closer(lch.spec_nearest(bx, hit), rch.spec_nearest(bx, hit))
                }
            },
        }
    }

    /// The nearest hit below this node. `box_test` tells whether the ray meets
    /// a box; `hit_test` gives the key of the time at which it meets a
    /// primitive, or `None`. Where the two answer as functions do, the result
    /// is `spec_nearest` of them; in any case a hit that comes back is a leaf's
    /// primitive with a time that `hit_test` gave for it.
    pub fn nearest_hit<B: Fn(Aabb) -> bool, H: Fn(usize) -> Option<u64>>(
        &self,
        box_test: &B,
        hit_test: &H,
    ) -> (r: Hit)
        requires
            forall|b: Aabb| box_test.requires((b,)),
            forall|p: usize| hit_test.requires((p,)),
        ensures
            forall|bx: spec_fn(Aabb) -> bool, hit: spec_fn(usize) -> Option<u64>|
                answers_box(*box_test, bx) && answers_hit(*hit_test, hit) ==> r
                    == #[trigger] self.spec_nearest(bx, hit),
            match r {
                Some((p, t)) => self.leaves().contains(p) && hit_test.ensures((p,), Some(t)),
                None => true,
            },
        decreases self,
    {
        match self {
            Node::Empty => {
                proof {
                    assert forall|bx: spec_fn(Aabb) -> bool, hit: spec_fn(usize) -> Option<u64>|
                        answers_box(*box_test, bx) && answers_hit(*hit_test, hit) implies None::<(
                        usize,
                        u64,
                    )> == #[trigger] self.spec_nearest(bx, hit) by {}
                }
                None
            },
            Node::Leaf { prim, .. } => {
                let t = hit_test(*prim);
                proof {
                    assert(self.leaves()[0] == *prim);
                }
                proof {
                    assert forall|bx: spec_fn(Aabb) -> bool, hit: spec_fn(usize) -> Option<u64>|
                        answers_box(*box_test, bx) && answers_hit(*hit_test, hit) implies t == hit(*prim) by {
                        assert(hit_test.ensures((*prim,), t));
                    }
                }
                match t {
                    Some(t) => Some((*prim, t)),
                    None => None,
                }
            },
            Node::Inner { lch, rch, hit_box } => {
                if let Some(b) = hit_box {
                    let meets = box_test(*b);
                    if !meets {
                        proof {
                            assert forall|bx: spec_fn(Aabb) -> bool, hit: spec_fn(usize) -> Option<u64>|
                                answers_box(*box_test, bx) && answers_hit(*hit_test, hit) implies None::<(
                                usize,
                                u64,
                            )> == #[trigger] self.spec_nearest(bx, hit) by {
                                assert(box_test.ensures((*b,), meets));
                            }
                        }
                        return None;
                    }
                }
                let l = lch.nearest_hit(box_test, hit_test);
                let r = rch.nearest_hit(box_test, hit_test);
                let res = pick_closer(l, r);
                proof {
                    assert forall|bx: spec_fn(Aabb) -> bool, hit: spec_fn(usize) -> Option<u64>|
                        answers_box(*box_test, bx) && answers_hit(*hit_test, hit) implies res
                        == #[trigger] self.spec_nearest(bx, hit) by {
                        assert(l == lch.spec_nearest(bx, hit));
                        assert(r == rch.spec_nearest(bx, hit));
                        if hit_box.is_some() {
                            assert(box_test.ensures((hit_box.unwrap(),), true));
                        }
                    }
                    match res {
                        Some((p, t)) => {
                            if res == l {
                                let i = choose|i: int| 0 <= i < lch.leaves().len() && lch.leaves()[i] == p;
                                assert(self.leaves()[i] == p);
                            } else {
                                let i = choose|i: int| 0 <= i < rch.leaves().len() && rch.leaves()[i] == p;
                                assert(self.leaves()[lch.leaves().len() + i] == p);
                            }
                        },
                        None => {},
                    }
                }
                res
            },
        }
    }
}

/// The time of a hit, if any.
pub open spec fn time_of(h: Hit) -> Option<u64> {
    match h {
        Some((_, t)) => Some(t),
        None => None,
    }
}

/// `found` is a nearest hit among the primitives that `member` admits: a miss
/// where none of them is hit, else one of them hit no later than any other.
pub open spec fn is_nearest_among(
    found: Hit,
    member: spec_fn(usize) -> bool,
    hit: spec_fn(usize) -> Option<u64>,
) -> bool {
    match found {
        None => forall|q: usize| member(q) ==> #[trigger] hit(q) is None,
        Some((p, t)) => {
            &&& member(p)
            &&& hit(p) == Some(t)
            &&& forall|q: usize| member(q) && #[trigger] hit(q) is Some ==> t <= hit(q).unwrap()
        },
    }
}

/// The nearest hit over primitives `0..n`, tested one by one.
pub open spec fn scan_nearest(n: nat, hit: spec_fn(usize) -> Option<u64>) -> Hit
    decreases n,
{
    if n == 0 {
        None
    } else {
        closer(scan_nearest((n - 1) as nat, hit), hit_of((n - 1) as usize, hit))
    }
}

/// Below every inner node whose box `bx` rejects, `hit` hits no primitive.
pub open spec fn pruning_is_sound(
    node: Node,
    bx: spec_fn(Aabb) -> bool,
    hit: spec_fn(usize) -> Option<u64>,
) -> bool
    decreases node,
{
    match node {
        Node::Inner { lch, rch, hit_box } => {
            &&& (hit_box.is_some() && !bx(hit_box.unwrap())) ==> forall|q: usize|
                node.leaves().contains(q) ==> #[trigger] hit(q) is None
            &&& pruning_is_sound(*lch, bx, hit)
            &&& pruning_is_sound(*rch, bx, hit)
        },
        _ => true,
    }
}

proof fn lemma_concat_contains(a: Seq<usize>, b: Seq<usize>, q: usize)
    ensures
        (a + b).contains(q) <==> a.contains(q) || b.contains(q),
{
    if (a + b).contains(q) {
        let i = choose|i: int| 0 <= i < (a + b).len() && (a + b)[i] == q;
        if i < a.len() {
            assert(a[i] == q);
        } else {
            assert(b[i - a.len()] == q);
        }
    }
    if a.contains(q) {
        let i = choose|i: int| 0 <= i < a.len() && a[i] == q;
        assert((a + b)[i] == q);
    }
    if b.contains(q) {
        let i = choose|i: int| 0 <= i < b.len() && b[i] == q;
        assert((a + b)[a.len() + i] == q);
    }
}

proof fn lemma_member_equiv(
    found: Hit,
    m1: spec_fn(usize) -> bool,
    m2: spec_fn(usize) -> bool,
    hit: spec_fn(usize) -> Option<u64>,
)
    requires
        forall|q: usize| #[trigger] m1(q) == m2(q),
        is_nearest_among(found, m1, hit),
    ensures
        is_nearest_among(found, m2, hit),
{
}

proof fn lemma_closer_nearest(
    a: Hit,
    b: Hit,
    m1: spec_fn(usize) -> bool,
    m2: spec_fn(usize) -> bool,
    hit: spec_fn(usize) -> Option<u64>,
)
    requires
        is_nearest_among(a, m1, hit),
        is_nearest_among(b, m2, hit),
    ensures
        is_nearest_among(closer(a, b), |q: usize| m1(q) || m2(q), hit),
{
    let m = |q: usize| m1(q) || m2(q);
    assert forall|q: usize| m(q) && #[trigger] hit(q) is Some implies closer(a, b) is Some
        && closer(a, b).unwrap().1 <= hit(q).unwrap() by {
        if m1(q) {
            assert(a is Some);
        } else {
            assert(b is Some);
        }
    }
}

proof fn lemma_scan_nearest(n: nat, hit: spec_fn(usize) -> Option<u64>)
    requires
        n <= usize::MAX + 1,
    ensures
        is_nearest_among(scan_nearest(n, hit), |q: usize| q < n, hit),
    decreases n,
{
    if n > 0 {
        let k = (n - 1) as nat;
        lemma_scan_nearest(k, hit);
        let last = (n - 1) as usize;
        assert(is_nearest_among(hit_of(last, hit), |q: usize| q == last, hit));
        lemma_closer_nearest(
            scan_nearest(k, hit),
            hit_of(last, hit),
            |q: usize| q < k,
            |q: usize| q == last,
            hit,
        );
        lemma_member_equiv(
            scan_nearest(n, hit),
            |q: usize| q < k || q == last,
            |q: usize| q < n,
            hit,
        );
    }
}

proof fn lemma_traversal_nearest(
    node: Node,
    bx: spec_fn(Aabb) -> bool,
    hit: spec_fn(usize) -> Option<u64>,
)
    requires
        pruning_is_sound(node, bx, hit),
    ensures
        is_nearest_among(node.spec_nearest(bx, hit), |q: usize| node.leaves().contains(q), hit),
    decreases node,
{
    match node {
        Node::Empty => {},
        Node::Leaf { prim, .. } => {
            assert(node.leaves()[0] == prim);
            assert forall|q: usize| node.leaves().contains(q) implies q == prim by {}
        },
        Node::Inner { lch, rch, hit_box } => {
            lemma_traversal_nearest(*lch, bx, hit);
            lemma_traversal_nearest(*rch, bx, hit);
            assert forall|q: usize|
                node.leaves().contains(q) == (lch.leaves().contains(q) || rch.leaves().contains(
                    q,
                )) by {
                lemma_concat_contains(lch.leaves(), rch.leaves(), q);
            }
            if !(hit_box.is_some() && !bx(hit_box.unwrap())) {
                lemma_closer_nearest(
                    lch.spec_nearest(bx, hit),
                    rch.spec_nearest(bx, hit),
                    |q: usize| lch.leaves().contains(q),
                    |q: usize| rch.leaves().contains(q),
                    hit,
                );
                lemma_member_equiv(
                    node.spec_nearest(bx, hit),
                    |q: usize| lch.leaves().contains(q) || rch.leaves().contains(q),
                    |q: usize| node.leaves().contains(q),
                    hit,
                );
            }
        },
    }
}

proof fn lemma_bound_covers(order: Seq<usize>, items: Seq<BvhItem>, q: usize)
    requires
        forall|i: int| 0 <= i < order.len() ==> order[i] < items.len(),
        order.contains(q),
        tree_of(order, items).bound() is Some,
    ensures
        q < items.len(),
        items[q as int].hit_box is Some,
        tree_of(order, items).bound().unwrap().contains(items[q as int].hit_box.unwrap()),
    decreases order.len(),
{
    if order.len() == 1 {
        assert(order[0] == q);
    } else {
        let mid = order.len() / 2;
        let (l, r) = (order.take(mid as int), order.skip(mid as int));
        assert(l + r =~= order);
        lemma_concat_contains(l, r, q);
        let lb = tree_of(l, items).bound().unwrap();
        let rb = tree_of(r, items).bound().unwrap();
        crate::aabb::lemma_merge_contains_both(lb, rb);
        if l.contains(q) {
            lemma_bound_covers(l, items, q);
            crate::aabb::lemma_contains_transitive(
                Aabb::union(lb, rb),
                lb,
                items[q as int].hit_box.unwrap(),
            );
        } else {
            lemma_bound_covers(r, items, q);
            crate::aabb::lemma_contains_transitive(
                Aabb::union(lb, rb),
                rb,
                items[q as int].hit_box.unwrap(),
            );
        }
    }
}

proof fn lemma_built_pruning_sound(
    order: Seq<usize>,
    items: Seq<BvhItem>,
    bx: spec_fn(Aabb) -> bool,
    hit: spec_fn(usize) -> Option<u64>,
)
    requires
        forall|i: int| 0 <= i < order.len() ==> order[i] < items.len(),
        forall|a: Aabb, b: Aabb| #[trigger] a.contains(b) && !bx(a) ==> !bx(b),
        forall|p: usize|
            p < items.len() && (#[trigger] items[p as int].hit_box) is Some && !bx(
                items[p as int].hit_box.unwrap(),
            ) ==> hit(p) is None,
    ensures
        pruning_is_sound(tree_of(order, items), bx, hit),
    decreases order.len(),
{
    if order.len() >= 2 {
        let mid = order.len() / 2;
        let (l, r) = (order.take(mid as int), order.skip(mid as int));
        lemma_built_pruning_sound(l, items, bx, hit);
        lemma_built_pruning_sound(r, items, bx, hit);
        let node = tree_of(order, items);
        lemma_tree_leaves(order, items);
        if node.bound() is Some && !bx(node.bound().unwrap()) {
            assert forall|q: usize| node.leaves().contains(q) implies #[trigger] hit(q) is None by {
                lemma_bound_covers(order, items, q);
                assert(node.bound().unwrap().contains(items[q as int].hit_box.unwrap()));
            }
        }
    }
}

/// Traversing a built hierarchy finds a nearest hit over all of its
/// primitives, at the same time as a scan that tests them one by one, given
/// that the ray meets no box inside a box it misses and no primitive whose
/// box it misses. Where no two primitives are hit at the same time, the two
/// find the same primitive.
pub proof fn lemma_nearest_matches_scan(
    items: Seq<BvhItem>,
    tree: Node,
    bx: spec_fn(Aabb) -> bool,
    hit: spec_fn(usize) -> Option<u64>,
)
    requires
        items.len() <= usize::MAX,
        is_sorted_order(tree.leaves(), keys_of(items)),
        tree == tree_of(tree.leaves(), items),
        forall|a: Aabb, b: Aabb| #[trigger] a.contains(b) && !bx(a) ==> !bx(b),
        forall|p: usize|
            p < items.len() && (#[trigger] items[p as int].hit_box) is Some && !bx(
                items[p as int].hit_box.unwrap(),
            ) ==> hit(p) is None,
    ensures
        is_nearest_among(tree.spec_nearest(bx, hit), |q: usize| q < items.len(), hit),
        time_of(tree.spec_nearest(bx, hit)) == time_of(scan_nearest(items.len() as nat, hit)),
        (forall|pa: usize, pb: usize|
            pa < items.len() && pb < items.len() && pa != pb && #[trigger] hit(pa) is Some ==> hit(
                pa,
            ) != #[trigger] hit(pb)) ==> tree.spec_nearest(bx, hit) == scan_nearest(
            items.len() as nat,
            hit,
        ),
{
    let order = tree.leaves();
    lemma_built_pruning_sound(order, items, bx, hit);
    lemma_traversal_nearest(tree, bx, hit);
    assert forall|q: usize| order.contains(q) == (q < items.len()) by {
        if order.contains(q) {
            let i = choose|i: int| 0 <= i < order.len() && order[i] == q;
        }
    }
    let found = tree.spec_nearest(bx, hit);
    lemma_member_equiv(found, |q: usize| order.contains(q), |q: usize| q < items.len(), hit);
    lemma_scan_nearest(items.len() as nat, hit);
    let scanned = scan_nearest(items.len() as nat, hit);
    match (found, scanned) {
        (Some((pa, t1)), Some((pb, t2))) => {
            assert(hit(pb) is Some);
            assert(hit(pa) is Some);
        },
        (Some((pa, t1)), None) => {
            assert(hit(pa) is Some);
        },
        (None, Some((pb, t2))) => {
            assert(hit(pb) is Some);
        },
        _ => {},
    }
}

/// Building twice from the same primitives gives the same hierarchy, and the
/// same query on the two gives the same hit.
pub proof fn lemma_build_deterministic(
    items: Seq<BvhItem>,
    t1: Node,
    t2: Node,
    bx: spec_fn(Aabb) -> bool,
    hit: spec_fn(usize) -> Option<u64>,
)
    requires
        is_sorted_order(t1.leaves(), keys_of(items)),
        t1 == tree_of(t1.leaves(), items),
        is_sorted_order(t2.leaves(), keys_of(items)),
        t2 == tree_of(t2.leaves(), items),
    ensures
        t1 == t2,
        t1.spec_nearest(bx, hit) == t2.spec_nearest(bx, hit),
{
    lemma_sorted_order_unique(t1.leaves(), t2.leaves(), keys_of(items));
}

} // verus!

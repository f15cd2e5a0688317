use vstd::prelude::*;

verus! {

/// What a primitive is sorted by: its kind, then one representative
/// coordinate key (a plane's offset, a sphere's centre x at time zero, a
/// triangle's first vertex x).
#[derive(Clone, Copy, Debug, PartialEq, Eq, Structural)]
pub enum ShapeKey {
    Empty,
    Plane(i64),
    Sphere(i64),
    Triangle(i64),
}

impl ShapeKey {
    /// Kinds sort as empty, plane, sphere, triangle.
    pub open spec fn rank(self) -> int {
        match self {
            ShapeKey::Empty => 0,
            ShapeKey::Plane(_) => 1,
            ShapeKey::Sphere(_) => 2,
            ShapeKey::Triangle(_) => 3,
        }
    }

    pub open spec fn coord(self) -> int {
        match self {
            ShapeKey::Empty => 0,
            ShapeKey::Plane(c) => c as int,
            ShapeKey::Sphere(c) => c as int,
            ShapeKey::Triangle(c) => c as int,
        }
    }

    /// The strict order on keys: by kind, then by coordinate.
    pub open spec fn spec_less(self, other: ShapeKey) -> bool {
        self.rank() < other.rank() || (self.rank() == other.rank() && self.coord()
            < other.coord())
    }

    fn rank_of(&self) -> (r: u8)
        ensures
            r as int == self.rank(),
    {
        match self {
            ShapeKey::Empty => 0,
            ShapeKey::Plane(_) => 1,
            ShapeKey::Sphere(_) => 2,
            ShapeKey::Triangle(_) => 3,
        }
    }

    fn coord_of(&self) -> (r: i64)
        ensures
            r as int == self.coord(),
    {
        match self {
            ShapeKey::Empty => 0,
            ShapeKey::Plane(c) => *c,
            ShapeKey::Sphere(c) => *c,
            ShapeKey::Triangle(c) => *c,
        }
    }

    /// Whether `self` sorts strictly before `other`.
    pub fn less(&self, other: &ShapeKey) -> (r: bool)
        ensures
            r == self.spec_less(*other),
    {
        let (ra, rb) = (self.rank_of(), other.rank_of());
        ra < rb || (ra == rb && self.coord_of() < other.coord_of())
    }
}

/// Item `a` of `keys` goes before item `b`: by key, and between equal keys
/// by position, as a stable sort leaves them.
pub open spec fn goes_before(keys: Seq<ShapeKey>, a: usize, b: usize) -> bool {
    keys[a as int].spec_less(keys[b as int]) || (!keys[b as int].spec_less(keys[a as int])
        && a < b)
}

/// `order` lists every position of `keys` once, in the order a stable sort
/// by key puts them.
pub open spec fn is_sorted_order(order: Seq<usize>, keys: Seq<ShapeKey>) -> bool {
    &&& order.len() == keys.len()
    &&& forall|i: int| 0 <= i < order.len() ==> order[i] < keys.len()
    &&& forall|m: usize| m < keys.len() ==> #[trigger] order.contains(m)
    &&& forall|i: int, j: int|
        0 <= i < j < order.len() ==> goes_before(keys, #[trigger] order[i], #[trigger] order[j])
}

/// The positions of `keys` in stably sorted order.
pub fn sorted_order(keys: &Vec<ShapeKey>) -> (order: Vec<usize>)
    ensures
        is_sorted_order(order@, keys@),
{
    let mut order: Vec<usize> = Vec::new();
    let mut k: usize = 0;
    while k < keys.len()
        invariant
            k <= keys.len(),
            order.len() == k,
            forall|i: int| 0 <= i < order.len() ==> order[i] < k,
            forall|m: usize| m < k ==> #[trigger] order@.contains(m),
            forall|i: int, j: int|
                0 <= i < j < order.len() ==> goes_before(
                    keys@,
                    #[trigger] order[i],
                    #[trigger] order[j],
                ),
        decreases keys.len() - k,
    {
        let mut pos: usize = 0;
        while pos < order.len() && !keys[k].less(&keys[order[pos]])
            invariant
                pos <= order.len(),
                k < keys.len(),
                order.len() == k,
                forall|i: int| 0 <= i < order.len() ==> order[i] < k,
                forall|i: int| 0 <= i < pos ==> goes_before(keys@, #[trigger] order[i], k),
            decreases order.len() - pos,
        {
            pos = pos + 1;
        }
        proof {
            assert forall|i: int| pos <= i < order.len() implies goes_before(
                keys@,
                k,
                #[trigger] order[i],
            ) by {
                if i > pos {
                    assert(goes_before(keys@, order[pos as int], order[i]));
                }
            }
        }
        let ghost before = order@;
        order.insert(pos, k);
        proof {
            assert forall|m: usize| m < k + 1 implies #[trigger] order@.contains(m) by {
                if m == k {
                    assert(order[pos as int] == k);
                } else {
                    assert(before.contains(m));
                    let i0 = choose|i: int| 0 <= i < before.len() && before[i] == m;
                    if i0 < pos {
                        assert(order[i0] == m);
                    } else {
                        assert(order[i0 + 1] == m);
                    }
                }
            }
            assert forall|i: int, j: int| 0 <= i < j < order.len() implies goes_before(
                keys@,
                #[trigger] order[i],
                #[trigger] order[j],
            ) by {
                if j < pos {
                    assert(order[i] == before[i] && order[j] == before[j]);
                } else if i > pos {
                    assert(order[i] == before[i - 1] && order[j] == before[j - 1]);
                } else if i == pos {
                    assert(order[j] == before[j - 1]);
                } else if j == pos {
                    assert(order[i] == before[i]);
                } else {
                    assert(order[i] == before[i] && order[j] == before[j - 1]);
                }
            }
        }
        k = k + 1;
    }
    order
}

proof fn lemma_agree_up_to(o1: Seq<usize>, o2: Seq<usize>, keys: Seq<ShapeKey>, i: int)
    requires
        is_sorted_order(o1, keys),
        is_sorted_order(o2, keys),
        0 <= i < o1.len(),
    ensures
        forall|j: int| 0 <= j <= i ==> o1[j] == o2[j],
    decreases i,
{
    if i > 0 {
        lemma_agree_up_to(o1, o2, keys, i - 1);
    }
    let (x, y) = (o1[i], o2[i]);
    if x != y {
        assert(o2.contains(x));
        let j = choose|j: int| 0 <= j < o2.len() && o2[j] == x;
        assert(o1.contains(y));
        let k = choose|k: int| 0 <= k < o1.len() && o1[k] == y;
        if j < i {
            assert(goes_before(keys, o1[j], o1[i]));
        }
        if k < i {
            assert(goes_before(keys, o2[k], o2[i]));
        }
        assert(goes_before(keys, o2[i], o2[j]));
        assert(goes_before(keys, o1[i], o1[k]));
    }
}

/// There is one stably sorted order of a list of keys: two orders that both
/// are it are equal.
pub proof fn lemma_sorted_order_unique(o1: Seq<usize>, o2: Seq<usize>, keys: Seq<ShapeKey>)
    requires
        is_sorted_order(o1, keys),
        is_sorted_order(o2, keys),
    ensures
        o1 == o2,
{
    if o1.len() > 0 {
        lemma_agree_up_to(o1, o2, keys, o1.len() - 1);
    }
    assert(o1 =~= o2);
}

} // verus!

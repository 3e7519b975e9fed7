//! The decisions of the recursive trace that depend on no floating-point
//! arithmetic: which object a ray sees, how the bounce budget is spent,
//! and the mirror formula on exact integer vectors.
use vstd::prelude::*;

verus! {

/// Whether object `i` is the one a ray sees among `hits`: it is hit, no
/// object is hit nearer, and every object before it is hit strictly
/// farther or not at all. Each entry holds the order key of the hit
/// distance (for non-negative IEEE-754 numbers, the bit pattern, which
/// orders as the numbers do), or `None` for a miss.
pub open spec fn is_nearest(hits: Seq<Option<u32>>, i: int) -> bool {
    &&& 0 <= i < hits.len()
    &&& hits[i] is Some
    &&& forall|j: int|
        0 <= j < hits.len() && #[trigger] hits[j] is Some ==> hits[i]->0 <= hits[j]->0
    &&& forall|j: int|
        0 <= j < i && #[trigger] hits[j] is Some ==> hits[i]->0 < hits[j]->0
}

/// The object a ray sees: the nearest hit, the first one among equally
/// near hits, or `None` when every object is missed.
pub fn nearest_hit(hits: &Vec<Option<u32>>) -> (r: Option<usize>)
    ensures
        r is None <==> forall|j: int| 0 <= j < hits@.len() ==> #[trigger] hits@[j] is None,
        r matches Some(i) ==> is_nearest(hits@, i as int),
{
    let mut best: Option<usize> = None;
    let mut i: usize = 0;
    while i < hits.len()
        invariant
            i <= hits@.len(),
            best is None <==> forall|j: int| 0 <= j < i ==> #[trigger] hits@[j] is None,
            best matches Some(b) ==> {
                &&& b < i
                &&& is_nearest(hits@.take(i as int), b as int)
            },
        decreases hits@.len() - i,
    {
        let ghost prefix = hits@.take(i as int);
        let ghost next = hits@.take(i + 1);
        if let Some(d) = hits[i] {
            match best {
                Some(b) => {
                    let current = hits[b].unwrap();
                    if d < current {
                        best = Some(i);
                    }
                },
                None => {
                    best = Some(i);
                },
            }
        }
        proof {
            assert forall|j: int| 0 <= j < i implies next[j] == prefix[j] by {}
            assert(next[i as int] == hits@[i as int]);
        }
        i = i + 1;
    }
    proof {
        assert(hits@.take(i as int) =~= hits@);
    }
    best
}

/// What a hit spends of the bounce budget: whether it casts a reflection
/// ray, whether it casts shadow rays towards the lights, and the budget
/// those rays are traced with.
pub struct Bounce {
    pub reflect: bool,
    pub shadows: bool,
    pub budget: u32,
}

/// The rays a hit casts with `remaining` bounces left on a surface that is
/// `reflective` (its reflection factor is not negligible): a reflection ray
/// only on a reflective surface and shadow rays only while the budget lasts,
/// each traced with one bounce less. With no bounce left no ray is cast.
pub fn plan_bounce(remaining: u32, reflective: bool) -> (b: Bounce)
    ensures
        b.reflect == (reflective && remaining > 0),
        b.shadows == (remaining > 0),
        remaining > 0 ==> b.budget == remaining - 1,
        remaining == 0 ==> b.budget == 0,
{
    if remaining > 0 {
        Bounce { reflect: reflective, shadows: true, budget: remaining - 1 }
    } else {
        Bounce { reflect: false, shadows: false, budget: 0 }
    }
}

/// A vector of exact integer coordinates.
#[derive(Clone, Copy, PartialEq, Eq, Structural)]
pub struct IVec3 {
    pub x: i64,
    pub y: i64,
    pub z: i64,
}

/// Largest coordinate magnitude for which `reflect` cannot overflow.
pub const COORD_LIMIT: i64 = 1048576;

/// Whether every coordinate lies within `COORD_LIMIT`.
pub open spec fn bounded(v: IVec3) -> bool {
    &&& -COORD_LIMIT <= v.x <= COORD_LIMIT
    &&& -COORD_LIMIT <= v.y <= COORD_LIMIT
    &&& -COORD_LIMIT <= v.z <= COORD_LIMIT
}

/// Dot product.
pub open spec fn dot(a: IVec3, b: IVec3) -> int {
    a.x * b.x + a.y * b.y + a.z * b.z
}

/// The mirror image of `r` about the axis `n`, `2·n·(n·r) − r`, one
/// coordinate of it, given that coordinate of `n` and of `r`.
pub open spec fn mirror(nc: int, rc: int, d: int) -> int {
    2 * nc * d - rc
}

/// Mirrors `r` about the axis `n`: `2·n·(n·r) − r`. For a unit axis this
/// is the reflection of `r` through the line of `n`.
pub fn reflect(r: &IVec3, n: &IVec3) -> (m: IVec3)
    requires
        bounded(*r),
        bounded(*n),
    ensures
        m.x == mirror(n.x as int, r.x as int, dot(*n, *r)),
        m.y == mirror(n.y as int, r.y as int, dot(*n, *r)),
        m.z == mirror(n.z as int, r.z as int, dot(*n, *r)),
{
    let (nx, ny, nz) = (n.x, n.y, n.z);
    let (rx, ry, rz) = (r.x, r.y, r.z);
    let ghost lim = COORD_LIMIT as int;
    assert(-lim * lim <= nx * rx <= lim * lim) by (nonlinear_arith)
        requires
            -lim <= nx <= lim,
            -lim <= rx <= lim,
            lim == 1048576,
    ;
    assert(-lim * lim <= ny * ry <= lim * lim) by (nonlinear_arith)
        requires
            -lim <= ny <= lim,
            -lim <= ry <= lim,
            lim == 1048576,
    ;
    assert(-lim * lim <= nz * rz <= lim * lim) by (nonlinear_arith)
        requires
            -lim <= nz <= lim,
            -lim <= rz <= lim,
            lim == 1048576,
    ;
    let d = nx * rx + ny * ry + nz * rz;
    assert(-6 * lim * lim * lim <= 2 * nx * d <= 6 * lim * lim * lim) by (nonlinear_arith)
        requires
            -lim <= nx <= lim,
            -3 * lim * lim <= d <= 3 * lim * lim,
            lim == 1048576,
    ;
    assert(-6 * lim * lim * lim <= 2 * ny * d <= 6 * lim * lim * lim) by (nonlinear_arith)
        requires
            -lim <= ny <= lim,
            -3 * lim * lim <= d <= 3 * lim * lim,
            lim == 1048576,
    ;
    assert(-6 * lim * lim * lim <= 2 * nz * d <= 6 * lim * lim * lim) by (nonlinear_arith)
        requires
            -lim <= nz <= lim,
            -3 * lim * lim <= d <= 3 * lim * lim,
            lim == 1048576,
    ;
    IVec3 { x: 2 * nx * d - rx, y: 2 * ny * d - ry, z: 2 * nz * d - rz }
}

} // verus!

use vstd::prelude::*;

verus! {

/// A grid coordinate. Coordinates may lie outside a grid; `neighbors`
/// clips its results to the given bounds.
#[derive(Copy, Clone, Debug, PartialEq, Eq, Structural)]
pub struct Point {
    pub x: i32,
    pub y: i32,
}

/// `q` lies within the `max_x` by `max_y` bounding box.
pub open spec fn in_bounds(q: Point, max_x: int, max_y: int) -> bool {
    0 <= q.x < max_x && 0 <= q.y < max_y
}

/// `q` is one of the up to eight Moore neighbors of `p`: a distinct
/// point whose coordinates each differ from `p`'s by at most one.
pub open spec fn is_neighbor(p: Point, q: Point) -> bool {
    &&& q != p
    &&& -1 <= q.x - p.x <= 1
    &&& -1 <= q.y - p.y <= 1
}

/// Appends `q` to `r` exactly when `q` lies within the bounding box,
/// keeping the collection free of repeats.
fn push_if_in_bounds(r: &mut Vec<Point>, q: Point, max_x: i32, max_y: i32)
    requires
        !old(r)@.contains(q),
        old(r)@.no_duplicates(),
    ensures
        forall|p: Point| final(r)@.contains(p) <==> (old(r)@.contains(p) || (p == q
            && in_bounds(q, max_x as int, max_y as int))),
        final(r)@.no_duplicates(),
        final(r)@.len() <= old(r)@.len() + 1,
{
    proof {
        broadcast use vstd::seq_lib::lemma_seq_contains_after_push;

    }
    if 0 <= q.x && q.x < max_x && 0 <= q.y && q.y < max_y {
        r.push(q);
        proof {
            let n = r@.len() - 1;
            assert forall|i: int, j: int|
                0 <= i < r@.len() && 0 <= j < r@.len() && i != j implies r@[i] != r@[j] by {
                if i == n && j < n {
                    if r@[j] == q {
                        assert(old(r)@[j] == q);
                        assert(old(r)@.contains(q));
                    }
                } else if j == n && i < n {
                    if r@[i] == q {
                        assert(old(r)@[i] == q);
                        assert(old(r)@.contains(q));
                    }
                }
            }
            assert(r@.no_duplicates());
        }
    }
}

impl Point {
    pub fn new(x: i32, y: i32) -> (r: Self)
        ensures
            r.x == x,
            r.y == y,
    {
        Point { x, y }
    }

    /// The set of valid 8-connected neighbor coordinates of `self`,
    /// clipped to `[0, max_x) x [0, max_y)` and excluding `self`:
    /// each such coordinate appears exactly once, so there are at
    /// most eight, fewer at edges and corners.
    pub fn neighbors(&self, max_x: i32, max_y: i32) -> (r: Vec<Point>)
        requires
            0 <= self.x < max_x,
            0 <= self.y < max_y,
            max_x < i32::MAX,
            max_y < i32::MAX,
        ensures
            forall|q: Point| r@.contains(q) <==> is_neighbor(*self, q) && in_bounds(
                q,
                max_x as int,
                max_y as int,
            ),
            r@.no_duplicates(),
            r@.len() <= 8,
    {
        let mut r: Vec<Point> = Vec::new();
        let x = self.x;
        let y = self.y;
        push_if_in_bounds(&mut r, Point { x: x - 1, y: y - 1 }, max_x, max_y);
        push_if_in_bounds(&mut r, Point { x, y: y - 1 }, max_x, max_y);
        push_if_in_bounds(&mut r, Point { x: x + 1, y: y - 1 }, max_x, max_y);
        push_if_in_bounds(&mut r, Point { x: x - 1, y }, max_x, max_y);
        push_if_in_bounds(&mut r, Point { x: x + 1, y }, max_x, max_y);
        push_if_in_bounds(&mut r, Point { x: x - 1, y: y + 1 }, max_x, max_y);
        push_if_in_bounds(&mut r, Point { x, y: y + 1 }, max_x, max_y);
        push_if_in_bounds(&mut r, Point { x: x + 1, y: y + 1 }, max_x, max_y);
        proof {
            assert forall|q: Point|
                is_neighbor(*self, q) && in_bounds(q, max_x as int, max_y as int)
                implies r@.contains(q) by {
                assert(q.x == x - 1 || q.x == x || q.x == x + 1);
                assert(q.y == y - 1 || q.y == y || q.y == y + 1);
            }
        }
        r
    }
}

} // verus!

use vstd::prelude::*;
use crate::components::Viewshed;
use crate::geometry::Point;
use crate::map::{in_grid, GameMap};

verus! {

/// Keeps each viewshed to the tiles of the map.
pub struct VisibilitySystemOld {}

/// The points among the first `n` of `pts` that lie inside a `w` by `h` grid, in order.
pub open spec fn points_in_grid(w: int, h: int, pts: Seq<Point>, n: nat) -> Seq<Point>
    decreases n,
{
    if n == 0 {
        Seq::empty()
    } else {
        let before = points_in_grid(w, h, pts, (n - 1) as nat);
        if in_grid(w, h, pts[n - 1].x as int, pts[n - 1].y as int) {
            before.push(pts[n - 1])
        } else {
            before
        }
    }
}

/// Every point that `points_in_grid` keeps lies inside the grid.
pub proof fn lemma_points_in_grid_inside(w: int, h: int, pts: Seq<Point>, n: nat)
    requires
        n <= pts.len(),
    ensures
        forall|k: int|
            0 <= k < points_in_grid(w, h, pts, n).len() ==> in_grid(
                w,
                h,
                (#[trigger] points_in_grid(w, h, pts, n)[k]).x as int,
                points_in_grid(w, h, pts, n)[k].y as int,
            ),
    decreases n,
{
    if n > 0 {
        lemma_points_in_grid_inside(w, h, pts, (n - 1) as nat);
        let before = points_in_grid(w, h, pts, (n - 1) as nat);
        let all = points_in_grid(w, h, pts, n);
        assert forall|k: int| 0 <= k < all.len() implies in_grid(w, h, (#[trigger] all[k]).x as int, all[k].y as int) by {
            if k < before.len() {
                assert(all[k] == before[k]);
            }
        }
    }
}

/// What the system keeps of a field of view is exactly the points of the field that lie on the
/// map, in their order: the field filtered by lying on the map.
pub proof fn lemma_points_in_grid_is_filter(w: int, h: int, pts: Seq<Point>, n: nat)
    requires
        n <= pts.len(),
    ensures
        points_in_grid(w, h, pts, n) == pts.take(n as int).filter(|p: Point| 0 <= p.x < w && 0 <= p.y < h),
    decreases n,
{
    reveal(Seq::filter);
    if n > 0 {
        lemma_points_in_grid_is_filter(w, h, pts, (n - 1) as nat);
        assert(pts.take(n as int).drop_last() =~= pts.take(n - 1));
        assert(pts.take(n as int).last() == pts[n - 1]);
    }
}

/// Every point of the field that lies on the map is kept, and every point kept lies on the map
/// and comes from the field.
pub proof fn lemma_points_in_grid_keeps_map_points(w: int, h: int, pts: Seq<Point>)
    ensures
        forall|k: int|
            0 <= k < pts.len() && 0 <= (#[trigger] pts[k]).x < w && 0 <= pts[k].y < h ==> points_in_grid(w, h, pts, pts.len()).contains(
                pts[k],
            ),
        forall|k: int|
            0 <= k < points_in_grid(w, h, pts, pts.len()).len() ==> 0 <= (#[trigger] points_in_grid(w, h, pts, pts.len())[k]).x < w
                && 0 <= points_in_grid(w, h, pts, pts.len())[k].y < h && pts.contains(points_in_grid(w, h, pts, pts.len())[k]),
{
    lemma_points_in_grid_is_filter(w, h, pts, pts.len());
    assert(pts.take(pts.len() as int) =~= pts);
    let pred = |p: Point| 0 <= p.x < w && 0 <= p.y < h;
    assert forall|k: int| 0 <= k < pts.len() && 0 <= (#[trigger] pts[k]).x < w && 0 <= pts[k].y < h implies points_in_grid(
        w,
        h,
        pts,
        pts.len(),
    ).contains(pts[k]) by {
        pts.lemma_filter_contains(pred, k);
    }
    assert forall|k: int| 0 <= k < points_in_grid(w, h, pts, pts.len()).len() implies 0 <= (#[trigger] points_in_grid(w, h, pts, pts.len())[k]).x < w
        && 0 <= points_in_grid(w, h, pts, pts.len())[k].y < h && pts.contains(points_in_grid(w, h, pts, pts.len())[k]) by {
        pts.lemma_filter_pred(pred, k);
        lemma_points_in_grid_from_field(w, h, pts, pts.len());
        let j = choose|j: int| 0 <= j < pts.len() && pts[j] == points_in_grid(w, h, pts, pts.len())[k];
        assert(pts.contains(pts[j]));
    }
}

/// Every point kept is one of the first `n` points of the field.
pub proof fn lemma_points_in_grid_from_field(w: int, h: int, pts: Seq<Point>, n: nat)
    requires
        n <= pts.len(),
    ensures
        forall|k: int|
            0 <= k < points_in_grid(w, h, pts, n).len() ==> exists|j: int|
                0 <= j < n && pts[j] == #[trigger] points_in_grid(w, h, pts, n)[k],
    decreases n,
{
    if n > 0 {
        lemma_points_in_grid_from_field(w, h, pts, (n - 1) as nat);
        let before = points_in_grid(w, h, pts, (n - 1) as nat);
        let all = points_in_grid(w, h, pts, n);
        assert forall|k: int| 0 <= k < all.len() implies exists|j: int| 0 <= j < n && pts[j] == #[trigger] all[k] by {
            if k < before.len() {
                assert(all[k] == before[k]);
                let j = choose|j: int| 0 <= j < n - 1 && pts[j] == #[trigger] before[k];
                assert(pts[j] == all[k]);
            } else {
                assert(pts[n - 1] == all[k]);
            }
        }
    }
}

impl VisibilitySystemOld {
    /// Replaces the tiles the viewshed sees by `field`, the field of view just computed for
    /// its entity, less the points that lie outside the map; the order of `field` is kept.
    pub fn run(&mut self, map: &GameMap, viewshed: &mut Viewshed, field: Vec<Point>)
        ensures
            final(viewshed).visible_tiles@ == points_in_grid(
                map.width as int,
                map.height as int,
                field@,
                field.len() as nat,
            ),
            forall|k: int|
                0 <= k < final(viewshed).visible_tiles.len() ==> in_grid(
                    map.width as int,
                    map.height as int,
                    (#[trigger] final(viewshed).visible_tiles@[k]).x as int,
                    final(viewshed).visible_tiles@[k].y as int,
                ),
            final(viewshed).visible_tiles@ == field@.filter(|p: Point| 0 <= p.x < map.width && 0 <= p.y < map.height),
            final(viewshed).range == old(viewshed).range,
            final(viewshed).dirty == old(viewshed).dirty,
    {
        viewshed.visible_tiles.clear();
        let mut kept: Vec<Point> = Vec::new();
        let mut k: usize = 0;
        while k < field.len()
            invariant
                0 <= k <= field.len(),
                kept@ == points_in_grid(map.width as int, map.height as int, field@, k as nat),
            decreases field.len() - k,
        {
            let p = field[k];
            if p.x >= 0 && p.x < map.width && p.y >= 0 && p.y < map.height {
                kept.push(p);
            }
            k = k + 1;
        }
        viewshed.visible_tiles = kept;
        proof {
            lemma_points_in_grid_inside(map.width as int, map.height as int, field@, field.len() as nat);
            lemma_points_in_grid_is_filter(map.width as int, map.height as int, field@, field.len() as nat);
            assert(field@.take(field.len() as int) =~= field@);
        }
    }
}

} // verus!

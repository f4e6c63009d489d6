use vstd::prelude::*;
use crate::components::{Position, RunState, Viewshed};
use crate::geometry::Point;
use crate::map::{contains_point, in_grid, xy_idx_spec, GameMap};

verus! {

/// Moves monsters toward the player and has them attack when close.
pub struct MonsterAI {}

/// What a monster does this turn.
#[derive(Clone, Copy, Debug, PartialEq, Eq, Structural)]
pub enum MonsterAction {
    /// Asks to attack the player in melee.
    Attack,
    /// Looks for a path to the player and steps along it.
    Chase,
    /// Does nothing.
    Wait,
}

/// A path found on the map: whether one was found, and the tile indices along it, the first
/// being where it starts.
#[derive(Debug)]
pub struct PathResult {
    pub success: bool,
    pub steps: Vec<usize>,
}

/// Whether following `path` moves the monster: a path was found and has a step beyond its start.
pub open spec fn path_moves(path: PathResult) -> bool {
    path.success && path.steps.len() > 1
}

/// Integer division rounding toward zero, as Rust's `/` on `i32` does (for `b > 0`).
pub open spec fn div_toward_zero(a: int, b: int) -> int {
    if a >= 0 {
        a / b
    } else {
        -((-a) / b)
    }
}

/// The remainder of `div_toward_zero`, as Rust's `%` on `i32` gives it: it takes the sign of `a`.
pub open spec fn rem_toward_zero(a: int, b: int) -> int {
    if a >= 0 {
        a % b
    } else {
        -((-a) % b)
    }
}

/// The second step of `path`, converted with `as i32` (which keeps its low 32 bits).
pub open spec fn step_of(path: PathResult) -> int {
    (path.steps@[1] as i32) as int
}

impl MonsterAI {
    /// Monsters act only on the monsters' turn.
    pub fn acts_in(runstate: RunState) -> (acts: bool)
        ensures
            acts == (runstate == RunState::MonsterTurn),
    {
        match runstate {
            RunState::MonsterTurn => true,
            _ => false,
        }
    }

    /// The choice of a monster: attack when the player is within melee range (a distance
    /// below 1.5), else chase when the player is among the tiles it sees, else wait.
    pub fn decide(in_melee_range: bool, viewshed: &Viewshed, player_pos: Point) -> (action: MonsterAction)
        ensures
            action == (if in_melee_range {
                MonsterAction::Attack
            } else if viewshed.visible_tiles@.contains(player_pos) {
                MonsterAction::Chase
            } else {
                MonsterAction::Wait
            }),
    {
        if in_melee_range {
            MonsterAction::Attack
        } else if contains_point(&viewshed.visible_tiles, player_pos) {
            MonsterAction::Chase
        } else {
            MonsterAction::Wait
        }
    }

    /// Takes the monster at `pos` one step along `path` when the path was found and goes
    /// beyond its start: the tile it leaves is no longer blocked, it moves to
    /// (`step % width`, `step / width`) where `step` is the second step taken `as i32`, the
    /// tile found there becomes blocked, and its viewshed must be computed again. Otherwise
    /// nothing changes.
    pub fn follow_path(map: &mut GameMap, pos: &mut Position, viewshed: &mut Viewshed, path: &PathResult)
        requires
            path_moves(*path) ==> {
                let step = step_of(*path);
                let w = old(map).width;
                &&& w > 0
                &&& xy_idx_spec(old(pos).x, old(pos).y, w) < old(map).blocked.len()
                &&& xy_idx_spec(rem_toward_zero(step, w as int) as i32, div_toward_zero(step, w as int) as i32, w)
                    < old(map).blocked.len()
            },
        ensures
            final(map).blocked.len() == old(map).blocked.len(),
            final(map).tiles == old(map).tiles,
            final(map).rooms == old(map).rooms,
            final(map).width == old(map).width,
            final(map).height == old(map).height,
            final(map).revealed_tiles == old(map).revealed_tiles,
            final(map).visible_tiles == old(map).visible_tiles,
            final(viewshed).visible_tiles == old(viewshed).visible_tiles,
            final(viewshed).range == old(viewshed).range,
            path_moves(*path) ==> {
                let step = step_of(*path);
                let w = old(map).width;
                &&& final(pos).x == rem_toward_zero(step, w as int)
                &&& final(pos).y == div_toward_zero(step, w as int)
                &&& final(map).blocked@ == old(map).blocked@.update(
                    xy_idx_spec(old(pos).x, old(pos).y, w),
                    false,
                ).update(xy_idx_spec(final(pos).x, final(pos).y, w), true)
                &&& final(map).blocked@[xy_idx_spec(final(pos).x, final(pos).y, w)]
                &&& final(viewshed).dirty
            },
            path_moves(*path) && path.steps@[1] <= i32::MAX ==> {
                let s = path.steps@[1] as int;
                let w = old(map).width as int;
                &&& final(pos).x == s % w
                &&& final(pos).y == s / w
                &&& xy_idx_spec(final(pos).x, final(pos).y, old(map).width) == s
                &&& old(map).wf() ==> in_grid(w, old(map).height as int, final(pos).x as int, final(pos).y as int)
            },
            !path_moves(*path) ==> {
                &&& *final(pos) == *old(pos)
                &&& final(map).blocked == old(map).blocked
                &&& final(viewshed).dirty == old(viewshed).dirty
            },
    {
        if path.success && path.steps.len() > 1 {
            let mut idx = map.xy_idx(pos.x, pos.y);
            map.blocked.set(idx, false);
            let step = path.steps[1] as i32;
            pos.x = step % map.width;
            pos.y = step / map.width;
            proof {
                let w = map.width as int;
                let h = map.height as int;
                assert(step as int == step_of(*path));
                assert(pos.y == div_toward_zero(step as int, w));
                assert(pos.x == rem_toward_zero(step as int, w));
                if path.steps@[1] <= i32::MAX {
                    let s = step as int;
                    vstd::arithmetic::div_mod::lemma_fundamental_div_mod(s, w);
                    vstd::arithmetic::div_mod::lemma_mod_pos_bound(s, w);
                    assert(0 <= s / w) by (nonlinear_arith)
                        requires
                            0 <= s,
                            0 < w,
                    ;
                    assert((s / w) * w + s % w == s) by (nonlinear_arith)
                        requires
                            s == w * (s / w) + s % w,
                    ;
                    if old(map).wf() {
                        assert(s < w * h);
                        assert(s / w < h) by (nonlinear_arith)
                            requires
                                0 <= s < w * h,
                                0 < w,
                                s == w * (s / w) + s % w,
                                0 <= s % w,
                        ;
                    }
                }
            }
            idx = map.xy_idx(pos.x, pos.y);
            map.blocked.set(idx, true);
            viewshed.dirty = true;
        }
    }
}

} // verus!

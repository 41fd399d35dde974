//! Neighbourhoods of the two geometries.
//!
//! Directions are numbered in scan order: 0 left, 1 right, then on a
//! rectangular grid 2 up and 3 down; on a hexagonal grid 2 up-left,
//! 3 up-right, 4 down-left and 5 down-right. Hexagonal boards use offset
//! coordinates in which odd rows are shifted half a cell to the right.
use vstd::prelude::*;
use crate::board::Geometry;

verus! {

pub open spec fn direction_count(g: Geometry) -> int {
    match g {
        Geometry::Rectangular => 4,
        Geometry::Hexagonal => 6,
    }
}

/// The cell next to (x, y) in direction `d` on a `w` by `h` grid, or `None`
/// past the grid's edge.
pub open spec fn step(g: Geometry, w: int, h: int, x: int, y: int, d: int) -> Option<(int, int)> {
    if d == 0 {
        if x > 0 { Some((x - 1, y)) } else { None }
    } else if d == 1 {
        if x < w - 1 { Some((x + 1, y)) } else { None }
    } else if g == Geometry::Rectangular {
        if d == 2 {
            if y > 0 { Some((x, y - 1)) } else { None }
        } else if d == 3 {
            if y < h - 1 { Some((x, y + 1)) } else { None }
        } else {
            None
        }
    } else {
        if d == 2 {
            if y > 0 && x + y % 2 > 0 { Some((x - (y - 1) % 2, y - 1)) } else { None }
        } else if d == 3 {
            if y > 0 && x < w - y % 2 { Some((x + y % 2, y - 1)) } else { None }
        } else if d == 4 {
            if y < h - 1 && x + y % 2 > 0 { Some((x - (y + 1) % 2, y + 1)) } else { None }
        } else if d == 5 {
            if y < h - 1 && x < w - y % 2 { Some((x + y % 2, y + 1)) } else { None }
        } else {
            None
        }
    }
}

/// How many more steps direction `d` allows from (x, y); each step lowers it.
pub open spec fn room(g: Geometry, w: int, h: int, x: int, y: int, d: int) -> int {
    if d == 0 {
        x
    } else if d == 1 {
        w - 1 - x
    } else if (g == Geometry::Rectangular && d == 2) || (g == Geometry::Hexagonal && (d == 2
        || d == 3)) {
        y
    } else {
        h - 1 - y
    }
}

pub open spec fn lift(r: Option<(u8, u8)>) -> Option<(int, int)> {
    match r {
        Some(p) => Some((p.0 as int, p.1 as int)),
        None => None,
    }
}

pub proof fn lemma_step(g: Geometry, w: int, h: int, x: int, y: int, d: int)
    requires
        0 <= x < w,
        0 <= y < h,
    ensures
        step(g, w, h, x, y, d) matches Some(n) ==> {
            &&& 0 <= n.0 < w
            &&& 0 <= n.1 < h
            &&& 0 <= room(g, w, h, n.0, n.1, d) < room(g, w, h, x, y, d)
        },
        0 <= room(g, w, h, x, y, d),
{
}

/// The direction that leads back: left and right, up and down, and on a
/// hexagonal grid up-left and down-right, up-right and down-left.
pub open spec fn opposite(g: Geometry, d: int) -> int {
    if d == 0 {
        1
    } else if d == 1 {
        0
    } else if g == Geometry::Rectangular {
        if d == 2 { 3 } else { 2 }
    } else {
        7 - d
    }
}

/// Stepping in direction `d` and then in the opposite direction comes back.
pub proof fn lemma_step_back(g: Geometry, w: int, h: int, x: int, y: int, d: int)
    requires
        0 <= x < w,
        0 <= y < h,
        0 <= d < direction_count(g),
    ensures
        step(g, w, h, x, y, d) matches Some(n) ==> step(g, w, h, n.0, n.1, opposite(g, d)) == Some((x, y)),
        0 <= opposite(g, d) < direction_count(g),
{
}

/// The cell next to (x, y) in direction `d`.
pub fn neighbor(g: Geometry, w: u8, h: u8, x: u8, y: u8, d: u8) -> (r: Option<(u8, u8)>)
    requires
        x < w,
        y < h,
    ensures
        lift(r) == step(g, w as int, h as int, x as int, y as int, d as int),
{
    if d == 0 {
        if x > 0 { Some((x - 1, y)) } else { None }
    } else if d == 1 {
        if x < w - 1 { Some((x + 1, y)) } else { None }
    } else if g == Geometry::Rectangular {
        if d == 2 {
            if y > 0 { Some((x, y - 1)) } else { None }
        } else if d == 3 {
            if y < h - 1 { Some((x, y + 1)) } else { None }
        } else {
            None
        }
    } else {
        if d == 2 {
            if y > 0 && x + y % 2 > 0 { Some((x - (y - 1) % 2, y - 1)) } else { None }
        } else if d == 3 {
            if y > 0 && x < w - y % 2 { Some((x + y % 2, y - 1)) } else { None }
        } else if d == 4 {
            if y < h - 1 && x + y % 2 > 0 { Some((x - (y + 1) % 2, y + 1)) } else { None }
        } else if d == 5 {
            if y < h - 1 && x < w - y % 2 { Some((x + y % 2, y + 1)) } else { None }
        } else {
            None
        }
    }
}

/// Number of directions of `g`.
pub fn directions(g: Geometry) -> (r: u8)
    ensures
        r == direction_count(g),
{
    match g {
        Geometry::Rectangular => 4,
        Geometry::Hexagonal => 6,
    }
}

} // verus!

use vstd::prelude::*;

use crate::car::{Car, Dir, Id, MoveDir, Position};

verus! {

/// One immutable snapshot of the puzzle: fixed geometry plus the vehicles.
#[derive(Debug)]
pub struct Grid {
    pub width: usize,
    pub height: usize,
    pub exit: Position,
    pub cars: Vec<Car>,
}

/// Two snapshots describe the same board: equal geometry, equal vehicles.
pub open spec fn g_eq(a: Grid, b: Grid) -> bool {
    &&& a.width == b.width
    &&& a.height == b.height
    &&& a.exit == b.exit
    &&& a.cars@ == b.cars@
}

/// The cardinal direction from an older origin `oc` to a newer origin `c`.
pub open spec fn dir4_of(oc: Car, c: Car) -> MoveDir {
    if c.x > oc.x {
        MoveDir::Right
    } else if c.x < oc.x {
        MoveDir::Left
    } else if c.y > oc.y {
        MoveDir::Down
    } else {
        MoveDir::Up
    }
}

/// The axis slide that realises a cardinal move.
pub open spec fn dir2_of(d: MoveDir) -> Dir {
    match d {
        MoveDir::Left | MoveDir::Up => Dir::Forward,
        MoveDir::Right | MoveDir::Down => Dir::Backward,
    }
}

/// A vehicle can only move cardinally along its own axis.
pub open spec fn axis_ok(c: Car, d: MoveDir) -> bool {
    match d {
        MoveDir::Left | MoveDir::Right => c.horizontal,
        MoveDir::Up | MoveDir::Down => !c.horizontal,
    }
}

impl Grid {
    pub open spec fn cars_wf(self) -> bool {
        forall|i: int| 0 <= i < self.cars@.len() ==> (#[trigger] self.cars@[i]).wf()
    }

    pub open spec fn ids_unique(self) -> bool {
        forall|i: int, j: int|
            0 <= i < j < self.cars@.len() ==> (#[trigger] self.cars@[i]).id != (
            #[trigger] self.cars@[j]).id
    }

    pub open spec fn exit_ok(self) -> bool {
        self.exit.0 < usize::MAX && self.exit.1 < usize::MAX
    }

    /// Well-formed board: each vehicle is well formed, identities are unique,
    /// and the exit leaves headroom for coordinate arithmetic.
    pub open spec fn wf(self) -> bool {
        self.cars_wf() && self.ids_unique() && self.exit_ok()
    }

    /// The win predicate: some player vehicle's head is at the exit.
    pub open spec fn solved_spec(self) -> bool {
        exists|i: int|
            0 <= i < self.cars@.len() && (#[trigger] self.cars@[i]).is_player_spec()
                && self.cars@[i].head_spec() == self.exit
    }

    /// A candidate placement is legal: the newly occupied cell `pos` hits no
    /// other vehicle, and it either lies on the board or is the exit cell
    /// entered by the player.
    pub open spec fn fits_spec(self, car: Car, pos: Position) -> bool {
        &&& forall|j: int|
            0 <= j < self.cars@.len() && (#[trigger] self.cars@[j]).id != car.id
                ==> !self.cars@[j].occupies(pos.0 as int, pos.1 as int)
        &&& ((car.is_player_spec() && pos == self.exit) || (pos.0 < self.width && pos.1
            < self.height))
    }

    /// Board `b` is the result of sliding the vehicle at index `i` one cell.
    pub open spec fn move_at_ok(self, i: int, dir: Dir, b: Grid) -> bool {
        let c = self.cars@[i];
        let c2 = c.slid_spec(dir);
        let pos = match dir {
            Dir::Forward => c2.head_spec(),
            Dir::Backward => c2.tail_spec(),
        };
        &&& c.can_slide(dir)
        &&& self.fits_spec(c2, pos)
        &&& b.width == self.width
        &&& b.height == self.height
        &&& b.exit == self.exit
        &&& b.cars@ == self.cars@.update(i, c2)
    }

    /// Board `b` results from sliding the vehicle named `id` one cell.
    pub open spec fn move_ok(self, id: Id, dir: Dir, b: Grid) -> bool {
        exists|i: int|
            0 <= i < self.cars@.len() && self.cars@[i].id == id && #[trigger] self.move_at_ok(
                i,
                dir,
                b,
            )
    }
}

/// Board `b` results from one atomic move of vehicle `id` in direction `d`.
pub open spec fn is_cmove(a: Grid, id: Id, d: MoveDir, b: Grid) -> bool {
    exists|i: int|
        0 <= i < a.cars@.len() && a.cars@[i].id == id && axis_ok(a.cars@[i], d)
            && #[trigger] a.move_at_ok(i, dir2_of(d), b)
}

/// Some legal single-vehicle slide leads from `a` to `b`.
pub open spec fn edge(a: Grid, b: Grid) -> bool {
    exists|id: Id, dir: Dir| #[trigger] a.move_ok(id, dir, b)
}

impl PartialEq for Grid {
    fn eq(&self, other: &Grid) -> (r: bool) {
        if self.width != other.width || self.height != other.height || self.exit.0
            != other.exit.0 || self.exit.1 != other.exit.1 || self.cars.len() != other.cars.len() {
            return false;
        }
        let n = self.cars.len();
        let mut i: usize = 0;
        while i < n
            invariant
                n == self.cars@.len(),
                n == other.cars@.len(),
                i <= n,
                forall|j: int| 0 <= j < i ==> self.cars@[j] == other.cars@[j],
            decreases n - i,
        {
            if self.cars[i] != other.cars[i] {
                return false;
            }
            i = i + 1;
        }
        proof {
            assert(self.cars@ =~= other.cars@);
        }
        true
    }
}

impl vstd::std_specs::cmp::PartialEqSpecImpl for Grid {
    open spec fn obeys_eq_spec() -> bool {
        true
    }

    open spec fn eq_spec(&self, other: &Grid) -> bool {
        g_eq(*self, *other)
    }
}

/// An element-for-element copy of a vehicle list.
fn copy_cars(v: &Vec<Car>) -> (r: Vec<Car>)
    ensures
        r@ == v@,
{
    let mut r: Vec<Car> = Vec::new();
    let mut i: usize = 0;
    while i < v.len()
        invariant
            i <= v@.len(),
            r@.len() == i,
            forall|j: int| 0 <= j < i ==> r@[j] == v@[j],
        decreases v@.len() - i,
    {
        r.push(v[i]);
        i = i + 1;
    }
    proof {
        assert(r@ =~= v@);
    }
    r
}

impl Grid {
    /// True iff the puzzle is won.
    pub fn is_solved(&self) -> (r: bool)
        ensures
            r == self.solved_spec(),
    {
        let n = self.cars.len();
        let mut i: usize = 0;
        while i < n
            invariant
                n == self.cars@.len(),
                i <= n,
                forall|j: int|
                    0 <= j < i ==> !((#[trigger] self.cars@[j]).is_player_spec() && self.cars@[j].head_spec()
                        == self.exit),
            decreases n - i,
        {
            let c = &self.cars[i];
            if c.is_player() && c.x == self.exit.0 && c.y == self.exit.1 {
                return true;
            }
            i = i + 1;
        }
        false
    }

    /// Whether `car` may newly occupy `pos` on this board.
    pub fn car_fits(&self, car: &Car, new_pos: Position) -> (r: bool)
        requires
            self.cars_wf(),
        ensures
            r == self.fits_spec(*car, new_pos),
    {
        let n = self.cars.len();
        let mut i: usize = 0;
        while i < n
            invariant
                self.cars_wf(),
                n == self.cars@.len(),
                i <= n,
                forall|j: int|
                    0 <= j < i && (#[trigger] self.cars@[j]).id != car.id ==> !self.cars@[j].occupies(
                        new_pos.0 as int,
                        new_pos.1 as int,
                    ),
            decreases n - i,
        {
            let c = &self.cars[i];
            if c.id != car.id && c.includes(new_pos) {
                return false;
            }
            i = i + 1;
        }
        if car.is_player() && new_pos.0 == self.exit.0 && new_pos.1 == self.exit.1 {
            return true;
        }
        new_pos.0 < self.width && new_pos.1 < self.height
    }

    /// Slides the vehicle named `id` one cell in `dir`, if that is legal;
    /// returns the new board, or `None` exactly when no legal result exists
    /// (unknown vehicle, coordinate underflow, collision, or out of bounds).
    pub fn move_car(&self, id: Id, dir: Dir) -> (r: Option<Grid>)
        requires
            self.wf(),
        ensures
            r matches Some(g2) ==> self.move_ok(id, dir, g2),
            r is None ==> forall|g2: Grid| !self.move_ok(id, dir, g2),
    {
        let n = self.cars.len();
        let mut i: usize = 0;
        while i < n && self.cars[i].id != id
            invariant
                n == self.cars@.len(),
                i <= n,
                forall|j: int| 0 <= j < i ==> (#[trigger] self.cars@[j]).id != id,
            decreases n - i,
        {
            i = i + 1;
        }
        if i == n {
            // No vehicle has this identity.
            return None;
        }
        let c = self.cars[i];
        proof {
            assert(c.wf());
            assert forall|j: int|
                0 <= j < self.cars@.len() && (#[trigger] self.cars@[j]).id == id implies j
                == i by {
                if j < i {
                    assert(self.cars@[j].id != self.cars@[i as int].id);
                } else if j > i {
                    assert(self.cars@[i as int].id != self.cars@[j].id);
                }
            }
        }
        let c2_opt: Option<Car> = match dir {
            Dir::Forward => {
                if c.horizontal {
                    if c.x == 0 {
                        None
                    } else {
                        Some(Car { x: c.x - 1, ..c })
                    }
                } else {
                    if c.y == 0 {
                        None
                    } else {
                        Some(Car { y: c.y - 1, ..c })
                    }
                }
            },
            Dir::Backward => {
                if c.horizontal {
                    Some(Car { x: c.x + 1, ..c })
                } else {
                    Some(Car { y: c.y + 1, ..c })
                }
            },
        };
        match c2_opt {
            None => {
                proof {
                    assert forall|g2: Grid| !self.move_ok(id, dir, g2) by {
                        if self.move_ok(id, dir, g2) {
                            let j = choose|j: int|
                                0 <= j < self.cars@.len() && self.cars@[j].id == id
                                    && #[trigger] self.move_at_ok(j, dir, g2);
                            assert(self.move_at_ok(i as int, dir, g2));
                            assert(false);
                        }
                    }
                }
                None
            },
            Some(c2) => {
                proof {
                    assert(c2 == c.slid_spec(dir));
                    assert(c2.cells_fit());
                }
                let pos = match dir {
                    Dir::Forward => c2.head(),
                    Dir::Backward => c2.tail(),
                };
                if self.car_fits(&c2, pos) {
                    let mut cars2 = copy_cars(&self.cars);
                    cars2[i] = c2;
                    let g2 = Grid {
                        width: self.width,
                        height: self.height,
                        exit: self.exit,
                        cars: cars2,
                    };
                    proof {
                        assert(self.move_at_ok(i as int, dir, g2));
                    }
                    Some(g2)
                } else {
                    proof {
                        assert forall|g2: Grid| !self.move_ok(id, dir, g2) by {
                            if self.move_ok(id, dir, g2) {
                                let j = choose|j: int|
                                    0 <= j < self.cars@.len() && self.cars@[j].id == id
                                        && #[trigger] self.move_at_ok(j, dir, g2);
                                assert(self.move_at_ok(i as int, dir, g2));
                                assert(false);
                            }
                        }
                    }
                    None
                }
            },
        }
    }

    /// All boards reachable by sliding exactly one vehicle by one cell.
    pub fn next_moves(&self) -> (r: Vec<Grid>)
        requires
            self.wf(),
        ensures
            r@.len() <= 2 * self.cars@.len(),
            forall|k: int| 0 <= k < r@.len() ==> edge(*self, #[trigger] r@[k]),
            forall|id: Id, dir: Dir, g2: Grid|
                #[trigger] self.move_ok(id, dir, g2) ==> exists|k: int|
                    0 <= k < r@.len() && g_eq(r@[k], g2),
    {
        let n = self.cars.len();
        let mut out: Vec<Grid> = Vec::new();
        let mut i: usize = 0;
        while i < n
            invariant
                self.wf(),
                n == self.cars@.len(),
                i <= n,
                out@.len() <= 2 * i,
                forall|k: int| 0 <= k < out@.len() ==> edge(*self, #[trigger] out@[k]),
                forall|id: Id, dir: Dir, g2: Grid|
                    #[trigger] self.move_ok(id, dir, g2) && (exists|j: int|
                        0 <= j < i && (#[trigger] self.cars@[j]).id == id) ==> exists|k: int|
                        0 <= k < out@.len() && g_eq(out@[k], g2),
            decreases n - i,
        {
            let ghost out0 = out@;
            let cid = self.cars[i].id;
            let r1 = self.move_car(cid, Dir::Forward);
            let ghost s1 = r1;
            match r1 {
                Some(g) => {
                    out.push(g);
                },
                None => {},
            }
            let ghost out1 = out@;
            let r2 = self.move_car(cid, Dir::Backward);
            let ghost s2 = r2;
            match r2 {
                Some(g) => {
                    out.push(g);
                },
                None => {},
            }
            proof {
                assert(s1 matches Some(g1) ==> out1 == out0.push(g1) && self.move_ok(
                    cid,
                    Dir::Forward,
                    g1,
                ));
                assert(s1 is None ==> out1 == out0);
                assert(s2 matches Some(g1) ==> out@ == out1.push(g1) && self.move_ok(
                    cid,
                    Dir::Backward,
                    g1,
                ));
                assert(s2 is None ==> out@ == out1);
                assert forall|k: int| 0 <= k < out@.len() implies edge(*self, #[trigger] out@[k]) by {
                    if k < out0.len() {
                        assert(out@[k] == out0[k]);
                        assert(edge(*self, out0[k]));
                    } else if k < out1.len() {
                        assert(out@[k] == s1->0);
                        assert(self.move_ok(cid, Dir::Forward, out@[k]));
                    } else {
                        assert(out@[k] == s2->0);
                        assert(self.move_ok(cid, Dir::Backward, out@[k]));
                    }
                }
                assert forall|id: Id, dir: Dir, g2: Grid|
                    #[trigger] self.move_ok(id, dir, g2) && (exists|j: int|
                        0 <= j < i + 1 && (#[trigger] self.cars@[j]).id == id) implies exists|
                    k: int,
                |
                    0 <= k < out@.len() && g_eq(out@[k], g2) by {
                    let j = choose|j: int| 0 <= j < i + 1 && (#[trigger] self.cars@[j]).id == id;
                    if j < i {
                        let k = choose|k: int| 0 <= k < out0.len() && g_eq(out0[k], g2);
                        assert(out@[k] == out0[k]);
                    } else {
                        assert(id == cid);
                        match dir {
                            Dir::Forward => {
                                match s1 {
                                    Some(g1) => {
                                        lemma_move_functional(*self, cid, dir, g1, g2);
                                        assert(out@[out0.len() as int] == g1);
                                    },
                                    None => {
                                        assert(false);
                                    },
                                }
                            },
                            Dir::Backward => {
                                match s2 {
                                    Some(g1) => {
                                        lemma_move_functional(*self, cid, dir, g1, g2);
                                        assert(out@[out1.len() as int] == g1);
                                    },
                                    None => {
                                        assert(false);
                                    },
                                }
                            },
                        }
                    }
                }
            }
            i = i + 1;
        }
        out
    }

    /// Given an adjacent predecessor `other`, names the vehicle that moved
    /// and the cardinal direction it went; `None` when no head differs.
    pub fn diff(&self, other: &Grid) -> (r: Option<(Id, MoveDir)>)
        requires
            self.cars@.len() == other.cars@.len(),
            forall|i: int|
                0 <= i < self.cars@.len() ==> (#[trigger] self.cars@[i]).id == other.cars@[i].id,
        ensures
            r is None ==> forall|i: int|
                0 <= i < self.cars@.len() ==> (#[trigger] self.cars@[i]).head_spec()
                    == other.cars@[i].head_spec(),
            r matches Some(p) ==> exists|i: int|
                0 <= i < self.cars@.len() && (#[trigger] self.cars@[i]).head_spec()
                    != other.cars@[i].head_spec() && (forall|j: int|
                    0 <= j < i ==> (#[trigger] self.cars@[j]).head_spec()
                        == other.cars@[j].head_spec()) && p.0 == self.cars@[i].id && p.1 == dir4_of(
                    other.cars@[i],
                    self.cars@[i],
                ),
    {
        let n = self.cars.len();
        let mut i: usize = 0;
        while i < n
            invariant
                n == self.cars@.len(),
                n == other.cars@.len(),
                i <= n,
                forall|j: int|
                    0 <= j < i ==> (#[trigger] self.cars@[j]).head_spec()
                        == other.cars@[j].head_spec(),
            decreases n - i,
        {
            let c = &self.cars[i];
            let oc = &other.cars[i];
            if c.x != oc.x || c.y != oc.y {
                let d = if c.x > oc.x {
                    MoveDir::Right
                } else if c.x < oc.x {
                    MoveDir::Left
                } else if c.y > oc.y {
                    MoveDir::Down
                } else {
                    MoveDir::Up
                };
                return Some((c.id, d));
            }
            i = i + 1;
        }
        None
    }
}

/// The character shown at `(x, y)`: the identity of the last vehicle among
/// the first `n` that covers the cell, or `.` for none.
pub open spec fn cell_char_upto(cars: Seq<Car>, n: int, x: int, y: int) -> char
    decreases
            (if n >= 0 {
                n
            } else {
                0
            }),
{
    if n <= 0 {
        '.'
    } else if cars[n - 1].occupies(x, y) {
        cars[n - 1].id
    } else {
        cell_char_upto(cars, n - 1, x, y)
    }
}

/// The character shown at `(x, y)` of a rendered board.
pub open spec fn cell_char(g: Grid, x: int, y: int) -> char {
    cell_char_upto(g.cars@, g.cars@.len() as int, x, y)
}

impl Grid {
    /// Draws the board interior: `height` rows of `width` characters, each
    /// cell showing the vehicle that covers it, or `.` when empty.
    pub fn render(&self) -> (r: Vec<Vec<char>>)
        requires
            self.wf(),
        ensures
            r@.len() == self.height,
            forall|yy: int| 0 <= yy < self.height ==> (#[trigger] r@[yy])@.len() == self.width,
            forall|yy: int, xx: int|
                0 <= yy < self.height && 0 <= xx < self.width ==> (#[trigger] r@[yy]@[xx])
                    == cell_char(*self, xx, yy),
    {
        let n = self.cars.len();
        let mut rows: Vec<Vec<char>> = Vec::new();
        let mut yy: usize = 0;
        while yy < self.height
            invariant
                self.wf(),
                n == self.cars@.len(),
                yy <= self.height,
                rows@.len() == yy,
                forall|t: int| 0 <= t < yy ==> (#[trigger] rows@[t])@.len() == self.width,
                forall|t: int, u: int|
                    0 <= t < yy && 0 <= u < self.width ==> (#[trigger] rows@[t]@[u]) == cell_char(
                        *self,
                        u,
                        t,
                    ),
            decreases self.height - yy,
        {
            let mut row: Vec<char> = Vec::new();
            let mut xx: usize = 0;
            while xx < self.width
                invariant
                    self.wf(),
                    n == self.cars@.len(),
                    yy < self.height,
                    xx <= self.width,
                    row@.len() == xx,
                    forall|u: int|
                        0 <= u < xx ==> (#[trigger] row@[u]) == cell_char(*self, u, yy as int),
                decreases self.width - xx,
            {
                let mut e: usize = n;
                while e > 0 && !self.cars[e - 1].includes((xx, yy))
                    invariant
                        self.wf(),
                        n == self.cars@.len(),
                        e <= n,
                        cell_char_upto(self.cars@, n as int, xx as int, yy as int)
                            == cell_char_upto(self.cars@, e as int, xx as int, yy as int),
                    decreases e,
                {
                    e = e - 1;
                }
                if e > 0 {
                    row.push(self.cars[e - 1].id);
                } else {
                    row.push('.');
                }
                xx = xx + 1;
            }
            rows.push(row);
            yy = yy + 1;
        }
        rows
    }
}

/// Geometry and identity facts preserved by a single slide.
pub open spec fn skel_eq(a: Grid, b: Grid) -> bool {
    &&& a.width == b.width
    &&& a.height == b.height
    &&& a.exit == b.exit
    &&& a.cars@.len() == b.cars@.len()
    &&& forall|i: int|
        0 <= i < a.cars@.len() ==> ((#[trigger] a.cars@[i]).id == b.cars@[i].id && a.cars@[i].car_type
            == b.cars@[i].car_type && a.cars@[i].length == b.cars@[i].length
            && a.cars@[i].horizontal == b.cars@[i].horizontal)
}

/// Every origin lies strictly below `(bx, by)`.
pub open spec fn origins_bounded(g: Grid, bx: int, by: int) -> bool {
    forall|i: int| 0 <= i < g.cars@.len() ==> (#[trigger] g.cars@[i]).x < bx && g.cars@[i].y < by
}

/// A slide preserves well-formedness and the board's skeleton, and changes
/// exactly one vehicle, by one cell along its axis.
pub proof fn lemma_move_preserves(a: Grid, id: Id, dir: Dir, b: Grid)
    requires
        a.wf(),
        a.move_ok(id, dir, b),
    ensures
        b.wf(),
        skel_eq(a, b),
        exists|i: int|
            0 <= i < a.cars@.len() && (#[trigger] a.cars@[i]).id == id && b.cars@ == a.cars@.update(
                i,
                a.cars@[i].slid_spec(dir),
            ),
{
    let i = choose|i: int|
        0 <= i < a.cars@.len() && a.cars@[i].id == id && #[trigger] a.move_at_ok(i, dir, b);
    let c = a.cars@[i];
    let c2 = c.slid_spec(dir);
    assert(c.wf());
    let pos = match dir {
        Dir::Forward => c2.head_spec(),
        Dir::Backward => c2.tail_spec(),
    };
    assert(a.fits_spec(c2, pos));
    assert(c2.wf()) by {
        match dir {
            Dir::Forward => {},
            Dir::Backward => {
                if c.horizontal {
                    assert(pos.0 == c.x + c.length);
                    if c2.is_player_spec() && pos == a.exit {
                        assert(pos.0 == a.exit.0 < usize::MAX);
                    } else {
                        assert(pos.0 < a.width);
                    }
                } else {
                    assert(pos.1 == c.y + c.length);
                    if c2.is_player_spec() && pos == a.exit {
                        assert(pos.1 == a.exit.1 < usize::MAX);
                    } else {
                        assert(pos.1 < a.height);
                    }
                }
            },
        }
    }
    assert forall|j: int| 0 <= j < b.cars@.len() implies (#[trigger] b.cars@[j]).wf() by {
        if j != i {
            assert(b.cars@[j] == a.cars@[j]);
        }
    }
    assert forall|j: int, k: int|
        0 <= j < k < b.cars@.len() implies (#[trigger] b.cars@[j]).id != (
    #[trigger] b.cars@[k]).id by {
        assert(b.cars@[j].id == a.cars@[j].id);
        assert(b.cars@[k].id == a.cars@[k].id);
        assert(a.cars@[j].id != a.cars@[k].id);
    }
    assert(exists|i: int|
        0 <= i < a.cars@.len() && (#[trigger] a.cars@[i]).id == id && b.cars@ == a.cars@.update(
            i,
            a.cars@[i].slid_spec(dir),
        ));
}

/// Origin bounds survive a slide: a backward slide is held in by the fit
/// check, a forward slide only shrinks a coordinate.
pub proof fn lemma_move_bounded(a: Grid, id: Id, dir: Dir, b: Grid, bx: int, by: int)
    requires
        a.wf(),
        a.move_ok(id, dir, b),
        origins_bounded(a, bx, by),
        bx >= a.width,
        bx > a.exit.0,
        by >= a.height,
        by > a.exit.1,
    ensures
        origins_bounded(b, bx, by),
{
    let i = choose|i: int|
        0 <= i < a.cars@.len() && a.cars@[i].id == id && #[trigger] a.move_at_ok(i, dir, b);
    let c = a.cars@[i];
    let c2 = c.slid_spec(dir);
    let pos = match dir {
        Dir::Forward => c2.head_spec(),
        Dir::Backward => c2.tail_spec(),
    };
    assert(c.wf());
    assert(a.fits_spec(c2, pos));
    assert(c2.x < bx && c2.y < by) by {
        match dir {
            Dir::Forward => {},
            Dir::Backward => {
                if c.horizontal {
                    assert(pos.0 == c.x + c.length);
                    assert(c2.x <= pos.0);
                    if c2.is_player_spec() && pos == a.exit {
                        assert(pos.0 == a.exit.0);
                    } else {
                        assert(pos.0 < a.width);
                    }
                } else {
                    assert(pos.1 == c.y + c.length);
                    assert(c2.y <= pos.1);
                    if c2.is_player_spec() && pos == a.exit {
                        assert(pos.1 == a.exit.1);
                    } else {
                        assert(pos.1 < a.height);
                    }
                }
            },
        }
    }
    assert forall|j: int|
        0 <= j < b.cars@.len() implies (#[trigger] b.cars@[j]).x < bx && b.cars@[j].y < by by {
        if j != i {
            assert(b.cars@[j] == a.cars@[j]);
        } else {
            assert(b.cars@[j] == c2);
        }
    }
}

/// After a slide, exactly one head differs, and comparing the two boards
/// recovers the move: the vehicle's identity and the cardinal direction,
/// which realises the same slide.
pub proof fn lemma_move_diff(a: Grid, id: Id, dir: Dir, b: Grid)
    requires
        a.wf(),
        a.move_ok(id, dir, b),
    ensures
        b.cars@.len() == a.cars@.len(),
        forall|j: int| 0 <= j < a.cars@.len() ==> (#[trigger] b.cars@[j]).id == a.cars@[j].id,
        exists|i: int|
            0 <= i < a.cars@.len() && (#[trigger] b.cars@[i]).head_spec()
                != a.cars@[i].head_spec() && (forall|j: int|
                0 <= j < a.cars@.len() && j != i ==> #[trigger] b.cars@[j] == a.cars@[j])
                && b.cars@[i].id == id && is_cmove(
                a,
                id,
                dir4_of(a.cars@[i], b.cars@[i]),
                b,
            ),
{
    let i = choose|i: int|
        0 <= i < a.cars@.len() && a.cars@[i].id == id && #[trigger] a.move_at_ok(i, dir, b);
    let c = a.cars@[i];
    let c2 = c.slid_spec(dir);
    assert(c.wf());
    assert(b.cars@[i] == c2);
    let d4 = dir4_of(c, c2);
    assert(c2.head_spec() != c.head_spec() && axis_ok(c, d4) && dir2_of(d4) == dir) by {
        match dir {
            Dir::Forward => {
                if c.horizontal {
                    assert(c.x > 0);
                    assert(c2.x == c.x - 1);
                } else {
                    assert(c.y > 0);
                    assert(c2.y == c.y - 1);
                }
            },
            Dir::Backward => {
                if c.horizontal {
                    assert(c2.x == c.x + 1);
                } else {
                    assert(c2.y == c.y + 1);
                }
            },
        }
    }
    assert(is_cmove(a, id, d4, b)) by {
        assert(0 <= i < a.cars@.len() && a.cars@[i].id == id && axis_ok(a.cars@[i], d4)
            && a.move_at_ok(i, dir2_of(d4), b));
    }
    assert(exists|i: int|
        0 <= i < a.cars@.len() && (#[trigger] b.cars@[i]).head_spec() != a.cars@[i].head_spec()
            && (forall|j: int|
            0 <= j < a.cars@.len() && j != i ==> #[trigger] b.cars@[j] == a.cars@[j])
            && b.cars@[i].id == id && is_cmove(a, id, dir4_of(a.cars@[i], b.cars@[i]), b));
}

/// Sliding a named vehicle is deterministic: any two results are the same
/// board.
pub proof fn lemma_move_functional(a: Grid, id: Id, dir: Dir, b1: Grid, b2: Grid)
    requires
        a.wf(),
        a.move_ok(id, dir, b1),
        a.move_ok(id, dir, b2),
    ensures
        g_eq(b1, b2),
{
    let i1 = choose|i: int|
        0 <= i < a.cars@.len() && a.cars@[i].id == id && #[trigger] a.move_at_ok(i, dir, b1);
    let i2 = choose|i: int|
        0 <= i < a.cars@.len() && a.cars@[i].id == id && #[trigger] a.move_at_ok(i, dir, b2);
    assert(i1 == i2);
    assert(b1.cars@ =~= b2.cars@);
}

} // verus!

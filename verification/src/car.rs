use vstd::prelude::*;

verus! {

/// A cell on the board: `(column, row)`, zero-based, border-relative.
pub type Position = (usize, usize);

/// Single-character identity of a vehicle, unique within a puzzle.
pub type Id = char;

/// Exactly one vehicle is the player's car; it wins by reaching the exit.
#[derive(PartialEq, Eq, Structural, Clone, Copy, Debug)]
pub enum CarType {
    Player,
    Other,
}

/// A slide along the vehicle's own axis: `Forward` decreases the axis
/// coordinate, `Backward` increases it.
#[derive(PartialEq, Eq, Structural, Clone, Copy, Debug)]
pub enum Dir {
    Forward,
    Backward,
}

/// A cardinal direction of one atomic move, as reported to the user.
#[derive(PartialEq, Eq, Structural, Clone, Copy, Debug)]
pub enum MoveDir {
    Up,
    Down,
    Left,
    Right,
}

/// A rigid straight-line vehicle: `length` consecutive cells starting at
/// origin `(x, y)` and extending rightward (`horizontal`) or downward.
#[derive(PartialEq, Eq, Structural, Clone, Copy, Debug)]
pub struct Car {
    pub id: Id,
    pub car_type: CarType,
    pub x: usize,
    pub y: usize,
    pub length: usize,
    pub horizontal: bool,
}

impl Car {
    /// The occupied cells can be enumerated without arithmetic overflow.
    pub open spec fn cells_fit(self) -> bool {
        &&& 1 <= self.length
        &&& self.x + self.length - 1 <= usize::MAX
        &&& self.y + self.length - 1 <= usize::MAX
    }

    /// Well-formed vehicle: non-empty, and one cell of headroom past the
    /// tail so that a one-cell backward slide can be computed.
    pub open spec fn wf(self) -> bool {
        &&& 1 <= self.length
        &&& self.x + self.length <= usize::MAX
        &&& self.y + self.length <= usize::MAX
    }

    pub open spec fn is_player_spec(self) -> bool {
        self.car_type == CarType::Player
    }

    pub open spec fn head_spec(self) -> Position {
        (self.x, self.y)
    }

    pub open spec fn tail_spec(self) -> Position {
        if self.horizontal {
            ((self.x + self.length - 1) as usize, self.y)
        } else {
            (self.x, (self.y + self.length - 1) as usize)
        }
    }

    /// True when the vehicle covers the cell `(px, py)`.
    pub open spec fn occupies(self, px: int, py: int) -> bool {
        if self.horizontal {
            py == self.y && self.x <= px < self.x + self.length
        } else {
            px == self.x && self.y <= py < self.y + self.length
        }
    }

    /// The occupied cells, from the origin outward.
    pub open spec fn body_spec(self) -> Seq<Position> {
        Seq::new(
            self.length as nat,
            |k: int|
                if self.horizontal {
                    (((self.x + k) as usize), self.y)
                } else {
                    (self.x, ((self.y + k) as usize))
                },
        )
    }

    /// The same vehicle with its origin shifted by one cell along its axis.
    pub open spec fn slid_spec(self, dir: Dir) -> Car {
        match dir {
            Dir::Forward => if self.horizontal {
                Car { x: (self.x - 1) as usize, ..self }
            } else {
                Car { y: (self.y - 1) as usize, ..self }
            },
            Dir::Backward => if self.horizontal {
                Car { x: (self.x + 1) as usize, ..self }
            } else {
                Car { y: (self.y + 1) as usize, ..self }
            },
        }
    }

    /// A forward slide needs a positive axis coordinate; a backward slide is
    /// always representable for a well-formed vehicle.
    pub open spec fn can_slide(self, dir: Dir) -> bool {
        match dir {
            Dir::Forward => if self.horizontal {
                self.x > 0
            } else {
                self.y > 0
            },
            Dir::Backward => true,
        }
    }

    /// Builds a vehicle from its identity and a non-empty list of occupied
    /// cells: the origin is the cell with the least coordinates, the
    /// orientation is horizontal exactly when all cells share one row.
    pub fn new(id: Id, ps: Vec<Position>) -> (r: Car)
        requires
            ps@.len() >= 1,
        ensures
            r.id == id,
            r.car_type == (if id == 'X' {
                CarType::Player
            } else {
                CarType::Other
            }),
            r.length == ps@.len(),
            r.horizontal == (forall|i: int| 0 <= i < ps@.len() ==> (#[trigger] ps@[i]).1 == ps@[0].1),
            forall|i: int| 0 <= i < ps@.len() ==> r.x <= (#[trigger] ps@[i]).0 && r.y <= ps@[i].1,
            exists|i: int| 0 <= i < ps@.len() && r.x == (#[trigger] ps@[i]).0,
            exists|i: int| 0 <= i < ps@.len() && r.y == (#[trigger] ps@[i]).1,
    {
        let car_type = if id == 'X' {
            CarType::Player
        } else {
            CarType::Other
        };
        let length = ps.len();
        let mut x: usize = ps[0].0;
        let mut y: usize = ps[0].1;
        let mut horizontal: bool = true;
        let mut i: usize = 1;
        while i < ps.len()
            invariant
                1 <= i <= ps@.len(),
                forall|j: int| 0 <= j < i ==> x <= (#[trigger] ps@[j]).0 && y <= ps@[j].1,
                exists|j: int| 0 <= j < i && x == (#[trigger] ps@[j]).0,
                exists|j: int| 0 <= j < i && y == (#[trigger] ps@[j]).1,
                horizontal == (forall|j: int| 0 <= j < i ==> (#[trigger] ps@[j]).1 == ps@[0].1),
            decreases ps@.len() - i,
        {
            if ps[i].0 < x {
                x = ps[i].0;
            }
            if ps[i].1 < y {
                y = ps[i].1;
            }
            if ps[i].1 != ps[0].1 {
                horizontal = false;
            }
            i = i + 1;
        }
        Car { id, car_type, x, y, length, horizontal }
    }

    pub fn is_player(&self) -> (r: bool)
        ensures
            r == self.is_player_spec(),
    {
        matches!(self.car_type, CarType::Player)
    }

    /// The origin cell: the leading cell in the direction of forward travel.
    pub fn head(&self) -> (r: Position)
        ensures
            r == self.head_spec(),
    {
        (self.x, self.y)
    }

    /// The occupied cells in order, from the origin outward.
    pub fn body(&self) -> (r: Vec<Position>)
        requires
            self.cells_fit(),
        ensures
            r@ == self.body_spec(),
    {
        let mut r: Vec<Position> = Vec::new();
        let mut k: usize = 0;
        while k < self.length
            invariant
                self.cells_fit(),
                k <= self.length,
                r@.len() == k,
                forall|j: int| 0 <= j < k ==> r@[j] == self.body_spec()[j],
            decreases self.length - k,
        {
            if self.horizontal {
                r.push((self.x + k, self.y));
            } else {
                r.push((self.x, self.y + k));
            }
            k = k + 1;
        }
        proof {
            assert(r@ =~= self.body_spec());
        }
        r
    }

    /// The last occupied cell.
    pub fn tail(&self) -> (r: Position)
        requires
            self.cells_fit(),
        ensures
            r == self.tail_spec(),
    {
        if self.horizontal {
            (self.x + (self.length - 1), self.y)
        } else {
            (self.x, self.y + (self.length - 1))
        }
    }

    /// True when this vehicle covers `pos`.
    pub fn includes(&self, pos: Position) -> (r: bool)
        requires
            self.cells_fit(),
        ensures
            r == self.occupies(pos.0 as int, pos.1 as int),
    {
        if self.horizontal {
            pos.1 == self.y && self.x <= pos.0 && pos.0 <= self.x + (self.length - 1)
        } else {
            pos.0 == self.x && self.y <= pos.1 && pos.1 <= self.y + (self.length - 1)
        }
    }
}

} // verus!

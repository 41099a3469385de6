//! Areas of the screen.
use vstd::prelude::*;

verus! {

/// A place on the screen.
#[derive(Clone, Copy, Debug, PartialEq, Eq, Structural)]
pub struct Position {
    pub x: u16,
    pub y: u16,
}

/// An area of the screen.
#[derive(Clone, Copy, Debug, PartialEq, Eq, Structural)]
pub struct Rect {
    pub x: u16,
    pub y: u16,
    pub width: u16,
    pub height: u16,
}

/// A sum that stops at the largest number.
pub open spec fn capped(a: u16, b: u16) -> int {
    if a + b <= u16::MAX {
        a + b
    } else {
        u16::MAX as int
    }
}

/// The larger of two numbers.
pub open spec fn larger(a: int, b: int) -> int {
    if a >= b {
        a
    } else {
        b
    }
}

/// The smaller of two numbers.
pub open spec fn smaller(a: int, b: int) -> int {
    if a <= b {
        a
    } else {
        b
    }
}

/// How far it is up to a number, or nothing if it lies below.
pub open spec fn distance(from: int, to: int) -> int {
    if to >= from {
        to - from
    } else {
        0
    }
}

fn cap_add(a: u16, b: u16) -> (r: u16)
    ensures
        r == capped(a, b),
{
    if a as u32 + b as u32 <= u16::MAX as u32 {
        a + b
    } else {
        u16::MAX
    }
}

impl Default for Rect {
    fn default() -> (r: Self)
        ensures
            r == (Rect { x: 0, y: 0, width: 0, height: 0 }),
    {
        Rect { x: 0, y: 0, width: 0, height: 0 }
    }
}

impl Rect {
    /// The first column beyond the area.
    pub open spec fn right(self) -> int {
        capped(self.x, self.width)
    }

    /// The first row beyond the area.
    pub open spec fn bottom(self) -> int {
        capped(self.y, self.height)
    }

    /// Whether a place lies in the area.
    pub open spec fn holds(self, p: Position) -> bool {
        self.x <= p.x && p.x < self.right() && self.y <= p.y && p.y < self.bottom()
    }

    /// Whether a place lies in the area.
    pub fn contains(&self, p: Position) -> (r: bool)
        ensures
            r == self.holds(p),
    {
        self.x <= p.x && p.x < cap_add(self.x, self.width) && self.y <= p.y && p.y < cap_add(
            self.y,
            self.height,
        )
    }

    /// What two areas share.
    pub open spec fn overlap(self, other: Rect) -> Rect {
        let x = larger(self.x as int, other.x as int);
        let y = larger(self.y as int, other.y as int);
        Rect {
            x: x as u16,
            y: y as u16,
            width: distance(x, smaller(self.right(), other.right())) as u16,
            height: distance(y, smaller(self.bottom(), other.bottom())) as u16,
        }
    }

    /// What two areas share.
    pub fn intersection(&self, other: Rect) -> (r: Rect)
        ensures
            r == self.overlap(other),
    {
        let x: u16 = if self.x >= other.x {
            self.x
        } else {
            other.x
        };
        let y: u16 = if self.y >= other.y {
            self.y
        } else {
            other.y
        };
        let a: u16 = cap_add(self.x, self.width);
        let b: u16 = cap_add(other.x, other.width);
        let right: u16 = if a <= b {
            a
        } else {
            b
        };
        let c: u16 = cap_add(self.y, self.height);
        let d: u16 = cap_add(other.y, other.height);
        let bottom: u16 = if c <= d {
            c
        } else {
            d
        };
        Rect {
            x,
            y,
            width: if right >= x {
                right - x
            } else {
                0
            },
            height: if bottom >= y {
                bottom - y
            } else {
                0
            },
        }
    }

    /// Whether the area lies in another.
    pub open spec fn inside(self, other: Rect) -> bool {
        other.x <= self.x && other.y <= self.y && self.x + self.width <= other.right() && self.y
            + self.height <= other.bottom()
    }
}

/// An area that is not empty shares all of itself with another area if and only
/// if it lies in it.
pub proof fn shares_all_inside(a: Rect, b: Rect)
    requires
        a.width > 0,
        a.height > 0,
    ensures
        b.overlap(a) == a <==> a.inside(b),
{
}

/// A place lies in what two areas share if and only if it lies in both.
pub proof fn shared_places(a: Rect, b: Rect, p: Position)
    ensures
        a.overlap(b).holds(p) <==> a.holds(p) && b.holds(p),
{
}

/// An area on the screen holds its corners and nothing beyond them.
pub proof fn areas_hold_their_corners(a: Rect)
    requires
        a.width > 0,
        a.height > 0,
        a.x + a.width <= u16::MAX,
        a.y + a.height <= u16::MAX,
    ensures
        a.holds(Position { x: a.x, y: a.y }),
        a.holds(Position { x: (a.x + a.width - 1) as u16, y: (a.y + a.height - 1) as u16 }),
        !a.holds(Position { x: (a.x + a.width) as u16, y: a.y }),
        !a.holds(Position { x: a.x, y: (a.y + a.height) as u16 }),
        forall|p: Position| #[trigger] a.holds(p) ==> a.x <= p.x < a.x + a.width && a.y <= p.y < a.y + a.height,
{
}

} // verus!

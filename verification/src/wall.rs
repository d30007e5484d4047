//! The trail segments that cycles leave behind.
use vstd::prelude::*;
use crate::Coordinate;

verus! {

/// The smaller of two integers.
pub open spec fn min_of(a: int, b: int) -> int {
    if a <= b { a } else { b }
}

/// The larger of two integers.
pub open spec fn max_of(a: int, b: int) -> int {
    if a <= b { b } else { a }
}

/// `v` lies in the closed interval spanned by `a` and `b`, in either order.
pub open spec fn spans(a: int, b: int, v: int) -> bool {
    min_of(a, b) <= v <= max_of(a, b)
}

/// A straight segment from `start_position` to `end_position`.
#[derive(Clone, Copy, PartialEq, Eq, Debug, Structural)]
pub struct Wall {
    start_position: Coordinate,
    end_position: Coordinate,
}

impl Wall {
    /// The segment from `start` to `end`.
    pub closed spec fn segment(start: Coordinate, end: Coordinate) -> Wall {
        Wall { start_position: start, end_position: end }
    }

    /// The first end of the segment.
    pub closed spec fn start(self) -> Coordinate {
        self.start_position
    }

    /// The second end of the segment.
    pub closed spec fn end(self) -> Coordinate {
        self.end_position
    }

    /// The segment runs parallel to the `y` axis (or is a single point).
    pub open spec fn is_vertical(self) -> bool {
        self.start().x == self.end().x
    }

    /// The segment runs parallel to the `x` axis (or is a single point).
    pub open spec fn is_horizontal(self) -> bool {
        self.start().y == self.end().y
    }

    /// Both ends share a coordinate, so the segment is axis-aligned.
    pub open spec fn is_aligned(self) -> bool {
        self.is_vertical() || self.is_horizontal()
    }

    /// `p` lies on the segment as a vertical segment.
    pub open spec fn covers_vertically(self, p: Coordinate) -> bool {
        &&& self.is_vertical()
        &&& p.x == self.start().x
        &&& spans(self.start().y as int, self.end().y as int, p.y as int)
    }

    /// `p` lies on the segment as a horizontal segment.
    pub open spec fn covers_horizontally(self, p: Coordinate) -> bool {
        &&& self.is_horizontal()
        &&& p.y == self.start().y
        &&& spans(self.start().x as int, self.end().x as int, p.x as int)
    }

    /// `p` lies on the closed, axis-aligned segment; a segment that is not
    /// axis-aligned holds no point.
    pub open spec fn contains(self, p: Coordinate) -> bool {
        self.covers_vertically(p) || self.covers_horizontally(p)
    }

    /// A wall of a single point, where a cycle starts or turns.
    pub fn new(position: Coordinate) -> (w: Wall)
        ensures
            w == Wall::segment(position, position),
    {
        Wall { start_position: position, end_position: position }
    }

    pub fn start_position(&self) -> (p: Coordinate)
        ensures
            p == self.start(),
    {
        self.start_position
    }

    pub fn end_position(&self) -> (p: Coordinate)
        ensures
            p == self.end(),
    {
        self.end_position
    }

    /// Moves the second end of the segment, keeping the first.
    pub fn update_end_position(&mut self, new_position: Coordinate)
        ensures
            *final(self) == Wall::segment(old(self).start(), new_position),
    {
        self.end_position = new_position;
    }

    /// Whether `point` lies on the wall.
    pub fn has_point(&self, point: Coordinate) -> (r: bool)
        ensures
            r == self.contains(point),
    {
        // Vertical wall (parallel to the y axis)
        if self.start_position.x == self.end_position.x && point.x == self.start_position.x {
            let min_y = if self.start_position.y <= self.end_position.y {
                self.start_position.y
            } else {
                self.end_position.y
            };
            let max_y = if self.start_position.y <= self.end_position.y {
                self.end_position.y
            } else {
                self.start_position.y
            };
            if point.y >= min_y && point.y <= max_y {
                return true;
            }
        }
        // Horizontal wall (parallel to the x axis)
        if self.start_position.y == self.end_position.y && point.y == self.start_position.y {
            let min_x = if self.start_position.x <= self.end_position.x {
                self.start_position.x
            } else {
                self.end_position.x
            };
            let max_x = if self.start_position.x <= self.end_position.x {
                self.end_position.x
            } else {
                self.start_position.x
            };
            if point.x >= min_x && point.x <= max_x {
                return true;
            }
        }
        false
    }
}

/// A segment has the ends it was built from.
pub broadcast proof fn lemma_segment_start(start: Coordinate, end: Coordinate)
    ensures
        #[trigger] Wall::segment(start, end).start() == start,
{
}

/// A segment has the ends it was built from.
pub broadcast proof fn lemma_segment_end(start: Coordinate, end: Coordinate)
    ensures
        #[trigger] Wall::segment(start, end).end() == end,
{
}

/// A wall is the segment between its ends.
pub broadcast proof fn lemma_segment_of_ends(w: Wall)
    ensures
        #[trigger] Wall::segment(w.start(), w.end()) == w,
{
}

pub broadcast group group_wall {
    lemma_segment_start,
    lemma_segment_end,
    lemma_segment_of_ends,
}

/// The distance from `p` to `q` along the grid lines.
pub open spec fn grid_distance(p: Coordinate, q: Coordinate) -> int {
    let dx = p.x - q.x;
    let dy = p.y - q.y;
    (if dx < 0 { -dx } else { dx }) + (if dy < 0 { -dy } else { dy })
}

/// An axis-aligned wall holds exactly the points on the way between its
/// ends: those whose grid distances to the two ends add up to the wall's
/// length. A wall that is not axis-aligned holds no point.
pub proof fn lemma_wall_holds_the_points_between_its_ends(w: Wall, p: Coordinate)
    ensures
        w.start().x == w.end().x || w.start().y == w.end().y ==> (w.contains(p) <==> grid_distance(
            w.start(),
            p,
        ) + grid_distance(p, w.end()) == grid_distance(w.start(), w.end())),
        w.start().x != w.end().x && w.start().y != w.end().y ==> !w.contains(p),
{
}

/// A wall that has just been laid holds its own point and nothing else.
pub proof fn lemma_point_wall_holds_only_its_point(w: Wall, p: Coordinate)
    requires
        w.start() == w.end(),
    ensures
        w.contains(p) <==> p == w.start(),
{
}

} // verus!

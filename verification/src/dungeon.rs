//! The dungeon grid, its rooms, and their generation.

use crate::random::coin_value;
use crate::random::RandomSource;
use crate::random::FALLBACK_SEED;
use vstd::prelude::*;

verus! {

/// Width of the dungeon that [`Dungeon::new`] generates.
pub const DUNGEON_WIDTH: usize = 80;

/// Height of the dungeon that [`Dungeon::new`] generates.
pub const DUNGEON_HEIGHT: usize = 24;

/// Number of candidate rooms that [`Dungeon::new`] tries to place.
pub const MAX_ROOMS: usize = 10;

/// Smallest side of a room that [`Dungeon::new`] places.
pub const MIN_ROOM_SIZE: usize = 4;

/// Largest side of a room that [`Dungeon::new`] places.
pub const MAX_ROOM_SIZE: usize = 10;

/// Terrain of one grid cell.
#[derive(Clone, Copy, Debug, PartialEq, Eq, Structural)]
pub enum Tile {
    Wall,
    Floor,
    Stairs,
}

impl Tile {
    /// The character that stands for the tile on a map.
    pub open spec fn glyph_of(self) -> char {
        match self {
            Tile::Wall => '#',
            Tile::Floor => '.',
            Tile::Stairs => '>',
        }
    }

    /// The character that stands for the tile on a map.
    pub fn glyph(&self) -> (glyph: char)
        ensures
            glyph == self.glyph_of(),
    {
        match self {
            Tile::Wall => '#',
            Tile::Floor => '.',
            Tile::Stairs => '>',
        }
    }
}

/// An axis-aligned rectangle of grid cells: columns `x .. x + width`, rows
/// `y .. y + height`.
#[derive(Clone, Copy, Debug, PartialEq, Eq, Structural)]
pub struct Room {
    pub x: usize,
    pub y: usize,
    pub width: usize,
    pub height: usize,
}

impl Room {
    /// Whether the cell `(x, y)` lies inside the rectangle.
    pub open spec fn contains(&self, x: int, y: int) -> bool {
        &&& self.x <= x < self.x + self.width
        &&& self.y <= y < self.y + self.height
    }

    /// Open-interval overlap on both axes: rectangles that only share an edge
    /// do not overlap.
    pub open spec fn overlaps(&self, other: Room) -> bool {
        &&& self.x < other.x + other.width
        &&& self.x + self.width > other.x
        &&& self.y < other.y + other.height
        &&& self.y + self.height > other.y
    }

    /// The cell at `(x + width / 2, y + height / 2)`.
    pub open spec fn center_point(&self) -> (int, int) {
        (self.x + self.width / 2, self.y + self.height / 2)
    }

    /// The rectangle with corner `(x, y)` and the given sides.
    pub fn new(x: usize, y: usize, width: usize, height: usize) -> (room: Room)
        ensures
            room == (Room { x, y, width, height }),
    {
        Room { x, y, width, height }
    }

    /// Whether the two rectangles overlap. Sharing an edge is no overlap.
    pub fn intersects(&self, other: &Room) -> (hit: bool)
        ensures
            hit == self.overlaps(*other),
    {
        span_before(self.x, other.x, other.width) && span_before(other.x, self.x, self.width)
            && span_before(self.y, other.y, other.height) && span_before(
            other.y,
            self.y,
            self.height,
        )
    }

    /// The cell at the middle, rounded toward the corner `(x, y)`.
    pub fn center(&self) -> (c: (usize, usize))
        requires
            self.x + self.width / 2 <= usize::MAX,
            self.y + self.height / 2 <= usize::MAX,
        ensures
            (c.0 as int, c.1 as int) == self.center_point(),
    {
        (self.x + self.width / 2, self.y + self.height / 2)
    }
}

/// `a < start + len`, computed without forming the sum.
fn span_before(a: usize, start: usize, len: usize) -> (r: bool)
    ensures
        r == (a < start + len),
{
    a < start || a - start < len
}

/// The smaller of two coordinates.
pub open spec fn lower(a: int, b: int) -> int {
    if a <= b {
        a
    } else {
        b
    }
}

/// The larger of two coordinates.
pub open spec fn upper(a: int, b: int) -> int {
    if a <= b {
        b
    } else {
        a
    }
}

/// Whether `(x, y)` lies on the horizontal run in row `row` between columns
/// `x1` and `x2`, both ends included, in either order.
pub open spec fn on_row(x1: int, x2: int, row: int, x: int, y: int) -> bool {
    y == row && lower(x1, x2) <= x <= upper(x1, x2)
}

/// Whether `(x, y)` lies on the vertical run in column `column` between rows
/// `y1` and `y2`, both ends included, in either order.
pub open spec fn on_column(y1: int, y2: int, column: int, x: int, y: int) -> bool {
    x == column && lower(y1, y2) <= y <= upper(y1, y2)
}

/// Whether `(x, y)` lies on the L-shaped corridor from `from` to `to`.
/// Horizontal first: along the row of `from`, then along the column of `to`.
/// Vertical first: along the column of `from`, then along the row of `to`.
pub open spec fn on_corridor(
    from: (int, int),
    to: (int, int),
    horizontal_first: bool,
    x: int,
    y: int,
) -> bool {
    if horizontal_first {
        on_row(from.0, to.0, from.1, x, y) || on_column(from.1, to.1, to.0, x, y)
    } else {
        on_column(from.1, to.1, from.0, x, y) || on_row(from.0, to.0, to.1, x, y)
    }
}

/// The tile that an opened cell holds: `Stairs` at the stairs position,
/// `Floor` everywhere else.
pub open spec fn opened(stairs: Option<(int, int)>, x: int, y: int) -> Tile {
    if stairs == Some((x, y)) {
        Tile::Stairs
    } else {
        Tile::Floor
    }
}

/// The mathematical content of a dungeon: its size, its tiles by row, and the
/// accepted rooms in the order of their acceptance.
pub struct Layout {
    pub width: int,
    pub height: int,
    pub tiles: Seq<Seq<Tile>>,
    pub rooms: Seq<Room>,
}

impl Layout {
    /// The grid has `height` rows of `width` tiles each.
    pub open spec fn shaped(self) -> bool {
        &&& 0 <= self.width
        &&& 0 <= self.height
        &&& self.tiles.len() == self.height
        &&& forall|y: int| 0 <= y < self.height ==> (#[trigger] self.tiles[y]).len() == self.width
    }

    /// Whether `(x, y)` is a cell of the grid.
    pub open spec fn in_bounds(self, x: int, y: int) -> bool {
        0 <= x < self.width && 0 <= y < self.height
    }

    /// The tile at column `x` of row `y`.
    pub open spec fn tile(self, x: int, y: int) -> Tile {
        self.tiles[y][x]
    }

    /// In bounds and not a wall.
    pub open spec fn walkable(self, x: int, y: int) -> bool {
        self.in_bounds(x, y) && self.tile(x, y) != Tile::Wall
    }

    /// A room that can be placed: not empty, and inside the grid with a margin
    /// of one tile on every side.
    pub open spec fn admits(self, room: Room) -> bool {
        &&& 1 <= room.width
        &&& 1 <= room.height
        &&& 1 <= room.x
        &&& 1 <= room.y
        &&& room.x + room.width + 1 <= self.width
        &&& room.y + room.height + 1 <= self.height
    }

    /// Whether `room` overlaps one of the accepted rooms.
    pub open spec fn overlaps_any(self, room: Room) -> bool {
        exists|i: int| 0 <= i < self.rooms.len() && room.overlaps(#[trigger] self.rooms[i])
    }

    /// The grid admits every accepted room.
    pub open spec fn rooms_fit(self) -> bool {
        forall|i: int| 0 <= i < self.rooms.len() ==> self.admits(#[trigger] self.rooms[i])
    }

    /// No two accepted rooms overlap.
    pub open spec fn rooms_disjoint(self) -> bool {
        forall|i: int, j: int|
            0 <= i < self.rooms.len() && 0 <= j < self.rooms.len() && i != j ==> !(
            #[trigger] self.rooms[i]).overlaps(#[trigger] self.rooms[j])
    }

    /// Whether `(x, y)` lies inside an accepted room.
    pub open spec fn in_some_room(self, x: int, y: int) -> bool {
        exists|i: int| 0 <= i < self.rooms.len() && (#[trigger] self.rooms[i]).contains(x, y)
    }

    /// Whether `(x, y)` lies on the corridor that joins room `i - 1` to room
    /// `i`, centre to centre, in the given order.
    pub open spec fn on_link(self, i: int, horizontal_first: bool, x: int, y: int) -> bool {
        on_corridor(
            self.rooms[i - 1].center_point(),
            self.rooms[i].center_point(),
            horizontal_first,
            x,
            y,
        )
    }

    /// Whether `(x, y)` lies on a corridor between two consecutive rooms, in
    /// one order or the other.
    pub open spec fn on_some_link(self, x: int, y: int) -> bool {
        exists|i: int, horizontal_first: bool|
            1 <= i < self.rooms.len() && #[trigger] self.on_link(i, horizontal_first, x, y)
    }

    /// Every tile of every accepted room is open.
    pub open spec fn rooms_open(self, stairs: Option<(int, int)>) -> bool {
        forall|i: int, x: int, y: int|
            0 <= i < self.rooms.len() && (#[trigger] self.rooms[i]).contains(x, y)
                ==> #[trigger] self.tile(x, y) == opened(stairs, x, y)
    }

    /// Every tile of the corridor into room `i`, in the given order, is open.
    pub open spec fn link_open(self, i: int, horizontal_first: bool, stairs: Option<(int, int)>)
        -> bool {
        forall|x: int, y: int| #[trigger]
            self.on_link(i, horizontal_first, x, y) ==> self.tile(x, y) == opened(stairs, x, y)
    }

    /// Every accepted room but the first is joined to the one before it by an
    /// open corridor, in one order or the other.
    pub open spec fn rooms_linked(self, stairs: Option<(int, int)>) -> bool {
        forall|i: int|
            1 <= i < self.rooms.len() ==> #[trigger] self.link_open(i, true, stairs)
                || self.link_open(i, false, stairs)
    }

    /// Outside the rooms and the corridors between consecutive rooms every
    /// tile is a wall.
    pub open spec fn rest_is_wall(self) -> bool {
        forall|x: int, y: int|
            self.in_bounds(x, y) && !self.in_some_room(x, y) && !self.on_some_link(x, y)
                ==> #[trigger] self.tile(x, y) == Tile::Wall
    }

    /// The stairs position holds `Stairs`, and no other tile does.
    pub open spec fn stairs_only_at(self, stairs: Option<(int, int)>) -> bool {
        forall|x: int, y: int|
            self.in_bounds(x, y) ==> (#[trigger] self.tile(x, y) == Tile::Stairs <==> stairs
                == Some((x, y)))
    }

    /// What holds of a layout at every stage of generation, given where its
    /// stairs are, if it has any.
    pub open spec fn consistent(self, stairs: Option<(int, int)>) -> bool {
        &&& self.shaped()
        &&& self.rooms_fit()
        &&& self.rooms_disjoint()
        &&& self.rooms_open(stairs)
        &&& self.rooms_linked(stairs)
        &&& self.rest_is_wall()
        &&& self.stairs_only_at(stairs)
    }

    /// Whether placing `room` opens the tile `(x, y)`: the room's own tiles,
    /// and the corridor from the last accepted room, if there is one.
    pub open spec fn opens(self, room: Room, horizontal_first: bool, x: int, y: int) -> bool {
        ||| room.contains(x, y)
        ||| self.rooms.len() > 0 && on_corridor(
            self.rooms.last().center_point(),
            room.center_point(),
            horizontal_first,
            x,
            y,
        )
    }

    /// The layout after `room` has been accepted: every tile that the room
    /// opens is floor, every other tile is as before, and the room is last.
    pub open spec fn with_room(self, room: Room, horizontal_first: bool) -> Layout {
        Layout {
            tiles: Seq::new(
                self.height as nat,
                |y: int|
                    Seq::new(
                        self.width as nat,
                        |x: int|
                            if self.opens(room, horizontal_first, x, y) {
                                Tile::Floor
                            } else {
                                self.tile(x, y)
                            },
                    ),
            ),
            rooms: self.rooms.push(room),
            ..self
        }
    }

    /// The layout after the stairs have been put at `stairs`, if anywhere.
    pub open spec fn with_stairs(self, stairs: Option<(int, int)>) -> Layout {
        Layout {
            tiles: Seq::new(
                self.height as nat,
                |y: int|
                    Seq::new(
                        self.width as nat,
                        |x: int|
                            if stairs == Some((x, y)) {
                                Tile::Stairs
                            } else {
                                self.tile(x, y)
                            },
                    ),
            ),
            ..self
        }
    }

    /// Every accepted room has sides between `min_size` and `max_size`.
    pub open spec fn rooms_sized(self, min_size: int, max_size: int) -> bool {
        forall|i: int|
            0 <= i < self.rooms.len() ==> {
                &&& min_size <= (#[trigger] self.rooms[i]).width <= max_size
                &&& min_size <= self.rooms[i].height <= max_size
            }
    }

    /// Where the stairs of a finished dungeon are: at the centre of the last
    /// room, if more than one room was accepted.
    pub open spec fn stairs_position(self) -> Option<(int, int)> {
        if self.rooms.len() > 1 {
            Some(self.rooms.last().center_point())
        } else {
            None
        }
    }

    /// Where the player starts in a finished dungeon: at the centre of the
    /// first room, or at the origin if no room was accepted.
    pub open spec fn start_position(self) -> (int, int) {
        if self.rooms.len() > 0 {
            self.rooms[0].center_point()
        } else {
            (0, 0)
        }
    }
}

impl Layout {
    /// A grid of the given size that is wall everywhere, with no room.
    pub open spec fn walls(width: int, height: int) -> Layout {
        Layout {
            width,
            height,
            tiles: Seq::new(height as nat, |y: int| Seq::new(width as nat, |x: int| Tile::Wall)),
            rooms: Seq::empty(),
        }
    }
}

/// What generation is asked for: the size of the grid and the range of the
/// sides of a room.
pub struct Plan {
    pub width: int,
    pub height: int,
    pub min_room_size: int,
    pub max_room_size: int,
}

/// How far generation has come: the layout so far, and how many values of
/// the record of draws it has taken.
pub struct Progress {
    pub layout: Layout,
    pub used: int,
}

impl Plan {
    /// Whether a room with these sides can lie inside the grid with a margin
    /// of one tile on every side.
    pub open spec fn fits(self, room_width: int, room_height: int) -> bool {
        &&& 1 <= room_width
        &&& 1 <= room_height
        &&& room_width + 2 <= self.width
        &&& room_height + 2 <= self.height
    }

    /// Generation after one more candidate. If the range of sides is empty,
    /// nothing is drawn. Otherwise the candidate's width and height are drawn;
    /// if a room of that size fits, its column and row are drawn; and if the
    /// candidate overlaps no accepted room and is not the first, a coin is
    /// drawn for the order of its corridor, 1 for horizontal first. A
    /// candidate that fits and overlaps no accepted room is accepted.
    pub open spec fn attempt(self, draws: Seq<usize>, before: Progress) -> Progress {
        let at = before.used;
        let room = Room {
            x: draws[at + 2],
            y: draws[at + 3],
            width: draws[at],
            height: draws[at + 1],
        };
        if self.min_room_size > self.max_room_size {
            before
        } else if !self.fits(draws[at] as int, draws[at + 1] as int) {
            Progress { used: at + 2, ..before }
        } else if before.layout.overlaps_any(room) {
            Progress { used: at + 4, ..before }
        } else if before.layout.rooms.len() == 0 {
            Progress { layout: before.layout.with_room(room, false), used: at + 4 }
        } else {
            Progress { layout: before.layout.with_room(room, draws[at + 4] == 1), used: at + 5 }
        }
    }

    /// Generation after the first `attempts` candidates, starting from a grid
    /// that is wall everywhere.
    pub open spec fn progress(self, draws: Seq<usize>, attempts: int) -> Progress
        decreases attempts,
    {
        if attempts <= 0 {
            Progress { layout: Layout::walls(self.width, self.height), used: 0 }
        } else {
            self.attempt(draws, self.progress(draws, attempts - 1))
        }
    }
}

/// Every candidate takes draws from where the one before it stopped.
proof fn lemma_progress_grows(plan: Plan, draws: Seq<usize>, attempts: int)
    ensures
        0 <= plan.progress(draws, attempts).used,
        attempts > 0 ==> plan.progress(draws, attempts - 1).used <= plan.progress(
            draws,
            attempts,
        ).used,
    decreases attempts,
{
    if attempts > 0 {
        lemma_progress_grows(plan, draws, attempts - 1);
    }
}

/// Draws that are recorded later do not change what the candidates before
/// them have made.
proof fn lemma_later_draws_keep_progress(
    plan: Plan,
    shorter: Seq<usize>,
    longer: Seq<usize>,
    attempts: int,
)
    requires
        shorter.len() <= longer.len(),
        forall|i: int| 0 <= i < shorter.len() ==> shorter[i] == longer[i],
        plan.progress(shorter, attempts).used <= shorter.len(),
    ensures
        plan.progress(longer, attempts) == plan.progress(shorter, attempts),
    decreases attempts,
{
    if attempts > 0 {
        lemma_progress_grows(plan, shorter, attempts);
        lemma_progress_grows(plan, shorter, attempts - 1);
        lemma_later_draws_keep_progress(plan, shorter, longer, attempts - 1);
    }
}

/// A dungeon under construction: a grid that starts as solid wall and into
/// which candidate rooms are placed one by one.
///
/// `place_room` and `finish` ask for a builder that `wf()` holds of, which
/// `new` and `place_room` give. The carving functions keep the grid's shape
/// and say exactly which tiles they open, but tiles opened by hand belong to
/// no room: after them `wf()` is no longer known.
pub struct DungeonBuilder {
    width: usize,
    height: usize,
    tiles: Vec<Vec<Tile>>,
    rooms: Vec<Room>,
}

impl View for DungeonBuilder {
    type V = Layout;

    closed spec fn view(&self) -> Layout {
        Layout {
            width: self.width as int,
            height: self.height as int,
            tiles: Seq::new(self.tiles@.len(), |y: int| self.tiles@[y]@),
            rooms: self.rooms@,
        }
    }
}

impl DungeonBuilder {
    /// The builder's invariant: no stairs yet, and everything else that holds
    /// of a layout.
    pub open spec fn wf(&self) -> bool {
        self@.consistent(None)
    }

    /// A grid of the given size that is wall everywhere, with no room.
    pub fn new(width: usize, height: usize) -> (builder: DungeonBuilder)
        ensures
            builder.wf(),
            builder@ == Layout::walls(width as int, height as int),
    {
        let mut tiles: Vec<Vec<Tile>> = Vec::new();
        let mut y: usize = 0;
        while y < height
            invariant
                y <= height,
                tiles@.len() == y,
                forall|j: int| 0 <= j < y ==> (#[trigger] tiles@[j])@.len() == width,
                forall|j: int, i: int| 0 <= j < y && 0 <= i < width ==> tiles@[j]@[i] == Tile::Wall,
            decreases height - y,
        {
            let mut row: Vec<Tile> = Vec::new();
            let mut x: usize = 0;
            while x < width
                invariant
                    x <= width,
                    row@.len() == x,
                    forall|i: int| 0 <= i < x ==> row@[i] == Tile::Wall,
                decreases width - x,
            {
                row.push(Tile::Wall);
                x += 1;
            }
            tiles.push(row);
            y += 1;
        }
        let builder = DungeonBuilder { width, height, tiles, rooms: Vec::new() };
        proof {
            let walls = Layout::walls(width as int, height as int);
            assert forall|j: int| 0 <= j < height implies #[trigger] builder@.tiles[j]
                =~= walls.tiles[j] by {}
            assert(builder@.tiles =~= walls.tiles);
            assert(builder@.rooms =~= walls.rooms);
        }
        builder
    }

    fn set_tile(&mut self, x: usize, y: usize, tile: Tile)
        requires
            old(self)@.shaped(),
            old(self)@.in_bounds(x as int, y as int),
        ensures
            final(self)@.shaped(),
            final(self)@.width == old(self)@.width,
            final(self)@.height == old(self)@.height,
            final(self)@.rooms == old(self)@.rooms,
            forall|i: int, j: int|
                final(self)@.in_bounds(i, j) ==> #[trigger] final(self)@.tile(i, j) == (if i == x
                    && j == y {
                    tile
                } else {
                    old(self)@.tile(i, j)
                }),
    {
        assert(self.tiles@[y as int]@ == self@.tiles[y as int]);
        self.tiles[y][x] = tile;
        proof {
            assert forall|j: int| 0 <= j < self@.height implies (#[trigger] self@.tiles[j]).len()
                == self@.width by {
                assert(old(self)@.tiles[j].len() == old(self)@.width);
            }
        }
    }

    /// Opens every tile of `room` that lies inside the grid.
    pub fn create_room(&mut self, room: &Room)
        requires
            old(self)@.shaped(),
        ensures
            final(self)@.shaped(),
            final(self)@.width == old(self)@.width,
            final(self)@.height == old(self)@.height,
            final(self)@.rooms == old(self)@.rooms,
            forall|i: int, j: int|
                final(self)@.in_bounds(i, j) ==> #[trigger] final(self)@.tile(i, j) == (
                if room.contains(i, j) {
                    Tile::Floor
                } else {
                    old(self)@.tile(i, j)
                }),
    {
        let ghost before = self@;
        let y_end: usize = clip_end(room.y, room.height, self.height);
        let x_end: usize = clip_end(room.x, room.width, self.width);
        let mut y: usize = room.y;
        while y < y_end
            invariant
                room.y <= y,
                y_end == lower(room.y + room.height, self.height as int),
                x_end == lower(room.x + room.width, self.width as int),
                self@.shaped(),
                self@.width == before.width == self.width,
                self@.height == before.height == self.height,
                self@.rooms == before.rooms,
                forall|i: int, j: int|
                    self@.in_bounds(i, j) ==> #[trigger] self@.tile(i, j) == (if room.contains(i, j)
                        && j < y {
                        Tile::Floor
                    } else {
                        before.tile(i, j)
                    }),
            decreases y_end - y,
        {
            let mut x: usize = room.x;
            while x < x_end
                invariant
                    room.x <= x,
                    room.y <= y < y_end,
                    y_end == lower(room.y + room.height, self.height as int),
                    x_end == lower(room.x + room.width, self.width as int),
                    self@.shaped(),
                    self@.width == before.width == self.width,
                    self@.height == before.height == self.height,
                    self@.rooms == before.rooms,
                    forall|i: int, j: int|
                        self@.in_bounds(i, j) ==> #[trigger] self@.tile(i, j) == (if room.contains(
                            i,
                            j,
                        ) && (j < y || (j == y && i < x)) {
                            Tile::Floor
                        } else {
                            before.tile(i, j)
                        }),
                decreases x_end - x,
            {
                self.set_tile(x, y, Tile::Floor);
                x += 1;
            }
            y += 1;
        }
    }

    /// Opens the tiles of row `y` between columns `x1` and `x2`, both ends
    /// included, as far as they lie inside the grid.
    pub fn create_horizontal_tunnel(&mut self, x1: usize, x2: usize, y: usize)
        requires
            old(self)@.shaped(),
        ensures
            final(self)@.shaped(),
            final(self)@.width == old(self)@.width,
            final(self)@.height == old(self)@.height,
            final(self)@.rooms == old(self)@.rooms,
            forall|i: int, j: int|
                final(self)@.in_bounds(i, j) ==> #[trigger] final(self)@.tile(i, j) == (if on_row(
                    x1 as int,
                    x2 as int,
                    y as int,
                    i,
                    j,
                ) {
                    Tile::Floor
                } else {
                    old(self)@.tile(i, j)
                }),
    {
        let ghost before = self@;
        let start: usize = if x1 <= x2 { x1 } else { x2 };
        let last: usize = if x1 <= x2 { x2 } else { x1 };
        let end: usize = if y >= self.height {
            start
        } else if last < self.width {
            last + 1
        } else {
            self.width
        };
        let mut x: usize = start;
        while x < end
            invariant
                start <= x,
                start == lower(x1 as int, x2 as int),
                last == upper(x1 as int, x2 as int),
                end > start ==> end <= self.width,
                end <= last + 1,
                end > start ==> y < self.height,
                y < self.height ==> end == lower(last + 1, self.width as int),
                self@.shaped(),
                self@.width == before.width == self.width,
                self@.height == before.height == self.height,
                self@.rooms == before.rooms,
                forall|i: int, j: int|
                    self@.in_bounds(i, j) ==> #[trigger] self@.tile(i, j) == (if on_row(
                        x1 as int,
                        x2 as int,
                        y as int,
                        i,
                        j,
                    ) && i < x {
                        Tile::Floor
                    } else {
                        before.tile(i, j)
                    }),
            decreases end - x,
        {
            self.set_tile(x, y, Tile::Floor);
            x += 1;
        }
    }

    /// Opens the tiles of column `x` between rows `y1` and `y2`, both ends
    /// included, as far as they lie inside the grid.
    pub fn create_vertical_tunnel(&mut self, y1: usize, y2: usize, x: usize)
        requires
            old(self)@.shaped(),
        ensures
            final(self)@.shaped(),
            final(self)@.width == old(self)@.width,
            final(self)@.height == old(self)@.height,
            final(self)@.rooms == old(self)@.rooms,
            forall|i: int, j: int|
                final(self)@.in_bounds(i, j) ==> #[trigger] final(self)@.tile(i, j) == (
                if on_column(y1 as int, y2 as int, x as int, i, j) {
                    Tile::Floor
                } else {
                    old(self)@.tile(i, j)
                }),
    {
        let ghost before = self@;
        let start: usize = if y1 <= y2 { y1 } else { y2 };
        let last: usize = if y1 <= y2 { y2 } else { y1 };
        let end: usize = if x >= self.width {
            start
        } else if last < self.height {
            last + 1
        } else {
            self.height
        };
        let mut y: usize = start;
        while y < end
            invariant
                start <= y,
                start == lower(y1 as int, y2 as int),
                last == upper(y1 as int, y2 as int),
                end > start ==> end <= self.height,
                end <= last + 1,
                end > start ==> x < self.width,
                x < self.width ==> end == lower(last + 1, self.height as int),
                self@.shaped(),
                self@.width == before.width == self.width,
                self@.height == before.height == self.height,
                self@.rooms == before.rooms,
                forall|i: int, j: int|
                    self@.in_bounds(i, j) ==> #[trigger] self@.tile(i, j) == (if on_column(
                        y1 as int,
                        y2 as int,
                        x as int,
                        i,
                        j,
                    ) && j < y {
                        Tile::Floor
                    } else {
                        before.tile(i, j)
                    }),
            decreases end - y,
        {
            self.set_tile(x, y, Tile::Floor);
            y += 1;
        }
    }

    /// The tile at `(x, y)`, or `None` outside the grid.
    pub fn tile(&self, x: usize, y: usize) -> (tile: Option<Tile>)
        requires
            self@.shaped(),
        ensures
            tile == (if self@.in_bounds(x as int, y as int) {
                Some(self@.tile(x as int, y as int))
            } else {
                None
            }),
    {
        if x >= self.width || y >= self.height {
            return None;
        }
        assert(self.tiles@[y as int]@ == self@.tiles[y as int]);
        Some(self.tiles[y][x])
    }

    /// Whether `room` overlaps a room that was accepted before.
    pub fn intersects_any(&self, room: &Room) -> (hit: bool)
        ensures
            hit == self@.overlaps_any(*room),
    {
        let mut i: usize = 0;
        while i < self.rooms.len()
            invariant
                i <= self.rooms@.len(),
                forall|k: int| 0 <= k < i ==> !room.overlaps(#[trigger] self.rooms@[k]),
            decreases self.rooms@.len() - i,
        {
            if room.intersects(&self.rooms[i]) {
                assert(room.overlaps(self@.rooms[i as int]));
                return true;
            }
            i += 1;
        }
        false
    }

    /// Whether `room` is not empty and lies inside the grid with a margin of
    /// one tile on every side.
    pub fn admits(&self, room: &Room) -> (ok: bool)
        ensures
            ok == self@.admits(*room),
    {
        room.width >= 1 && room.height >= 1 && room.x >= 1 && room.y >= 1 && room.width
            < self.width && room.x < self.width - room.width && room.height < self.height
            && room.y < self.height - room.height
    }

    /// Accepts `room`: opens its tiles, joins it to the room accepted before
    /// it, if any, and appends it to the accepted rooms.
    fn add_room(&mut self, room: Room, horizontal_first: bool)
        requires
            old(self).wf(),
            old(self)@.admits(room),
            !old(self)@.overlaps_any(room),
        ensures
            final(self).wf(),
            final(self)@ == old(self)@.with_room(room, horizontal_first),
    {
        let ghost before = self@;
        self.create_room(&room);
        if self.rooms.len() > 0 {
            assert(before.admits(before.rooms.last()));
            let (new_x, new_y) = room.center();
            let (prev_x, prev_y) = self.rooms[self.rooms.len() - 1].center();
            if horizontal_first {
                self.create_horizontal_tunnel(prev_x, new_x, prev_y);
                self.create_vertical_tunnel(prev_y, new_y, new_x);
            } else {
                self.create_vertical_tunnel(prev_y, new_y, prev_x);
                self.create_horizontal_tunnel(prev_x, new_x, new_y);
            }
        }
        let ghost carved = self@;
        assert(forall|x: int, y: int|
            carved.in_bounds(x, y) ==> #[trigger] carved.tile(x, y) == (if before.opens(
                room,
                horizontal_first,
                x,
                y,
            ) {
                Tile::Floor
            } else {
                before.tile(x, y)
            }));
        self.rooms.push(room);
        proof {
            let after = before.with_room(room, horizontal_first);
            assert(self@.tiles == carved.tiles);
            assert forall|y: int| 0 <= y < self@.height implies #[trigger] self@.tiles[y]
                =~= after.tiles[y] by {
                assert forall|x: int| 0 <= x < self@.width implies self@.tiles[y][x]
                    == after.tiles[y][x] by {
                    assert(carved.in_bounds(x, y));
                    assert(carved.tile(x, y) == after.tile(x, y));
                }
            }
            assert(self@.tiles =~= after.tiles);
            assert(self@ == after);
            lemma_room_keeps_consistent(before, room, horizontal_first);
        }
    }

    /// Places one candidate room. The room is accepted if the grid admits it
    /// and it overlaps no room accepted before; otherwise nothing changes.
    /// An accepted room is opened and joined to the room accepted before it
    /// by an L-shaped corridor, horizontal part first if `horizontal_first`.
    pub fn place_room(&mut self, room: Room, horizontal_first: bool) -> (accepted: bool)
        requires
            old(self).wf(),
        ensures
            final(self).wf(),
            accepted == (old(self)@.admits(room) && !old(self)@.overlaps_any(room)),
            accepted ==> final(self)@ == old(self)@.with_room(room, horizontal_first),
            !accepted ==> final(self)@ == old(self)@,
    {
        if self.admits(&room) && !self.intersects_any(&room) {
            self.add_room(room, horizontal_first);
            true
        } else {
            false
        }
    }

    /// Ends generation: the player starts at the centre of the first room, and
    /// the stairs go to the centre of the last room if there is more than one.
    pub fn finish(self) -> (dungeon: Dungeon)
        requires
            self.wf(),
        ensures
            dungeon.generated(),
            dungeon@ == self@.with_stairs(self@.stairs_position()),
    {
        let ghost before = self@;
        let mut builder = self;
        let mut player_start: (usize, usize) = (0, 0);
        if builder.rooms.len() > 0 {
            assert(before.admits(before.rooms[0]));
            assert(before.admits(before.rooms.last()));
            player_start = builder.rooms[0].center();
            if builder.rooms.len() > 1 {
                let last_room_center = builder.rooms[builder.rooms.len() - 1].center();
                builder.set_tile(last_room_center.0, last_room_center.1, Tile::Stairs);
            }
        }
        proof {
            let after = before.with_stairs(before.stairs_position());
            assert forall|y: int| 0 <= y < builder@.height implies #[trigger] builder@.tiles[y]
                =~= after.tiles[y] by {
                assert forall|x: int| 0 <= x < builder@.width implies builder@.tiles[y][x]
                    == after.tiles[y][x] by {
                    assert(builder@.in_bounds(x, y));
                    assert(builder@.tile(x, y) == after.tile(x, y));
                }
            }
            assert(builder@.tiles =~= after.tiles);
            assert(builder@ == after);
            lemma_stairs_keep_consistent(before);
        }
        Dungeon {
            width: builder.width,
            height: builder.height,
            tiles: builder.tiles,
            rooms: builder.rooms,
            player_start,
        }
    }
}

/// In a consistent layout every tile of every room is walkable, and so is
/// the centre of every room.
pub proof fn lemma_rooms_walkable(layout: Layout, stairs: Option<(int, int)>, i: int)
    requires
        layout.consistent(stairs),
        0 <= i < layout.rooms.len(),
    ensures
        forall|x: int, y: int| layout.rooms[i].contains(x, y) ==> layout.walkable(x, y),
        layout.walkable(layout.rooms[i].center_point().0, layout.rooms[i].center_point().1),
{
    let room = layout.rooms[i];
    assert(layout.admits(room));
    assert forall|x: int, y: int| room.contains(x, y) implies layout.walkable(x, y) by {
        assert(layout.tile(x, y) == opened(stairs, x, y));
    }
    assert(room.contains(room.center_point().0, room.center_point().1));
}

/// Accepting a room that the grid admits and that overlaps no accepted room
/// keeps a layout without stairs consistent: the rooms stay disjoint, rooms
/// and corridors stay open, and everything else stays wall.
pub proof fn lemma_room_keeps_consistent(before: Layout, room: Room, horizontal_first: bool)
    requires
        before.consistent(None),
        before.admits(room),
        !before.overlaps_any(room),
    ensures
        before.with_room(room, horizontal_first).consistent(None),
{
    let after = before.with_room(room, horizontal_first);
    let n = before.rooms.len() as int;
    assert(after.shaped());
    assert forall|x: int, y: int| after.in_bounds(x, y) implies #[trigger] after.tile(x, y) == (
    if before.opens(room, horizontal_first, x, y) {
        Tile::Floor
    } else {
        before.tile(x, y)
    }) by {}
    assert forall|i: int| 0 <= i < after.rooms.len() implies after.admits(
        #[trigger] after.rooms[i],
    ) by {
        if i < n {
            assert(before.admits(before.rooms[i]));
        }
    }
    assert forall|i: int, j: int|
        0 <= i < after.rooms.len() && 0 <= j < after.rooms.len() && i != j implies !(
    #[trigger] after.rooms[i]).overlaps(#[trigger] after.rooms[j]) by {
        if i < n && j < n {
            assert(!before.rooms[i].overlaps(before.rooms[j]));
        } else if i < n {
            assert(!room.overlaps(before.rooms[i]));
        } else {
            assert(!room.overlaps(before.rooms[j]));
        }
    }
    assert forall|i: int, x: int, y: int|
        0 <= i < after.rooms.len() && (#[trigger] after.rooms[i]).contains(
            x,
            y,
        ) implies #[trigger] after.tile(x, y) == opened(None, x, y) by {
        assert(after.admits(after.rooms[i]));
        assert(after.in_bounds(x, y));
        if i < n {
            assert(before.rooms[i].contains(x, y));
            assert(before.tile(x, y) == opened(None, x, y));
        }
    }
    assert forall|i: int| 1 <= i < after.rooms.len() implies #[trigger] after.link_open(
        i,
        true,
        None,
    ) || after.link_open(i, false, None) by {
        assert(after.admits(after.rooms[i]));
        assert(after.admits(after.rooms[i - 1]));
        if i < n {
            let order = before.link_open(i, true, None);
            assert(before.link_open(i, order, None));
            assert forall|x: int, y: int| #[trigger]
                after.on_link(i, order, x, y) implies after.tile(x, y) == opened(None, x, y) by {
                assert(before.on_link(i, order, x, y));
                assert(after.in_bounds(x, y));
            }
            assert(after.link_open(i, order, None));
        } else {
            assert forall|x: int, y: int| #[trigger]
                after.on_link(i, horizontal_first, x, y) implies after.tile(x, y) == opened(
                None,
                x,
                y,
            ) by {
                assert(after.in_bounds(x, y));
                assert(before.opens(room, horizontal_first, x, y));
            }
            assert(after.link_open(i, horizontal_first, None));
        }
    }
    assert forall|x: int, y: int|
        after.in_bounds(x, y) && !after.in_some_room(x, y) && !after.on_some_link(
            x,
            y,
        ) implies #[trigger] after.tile(x, y) == Tile::Wall by {
        if room.contains(x, y) {
            assert(after.rooms[n].contains(x, y));
        }
        if n > 0 && on_corridor(
            before.rooms.last().center_point(),
            room.center_point(),
            horizontal_first,
            x,
            y,
        ) {
            assert(after.on_link(n, horizontal_first, x, y));
        }
        assert(!before.opens(room, horizontal_first, x, y));
        if before.in_some_room(x, y) {
            let i = choose|i: int| 0 <= i < n && (#[trigger] before.rooms[i]).contains(x, y);
            assert(after.rooms[i].contains(x, y));
        }
        if before.on_some_link(x, y) {
            let (i, order) = choose|i: int, order: bool|
                1 <= i < n && #[trigger] before.on_link(i, order, x, y);
            assert(after.on_link(i, order, x, y));
        }
        assert(before.tile(x, y) == Tile::Wall);
    }
    assert forall|x: int, y: int| after.in_bounds(x, y) implies (#[trigger] after.tile(x, y)
        == Tile::Stairs <==> None::<(int, int)> == Some((x, y))) by {
        assert(before.tile(x, y) != Tile::Stairs);
    }
}

/// Putting the stairs at the centre of the last of several rooms keeps a
/// layout consistent, now with its stairs there.
pub proof fn lemma_stairs_keep_consistent(before: Layout)
    requires
        before.consistent(None),
    ensures
        before.with_stairs(before.stairs_position()).consistent(before.stairs_position()),
{
    let stairs = before.stairs_position();
    let after = before.with_stairs(stairs);
    let n = before.rooms.len() as int;
    assert(after.shaped());
    assert(after.rooms == before.rooms);
    assert(after.stairs_position() == stairs);
    if n > 1 {
        assert(before.admits(before.rooms[n - 1]));
        let at = before.rooms[n - 1].center_point();
        assert(before.rooms[n - 1].contains(at.0, at.1));
    }
    assert forall|x: int, y: int| after.in_bounds(x, y) implies #[trigger] after.tile(x, y) == (
    if stairs == Some((x, y)) {
        Tile::Stairs
    } else {
        before.tile(x, y)
    }) by {}
    assert forall|i: int, x: int, y: int|
        0 <= i < after.rooms.len() && (#[trigger] after.rooms[i]).contains(
            x,
            y,
        ) implies #[trigger] after.tile(x, y) == opened(stairs, x, y) by {
        assert(before.admits(before.rooms[i]));
        assert(after.in_bounds(x, y));
        assert(before.tile(x, y) == opened(None, x, y));
    }
    assert forall|i: int| 1 <= i < after.rooms.len() implies #[trigger] after.link_open(
        i,
        true,
        stairs,
    ) || after.link_open(i, false, stairs) by {
        assert(before.admits(before.rooms[i]));
        assert(before.admits(before.rooms[i - 1]));
        let order = before.link_open(i, true, None);
        assert(before.link_open(i, order, None));
        assert forall|x: int, y: int| #[trigger]
            after.on_link(i, order, x, y) implies after.tile(x, y) == opened(stairs, x, y) by {
            assert(before.on_link(i, order, x, y));
            assert(after.in_bounds(x, y));
        }
        assert(after.link_open(i, order, stairs));
    }
    assert forall|x: int, y: int|
        after.in_bounds(x, y) && !after.in_some_room(x, y) && !after.on_some_link(
            x,
            y,
        ) implies #[trigger] after.tile(x, y) == Tile::Wall by {
        if stairs == Some((x, y)) {
            assert(after.rooms[n - 1].contains(x, y));
        }
        if before.in_some_room(x, y) {
            let i = choose|i: int| 0 <= i < n && (#[trigger] before.rooms[i]).contains(x, y);
            assert(after.rooms[i].contains(x, y));
        }
        if before.on_some_link(x, y) {
            let (i, order) = choose|i: int, order: bool|
                1 <= i < n && #[trigger] before.on_link(i, order, x, y);
            assert(after.on_link(i, order, x, y));
        }
        assert(before.tile(x, y) == Tile::Wall);
    }
    assert forall|x: int, y: int| after.in_bounds(x, y) implies (#[trigger] after.tile(x, y)
        == Tile::Stairs <==> stairs == Some((x, y))) by {
        assert(before.tile(x, y) != Tile::Stairs);
    }
}

/// A generated dungeon. It does not change after generation.
pub struct Dungeon {
    width: usize,
    height: usize,
    tiles: Vec<Vec<Tile>>,
    rooms: Vec<Room>,
    player_start: (usize, usize),
}

impl View for Dungeon {
    type V = Layout;

    closed spec fn view(&self) -> Layout {
        Layout {
            width: self.width as int,
            height: self.height as int,
            tiles: Seq::new(self.tiles@.len(), |y: int| self.tiles@[y]@),
            rooms: self.rooms@,
        }
    }
}

impl Dungeon {
    /// Where the player starts.
    pub closed spec fn spawn_point(&self) -> (int, int) {
        (self.player_start.0 as int, self.player_start.1 as int)
    }

    /// What holds of every dungeon: its layout is consistent, with the stairs
    /// at the centre of the last of several rooms, and the player starts at
    /// the centre of the first room.
    #[verifier::type_invariant]
    pub open spec fn generated(&self) -> bool {
        &&& self@.consistent(self@.stairs_position())
        &&& self.spawn_point() == self@.start_position()
    }

    /// The grid's sides are machine integers.
    pub proof fn lemma_size_fits(&self)
        ensures
            0 <= self@.width <= usize::MAX,
            0 <= self@.height <= usize::MAX,
    {
    }

    /// Generates the standard dungeon: `DUNGEON_WIDTH` by `DUNGEON_HEIGHT`,
    /// from `MAX_ROOMS` candidate rooms with sides between `MIN_ROOM_SIZE` and
    /// `MAX_ROOM_SIZE`, drawn from a source that the operating system seeds
    /// if it can.
    pub fn new() -> (dungeon: Dungeon)
        ensures
            dungeon.generated(),
            dungeon@.rooms_disjoint(),
            dungeon@.rooms_open(dungeon@.stairs_position()),
            dungeon@.rooms_linked(dungeon@.stairs_position()),
            dungeon@.width == DUNGEON_WIDTH,
            dungeon@.height == DUNGEON_HEIGHT,
            1 <= dungeon@.rooms.len() <= MAX_ROOMS,
            dungeon@.rooms_sized(MIN_ROOM_SIZE as int, MAX_ROOM_SIZE as int),
    {
        let mut rng = RandomSource::from_entropy_or(FALLBACK_SEED);
        Dungeon::generate(
            DUNGEON_WIDTH,
            DUNGEON_HEIGHT,
            MAX_ROOMS,
            MIN_ROOM_SIZE,
            MAX_ROOM_SIZE,
            &mut rng,
        )
    }

    /// Generates a dungeon of the given size from `max_rooms` candidate
    /// rooms. For each candidate the width and the height are drawn from
    /// `min_room_size ..= max_room_size`, and then the column and the row
    /// from the positions at which the room lies inside the grid with a
    /// margin of one tile. A candidate that overlaps a room accepted before
    /// is skipped, and so is one whose size fits nowhere; if the range of
    /// sizes is empty, nothing is drawn and no room is made. An accepted room
    /// that is not the first is joined to the one before it, in an order that
    /// a coin decides. The dungeon is what `Plan::progress` makes of these
    /// draws, with the stairs put in.
    pub fn generate(
        width: usize,
        height: usize,
        max_rooms: usize,
        min_room_size: usize,
        max_room_size: usize,
        rng: &mut RandomSource,
    ) -> (dungeon: Dungeon)
        ensures
            final(rng).draws().len() >= old(rng).draws().len(),
            final(rng).draws().take(old(rng).draws().len() as int) == old(rng).draws(),
            ({
                let plan = Plan {
                    width: width as int,
                    height: height as int,
                    min_room_size: min_room_size as int,
                    max_room_size: max_room_size as int,
                };
                let done = plan.progress(
                    final(rng).draws_since(old(rng).draws()),
                    max_rooms as int,
                );
                &&& final(rng).draws_since(old(rng).draws()).len() == done.used
                &&& dungeon@ == done.layout.with_stairs(done.layout.stairs_position())
            }),
            dungeon.generated(),
            dungeon@.rooms_disjoint(),
            dungeon@.rooms_open(dungeon@.stairs_position()),
            dungeon@.rooms_linked(dungeon@.stairs_position()),
            dungeon@.width == width,
            dungeon@.height == height,
            dungeon@.rooms.len() <= max_rooms,
            max_rooms > 0 && 1 <= min_room_size <= max_room_size && max_room_size + 2 <= width
                && max_room_size + 2 <= height ==> dungeon@.rooms.len() >= 1,
            dungeon@.rooms_sized(min_room_size as int, max_room_size as int),
    {
        let ghost before = rng.draws();
        let ghost plan = Plan {
            width: width as int,
            height: height as int,
            min_room_size: min_room_size as int,
            max_room_size: max_room_size as int,
        };
        let mut builder = DungeonBuilder::new(width, height);
        let mut attempt: usize = 0;
        assert(rng.draws().take(before.len() as int) =~= before);
        while attempt < max_rooms
            invariant
                plan == (Plan {
                    width: width as int,
                    height: height as int,
                    min_room_size: min_room_size as int,
                    max_room_size: max_room_size as int,
                }),
                before.len() <= rng.draws().len(),
                rng.draws().take(before.len() as int) == before,
                builder@ == plan.progress(rng.draws_since(before), attempt as int).layout,
                rng.draws_since(before).len() == plan.progress(
                    rng.draws_since(before),
                    attempt as int,
                ).used,
                attempt <= max_rooms,
                builder.wf(),
                builder@.width == width,
                builder@.height == height,
                builder@.rooms.len() <= attempt,
                attempt > 0 && 1 <= min_room_size <= max_room_size && max_room_size + 2 <= width
                    && max_room_size + 2 <= height ==> builder@.rooms.len() >= 1,
                builder@.rooms_sized(min_room_size as int, max_room_size as int),
            decreases max_rooms - attempt,
        {
            let ghost earlier = rng.draws_since(before);
            let ghost so_far = plan.progress(earlier, attempt as int);
            if min_room_size <= max_room_size {
                let room_width: usize = rng.in_range_inclusive(min_room_size, max_room_size);
                let room_height: usize = rng.in_range_inclusive(min_room_size, max_room_size);
                if room_width >= 1 && room_height >= 1 && width >= 2 && height >= 2 && room_width
                    <= width - 2 && room_height <= height - 2 {
                    let x: usize = rng.in_range_inclusive(1, width - room_width - 1);
                    let y: usize = rng.in_range_inclusive(1, height - room_height - 1);

                    let new_room = Room::new(x, y, room_width, room_height);

                    if !builder.intersects_any(&new_room) {
                        if builder.rooms.len() > 0 {
                            let horizontal_first = rng.coin_flip();
                            builder.add_room(new_room, horizontal_first);
                            proof {
                                let now = rng.draws_since(before);
                                assert(now =~= earlier.push(room_width).push(room_height).push(
                                    x,
                                ).push(y).push(coin_value(horizontal_first)));
                                assert(rng.draws().take(before.len() as int) =~= before);
                                lemma_later_draws_keep_progress(plan, earlier, now, attempt as int);
                                assert(plan.progress(now, attempt + 1) == plan.attempt(
                                    now,
                                    so_far,
                                ));
                            }
                        } else {
                            builder.add_room(new_room, false);
                            proof {
                                let now = rng.draws_since(before);
                                assert(now =~= earlier.push(room_width).push(room_height).push(
                                    x,
                                ).push(y));
                                assert(rng.draws().take(before.len() as int) =~= before);
                                lemma_later_draws_keep_progress(plan, earlier, now, attempt as int);
                                assert(plan.progress(now, attempt + 1) == plan.attempt(
                                    now,
                                    so_far,
                                ));
                            }
                        }
                    } else {
                        proof {
                            let now = rng.draws_since(before);
                            assert(now =~= earlier.push(room_width).push(room_height).push(x).push(
                                y,
                            ));
                            assert(rng.draws().take(before.len() as int) =~= before);
                            lemma_later_draws_keep_progress(plan, earlier, now, attempt as int);
                            assert(plan.progress(now, attempt + 1) == plan.attempt(now, so_far));
                        }
                    }
                } else {
                    proof {
                        let now = rng.draws_since(before);
                        assert(now =~= earlier.push(room_width).push(room_height));
                        assert(rng.draws().take(before.len() as int) =~= before);
                        lemma_later_draws_keep_progress(plan, earlier, now, attempt as int);
                        assert(plan.progress(now, attempt + 1) == plan.attempt(now, so_far));
                    }
                }
            } else {
                assert(plan.progress(earlier, attempt + 1) == plan.attempt(earlier, so_far));
            }
            attempt += 1;
        }
        builder.finish()
    }

    /// Number of columns.
    pub fn width(&self) -> (width: usize)
        ensures
            width == self@.width,
    {
        self.width
    }

    /// Number of rows.
    pub fn height(&self) -> (height: usize)
        ensures
            height == self@.height,
    {
        self.height
    }

    /// The accepted rooms, in the order of their acceptance.
    pub fn rooms(&self) -> (rooms: &Vec<Room>)
        ensures
            rooms@ == self@.rooms,
    {
        &self.rooms
    }

    /// Where the player starts: the centre of the first room, or the origin
    /// if the dungeon has no room.
    pub fn player_start(&self) -> (start: (usize, usize))
        ensures
            (start.0 as int, start.1 as int) == self.spawn_point(),
            self.spawn_point() == self@.start_position(),
    {
        proof {
            use_type_invariant(self);
        }
        self.player_start
    }

    /// The tile at `(x, y)`, or `None` outside the grid.
    pub fn tile(&self, x: usize, y: usize) -> (tile: Option<Tile>)
        ensures
            tile == (if self@.in_bounds(x as int, y as int) {
                Some(self@.tile(x as int, y as int))
            } else {
                None
            }),
    {
        proof {
            use_type_invariant(self);
        }
        if x >= self.width || y >= self.height {
            return None;
        }
        assert(self.tiles@[y as int]@ == self@.tiles[y as int]);
        Some(self.tiles[y][x])
    }

    /// True iff `(x, y)` is inside the grid and its tile is not a wall.
    pub fn is_walkable(&self, x: usize, y: usize) -> (ok: bool)
        ensures
            ok == self@.walkable(x as int, y as int),
            !self@.in_bounds(x as int, y as int) ==> !ok,
    {
        proof {
            use_type_invariant(self);
        }
        if x >= self.width || y >= self.height {
            return false;
        }
        assert(self.tiles@[y as int]@ == self@.tiles[y as int]);
        self.tiles[y][x] != Tile::Wall
    }
}

/// `start + len`, but no more than `limit`.
fn clip_end(start: usize, len: usize, limit: usize) -> (end: usize)
    ensures
        end == lower(start + len, limit as int),
{
    if start >= limit {
        limit
    } else if len >= limit - start {
        limit
    } else {
        start + len
    }
}

} // verus!

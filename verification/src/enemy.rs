//! Enemies: their kinds, their movement toward a target, and their spawning.

use crate::dungeon::lemma_rooms_walkable;
use crate::dungeon::Dungeon;
use crate::dungeon::Layout;
use crate::dungeon::Room;
use crate::random::RandomSource;
use vstd::prelude::*;

verus! {

/// The most enemies that are spawned in one room.
pub const MAX_ENEMIES_PER_ROOM: usize = 2;

/// The number of equally likely buckets from which an enemy's kind is drawn.
pub const KIND_BUCKETS: usize = 10;

/// The kind of an enemy, which fixes its strength and its glyph.
#[derive(Clone, Copy, Debug, PartialEq, Eq, Structural)]
pub enum EnemyType {
    Goblin,
    Orc,
    Troll,
}

impl EnemyType {
    /// Health and maximum health of a new enemy of this kind.
    pub open spec fn base_health(self) -> int {
        match self {
            EnemyType::Goblin => 30,
            EnemyType::Orc => 50,
            EnemyType::Troll => 80,
        }
    }

    /// Attack power of an enemy of this kind.
    pub open spec fn base_attack(self) -> int {
        match self {
            EnemyType::Goblin => 5,
            EnemyType::Orc => 8,
            EnemyType::Troll => 12,
        }
    }

    /// The character that stands for an enemy of this kind.
    pub open spec fn glyph(self) -> char {
        match self {
            EnemyType::Goblin => 'g',
            EnemyType::Orc => 'o',
            EnemyType::Troll => 'T',
        }
    }

    /// The kind that a bucket stands for: buckets 0 to 5 are goblins, 6 to 8
    /// orcs, and every other bucket a troll.
    pub open spec fn of_bucket(bucket: int) -> EnemyType {
        if 0 <= bucket <= 5 {
            EnemyType::Goblin
        } else if 6 <= bucket <= 8 {
            EnemyType::Orc
        } else {
            EnemyType::Troll
        }
    }

    /// The kind that a drawn bucket stands for.
    pub fn from_bucket(bucket: usize) -> (kind: EnemyType)
        ensures
            kind == EnemyType::of_bucket(bucket as int),
    {
        if bucket <= 5 {
            EnemyType::Goblin
        } else if bucket <= 8 {
            EnemyType::Orc
        } else {
            EnemyType::Troll
        }
    }
}

/// The mathematical content of an enemy.
pub struct EnemyView {
    pub x: int,
    pub y: int,
    pub health: int,
    pub max_health: int,
    pub attack: int,
    pub enemy_type: EnemyType,
    pub symbol: char,
}

/// One step from `from` toward `to` along one axis: by 1, or by 0 if the two
/// are equal.
pub open spec fn step_toward(from: int, to: int) -> int {
    if from < to {
        from + 1
    } else if from > to {
        from - 1
    } else {
        from
    }
}

/// Whether a living enemy other than the one in slot `skip` stands at
/// `(x, y)`.
pub open spec fn occupied_by_other(enemies: Seq<EnemyView>, skip: int, x: int, y: int) -> bool {
    exists|j: int|
        0 <= j < enemies.len() && j != skip && (#[trigger] enemies[j]).health > 0 && enemies[j].x
            == x && enemies[j].y == y
}

/// The mathematical content of a roster of enemies, slot by slot.
pub open spec fn roster_view(enemies: Seq<Enemy>) -> Seq<EnemyView> {
    enemies.map_values(|e: Enemy| e@)
}

impl EnemyView {
    /// The enemy after `damage`: health drops by it, but not below 0.
    pub open spec fn damaged(self, damage: int) -> EnemyView {
        EnemyView {
            health: if self.health - damage > 0 {
                self.health - damage
            } else {
                0
            },
            ..self
        }
    }

    /// The enemy after one greedy step toward `(target_x, target_y)`: each
    /// coordinate moves by one toward the target's. The step is taken only if
    /// the destination is walkable and no living enemy of `others` stands
    /// there, the one in slot `skip` not counted.
    pub open spec fn approached(
        self,
        target_x: int,
        target_y: int,
        layout: Layout,
        others: Seq<EnemyView>,
        skip: int,
    ) -> EnemyView {
        let new_x = step_toward(self.x, target_x);
        let new_y = step_toward(self.y, target_y);
        if layout.walkable(new_x, new_y) && !occupied_by_other(others, skip, new_x, new_y) {
            EnemyView { x: new_x, y: new_y, ..self }
        } else {
            self
        }
    }

    /// A new enemy of the given kind at `(x, y)`, in full health.
    pub open spec fn fresh(x: int, y: int, enemy_type: EnemyType) -> EnemyView {
        EnemyView {
            x,
            y,
            health: enemy_type.base_health(),
            max_health: enemy_type.base_health(),
            attack: enemy_type.base_attack(),
            enemy_type,
            symbol: enemy_type.glyph(),
        }
    }
}

/// The square of the Euclidean distance between two cells.
pub open spec fn distance_squared(ax: int, ay: int, bx: int, by: int) -> int {
    (ax - bx) * (ax - bx) + (ay - by) * (ay - by)
}

/// Whether two cells touch: they are the same cell or neighbours, diagonals
/// included.
pub open spec fn touching(ax: int, ay: int, bx: int, by: int) -> bool {
    -1 <= ax - bx <= 1 && -1 <= ay - by <= 1
}

/// An enemy: where it stands, its health, and what its kind gives it.
#[derive(Clone, Copy, Debug)]
pub struct Enemy {
    x: usize,
    y: usize,
    health: i32,
    max_health: i32,
    attack: i32,
    enemy_type: EnemyType,
    symbol: char,
}

impl View for Enemy {
    type V = EnemyView;

    closed spec fn view(&self) -> EnemyView {
        EnemyView {
            x: self.x as int,
            y: self.y as int,
            health: self.health as int,
            max_health: self.max_health as int,
            attack: self.attack as int,
            enemy_type: self.enemy_type,
            symbol: self.symbol,
        }
    }
}

impl Enemy {
    /// What holds of every enemy: its kind fixes maximum health, attack and
    /// glyph, and its health is not negative.
    #[verifier::type_invariant]
    pub open spec fn standard(&self) -> bool {
        &&& self@.max_health == self@.enemy_type.base_health()
        &&& self@.attack == self@.enemy_type.base_attack()
        &&& self@.symbol == self@.enemy_type.glyph()
        &&& 0 <= self@.health
    }

    /// Every number of the view is a machine integer of its field's type.
    pub proof fn lemma_view_fits(&self)
        ensures
            0 <= self@.x <= usize::MAX,
            0 <= self@.y <= usize::MAX,
            i32::MIN <= self@.health <= i32::MAX,
            i32::MIN <= self@.max_health <= i32::MAX,
            i32::MIN <= self@.attack <= i32::MAX,
    {
    }

    /// A new enemy of the given kind at `(x, y)`, in full health.
    pub fn new(x: usize, y: usize, enemy_type: EnemyType) -> (enemy: Enemy)
        ensures
            enemy@ == EnemyView::fresh(x as int, y as int, enemy_type),
            enemy.standard(),
    {
        let (health, attack, symbol): (i32, i32, char) = match enemy_type {
            EnemyType::Goblin => (30, 5, 'g'),
            EnemyType::Orc => (50, 8, 'o'),
            EnemyType::Troll => (80, 12, 'T'),
        };

        Enemy { x, y, health, max_health: health, attack, enemy_type, symbol }
    }

    /// One greedy step toward `(target_x, target_y)`: each coordinate moves by
    /// one toward the target's, so the step may be diagonal. The step is taken
    /// only if the destination is walkable and no living enemy of `enemies`
    /// stands there; the enemy in slot `self_index`, which is this one, does
    /// not count.
    pub fn move_towards(
        &mut self,
        target_x: usize,
        target_y: usize,
        dungeon: &Dungeon,
        enemies: &[Enemy],
        self_index: usize,
    )
        ensures
            final(self)@ == old(self)@.approached(
                target_x as int,
                target_y as int,
                dungeon@,
                roster_view(enemies@),
                self_index as int,
            ),
    {
        proof {
            use_type_invariant(&*self);
        }
        let new_x: usize = if self.x < target_x {
            self.x + 1
        } else if self.x > target_x {
            self.x - 1
        } else {
            self.x
        };
        let new_y: usize = if self.y < target_y {
            self.y + 1
        } else if self.y > target_y {
            self.y - 1
        } else {
            self.y
        };

        if dungeon.is_walkable(new_x, new_y) && !self.is_position_occupied(
            new_x,
            new_y,
            enemies,
            self_index,
        ) {
            self.x = new_x;
            self.y = new_y;
        }
    }

    /// Whether a living enemy of `enemies` stands at `(x, y)`, not counting
    /// the enemy in slot `self_index`.
    pub fn is_position_occupied(
        &self,
        x: usize,
        y: usize,
        enemies: &[Enemy],
        self_index: usize,
    ) -> (occupied: bool)
        ensures
            occupied == occupied_by_other(
                roster_view(enemies@),
                self_index as int,
                x as int,
                y as int,
            ),
    {
        let ghost roster = roster_view(enemies@);
        let mut j: usize = 0;
        while j < enemies.len()
            invariant
                j <= enemies@.len(),
                roster == roster_view(enemies@),
                forall|k: int|
                    0 <= k < j ==> !(k != self_index && (#[trigger] roster[k]).health > 0
                        && roster[k].x == x && roster[k].y == y),
            decreases enemies@.len() - j,
        {
            let other = &enemies[j];
            assert(roster[j as int] == other@);
            if j != self_index && other.health > 0 && other.x == x && other.y == y {
                return true;
            }
            j += 1;
        }
        false
    }

    /// Health drops by `damage`, but not below 0.
    pub fn take_damage(&mut self, damage: i32)
        requires
            old(self)@.health - damage <= i32::MAX,
        ensures
            final(self)@ == old(self)@.damaged(damage as int),
            final(self)@.health >= 0,
    {
        proof {
            use_type_invariant(&*self);
        }
        if damage >= self.health {
            self.health = 0;
        } else {
            self.health = self.health - damage;
        }
    }

    /// True iff health is above 0.
    pub fn is_alive(&self) -> (alive: bool)
        ensures
            alive == (self@.health > 0),
    {
        self.health > 0
    }

    /// Whether the Euclidean distance to `(x, y)` is at most `radius`,
    /// decided on the squares.
    pub fn is_within(&self, x: usize, y: usize, radius: usize) -> (near: bool)
        ensures
            near == (distance_squared(self@.x, self@.y, x as int, y as int) <= radius * radius),
    {
        let dx: usize = if self.x >= x { self.x - x } else { x - self.x };
        let dy: usize = if self.y >= y { self.y - y } else { y - self.y };
        proof {
            assert(distance_squared(self@.x, self@.y, x as int, y as int) == dx * dx + dy * dy)
                by (nonlinear_arith)
                requires
                    dx == self@.x - x || dx == x - self@.x,
                    dy == self@.y - y || dy == y - self@.y,
            ;
            assert(dx > radius ==> dx * dx > radius * radius) by (nonlinear_arith);
            assert(dy > radius ==> dy * dy > radius * radius) by (nonlinear_arith);
            assert(dx * dx >= 0 && dy * dy >= 0) by (nonlinear_arith);
        }
        if dx > radius || dy > radius {
            return false;
        }
        proof {
            assert(radius * radius <= u128::MAX) by (nonlinear_arith)
                requires
                    0 <= radius <= 0xffff_ffff_ffff_ffff,
            ;
            assert(dx * dx <= radius * radius) by (nonlinear_arith)
                requires
                    0 <= dx <= radius,
            ;
            assert(dy * dy <= radius * radius) by (nonlinear_arith)
                requires
                    0 <= dy <= radius,
            ;
        }
        let limit: u128 = (radius as u128) * (radius as u128);
        let dx_squared: u128 = (dx as u128) * (dx as u128);
        let dy_squared: u128 = (dy as u128) * (dy as u128);
        dx_squared <= limit - dy_squared
    }

    /// Whether `(x, y)` is this enemy's cell or one of its eight neighbours.
    pub fn is_adjacent_to(&self, x: usize, y: usize) -> (adjacent: bool)
        ensures
            adjacent == touching(self@.x, self@.y, x as int, y as int),
    {
        let dx: usize = if self.x >= x { self.x - x } else { x - self.x };
        let dy: usize = if self.y >= y { self.y - y } else { y - self.y };
        dx <= 1 && dy <= 1
    }

    /// The column.
    pub fn x(&self) -> (x: usize)
        ensures
            x == self@.x,
    {
        self.x
    }

    /// The row.
    pub fn y(&self) -> (y: usize)
        ensures
            y == self@.y,
    {
        self.y
    }

    /// Current health.
    pub fn health(&self) -> (health: i32)
        ensures
            health == self@.health,
    {
        self.health
    }

    /// The most health that healing restores.
    pub fn max_health(&self) -> (max_health: i32)
        ensures
            max_health == self@.max_health,
    {
        self.max_health
    }

    /// The damage that one attack deals.
    pub fn attack(&self) -> (attack: i32)
        ensures
            attack == self@.attack,
    {
        self.attack
    }

    /// The kind.
    pub fn enemy_type(&self) -> (enemy_type: EnemyType)
        ensures
            enemy_type == self@.enemy_type,
    {
        self.enemy_type
    }

    /// The character that stands for the enemy on a map.
    pub fn symbol(&self) -> (symbol: char)
        ensures
            symbol == self@.symbol,
    {
        self.symbol
    }
}

/// Whether an enemy could have been spawned in `dungeon`: it is new, and it
/// stands inside a room other than the first.
pub open spec fn spawned_in(dungeon: &Dungeon, enemy: Enemy) -> bool {
    &&& enemy@ == EnemyView::fresh(enemy@.x, enemy@.y, enemy@.enemy_type)
    &&& exists|r: int|
        1 <= r < dungeon@.rooms.len() && (#[trigger] dungeon@.rooms[r]).contains(
            enemy@.x,
            enemy@.y,
        )
}

/// How many of the first `count` enemies stand inside `room`.
pub open spec fn standing_in(enemies: Seq<EnemyView>, room: Room, count: int) -> int
    decreases count,
{
    if count <= 0 {
        0
    } else {
        standing_in(enemies, room, count - 1) + if room.contains(
            enemies[count - 1].x,
            enemies[count - 1].y,
        ) {
            1int
        } else {
            0int
        }
    }
}

/// An enemy added at the end of a roster does not change how many of the
/// enemies before it stand inside a room.
proof fn lemma_standing_in_push(
    enemies: Seq<EnemyView>,
    enemy: EnemyView,
    room: Room,
    count: int,
)
    requires
        count <= enemies.len(),
    ensures
        standing_in(enemies.push(enemy), room, count) == standing_in(enemies, room, count),
    decreases count,
{
    if count > 0 {
        lemma_standing_in_push(enemies, enemy, room, count - 1);
    }
}

/// How many values of a record of draws the first `rooms` populated rooms
/// take: for each room one draw for the number of its enemies, and then
/// three draws for each enemy.
pub open spec fn draws_used(draws: Seq<usize>, rooms: int) -> int
    decreases rooms,
{
    if rooms <= 0 {
        0
    } else {
        let at = draws_used(draws, rooms - 1);
        at + 1 + 3 * draws[at]
    }
}

/// The first `count` enemies of the room whose draws begin at `at`: after
/// the draw for their number, each enemy takes a draw for its column, one
/// for its row and one for the bucket of its kind.
pub open spec fn room_spawn(draws: Seq<usize>, at: int, count: int) -> Seq<EnemyView> {
    Seq::new(
        count as nat,
        |k: int|
            EnemyView::fresh(
                draws[at + 1 + 3 * k] as int,
                draws[at + 2 + 3 * k] as int,
                EnemyType::of_bucket(draws[at + 3 + 3 * k] as int),
            ),
    )
}

/// The roster that a record of draws gives for the first `rooms` populated
/// rooms: the enemies of each room in the order of their draws, room after
/// room.
pub open spec fn spawned(draws: Seq<usize>, rooms: int) -> Seq<EnemyView>
    decreases rooms,
{
    if rooms <= 0 {
        Seq::empty()
    } else {
        let at = draws_used(draws, rooms - 1);
        spawned(draws, rooms - 1) + room_spawn(draws, at, draws[at] as int)
    }
}

/// Whether the enemy in slot `slot` of the roster that `draws` give was drawn
/// for room `room` of the dungeon. The rooms are populated from room 1 on,
/// so the enemies of room `room` follow those of the `room - 1` rooms that
/// are populated before it.
pub open spec fn drawn_for(draws: Seq<usize>, room: int, slot: int) -> bool {
    spawned(draws, room - 1).len() <= slot < spawned(draws, room).len()
}

/// Every enemy that was drawn for one of the rooms before room `upto` is on
/// the roster and stands inside the room that it was drawn for.
pub open spec fn groups_placed(
    rooms: Seq<Room>,
    draws: Seq<usize>,
    roster: Seq<EnemyView>,
    upto: int,
) -> bool {
    forall|room: int, slot: int|
        1 <= room < upto && #[trigger] drawn_for(draws, room, slot) ==> slot < roster.len()
            && rooms[room].contains(roster[slot].x, roster[slot].y)
}

/// Draws that are recorded later change the roster of none of the rooms that
/// were populated before them.
proof fn lemma_later_draws_keep_rosters(shorter: Seq<usize>, longer: Seq<usize>, rooms: int)
    requires
        shorter.len() <= longer.len(),
        forall|i: int| 0 <= i < shorter.len() ==> shorter[i] == longer[i],
        draws_used(shorter, rooms) <= shorter.len(),
    ensures
        forall|q: int| q <= rooms ==> #[trigger] spawned(longer, q) == spawned(shorter, q),
    decreases rooms,
{
    lemma_later_draws_change_nothing(shorter, longer, rooms);
    if rooms > 0 {
        lemma_draws_used_grows(shorter, rooms);
        lemma_later_draws_keep_rosters(shorter, longer, rooms - 1);
    }
}

/// Later draws and later enemies leave the enemies of the rooms that were
/// populated before them in their rooms.
proof fn lemma_groups_stay_placed(
    rooms: Seq<Room>,
    shorter: Seq<usize>,
    longer: Seq<usize>,
    roster: Seq<EnemyView>,
    grown: Seq<EnemyView>,
    upto: int,
)
    requires
        shorter.len() <= longer.len(),
        forall|i: int| 0 <= i < shorter.len() ==> shorter[i] == longer[i],
        draws_used(shorter, upto - 1) <= shorter.len(),
        roster.len() <= grown.len(),
        forall|i: int| 0 <= i < roster.len() ==> roster[i] == grown[i],
        groups_placed(rooms, shorter, roster, upto),
    ensures
        groups_placed(rooms, longer, grown, upto),
{
    lemma_later_draws_keep_rosters(shorter, longer, upto - 1);
    assert forall|room: int, slot: int|
        1 <= room < upto && #[trigger] drawn_for(longer, room, slot) implies slot < grown.len()
        && rooms[room].contains(grown[slot].x, grown[slot].y) by {
        assert(spawned(longer, room) == spawned(shorter, room));
        assert(spawned(longer, room - 1) == spawned(shorter, room - 1));
        assert(drawn_for(shorter, room, slot));
    }
}

/// Draws that are recorded later change neither how many draws the rooms
/// before them took nor the enemies that those draws gave.
proof fn lemma_later_draws_change_nothing(shorter: Seq<usize>, longer: Seq<usize>, rooms: int)
    requires
        shorter.len() <= longer.len(),
        forall|i: int| 0 <= i < shorter.len() ==> shorter[i] == longer[i],
        draws_used(shorter, rooms) <= shorter.len(),
    ensures
        draws_used(longer, rooms) == draws_used(shorter, rooms),
        spawned(longer, rooms) == spawned(shorter, rooms),
        0 <= draws_used(shorter, rooms),
    decreases rooms,
{
    if rooms > 0 {
        let at = draws_used(shorter, rooms - 1);
        lemma_draws_used_grows(shorter, rooms - 1);
        lemma_later_draws_change_nothing(shorter, longer, rooms - 1);
        assert(room_spawn(longer, at, longer[at] as int) =~= room_spawn(
            shorter,
            at,
            shorter[at] as int,
        ));
    }
}

/// Every room takes at least one draw.
proof fn lemma_draws_used_grows(draws: Seq<usize>, rooms: int)
    ensures
        0 <= draws_used(draws, rooms),
        rooms > 0 ==> draws_used(draws, rooms - 1) < draws_used(draws, rooms),
    decreases rooms,
{
    if rooms > 0 {
        lemma_draws_used_grows(draws, rooms - 1);
    }
}

/// Populates every room but the first, where the player starts, with up to
/// `MAX_ENEMIES_PER_ROOM` enemies. Each stands somewhere in its room and has
/// a kind drawn from `KIND_BUCKETS` buckets. Two enemies may share a cell.
///
/// The rooms are populated in their order. For each, the number of its
/// enemies is drawn first, and then for each enemy its column, its row and
/// the bucket of its kind: the roster is what `spawned` makes of these draws.
pub fn spawn_enemies(dungeon: &Dungeon, rng: &mut RandomSource) -> (enemies: Vec<Enemy>)
    ensures
        final(rng).draws().len() >= old(rng).draws().len(),
        final(rng).draws().take(old(rng).draws().len() as int) == old(rng).draws(),
        final(rng).draws_since(old(rng).draws()).len() == draws_used(
            final(rng).draws_since(old(rng).draws()),
            dungeon@.rooms.len() - 1,
        ),
        roster_view(enemies@) == spawned(
            final(rng).draws_since(old(rng).draws()),
            dungeon@.rooms.len() - 1,
        ),
        groups_placed(
            dungeon@.rooms,
            final(rng).draws_since(old(rng).draws()),
            roster_view(enemies@),
            dungeon@.rooms.len() as int,
        ),
        dungeon@.rooms.len() <= 1 ==> enemies@.len() == 0,
        dungeon@.rooms.len() >= 1 ==> enemies@.len() <= MAX_ENEMIES_PER_ROOM * (
        dungeon@.rooms.len() - 1),
        forall|k: int| 0 <= k < enemies@.len() ==> spawned_in(dungeon, #[trigger] enemies@[k]),
        forall|k: int|
            0 <= k < enemies@.len() ==> dungeon@.walkable(
                (#[trigger] enemies@[k])@.x,
                enemies@[k]@.y,
            ),
        forall|q: int|
            0 <= q < dungeon@.rooms.len() ==> standing_in(
                roster_view(enemies@),
                #[trigger] dungeon@.rooms[q],
                enemies@.len() as int,
            ) <= MAX_ENEMIES_PER_ROOM,
        dungeon@.rooms.len() > 0 ==> standing_in(
            roster_view(enemies@),
            dungeon@.rooms[0],
            enemies@.len() as int,
        ) == 0,
{
    proof {
        use_type_invariant(dungeon);
        dungeon.lemma_size_fits();
    }
    let ghost before = rng.draws();
    let mut enemies: Vec<Enemy> = Vec::new();
    let rooms = dungeon.rooms();
    let mut r: usize = 1;
    assert(rng.draws().take(before.len() as int) =~= before);
    assert(roster_view(enemies@) =~= spawned(rng.draws_since(before), 0));
    while r < rooms.len()
        invariant
            r == 1 || r <= rooms@.len(),
            before.len() <= rng.draws().len(),
            rng.draws().take(before.len() as int) == before,
            rng.draws_since(before).len() == draws_used(rng.draws_since(before), r - 1),
            roster_view(enemies@) == spawned(rng.draws_since(before), r - 1),
            groups_placed(rooms@, rng.draws_since(before), roster_view(enemies@), r as int),
            rooms@ == dungeon@.rooms,
            dungeon.generated(),
            dungeon@.width <= usize::MAX,
            dungeon@.height <= usize::MAX,
            enemies@.len() <= MAX_ENEMIES_PER_ROOM * (r - 1),
            forall|k: int| 0 <= k < enemies@.len() ==> spawned_in(dungeon, #[trigger] enemies@[k]),
            forall|k: int|
                0 <= k < enemies@.len() ==> dungeon@.walkable(
                    (#[trigger] enemies@[k])@.x,
                    enemies@[k]@.y,
                ),
            forall|q: int|
                0 <= q < rooms@.len() ==> standing_in(
                    roster_view(enemies@),
                    #[trigger] rooms@[q],
                    enemies@.len() as int,
                ) <= MAX_ENEMIES_PER_ROOM,
            forall|q: int|
                0 <= q < rooms@.len() && (q == 0 || q >= r) ==> standing_in(
                    roster_view(enemies@),
                    #[trigger] rooms@[q],
                    enemies@.len() as int,
                ) == 0,
        decreases rooms@.len() - r,
    {
        let room = rooms[r];
        assert(dungeon@.admits(dungeon@.rooms[r as int]));
        let ghost earlier = rng.draws_since(before);
        let ghost at = earlier.len() as int;
        let num_enemies: usize = rng.in_range_inclusive(0, MAX_ENEMIES_PER_ROOM);
        proof {
            assert(rng.draws_since(before) =~= earlier.push(num_enemies));
            assert(rng.draws().take(before.len() as int) =~= before);
            lemma_later_draws_change_nothing(earlier, rng.draws_since(before), r - 1);
            assert(roster_view(enemies@) =~= spawned(rng.draws_since(before), r - 1)
                + room_spawn(rng.draws_since(before), at, 0));
            lemma_groups_stay_placed(
                rooms@,
                earlier,
                rng.draws_since(before),
                roster_view(enemies@),
                roster_view(enemies@),
                r as int,
            );
        }
        let ghost group_start = enemies@.len() as int;
        let mut n: usize = 0;
        while n < num_enemies
            invariant
                1 <= r < rooms@.len(),
                before.len() <= rng.draws().len(),
                rng.draws().take(before.len() as int) == before,
                at == draws_used(rng.draws_since(before), r - 1),
                0 <= at,
                rng.draws_since(before).len() == at + 1 + 3 * n,
                rng.draws_since(before)[at] == num_enemies,
                roster_view(enemies@) == spawned(rng.draws_since(before), r - 1) + room_spawn(
                    rng.draws_since(before),
                    at,
                    n as int,
                ),
                groups_placed(rooms@, rng.draws_since(before), roster_view(enemies@), r as int),
                group_start == spawned(rng.draws_since(before), r - 1).len(),
                forall|i: int|
                    group_start <= i < enemies@.len() ==> room.contains(
                        (#[trigger] roster_view(enemies@)[i]).x,
                        roster_view(enemies@)[i].y,
                    ),
                rooms@ == dungeon@.rooms,
                room == rooms@[r as int],
                dungeon@.admits(room),
                dungeon.generated(),
                dungeon@.width <= usize::MAX,
                dungeon@.height <= usize::MAX,
                n <= num_enemies <= MAX_ENEMIES_PER_ROOM,
                enemies@.len() <= MAX_ENEMIES_PER_ROOM * (r - 1) + n,
                forall|k: int|
                    0 <= k < enemies@.len() ==> spawned_in(dungeon, #[trigger] enemies@[k]),
                forall|k: int|
                    0 <= k < enemies@.len() ==> dungeon@.walkable(
                        (#[trigger] enemies@[k])@.x,
                        enemies@[k]@.y,
                    ),
                forall|q: int|
                    0 <= q < rooms@.len() && q != r ==> standing_in(
                        roster_view(enemies@),
                        #[trigger] rooms@[q],
                        enemies@.len() as int,
                    ) <= MAX_ENEMIES_PER_ROOM,
                forall|q: int|
                    0 <= q < rooms@.len() && (q == 0 || q > r) ==> standing_in(
                        roster_view(enemies@),
                        #[trigger] rooms@[q],
                        enemies@.len() as int,
                    ) == 0,
                standing_in(roster_view(enemies@), room, enemies@.len() as int) == n,
            decreases num_enemies - n,
        {
            let ghost so_far = rng.draws_since(before);
            let x: usize = rng.in_range(room.x, room.x + room.width);
            let y: usize = rng.in_range(room.y, room.y + room.height);
            let bucket: usize = rng.in_range(0, KIND_BUCKETS);

            let enemy_type = EnemyType::from_bucket(bucket);

            let enemy = Enemy::new(x, y, enemy_type);
            let ghost roster = roster_view(enemies@);
            proof {
                let now = rng.draws_since(before);
                assert(now =~= so_far.push(x).push(y).push(bucket));
                assert(rng.draws().take(before.len() as int) =~= before);
                lemma_later_draws_change_nothing(so_far, now, r - 1);
                assert(room_spawn(now, at, n + 1) =~= room_spawn(so_far, at, n as int).push(
                    enemy@,
                ));
                assert(spawned(now, r - 1) + room_spawn(now, at, n + 1) =~= (spawned(so_far, r - 1)
                    + room_spawn(so_far, at, n as int)).push(enemy@));
            }
            proof {
                assert(dungeon@.rooms[r as int].contains(x as int, y as int));
                lemma_rooms_walkable(dungeon@, dungeon@.stairs_position(), r as int);
            }
            enemies.push(enemy);
            proof {
                let after = roster_view(enemies@);
                assert(after =~= roster.push(enemy@));
                lemma_groups_stay_placed(
                    rooms@,
                    so_far,
                    rng.draws_since(before),
                    roster,
                    after,
                    r as int,
                );
                assert forall|q: int| 0 <= q < rooms@.len() implies standing_in(
                    after,
                    #[trigger] rooms@[q],
                    after.len() as int,
                ) == standing_in(roster, rooms@[q], roster.len() as int) + (if q == r {
                    1int
                } else {
                    0int
                }) by {
                    lemma_standing_in_push(roster, enemy@, rooms@[q], roster.len() as int);
                    if q != r && rooms@[q].contains(x as int, y as int) {
                        assert(rooms@[q].overlaps(rooms@[r as int]));
                        assert(!dungeon@.rooms[q].overlaps(dungeon@.rooms[r as int]));
                    }
                }
            }
            n += 1;
        }
        proof {
            let now = rng.draws_since(before);
            let roster = roster_view(enemies@);
            assert(roster == spawned(now, r as int));
            assert forall|q: int, slot: int|
                1 <= q < r + 1 && #[trigger] drawn_for(now, q, slot) implies slot < roster.len()
                && rooms@[q].contains(roster[slot].x, roster[slot].y) by {
                if q < r {
                    assert(groups_placed(rooms@, now, roster, r as int));
                }
            }
        }
        r += 1;
    }
    proof {
        if rooms@.len() == 0 {
            assert(groups_placed(
                dungeon@.rooms,
                rng.draws_since(before),
                roster_view(enemies@),
                0,
            ));
        }
    }
    enemies
}

} // verus!

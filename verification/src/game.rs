//! The rules of one turn: the player's action, the enemies' answer, and how
//! the game ends.
//!
//! Two cells are adjacent when they touch: the same cell or one of its eight
//! neighbours. An attack goes to the first living enemy of the roster that is
//! adjacent to the player. An action that cannot be carried out, a step into
//! a wall or an attack with no enemy adjacent, changes nothing: the enemies
//! do not act either. A player who steps onto the stairs wins at once, before
//! the enemies act.

use crate::dungeon::lemma_rooms_walkable;
use crate::dungeon::Dungeon;
use crate::dungeon::Layout;
use crate::dungeon::Tile;
use crate::enemy::distance_squared;
use crate::enemy::draws_used;
use crate::enemy::groups_placed;
use crate::enemy::spawned;
use crate::enemy::roster_view;
use crate::enemy::spawn_enemies;
use crate::enemy::touching;
use crate::enemy::Enemy;
use crate::enemy::EnemyView;
use crate::player::Player;
use crate::player::PlayerView;
use crate::random::RandomSource;
use crate::random::FALLBACK_SEED;
use vstd::prelude::*;

verus! {

/// The distance within which an enemy starts to chase the player, unless the
/// game is given another.
pub const ACTIVATION_RADIUS: usize = 8;

/// The character that stands for the player on a map.
pub const PLAYER_GLYPH: char = '@';

/// Whether the game is still going, and if not, how it ended.
#[derive(Clone, Copy, Debug, PartialEq, Eq, Structural)]
pub enum GameState {
    Playing,
    Won,
    Lost,
}

/// What the player can ask for in one turn.
#[derive(Clone, Copy, Debug, PartialEq, Eq, Structural)]
pub enum Command {
    MoveUp,
    MoveDown,
    MoveLeft,
    MoveRight,
    Attack,
    Quit,
}

/// The slot of the first living enemy at or after slot `from` that touches
/// `(x, y)`, or the length of the roster if there is none.
pub open spec fn first_target(enemies: Seq<EnemyView>, x: int, y: int, from: int) -> int
    decreases enemies.len() - from,
{
    if from < 0 || from >= enemies.len() {
        enemies.len() as int
    } else if enemies[from].health > 0 && touching(enemies[from].x, enemies[from].y, x, y) {
        from
    } else {
        first_target(enemies, x, y, from + 1)
    }
}

/// The slot of the first living enemy at or after slot `from` that stands at
/// `(x, y)`, or the length of the roster if there is none.
pub open spec fn first_standing(enemies: Seq<EnemyView>, x: int, y: int, from: int) -> int
    decreases enemies.len() - from,
{
    if from < 0 || from >= enemies.len() {
        enemies.len() as int
    } else if enemies[from].health > 0 && enemies[from].x == x && enemies[from].y == y {
        from
    } else {
        first_standing(enemies, x, y, from + 1)
    }
}

/// The living enemies of a roster, in their order.
pub open spec fn survivors(enemies: Seq<EnemyView>) -> Seq<EnemyView> {
    enemies.filter(|e: EnemyView| e.health > 0)
}

/// The roster after the enemies from slot `from` on have moved, one after
/// the other in roster order. An enemy within `radius` of `(x, y)` takes one
/// step toward it, past the enemies as they stand at that moment; any other
/// enemy stays where it is.
pub open spec fn enemies_advance(
    layout: Layout,
    radius: int,
    x: int,
    y: int,
    enemies: Seq<EnemyView>,
    from: int,
) -> Seq<EnemyView>
    decreases enemies.len() - from,
{
    if from < 0 || from >= enemies.len() {
        enemies
    } else {
        let enemy = enemies[from];
        let next = if distance_squared(enemy.x, enemy.y, x, y) <= radius * radius {
            enemy.approached(x, y, layout, enemies, from)
        } else {
            enemy
        };
        enemies_advance(layout, radius, x, y, enemies.update(from, next), from + 1)
    }
}

/// The player after the first `count` enemies have struck, one after the
/// other in roster order: each enemy that touches the player deals its attack.
pub open spec fn struck(player: PlayerView, enemies: Seq<EnemyView>, count: int) -> PlayerView
    decreases count,
{
    if count <= 0 {
        player
    } else {
        let before = struck(player, enemies, count - 1);
        let enemy = enemies[count - 1];
        if touching(enemy.x, enemy.y, player.x, player.y) {
            before.damaged(enemy.attack)
        } else {
            before
        }
    }
}

/// The mathematical content of a game.
pub struct GameView {
    pub layout: Layout,
    pub player: PlayerView,
    pub enemies: Seq<EnemyView>,
    pub state: GameState,
    pub activation_radius: int,
}

impl GameView {
    /// The slot of the enemy that an attack goes to, or the length of the
    /// roster if no living enemy is adjacent to the player.
    pub open spec fn target(self) -> int {
        first_target(self.enemies, self.player.x, self.player.y, 0)
    }

    /// The game after the player's attack: the target loses the player's
    /// attack in health, and if that kills it the player gains its maximum
    /// health as experience, provided the player's counters can hold it.
    /// Without a target nothing changes.
    pub open spec fn after_attack(self) -> GameView {
        let slot = self.target();
        if slot >= self.enemies.len() {
            self
        } else {
            let hit = self.enemies[slot].damaged(self.player.attack);
            GameView {
                enemies: self.enemies.update(slot, hit),
                player: if hit.health <= 0 && self.player.can_gain(hit.max_health) {
                    self.player.with_experience(hit.max_health)
                } else {
                    self.player
                },
                ..self
            }
        }
    }

    /// The game after the player's action alone.
    pub open spec fn acted(self, command: Command) -> GameView {
        match command {
            Command::MoveUp => GameView { player: self.player.stepped(self.layout, 0, -1), ..self },
            Command::MoveDown => GameView { player: self.player.stepped(self.layout, 0, 1), ..self },
            Command::MoveLeft => GameView { player: self.player.stepped(self.layout, -1, 0), ..self },
            Command::MoveRight => GameView { player: self.player.stepped(self.layout, 1, 0), ..self },
            Command::Attack => self.after_attack(),
            Command::Quit => self,
        }
    }

    /// Whether the action can be carried out: the tile to step on is
    /// walkable, or a living enemy is adjacent to attack.
    pub open spec fn accepts(self, command: Command) -> bool {
        match command {
            Command::MoveUp => self.layout.walkable(self.player.x, self.player.y - 1),
            Command::MoveDown => self.layout.walkable(self.player.x, self.player.y + 1),
            Command::MoveLeft => self.layout.walkable(self.player.x - 1, self.player.y),
            Command::MoveRight => self.layout.walkable(self.player.x + 1, self.player.y),
            Command::Attack => self.target() < self.enemies.len(),
            Command::Quit => false,
        }
    }

    /// Whether the player stands on the stairs.
    pub open spec fn on_stairs(self) -> bool {
        &&& self.layout.in_bounds(self.player.x, self.player.y)
        &&& self.layout.tile(self.player.x, self.player.y) == Tile::Stairs
    }

    /// The game after the dead enemies have left the roster.
    pub open spec fn cleared(self) -> GameView {
        GameView { enemies: survivors(self.enemies), ..self }
    }

    /// The game after the enemies have moved.
    pub open spec fn after_moves(self) -> GameView {
        GameView {
            enemies: enemies_advance(
                self.layout,
                self.activation_radius,
                self.player.x,
                self.player.y,
                self.enemies,
                0,
            ),
            ..self
        }
    }

    /// The game after every enemy adjacent to the player has dealt its
    /// attack to the player.
    pub open spec fn after_blows(self) -> GameView {
        GameView { player: struck(self.player, self.enemies, self.enemies.len() as int), ..self }
    }

    /// What a map shows at `(x, y)`: nothing outside the grid; else the
    /// player, if they stand there; else the first living enemy of the roster
    /// that stands there; else the tile.
    pub open spec fn glyph(self, x: int, y: int) -> Option<char> {
        let slot = first_standing(self.enemies, x, y, 0);
        if !self.layout.in_bounds(x, y) {
            None
        } else if self.player.x == x && self.player.y == y {
            Some(PLAYER_GLYPH)
        } else if slot < self.enemies.len() {
            Some(self.enemies[slot].symbol)
        } else {
            Some(self.layout.tile(x, y).glyph_of())
        }
    }

    /// The game after one turn. A game that is over, the command to quit and
    /// an action that cannot be carried out change nothing. Otherwise the
    /// player acts and the dead leave the roster; a living player on the
    /// stairs has won; if not, the enemies move and strike, and a player
    /// whom that leaves without health has lost.
    pub open spec fn step(self, command: Command) -> GameView {
        if self.state != GameState::Playing || !self.accepts(command) {
            self
        } else {
            let cleared = self.acted(command).cleared();
            if cleared.player.health > 0 && cleared.on_stairs() {
                GameView { state: GameState::Won, ..cleared }
            } else {
                let answered = cleared.after_moves().after_blows();
                GameView {
                    state: if answered.player.health > 0 {
                        GameState::Playing
                    } else {
                        GameState::Lost
                    },
                    ..answered
                }
            }
        }
    }
}

/// A game in progress: the dungeon, the player, and the roster of enemies.
pub struct Game {
    pub dungeon: Dungeon,
    pub player: Player,
    pub enemies: Vec<Enemy>,
    pub state: GameState,
    pub activation_radius: usize,
}

impl View for Game {
    type V = GameView;

    open spec fn view(&self) -> GameView {
        GameView {
            layout: self.dungeon@,
            player: self.player@,
            enemies: roster_view(self.enemies@),
            state: self.state,
            activation_radius: self.activation_radius as int,
        }
    }
}

impl Game {
    /// A new game in a freshly generated standard dungeon.
    pub fn new() -> (game: Game)
        ensures
            game@.state == GameState::Playing,
            game@.activation_radius == ACTIVATION_RADIUS,
            game@.player == PlayerView::fresh(
                game.dungeon.spawn_point().0,
                game.dungeon.spawn_point().1,
            ),
            game@.layout.walkable(game@.player.x, game@.player.y),
            forall|k: int|
                0 <= k < game.enemies@.len() ==> crate::enemy::spawned_in(
                    &game.dungeon,
                    #[trigger] game.enemies@[k],
                ),
    {
        let mut rng = RandomSource::from_entropy_or(FALLBACK_SEED);
        let dungeon = Dungeon::new();
        proof {
            use_type_invariant(&dungeon);
            lemma_rooms_walkable(dungeon@, dungeon@.stairs_position(), 0);
        }
        Game::start(dungeon, &mut rng)
    }

    /// A new game in `dungeon`: the player stands at the dungeon's start, and
    /// the roster is what `spawn_enemies` makes of the draws from `rng`. In a dungeon without rooms the
    /// start is a wall tile at the origin; the game is still valid, and the
    /// player cannot move.
    pub fn start(dungeon: Dungeon, rng: &mut RandomSource) -> (game: Game)
        ensures
            final(rng).draws().len() >= old(rng).draws().len(),
            final(rng).draws().take(old(rng).draws().len() as int) == old(rng).draws(),
            final(rng).draws_since(old(rng).draws()).len() == draws_used(
                final(rng).draws_since(old(rng).draws()),
                dungeon@.rooms.len() - 1,
            ),
            game@.enemies == spawned(
                final(rng).draws_since(old(rng).draws()),
                dungeon@.rooms.len() - 1,
            ),
            groups_placed(
                dungeon@.rooms,
                final(rng).draws_since(old(rng).draws()),
                game@.enemies,
                dungeon@.rooms.len() as int,
            ),
            forall|k: int|
                0 <= k < game.enemies@.len() ==> game@.layout.walkable(
                    (#[trigger] game.enemies@[k])@.x,
                    game.enemies@[k]@.y,
                ),
            game.dungeon == dungeon,
            game@.state == GameState::Playing,
            game@.activation_radius == ACTIVATION_RADIUS,
            game@.player == PlayerView::fresh(dungeon.spawn_point().0, dungeon.spawn_point().1),
            forall|k: int|
                0 <= k < game.enemies@.len() ==> crate::enemy::spawned_in(
                    &dungeon,
                    #[trigger] game.enemies@[k],
                ),
    {
        let (x, y) = dungeon.player_start();
        let player = Player::new(x, y);
        let enemies = spawn_enemies(&dungeon, rng);
        Game {
            dungeon,
            player,
            enemies,
            state: GameState::Playing,
            activation_radius: ACTIVATION_RADIUS,
        }
    }

    /// The slot of the enemy that an attack would go to: the first living
    /// enemy adjacent to the player.
    pub fn find_target(&self) -> (target: Option<usize>)
        ensures
            match target {
                Some(slot) => slot == self@.target() && slot < self.enemies@.len(),
                None => self@.target() == self.enemies@.len(),
            },
    {
        let x = self.player.x();
        let y = self.player.y();
        let ghost roster = roster_view(self.enemies@);
        let mut slot: usize = 0;
        while slot < self.enemies.len()
            invariant
                slot <= self.enemies@.len(),
                roster == roster_view(self.enemies@),
                x == self.player@.x,
                y == self.player@.y,
                first_target(roster, x as int, y as int, slot as int) == first_target(
                    roster,
                    x as int,
                    y as int,
                    0,
                ),
            decreases self.enemies@.len() - slot,
        {
            let enemy = &self.enemies[slot];
            assert(roster[slot as int] == enemy@);
            if enemy.is_alive() && enemy.is_adjacent_to(x, y) {
                return Some(slot);
            }
            slot += 1;
        }
        None
    }

    /// The player attacks the first living enemy adjacent to them, if there
    /// is one. A kill earns the enemy's maximum health as experience.
    pub fn player_attack(&mut self) -> (accepted: bool)
        ensures
            accepted == old(self)@.accepts(Command::Attack),
            final(self)@ == old(self)@.after_attack(),
    {
        match self.find_target() {
            None => false,
            Some(slot) => {
                let ghost before = roster_view(self.enemies@);
                let mut enemy = self.enemies[slot];
                proof {
                    use_type_invariant(&self.player);
                    enemy.lemma_view_fits();
                }
                enemy.take_damage(self.player.attack());
                self.enemies[slot] = enemy;
                assert(roster_view(self.enemies@) =~= before.update(slot as int, enemy@));
                if !enemy.is_alive() {
                    proof {
                        use_type_invariant(&enemy);
                    }
                    let reward: u32 = enemy.max_health() as u32;
                    if self.player.can_gain_experience(reward) {
                        self.player.gain_experience(reward);
                    }
                }
                true
            },
        }
    }

    /// Takes the dead enemies off the roster. The living keep their order.
    pub fn remove_dead(&mut self)
        ensures
            final(self)@ == old(self)@.cleared(),
    {
        let ghost before = roster_view(self.enemies@);
        let mut kept: Vec<Enemy> = Vec::new();
        let mut slot: usize = 0;
        while slot < self.enemies.len()
            invariant
                slot <= self.enemies@.len(),
                before == roster_view(self.enemies@),
                roster_view(kept@) == survivors(before.take(slot as int)),
            decreases self.enemies@.len() - slot,
        {
            let enemy = self.enemies[slot];
            proof {
                lemma_survivors_step(before, slot as int);
            }
            if enemy.is_alive() {
                kept.push(enemy);
            }
            assert(roster_view(kept@) =~= survivors(before.take(slot + 1)));
            slot += 1;
        }
        assert(before.take(slot as int) =~= before);
        self.enemies = kept;
    }

    /// Every enemy within the activation radius of the player takes one step
    /// toward the player; the others stay. The enemies move one after the
    /// other in roster order.
    pub fn move_enemies(&mut self)
        ensures
            final(self)@ == old(self)@.after_moves(),
    {
        let x = self.player.x();
        let y = self.player.y();
        let ghost start = self@;
        let mut slot: usize = 0;
        while slot < self.enemies.len()
            invariant
                slot <= self.enemies@.len(),
                self@ == (GameView { enemies: self@.enemies, ..start }),
                x == start.player.x,
                y == start.player.y,
                enemies_advance(
                    start.layout,
                    start.activation_radius,
                    x as int,
                    y as int,
                    self@.enemies,
                    slot as int,
                ) == start.after_moves().enemies,
            decreases self.enemies@.len() - slot,
        {
            let ghost roster = self@.enemies;
            let mut enemy = self.enemies[slot];
            assert(roster[slot as int] == enemy@);
            if enemy.is_within(x, y, self.activation_radius) {
                enemy.move_towards(x, y, &self.dungeon, self.enemies.as_slice(), slot);
                self.enemies[slot] = enemy;
            }
            assert(self@.enemies =~= roster.update(slot as int, enemy@));
            slot += 1;
        }
    }

    /// Every enemy adjacent to the player deals its attack to the player.
    pub fn enemies_attack(&mut self)
        ensures
            final(self)@ == old(self)@.after_blows(),
    {
        let x = self.player.x();
        let y = self.player.y();
        let ghost start = self@;
        let mut slot: usize = 0;
        while slot < self.enemies.len()
            invariant
                slot <= self.enemies@.len(),
                self@ == (GameView { player: self@.player, ..start }),
                x == start.player.x,
                y == start.player.y,
                self@.player == struck(start.player, start.enemies, slot as int),
                self@.player.x == x,
                self@.player.y == y,
            decreases self.enemies@.len() - slot,
        {
            let enemy = self.enemies[slot];
            assert(start.enemies[slot as int] == enemy@);
            proof {
                use_type_invariant(&enemy);
                self.player.lemma_view_fits();
            }
            if enemy.is_adjacent_to(x, y) {
                self.player.take_damage(enemy.attack());
            }
            slot += 1;
        }
    }

    /// Plays one turn. Returns whether the game goes on: `false` once it is
    /// won or lost, and for the command to quit, which changes nothing.
    pub fn step(&mut self, command: Command) -> (running: bool)
        ensures
            final(self)@ == old(self)@.step(command),
            running == (final(self)@.state == GameState::Playing && command != Command::Quit),
    {
        if self.state != GameState::Playing {
            return false;
        }
        let x = self.player.x();
        let y = self.player.y();
        let accepted = match command {
            Command::MoveUp => {
                self.player.move_up(&self.dungeon);
                self.player.y() != y
            },
            Command::MoveDown => {
                self.player.move_down(&self.dungeon);
                self.player.y() != y
            },
            Command::MoveLeft => {
                self.player.move_left(&self.dungeon);
                self.player.x() != x
            },
            Command::MoveRight => {
                self.player.move_right(&self.dungeon);
                self.player.x() != x
            },
            Command::Attack => self.player_attack(),
            Command::Quit => {
                return false;
            },
        };
        if !accepted {
            return true;
        }
        self.remove_dead();
        if self.player.is_alive() && self.stands_on_stairs() {
            self.state = GameState::Won;
            return false;
        }
        self.move_enemies();
        self.enemies_attack();
        if !self.player.is_alive() {
            self.state = GameState::Lost;
            return false;
        }
        true
    }

    /// What a map shows at `(x, y)`, or `None` outside the grid.
    pub fn glyph_at(&self, x: usize, y: usize) -> (glyph: Option<char>)
        ensures
            glyph == self@.glyph(x as int, y as int),
    {
        let tile = match self.dungeon.tile(x, y) {
            None => {
                return None;
            },
            Some(tile) => tile,
        };
        if self.player.x() == x && self.player.y() == y {
            return Some(PLAYER_GLYPH);
        }
        let ghost roster = roster_view(self.enemies@);
        let mut slot: usize = 0;
        while slot < self.enemies.len()
            invariant
                slot <= self.enemies@.len(),
                roster == roster_view(self.enemies@),
                self@.layout.in_bounds(x as int, y as int),
                !(self@.player.x == x && self@.player.y == y),
                first_standing(roster, x as int, y as int, slot as int) == first_standing(
                    roster,
                    x as int,
                    y as int,
                    0,
                ),
            decreases self.enemies@.len() - slot,
        {
            let enemy = &self.enemies[slot];
            assert(roster[slot as int] == enemy@);
            if enemy.is_alive() && enemy.x() == x && enemy.y() == y {
                return Some(enemy.symbol());
            }
            slot += 1;
        }
        Some(tile.glyph())
    }

    /// The map: one row of characters for each row of the grid.
    pub fn render(&self) -> (rows: Vec<Vec<char>>)
        ensures
            rows@.len() == self@.layout.height,
            forall|y: int|
                0 <= y < rows@.len() ==> (#[trigger] rows@[y])@.len() == self@.layout.width,
            forall|x: int, y: int|
                self@.layout.in_bounds(x, y) ==> Some(#[trigger] rows@[y]@[x]) == self@.glyph(x, y),
    {
        let width = self.dungeon.width();
        let height = self.dungeon.height();
        let mut rows: Vec<Vec<char>> = Vec::new();
        let mut y: usize = 0;
        while y < height
            invariant
                y <= height,
                width == self@.layout.width,
                height == self@.layout.height,
                rows@.len() == y,
                forall|j: int| 0 <= j < y ==> (#[trigger] rows@[j])@.len() == width,
                forall|i: int, j: int|
                    0 <= i < width && 0 <= j < y ==> Some(#[trigger] rows@[j]@[i]) == self@.glyph(
                        i,
                        j,
                    ),
            decreases height - y,
        {
            let mut row: Vec<char> = Vec::new();
            let mut x: usize = 0;
            while x < width
                invariant
                    x <= width,
                    y < height,
                    width == self@.layout.width,
                    height == self@.layout.height,
                    row@.len() == x,
                    forall|i: int| 0 <= i < x ==> Some(#[trigger] row@[i]) == self@.glyph(i, y as int),
                decreases width - x,
            {
                match self.glyph_at(x, y) {
                    Some(glyph) => {
                        row.push(glyph);
                    },
                    None => {
                        row.push(' ');
                    },
                }
                x += 1;
            }
            rows.push(row);
            y += 1;
        }
        rows
    }

    /// Whether the player stands on the stairs.
    pub fn stands_on_stairs(&self) -> (there: bool)
        ensures
            there == self@.on_stairs(),
    {
        match self.dungeon.tile(self.player.x(), self.player.y()) {
            Some(Tile::Stairs) => true,
            _ => false,
        }
    }
}

/// Moving changes no enemy's health and keeps every enemy in its slot.
pub proof fn lemma_advance_keeps_health(
    layout: Layout,
    radius: int,
    x: int,
    y: int,
    enemies: Seq<EnemyView>,
    from: int,
)
    ensures
        enemies_advance(layout, radius, x, y, enemies, from).len() == enemies.len(),
        forall|i: int|
            0 <= i < enemies.len() ==> (#[trigger] enemies_advance(
                layout,
                radius,
                x,
                y,
                enemies,
                from,
            )[i]).health == enemies[i].health,
    decreases enemies.len() - from,
{
    if 0 <= from < enemies.len() {
        let enemy = enemies[from];
        let next = if distance_squared(enemy.x, enemy.y, x, y) <= radius * radius {
            enemy.approached(x, y, layout, enemies, from)
        } else {
            enemy
        };
        lemma_advance_keeps_health(layout, radius, x, y, enemies.update(from, next), from + 1);
    }
}

/// After a turn in which the player's action was carried out, every enemy
/// on the roster is alive: the dead have left it.
pub proof fn lemma_turn_leaves_the_living(game: GameView, command: Command)
    requires
        game.state == GameState::Playing,
        game.accepts(command),
    ensures
        forall|i: int|
            0 <= i < game.step(command).enemies.len() ==> (#[trigger] game.step(
                command,
            ).enemies[i]).health > 0,
{
    let cleared = game.acted(command).cleared();
    let alive = |e: EnemyView| e.health > 0;
    assert forall|i: int| 0 <= i < cleared.enemies.len() implies (
    #[trigger] cleared.enemies[i]).health > 0 by {
        game.acted(command).enemies.lemma_filter_pred(alive, i);
    }
    lemma_advance_keeps_health(
        cleared.layout,
        cleared.activation_radius,
        cleared.player.x,
        cleared.player.y,
        cleared.enemies,
        0,
    );
}

/// A living player whom an action puts on the stairs has won, and the
/// enemies have not acted: they are the survivors of the player's action,
/// where they stood.
pub proof fn lemma_stairs_win_at_once(game: GameView, command: Command)
    requires
        game.state == GameState::Playing,
        game.accepts(command),
        game.acted(command).player.health > 0,
        game.acted(command).on_stairs(),
    ensures
        game.step(command) == (GameView {
            state: GameState::Won,
            enemies: survivors(game.acted(command).enemies),
            ..game.acted(command)
        }),
{
}

/// The survivors of the first `slot + 1` enemies are the survivors of the
/// first `slot`, followed by the enemy in slot `slot` if it is alive.
proof fn lemma_survivors_step(enemies: Seq<EnemyView>, slot: int)
    requires
        0 <= slot < enemies.len(),
    ensures
        survivors(enemies.take(slot + 1)) == (if enemies[slot].health > 0 {
            survivors(enemies.take(slot)).push(enemies[slot])
        } else {
            survivors(enemies.take(slot))
        }),
{
    reveal(Seq::filter);
    assert(enemies.take(slot + 1).drop_last() =~= enemies.take(slot));
}

} // verus!

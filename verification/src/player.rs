//! The player: position, health, and the levelling rules.

use crate::dungeon::Dungeon;
use crate::dungeon::Layout;
use vstd::prelude::*;

verus! {

/// Health and maximum health of a new player.
pub const STARTING_HEALTH: i32 = 100;

/// Attack power of a new player.
pub const STARTING_ATTACK: i32 = 10;

/// Experience that one level-up costs, per level already reached.
pub const EXPERIENCE_PER_LEVEL: u32 = 100;

/// Maximum health gained with each level.
pub const HEALTH_PER_LEVEL: i32 = 20;

/// Attack power gained with each level.
pub const ATTACK_PER_LEVEL: i32 = 5;

/// The highest level whose maximum health still fits in an `i32`.
pub const MAX_LEVEL: u32 = 107_374_178;

/// The level reached from `level` with `experience` in hand: while the
/// experience covers `level * 100`, that much is spent on one more level.
pub open spec fn level_after(level: int, experience: int) -> int
    decreases experience,
{
    if level >= 1 && experience >= level * 100 {
        level_after(level + 1, experience - level * 100)
    } else {
        level
    }
}

/// The experience left over once every level that it covers has been bought.
pub open spec fn experience_after(level: int, experience: int) -> int
    decreases experience,
{
    if level >= 1 && experience >= level * 100 {
        experience_after(level + 1, experience - level * 100)
    } else {
        experience
    }
}

/// The mathematical content of a player.
pub struct PlayerView {
    pub x: int,
    pub y: int,
    pub health: int,
    pub max_health: int,
    pub attack: int,
    pub level: int,
    pub experience: int,
}

impl PlayerView {
    /// A level-1 player at `(x, y)` in full health.
    pub open spec fn fresh(x: int, y: int) -> PlayerView {
        PlayerView {
            x,
            y,
            health: STARTING_HEALTH as int,
            max_health: STARTING_HEALTH as int,
            attack: STARTING_ATTACK as int,
            level: 1,
            experience: 0,
        }
    }

    /// The player after an attempt to step by `(dx, dy)`: moved if the tile
    /// there is walkable, unchanged if not.
    pub open spec fn stepped(self, layout: Layout, dx: int, dy: int) -> PlayerView {
        if layout.walkable(self.x + dx, self.y + dy) {
            PlayerView { x: self.x + dx, y: self.y + dy, ..self }
        } else {
            self
        }
    }

    /// The player after `damage`: health drops by it, but not below 0.
    pub open spec fn damaged(self, damage: int) -> PlayerView {
        PlayerView {
            health: if self.health - damage > 0 {
                self.health - damage
            } else {
                0
            },
            ..self
        }
    }

    /// The player after healing by `amount`: health rises by it, but not
    /// above maximum health.
    pub open spec fn healed(self, amount: int) -> PlayerView {
        PlayerView {
            health: if self.health + amount < self.max_health {
                self.health + amount
            } else {
                self.max_health
            },
            ..self
        }
    }

    /// Whether the counters can hold the result of gaining `amount`.
    pub open spec fn can_gain(self, amount: int) -> bool {
        &&& self.experience + amount <= u32::MAX
        &&& level_after(self.level, self.experience + amount) <= MAX_LEVEL
    }

    /// The player after `amount` experience: the levels gained raise maximum
    /// health and attack, and each level-up restores full health.
    pub open spec fn with_experience(self, amount: int) -> PlayerView {
        let level = level_after(self.level, self.experience + amount);
        let gained = level - self.level;
        let max_health = self.max_health + HEALTH_PER_LEVEL * gained;
        PlayerView {
            level,
            experience: experience_after(self.level, self.experience + amount),
            max_health,
            attack: self.attack + ATTACK_PER_LEVEL * gained,
            health: if gained > 0 {
                max_health
            } else {
                self.health
            },
            ..self
        }
    }
}

/// The player: where they stand, their health, and what their level gives
/// them.
#[derive(Clone, Copy, Debug)]
pub struct Player {
    x: usize,
    y: usize,
    health: i32,
    max_health: i32,
    attack: i32,
    level: u32,
    experience: u32,
}

impl View for Player {
    type V = PlayerView;

    closed spec fn view(&self) -> PlayerView {
        PlayerView {
            x: self.x as int,
            y: self.y as int,
            health: self.health as int,
            max_health: self.max_health as int,
            attack: self.attack as int,
            level: self.level as int,
            experience: self.experience as int,
        }
    }
}

impl Player {
    /// What holds of every player: the level is at least 1, and maximum
    /// health and attack are what that level gives.
    #[verifier::type_invariant]
    pub open spec fn levelled(&self) -> bool {
        &&& 1 <= self@.level <= MAX_LEVEL
        &&& self@.max_health == STARTING_HEALTH + HEALTH_PER_LEVEL * (self@.level - 1)
        &&& self@.attack == STARTING_ATTACK + ATTACK_PER_LEVEL * (self@.level - 1)
    }

    /// Every field of the view is a machine integer of the field's type.
    pub proof fn lemma_view_fits(&self)
        ensures
            0 <= self@.x <= usize::MAX,
            0 <= self@.y <= usize::MAX,
            i32::MIN <= self@.health <= i32::MAX,
            i32::MIN <= self@.max_health <= i32::MAX,
            i32::MIN <= self@.attack <= i32::MAX,
            0 <= self@.level <= u32::MAX,
            0 <= self@.experience <= u32::MAX,
    {
    }

    /// A level-1 player at `(x, y)` in full health.
    pub fn new(x: usize, y: usize) -> (player: Player)
        ensures
            player@ == PlayerView::fresh(x as int, y as int),
            player.levelled(),
    {
        Player {
            x,
            y,
            health: STARTING_HEALTH,
            max_health: STARTING_HEALTH,
            attack: STARTING_ATTACK,
            level: 1,
            experience: 0,
        }
    }

    /// One step up, if the tile there is walkable.
    pub fn move_up(&mut self, dungeon: &Dungeon)
        ensures
            final(self)@ == old(self)@.stepped(dungeon@, 0, -1),
    {
        proof {
            use_type_invariant(&*self);
        }
        if self.y > 0 && dungeon.is_walkable(self.x, self.y - 1) {
            self.y -= 1;
        }
    }

    /// One step down, if the tile there is walkable.
    pub fn move_down(&mut self, dungeon: &Dungeon)
        ensures
            final(self)@ == old(self)@.stepped(dungeon@, 0, 1),
    {
        proof {
            use_type_invariant(&*self);
            dungeon.lemma_size_fits();
        }
        if self.y < usize::MAX && dungeon.is_walkable(self.x, self.y + 1) {
            self.y += 1;
        }
    }

    /// One step left, if the tile there is walkable.
    pub fn move_left(&mut self, dungeon: &Dungeon)
        ensures
            final(self)@ == old(self)@.stepped(dungeon@, -1, 0),
    {
        proof {
            use_type_invariant(&*self);
        }
        if self.x > 0 && dungeon.is_walkable(self.x - 1, self.y) {
            self.x -= 1;
        }
    }

    /// One step right, if the tile there is walkable.
    pub fn move_right(&mut self, dungeon: &Dungeon)
        ensures
            final(self)@ == old(self)@.stepped(dungeon@, 1, 0),
    {
        proof {
            use_type_invariant(&*self);
            dungeon.lemma_size_fits();
        }
        if self.x < usize::MAX && dungeon.is_walkable(self.x + 1, self.y) {
            self.x += 1;
        }
    }

    /// Health drops by `damage`, but not below 0.
    pub fn take_damage(&mut self, damage: i32)
        requires
            old(self)@.health - damage <= i32::MAX,
        ensures
            final(self)@ == old(self)@.damaged(damage as int),
            final(self)@.health >= 0,
    {
        proof {
            use_type_invariant(&*self);
        }
        if damage >= self.health {
            self.health = 0;
        } else {
            self.health = self.health - damage;
        }
    }

    /// Health rises by `amount`, but not above maximum health.
    pub fn heal(&mut self, amount: i32)
        requires
            old(self)@.health + amount >= i32::MIN,
        ensures
            final(self)@ == old(self)@.healed(amount as int),
            final(self)@.health <= final(self)@.max_health,
    {
        proof {
            use_type_invariant(&*self);
        }
        let sum: i64 = self.health as i64 + amount as i64;
        if sum < self.max_health as i64 {
            self.health = sum as i32;
        } else {
            self.health = self.max_health;
        }
    }

    /// Adds `amount` to the experience and then levels up for as long as the
    /// experience covers the price of the next level, `level * 100`.
    pub fn gain_experience(&mut self, amount: u32)
        requires
            old(self)@.can_gain(amount as int),
        ensures
            final(self)@ == old(self)@.with_experience(amount as int),
            final(self)@.experience < final(self)@.level * EXPERIENCE_PER_LEVEL,
    {
        proof {
            use_type_invariant(&*self);
        }
        let ghost start = self@;
        let ghost total = start.experience + amount;
        proof {
            lemma_leftover_below_price(start.level, total);
        }
        self.experience = self.experience + amount;
        while self.experience as u64 >= self.level as u64 * (EXPERIENCE_PER_LEVEL as u64)
            invariant
                self.levelled(),
                start.level <= self@.level,
                level_after(self@.level, self@.experience) == level_after(start.level, total),
                experience_after(self@.level, self@.experience) == experience_after(
                    start.level,
                    total,
                ),
                level_after(start.level, total) <= MAX_LEVEL,
                self@.x == start.x,
                self@.y == start.y,
                self@.health == (if self@.level > start.level {
                    self@.max_health
                } else {
                    start.health
                }),
                self@.max_health == start.max_health + HEALTH_PER_LEVEL * (self@.level
                    - start.level),
                self@.attack == start.attack + ATTACK_PER_LEVEL * (self@.level - start.level),
            decreases self@.experience,
        {
            proof {
                lemma_level_after_grows(self@.level + 1, self@.experience - self@.level * 100);
            }
            self.experience = self.experience - self.level * EXPERIENCE_PER_LEVEL;
            self.level_up();
        }
    }

    /// One more level: maximum health and attack rise, and health is restored
    /// to the new maximum.
    pub fn level_up(&mut self)
        requires
            old(self)@.level < MAX_LEVEL,
        ensures
            final(self)@ == (PlayerView {
                level: old(self)@.level + 1,
                max_health: old(self)@.max_health + HEALTH_PER_LEVEL,
                health: old(self)@.max_health + HEALTH_PER_LEVEL,
                attack: old(self)@.attack + ATTACK_PER_LEVEL,
                ..old(self)@
            }),
            final(self).levelled(),
    {
        proof {
            use_type_invariant(&*self);
        }
        *self = Player {
            level: self.level + 1,
            max_health: self.max_health + HEALTH_PER_LEVEL,
            health: self.max_health + HEALTH_PER_LEVEL,
            attack: self.attack + ATTACK_PER_LEVEL,
            ..*self
        };
    }

    /// True iff health is above 0.
    pub fn is_alive(&self) -> (alive: bool)
        ensures
            alive == (self@.health > 0),
    {
        self.health > 0
    }

    /// Whether `gain_experience(amount)` may be called: the experience and
    /// the level that it leads to fit their counters.
    pub fn can_gain_experience(&self, amount: u32) -> (ok: bool)
        ensures
            ok == self@.can_gain(amount as int),
    {
        proof {
            use_type_invariant(self);
        }
        if amount > u32::MAX - self.experience {
            return false;
        }
        let ghost total = self@.experience + amount;
        let mut level: u64 = self.level as u64;
        let mut experience: u64 = self.experience as u64 + amount as u64;
        while experience >= level * 100
            invariant
                1 <= level <= MAX_LEVEL,
                experience <= u32::MAX,
                level_after(level as int, experience as int) == level_after(self@.level, total),
            decreases experience,
        {
            if level >= MAX_LEVEL as u64 {
                proof {
                    lemma_level_after_grows(level + 1, experience - level * 100);
                }
                return false;
            }
            experience = experience - level * 100;
            level = level + 1;
        }
        true
    }

    /// The column.
    pub fn x(&self) -> (x: usize)
        ensures
            x == self@.x,
    {
        self.x
    }

    /// The row.
    pub fn y(&self) -> (y: usize)
        ensures
            y == self@.y,
    {
        self.y
    }

    /// Current health.
    pub fn health(&self) -> (health: i32)
        ensures
            health == self@.health,
    {
        self.health
    }

    /// The most health that healing restores.
    pub fn max_health(&self) -> (max_health: i32)
        ensures
            max_health == self@.max_health,
    {
        self.max_health
    }

    /// The damage that one attack deals.
    pub fn attack(&self) -> (attack: i32)
        ensures
            attack == self@.attack,
    {
        self.attack
    }

    /// The level, starting at 1.
    pub fn level(&self) -> (level: u32)
        ensures
            level == self@.level,
    {
        self.level
    }

    /// Experience gained since the last level-up.
    pub fn experience(&self) -> (experience: u32)
        ensures
            experience == self@.experience,
    {
        self.experience
    }
}

/// Once every level that the experience covers has been bought, what is left
/// is less than the price of the next level.
pub proof fn lemma_leftover_below_price(level: int, experience: int)
    requires
        level >= 1,
    ensures
        experience_after(level, experience) < level_after(level, experience) * 100,
    decreases experience,
{
    if experience >= level * 100 {
        lemma_leftover_below_price(level + 1, experience - level * 100);
    }
}

/// Levelling never lowers the level.
pub proof fn lemma_level_after_grows(level: int, experience: int)
    ensures
        level_after(level, experience) >= level,
    decreases experience,
{
    if level >= 1 && experience >= level * 100 {
        lemma_level_after_grows(level + 1, experience - level * 100);
    }
}

} // verus!

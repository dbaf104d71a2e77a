use dungeon_crawl::dungeon::{Dungeon, DungeonBuilder, Room};
use dungeon_crawl::enemy::{spawn_enemies, Enemy, EnemyType};
use dungeon_crawl::random::RandomSource;

fn open_hall() -> Dungeon {
    let mut builder = DungeonBuilder::new(30, 20);
    assert!(builder.place_room(Room::new(1, 1, 15, 15), true));
    builder.finish()
}

#[test]
fn a_goblin_has_its_statistics() {
    let enemy = Enemy::new(3, 4, EnemyType::Goblin);
    assert_eq!(enemy.x(), 3);
    assert_eq!(enemy.y(), 4);
    assert_eq!(enemy.health(), 30);
    assert_eq!(enemy.max_health(), 30);
    assert_eq!(enemy.attack(), 5);
    assert_eq!(enemy.symbol(), 'g');
    assert_eq!(enemy.enemy_type(), EnemyType::Goblin);
    assert!(enemy.is_alive());
}

#[test]
fn an_orc_has_its_statistics() {
    let enemy = Enemy::new(0, 0, EnemyType::Orc);
    assert_eq!(enemy.health(), 50);
    assert_eq!(enemy.max_health(), 50);
    assert_eq!(enemy.attack(), 8);
    assert_eq!(enemy.symbol(), 'o');
    assert_eq!(enemy.enemy_type(), EnemyType::Orc);
}

#[test]
fn a_troll_dies_of_100_damage() {
    let mut enemy = Enemy::new(0, 0, EnemyType::Troll);
    assert_eq!(enemy.health(), 80);
    assert_eq!(enemy.max_health(), 80);
    assert_eq!(enemy.attack(), 12);
    assert_eq!(enemy.symbol(), 'T');
    enemy.take_damage(100);
    assert_eq!(enemy.health(), 0);
    assert!(!enemy.is_alive());
    assert_eq!(enemy.max_health(), 80);
}

#[test]
fn damage_lowers_an_enemys_health_step_by_step() {
    let mut enemy = Enemy::new(0, 0, EnemyType::Goblin);
    enemy.take_damage(10);
    assert_eq!(enemy.health(), 20);
    enemy.take_damage(10);
    assert_eq!(enemy.health(), 10);
    assert!(enemy.is_alive());
    enemy.take_damage(10);
    assert_eq!(enemy.health(), 0);
    assert!(!enemy.is_alive());
    enemy.take_damage(i32::MAX);
    assert_eq!(enemy.health(), 0);
}

#[test]
fn buckets_give_six_goblins_three_orcs_one_troll() {
    for bucket in 0..=5 {
        assert_eq!(EnemyType::from_bucket(bucket), EnemyType::Goblin);
    }
    for bucket in 6..=8 {
        assert_eq!(EnemyType::from_bucket(bucket), EnemyType::Orc);
    }
    assert_eq!(EnemyType::from_bucket(9), EnemyType::Troll);
    assert_eq!(EnemyType::from_bucket(10), EnemyType::Troll);
    assert_eq!(EnemyType::from_bucket(usize::MAX), EnemyType::Troll);
}

#[test]
fn move_towards_steps_vertically_when_the_column_is_the_same() {
    let dungeon = open_hall();
    let mut enemy = Enemy::new(5, 5, EnemyType::Goblin);
    let roster = vec![enemy];
    enemy.move_towards(5, 10, &dungeon, &roster, 0);
    assert_eq!((enemy.x(), enemy.y()), (5, 6));
    assert_eq!(enemy.health(), 30);
}

#[test]
fn move_towards_steps_diagonally_when_both_coordinates_differ() {
    let dungeon = open_hall();
    let mut enemy = Enemy::new(5, 5, EnemyType::Orc);
    enemy.move_towards(9, 2, &dungeon, &[], 0);
    assert_eq!((enemy.x(), enemy.y()), (6, 4));
    enemy.move_towards(1, 12, &dungeon, &[], 0);
    assert_eq!((enemy.x(), enemy.y()), (5, 5));
    enemy.move_towards(1, 5, &dungeon, &[], 0);
    assert_eq!((enemy.x(), enemy.y()), (4, 5));
}

#[test]
fn move_towards_stays_when_it_has_arrived() {
    let dungeon = open_hall();
    let mut enemy = Enemy::new(5, 5, EnemyType::Orc);
    let roster = vec![enemy];
    enemy.move_towards(5, 5, &dungeon, &roster, 0);
    assert_eq!((enemy.x(), enemy.y()), (5, 5));
}

#[test]
fn move_towards_does_not_enter_a_wall() {
    let dungeon = open_hall();
    let mut enemy = Enemy::new(15, 15, EnemyType::Goblin);
    enemy.move_towards(20, 15, &dungeon, &[], 0);
    assert_eq!((enemy.x(), enemy.y()), (15, 15));
    enemy.move_towards(20, 19, &dungeon, &[], 0);
    assert_eq!((enemy.x(), enemy.y()), (15, 15));
    enemy.move_towards(15, 3, &dungeon, &[], 0);
    assert_eq!((enemy.x(), enemy.y()), (15, 14));
}

#[test]
fn move_towards_does_not_enter_a_tile_that_a_living_enemy_holds() {
    let dungeon = open_hall();
    let mover = Enemy::new(5, 5, EnemyType::Goblin);
    let blocker = Enemy::new(5, 6, EnemyType::Orc);
    let roster = vec![mover, blocker];
    let mut enemy = roster[0];
    enemy.move_towards(5, 10, &dungeon, &roster, 0);
    assert_eq!((enemy.x(), enemy.y()), (5, 5));
    assert!(enemy.is_position_occupied(5, 6, &roster, 0));
    assert!(!enemy.is_position_occupied(5, 7, &roster, 0));
}

#[test]
fn a_dead_enemy_does_not_block() {
    let dungeon = open_hall();
    let mover = Enemy::new(5, 5, EnemyType::Goblin);
    let mut corpse = Enemy::new(5, 6, EnemyType::Orc);
    corpse.take_damage(50);
    let roster = vec![mover, corpse];
    let mut enemy = roster[0];
    assert!(!enemy.is_position_occupied(5, 6, &roster, 0));
    enemy.move_towards(5, 10, &dungeon, &roster, 0);
    assert_eq!((enemy.x(), enemy.y()), (5, 6));
}

#[test]
fn an_enemy_does_not_block_itself() {
    let mover = Enemy::new(5, 5, EnemyType::Goblin);
    let roster = vec![mover];
    assert!(!mover.is_position_occupied(5, 5, &roster, 0));
    assert!(mover.is_position_occupied(5, 5, &roster, 1));
}

#[test]
fn two_enemies_on_one_tile_block_by_slot_not_by_position() {
    let dungeon = open_hall();
    let first = Enemy::new(5, 5, EnemyType::Goblin);
    let second = Enemy::new(5, 5, EnemyType::Goblin);
    let roster = vec![first, second];
    assert!(first.is_position_occupied(5, 5, &roster, 0));
    let mut enemy = roster[0];
    enemy.move_towards(5, 10, &dungeon, &roster, 0);
    assert_eq!((enemy.x(), enemy.y()), (5, 6));
}

#[test]
fn is_within_compares_the_euclidean_distance() {
    let enemy = Enemy::new(10, 10, EnemyType::Goblin);
    assert!(enemy.is_within(13, 14, 5));
    assert!(!enemy.is_within(13, 14, 4));
    assert!(enemy.is_within(7, 6, 5));
    assert!(enemy.is_within(10, 10, 0));
    assert!(!enemy.is_within(10, 11, 0));
    assert!(enemy.is_within(10, 18, 8));
    assert!(!enemy.is_within(16, 16, 8));
    assert!(enemy.is_within(15, 16, 8));
    assert!(!enemy.is_within(usize::MAX, usize::MAX, 8));
    assert!(enemy.is_within(usize::MAX, 10, usize::MAX));
    assert!(!enemy.is_within(usize::MAX, usize::MAX, usize::MAX));
    let far = Enemy::new(0, 0, EnemyType::Goblin);
    assert!(!far.is_within(usize::MAX, usize::MAX, usize::MAX));
}

#[test]
fn is_adjacent_to_counts_the_eight_neighbours_and_the_cell_itself() {
    let enemy = Enemy::new(10, 10, EnemyType::Goblin);
    for y in 9..=11 {
        for x in 9..=11 {
            assert!(enemy.is_adjacent_to(x, y));
        }
    }
    assert!(!enemy.is_adjacent_to(12, 10));
    assert!(!enemy.is_adjacent_to(10, 8));
    assert!(!enemy.is_adjacent_to(12, 12));
    assert!(!enemy.is_adjacent_to(usize::MAX, 10));
    let corner = Enemy::new(0, 0, EnemyType::Goblin);
    assert!(corner.is_adjacent_to(1, 1));
    assert!(!corner.is_adjacent_to(2, 0));
}

#[test]
fn no_enemy_spawns_in_the_first_room_or_outside_a_room() {
    for seed in 0..100u64 {
        let mut rng = RandomSource::from_seed(seed);
        let dungeon = Dungeon::generate(80, 24, 10, 4, 10, &mut rng);
        let enemies = spawn_enemies(&dungeon, &mut rng);
        let rooms = dungeon.rooms();
        assert!(enemies.len() <= 2 * (rooms.len() - 1));
        for (index, room) in rooms.iter().enumerate() {
            let here = enemies
                .iter()
                .filter(|e| {
                    room.x <= e.x()
                        && e.x() < room.x + room.width
                        && room.y <= e.y()
                        && e.y() < room.y + room.height
                })
                .count();
            assert!(here <= 2);
            if index == 0 {
                assert_eq!(here, 0);
            }
        }
        for enemy in &enemies {
            let inside = rooms[1..].iter().any(|r| {
                r.x <= enemy.x()
                    && enemy.x() < r.x + r.width
                    && r.y <= enemy.y()
                    && enemy.y() < r.y + r.height
            });
            assert!(inside);
            assert!(dungeon.is_walkable(enemy.x(), enemy.y()));
            assert_eq!(enemy.health(), enemy.max_health());
            let fresh = Enemy::new(enemy.x(), enemy.y(), enemy.enemy_type());
            assert_eq!(enemy.health(), fresh.health());
            assert_eq!(enemy.attack(), fresh.attack());
            assert_eq!(enemy.symbol(), fresh.symbol());
        }
    }
}

#[test]
fn spawning_gives_every_kind_over_many_dungeons() {
    let mut goblins = 0;
    let mut orcs = 0;
    let mut trolls = 0;
    for seed in 0..200u64 {
        let mut rng = RandomSource::from_seed(seed);
        let dungeon = Dungeon::generate(80, 24, 10, 4, 10, &mut rng);
        for enemy in spawn_enemies(&dungeon, &mut rng) {
            match enemy.enemy_type() {
                EnemyType::Goblin => goblins += 1,
                EnemyType::Orc => orcs += 1,
                EnemyType::Troll => trolls += 1,
            }
        }
    }
    assert!(goblins > orcs);
    assert!(orcs > trolls);
    assert!(trolls > 0);
}

#[test]
fn a_dungeon_with_one_room_or_none_gets_no_enemies() {
    let mut rng = RandomSource::from_seed(5);
    let none = DungeonBuilder::new(30, 20).finish();
    assert_eq!(spawn_enemies(&none, &mut rng).len(), 0);
    let one = open_hall();
    assert_eq!(spawn_enemies(&one, &mut rng).len(), 0);
}

#[test]
fn the_roster_is_what_the_draws_give_in_their_order() {
    for seed in 0..50u64 {
        let mut rng = RandomSource::from_seed(seed);
        let dungeon = Dungeon::generate(80, 24, 10, 4, 10, &mut rng);
        let enemies = spawn_enemies(&dungeon, &mut rng);

        let mut twin = RandomSource::from_seed(seed);
        let same = Dungeon::generate(80, 24, 10, 4, 10, &mut twin);
        assert_eq!(same.rooms(), dungeon.rooms());
        let mut expected: Vec<Enemy> = Vec::new();
        for room in &same.rooms()[1..] {
            let count = twin.in_range_inclusive(0, 2);
            for _ in 0..count {
                let x = twin.in_range(room.x, room.x + room.width);
                let y = twin.in_range(room.y, room.y + room.height);
                let bucket = twin.in_range(0, 10);
                expected.push(Enemy::new(x, y, EnemyType::from_bucket(bucket)));
            }
        }
        assert_eq!(enemies.len(), expected.len());
        let mut slot = 0;
        for room in &same.rooms()[1..] {
            let here = expected[slot..]
                .iter()
                .take_while(|e| {
                    room.x <= e.x()
                        && e.x() < room.x + room.width
                        && room.y <= e.y()
                        && e.y() < room.y + room.height
                })
                .count();
            assert!(here <= 2);
            for enemy in &enemies[slot..slot + here] {
                assert!(room.x <= enemy.x() && enemy.x() < room.x + room.width);
                assert!(room.y <= enemy.y() && enemy.y() < room.y + room.height);
            }
            slot += here;
        }
        assert_eq!(slot, enemies.len());
        for (got, want) in enemies.iter().zip(expected.iter()) {
            assert_eq!((got.x(), got.y()), (want.x(), want.y()));
            assert_eq!(got.enemy_type(), want.enemy_type());
            assert_eq!(got.health(), want.health());
            assert_eq!(got.attack(), want.attack());
            assert_eq!(got.symbol(), want.symbol());
        }
        assert_eq!(rng.in_range(0, 1_000_000), twin.in_range(0, 1_000_000));
    }
}

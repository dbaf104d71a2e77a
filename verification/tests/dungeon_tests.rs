use dungeon_crawl::dungeon::{
    Dungeon, DungeonBuilder, Room, Tile, DUNGEON_HEIGHT, DUNGEON_WIDTH, MAX_ROOMS, MAX_ROOM_SIZE,
    MIN_ROOM_SIZE,
};
use dungeon_crawl::random::RandomSource;

fn on_row(x1: usize, x2: usize, row: usize, x: usize, y: usize) -> bool {
    y == row && x1.min(x2) <= x && x <= x1.max(x2)
}

fn on_column(y1: usize, y2: usize, column: usize, x: usize, y: usize) -> bool {
    x == column && y1.min(y2) <= y && y <= y1.max(y2)
}

fn on_corridor(from: (usize, usize), to: (usize, usize), horizontal_first: bool, x: usize, y: usize) -> bool {
    if horizontal_first {
        on_row(from.0, to.0, from.1, x, y) || on_column(from.1, to.1, to.0, x, y)
    } else {
        on_column(from.1, to.1, from.0, x, y) || on_row(from.0, to.0, to.1, x, y)
    }
}

fn contains(room: &Room, x: usize, y: usize) -> bool {
    room.x <= x && x < room.x + room.width && room.y <= y && y < room.y + room.height
}

fn stairs_of(dungeon: &Dungeon) -> Option<(usize, usize)> {
    let rooms = dungeon.rooms();
    if rooms.len() > 1 {
        Some(rooms[rooms.len() - 1].center())
    } else {
        None
    }
}

fn expected_open(dungeon: &Dungeon, x: usize, y: usize) -> Tile {
    if stairs_of(dungeon) == Some((x, y)) {
        Tile::Stairs
    } else {
        Tile::Floor
    }
}

fn link_open(dungeon: &Dungeon, i: usize, horizontal_first: bool) -> bool {
    let rooms = dungeon.rooms();
    let from = rooms[i - 1].center();
    let to = rooms[i].center();
    for y in 0..dungeon.height() {
        for x in 0..dungeon.width() {
            if on_corridor(from, to, horizontal_first, x, y)
                && dungeon.tile(x, y) != Some(expected_open(dungeon, x, y))
            {
                return false;
            }
        }
    }
    true
}

fn check_laws(dungeon: &Dungeon) {
    let rooms = dungeon.rooms();
    for i in 0..rooms.len() {
        assert!(rooms[i].x >= 1 && rooms[i].y >= 1);
        assert!(rooms[i].x + rooms[i].width + 1 <= dungeon.width());
        assert!(rooms[i].y + rooms[i].height + 1 <= dungeon.height());
        for j in 0..rooms.len() {
            if i != j {
                assert!(!rooms[i].intersects(&rooms[j]));
            }
        }
        for y in rooms[i].y..rooms[i].y + rooms[i].height {
            for x in rooms[i].x..rooms[i].x + rooms[i].width {
                assert_eq!(dungeon.tile(x, y), Some(expected_open(dungeon, x, y)));
                assert!(dungeon.is_walkable(x, y));
            }
        }
        if i >= 1 {
            assert!(link_open(dungeon, i, true) || link_open(dungeon, i, false));
        }
    }
    for y in 0..dungeon.height() {
        for x in 0..dungeon.width() {
            let tile = dungeon.tile(x, y).unwrap();
            let in_room = rooms.iter().any(|r| contains(r, x, y));
            let on_link = (1..rooms.len()).any(|i| {
                let from = rooms[i - 1].center();
                let to = rooms[i].center();
                on_corridor(from, to, true, x, y) || on_corridor(from, to, false, x, y)
            });
            if !in_room && !on_link {
                assert_eq!(tile, Tile::Wall);
            }
            assert_eq!(tile == Tile::Stairs, stairs_of(dungeon) == Some((x, y)));
            assert_eq!(dungeon.is_walkable(x, y), tile != Tile::Wall);
        }
    }
    if rooms.is_empty() {
        assert_eq!(dungeon.player_start(), (0, 0));
    } else {
        assert_eq!(dungeon.player_start(), rooms[0].center());
    }
}

#[test]
fn room_new_keeps_its_arguments() {
    let room = Room::new(3, 4, 6, 5);
    assert_eq!(room.x, 3);
    assert_eq!(room.y, 4);
    assert_eq!(room.width, 6);
    assert_eq!(room.height, 5);
}

#[test]
fn room_center_uses_integer_division() {
    assert_eq!(Room::new(3, 4, 6, 5).center(), (6, 6));
    assert_eq!(Room::new(0, 0, 1, 1).center(), (0, 0));
    assert_eq!(Room::new(10, 2, 7, 4).center(), (13, 4));
}

#[test]
fn rooms_that_overlap_intersect() {
    let a = Room::new(2, 2, 5, 5);
    let b = Room::new(4, 4, 5, 5);
    assert!(a.intersects(&b));
    assert!(b.intersects(&a));
    assert!(a.intersects(&a));
}

#[test]
fn rooms_that_share_only_an_edge_do_not_intersect() {
    let a = Room::new(2, 2, 5, 5);
    let right = Room::new(7, 2, 3, 5);
    let below = Room::new(2, 7, 5, 3);
    assert!(!a.intersects(&right));
    assert!(!right.intersects(&a));
    assert!(!a.intersects(&below));
    assert!(!below.intersects(&a));
}

#[test]
fn rooms_apart_on_one_axis_do_not_intersect() {
    let a = Room::new(2, 2, 5, 5);
    let b = Room::new(2, 20, 5, 5);
    assert!(!a.intersects(&b));
}

#[test]
fn intersects_does_not_overflow_at_the_far_end() {
    let a = Room::new(usize::MAX - 1, usize::MAX - 1, 5, 5);
    let b = Room::new(usize::MAX - 3, usize::MAX - 3, 4, 4);
    assert!(a.intersects(&b));
    let c = Room::new(0, 0, 3, 3);
    assert!(!a.intersects(&c));
}

#[test]
fn a_new_builder_is_all_wall() {
    let dungeon = DungeonBuilder::new(12, 9).finish();
    assert_eq!(dungeon.width(), 12);
    assert_eq!(dungeon.height(), 9);
    assert_eq!(dungeon.rooms().len(), 0);
    for y in 0..9 {
        for x in 0..12 {
            assert_eq!(dungeon.tile(x, y), Some(Tile::Wall));
            assert!(!dungeon.is_walkable(x, y));
        }
    }
    check_laws(&dungeon);
}

#[test]
fn a_dungeon_without_rooms_starts_at_the_origin_and_has_no_stairs() {
    let dungeon = DungeonBuilder::new(12, 9).finish();
    assert_eq!(dungeon.player_start(), (0, 0));
    assert!(!dungeon.is_walkable(0, 0));
}

#[test]
fn an_accepted_room_is_floor_and_nothing_else_changes() {
    let mut builder = DungeonBuilder::new(20, 12);
    let room = Room::new(2, 3, 5, 4);
    assert!(builder.place_room(room, true));
    let dungeon = builder.finish();
    assert_eq!(dungeon.rooms().len(), 1);
    assert_eq!(dungeon.rooms()[0], room);
    for y in 0..12 {
        for x in 0..20 {
            let expected = if contains(&room, x, y) { Tile::Floor } else { Tile::Wall };
            assert_eq!(dungeon.tile(x, y), Some(expected));
        }
    }
    assert_eq!(dungeon.player_start(), (4, 5));
    check_laws(&dungeon);
}

#[test]
fn a_single_room_gets_no_stairs() {
    let mut builder = DungeonBuilder::new(20, 12);
    assert!(builder.place_room(Room::new(2, 3, 5, 4), false));
    let dungeon = builder.finish();
    for y in 0..12 {
        for x in 0..20 {
            assert_ne!(dungeon.tile(x, y), Some(Tile::Stairs));
        }
    }
}

#[test]
fn an_overlapping_candidate_is_skipped() {
    let mut builder = DungeonBuilder::new(30, 20);
    assert!(builder.place_room(Room::new(2, 2, 6, 6), true));
    assert!(!builder.place_room(Room::new(5, 5, 6, 6), true));
    assert!(builder.intersects_any(&Room::new(5, 5, 6, 6)));
    assert!(!builder.intersects_any(&Room::new(8, 2, 6, 6)));
    let dungeon = builder.finish();
    assert_eq!(dungeon.rooms().len(), 1);
    assert_eq!(dungeon.tile(9, 9), Some(Tile::Wall));
    check_laws(&dungeon);
}

#[test]
fn a_candidate_that_touches_an_edge_is_accepted() {
    let mut builder = DungeonBuilder::new(30, 20);
    assert!(builder.place_room(Room::new(2, 2, 6, 6), true));
    assert!(builder.place_room(Room::new(8, 2, 6, 6), true));
    let dungeon = builder.finish();
    assert_eq!(dungeon.rooms().len(), 2);
    check_laws(&dungeon);
}

#[test]
fn a_candidate_without_margin_or_without_tiles_is_skipped() {
    let mut builder = DungeonBuilder::new(20, 12);
    assert!(!builder.admits(&Room::new(0, 2, 4, 4)));
    assert!(!builder.admits(&Room::new(2, 0, 4, 4)));
    assert!(!builder.admits(&Room::new(16, 2, 4, 4)));
    assert!(!builder.admits(&Room::new(2, 8, 4, 4)));
    assert!(!builder.admits(&Room::new(2, 2, 0, 4)));
    assert!(!builder.admits(&Room::new(2, 2, 4, 0)));
    assert!(!builder.admits(&Room::new(usize::MAX, 2, 4, 4)));
    assert!(!builder.admits(&Room::new(2, 2, usize::MAX, 4)));
    assert!(builder.admits(&Room::new(15, 7, 4, 4)));
    assert!(builder.admits(&Room::new(1, 1, 18, 10)));
    assert!(!builder.place_room(Room::new(16, 2, 4, 4), true));
    assert!(!builder.place_room(Room::new(2, 2, 0, 4), true));
    let dungeon = builder.finish();
    assert_eq!(dungeon.rooms().len(), 0);
    check_laws(&dungeon);
}

#[test]
fn a_horizontal_first_corridor_runs_along_the_old_row_then_the_new_column() {
    let mut builder = DungeonBuilder::new(40, 20);
    let a = Room::new(1, 1, 4, 4);
    let b = Room::new(20, 10, 6, 6);
    assert!(builder.place_room(a, true));
    assert!(builder.place_room(b, true));
    let dungeon = builder.finish();
    assert_eq!(a.center(), (3, 3));
    assert_eq!(b.center(), (23, 13));
    for y in 0..20 {
        for x in 0..40 {
            let open = contains(&a, x, y)
                || contains(&b, x, y)
                || (y == 3 && 3 <= x && x <= 23)
                || (x == 23 && 3 <= y && y <= 13);
            let expected = if (x, y) == (23, 13) {
                Tile::Stairs
            } else if open {
                Tile::Floor
            } else {
                Tile::Wall
            };
            assert_eq!(dungeon.tile(x, y), Some(expected));
        }
    }
    assert_eq!(dungeon.player_start(), (3, 3));
    check_laws(&dungeon);
}

#[test]
fn a_vertical_first_corridor_runs_along_the_old_column_then_the_new_row() {
    let mut builder = DungeonBuilder::new(40, 20);
    let a = Room::new(1, 1, 4, 4);
    let b = Room::new(20, 10, 6, 6);
    assert!(builder.place_room(a, false));
    assert!(builder.place_room(b, false));
    let dungeon = builder.finish();
    for y in 0..20 {
        for x in 0..40 {
            let open = contains(&a, x, y)
                || contains(&b, x, y)
                || (x == 3 && 3 <= y && y <= 13)
                || (y == 13 && 3 <= x && x <= 23);
            let expected = if (x, y) == (23, 13) {
                Tile::Stairs
            } else if open {
                Tile::Floor
            } else {
                Tile::Wall
            };
            assert_eq!(dungeon.tile(x, y), Some(expected));
        }
    }
    check_laws(&dungeon);
}

#[test]
fn a_corridor_runs_backwards_when_the_new_room_lies_before_the_old() {
    let mut builder = DungeonBuilder::new(40, 20);
    let a = Room::new(30, 12, 4, 4);
    let b = Room::new(2, 2, 4, 4);
    assert!(builder.place_room(a, true));
    assert!(builder.place_room(b, true));
    let dungeon = builder.finish();
    assert_eq!(a.center(), (32, 14));
    assert_eq!(b.center(), (4, 4));
    for x in 4..=32 {
        assert_eq!(dungeon.tile(x, 14), Some(Tile::Floor));
    }
    for y in 5..=14 {
        assert_eq!(dungeon.tile(4, y), Some(Tile::Floor));
    }
    assert_eq!(dungeon.tile(4, 4), Some(Tile::Stairs));
    assert_eq!(dungeon.tile(32, 4), Some(Tile::Wall));
    check_laws(&dungeon);
}

#[test]
fn the_stairs_go_to_the_last_of_three_rooms() {
    let mut builder = DungeonBuilder::new(60, 20);
    assert!(builder.place_room(Room::new(1, 1, 4, 4), true));
    assert!(builder.place_room(Room::new(20, 10, 6, 6), false));
    assert!(builder.place_room(Room::new(40, 2, 8, 5), true));
    let dungeon = builder.finish();
    assert_eq!(dungeon.rooms().len(), 3);
    assert_eq!(dungeon.tile(44, 4), Some(Tile::Stairs));
    assert_eq!(dungeon.tile(23, 13), Some(Tile::Floor));
    assert_eq!(dungeon.player_start(), (3, 3));
    assert!(dungeon.is_walkable(44, 4));
    check_laws(&dungeon);
}

#[test]
fn is_walkable_is_false_outside_the_grid() {
    let mut builder = DungeonBuilder::new(20, 12);
    assert!(builder.place_room(Room::new(1, 1, 18, 10), true));
    let dungeon = builder.finish();
    assert!(dungeon.is_walkable(18, 10));
    assert!(!dungeon.is_walkable(20, 5));
    assert!(!dungeon.is_walkable(5, 12));
    assert!(!dungeon.is_walkable(20, 12));
    assert!(!dungeon.is_walkable(usize::MAX, 5));
    assert!(!dungeon.is_walkable(5, usize::MAX));
    assert!(!dungeon.is_walkable(usize::MAX, usize::MAX));
    assert_eq!(dungeon.tile(20, 5), None);
    assert_eq!(dungeon.tile(5, 12), None);
    assert_eq!(dungeon.tile(usize::MAX, usize::MAX), None);
}

#[test]
fn the_standard_dungeon_has_the_standard_size() {
    let dungeon = Dungeon::new();
    assert_eq!(dungeon.width(), DUNGEON_WIDTH);
    assert_eq!(dungeon.height(), DUNGEON_HEIGHT);
    assert_eq!(DUNGEON_WIDTH, 80);
    assert_eq!(DUNGEON_HEIGHT, 24);
    assert!(dungeon.rooms().len() >= 1);
    assert!(dungeon.rooms().len() <= MAX_ROOMS);
    for room in dungeon.rooms() {
        assert!(MIN_ROOM_SIZE <= room.width && room.width <= MAX_ROOM_SIZE);
        assert!(MIN_ROOM_SIZE <= room.height && room.height <= MAX_ROOM_SIZE);
    }
    check_laws(&dungeon);
    for x in 0..DUNGEON_WIDTH + 3 {
        assert!(!dungeon.is_walkable(x, DUNGEON_HEIGHT));
    }
    for y in 0..DUNGEON_HEIGHT + 3 {
        assert!(!dungeon.is_walkable(DUNGEON_WIDTH, y));
    }
}

#[test]
fn generated_dungeons_keep_the_laws_for_many_seeds() {
    for seed in 0..200u64 {
        let mut rng = RandomSource::from_seed(seed);
        let dungeon = Dungeon::generate(80, 24, 10, 4, 10, &mut rng);
        assert_eq!(dungeon.width(), 80);
        assert_eq!(dungeon.height(), 24);
        assert!(dungeon.rooms().len() >= 1);
        assert!(dungeon.rooms().len() <= 10);
        for room in dungeon.rooms() {
            assert!(4 <= room.width && room.width <= 10);
            assert!(4 <= room.height && room.height <= 10);
        }
        check_laws(&dungeon);
        let start = dungeon.player_start();
        assert!(dungeon.is_walkable(start.0, start.1));
    }
}

#[test]
fn crowded_generation_accepts_few_rooms_and_keeps_the_laws() {
    for seed in 0..50u64 {
        let mut rng = RandomSource::from_seed(seed);
        let dungeon = Dungeon::generate(13, 13, 30, 8, 10, &mut rng);
        assert!(dungeon.rooms().len() >= 1);
        check_laws(&dungeon);
    }
}

#[test]
fn generation_without_attempts_gives_the_degenerate_dungeon() {
    let mut rng = RandomSource::from_seed(7);
    let dungeon = Dungeon::generate(80, 24, 0, 4, 10, &mut rng);
    assert_eq!(dungeon.rooms().len(), 0);
    assert_eq!(dungeon.player_start(), (0, 0));
    assert!(!dungeon.is_walkable(0, 0));
    check_laws(&dungeon);
}

#[test]
fn one_attempt_gives_exactly_one_room() {
    for seed in 0..20u64 {
        let mut rng = RandomSource::from_seed(seed);
        let dungeon = Dungeon::generate(80, 24, 1, 4, 10, &mut rng);
        assert_eq!(dungeon.rooms().len(), 1);
        check_laws(&dungeon);
    }
}

#[test]
fn the_same_seed_gives_the_same_dungeon() {
    let mut first = RandomSource::from_seed(42);
    let mut second = RandomSource::from_seed(42);
    let a = Dungeon::generate(80, 24, 10, 4, 10, &mut first);
    let b = Dungeon::generate(80, 24, 10, 4, 10, &mut second);
    assert_eq!(a.rooms(), b.rooms());
    assert_eq!(a.player_start(), b.player_start());
    for y in 0..24 {
        for x in 0..80 {
            assert_eq!(a.tile(x, y), b.tile(x, y));
        }
    }
}

#[test]
fn the_smallest_grid_for_a_room_size_works() {
    let mut rng = RandomSource::from_seed(3);
    let dungeon = Dungeon::generate(6, 6, 5, 4, 4, &mut rng);
    assert_eq!(dungeon.rooms().len(), 1);
    assert_eq!(dungeon.rooms()[0], Room::new(1, 1, 4, 4));
    check_laws(&dungeon);
}

#[test]
fn a_room_can_lie_one_tile_from_the_far_edges() {
    let mut right = false;
    let mut bottom = false;
    for seed in 0..200u64 {
        let mut rng = RandomSource::from_seed(seed);
        let dungeon = Dungeon::generate(12, 12, 1, 4, 4, &mut rng);
        let room = dungeon.rooms()[0];
        assert!(1 <= room.x && room.x + room.width <= 11);
        assert!(1 <= room.y && room.y + room.height <= 11);
        right = right || room.x + room.width == 11;
        bottom = bottom || room.y + room.height == 11;
    }
    assert!(right);
    assert!(bottom);
}

#[test]
fn a_grid_too_small_for_any_room_gives_no_room() {
    let mut rng = RandomSource::from_seed(3);
    let dungeon = Dungeon::generate(5, 5, 10, 4, 10, &mut rng);
    assert_eq!(dungeon.rooms().len(), 0);
    assert_eq!(dungeon.player_start(), (0, 0));
    check_laws(&dungeon);
    let empty = Dungeon::generate(0, 0, 10, 4, 10, &mut rng);
    assert_eq!(empty.rooms().len(), 0);
    assert_eq!((empty.width(), empty.height()), (0, 0));
    assert!(!empty.is_walkable(0, 0));
}

#[test]
fn an_empty_range_of_sizes_gives_no_room_and_takes_no_draw() {
    let mut rng = RandomSource::from_seed(8);
    let mut twin = RandomSource::from_seed(8);
    let dungeon = Dungeon::generate(80, 24, 10, 7, 4, &mut rng);
    assert_eq!(dungeon.rooms().len(), 0);
    check_laws(&dungeon);
    assert_eq!(rng.in_range(0, 1_000_000), twin.in_range(0, 1_000_000));
}

#[test]
fn sizes_that_fit_nowhere_are_skipped() {
    for seed in 0..50u64 {
        let mut rng = RandomSource::from_seed(seed);
        let dungeon = Dungeon::generate(9, 30, 40, 4, 12, &mut rng);
        for room in dungeon.rooms() {
            assert!(room.width <= 7);
            assert!(4 <= room.width && 4 <= room.height && room.height <= 12);
        }
        check_laws(&dungeon);
    }
}

#[test]
fn zero_sized_candidates_are_skipped() {
    for seed in 0..50u64 {
        let mut rng = RandomSource::from_seed(seed);
        let dungeon = Dungeon::generate(20, 20, 40, 0, 3, &mut rng);
        for room in dungeon.rooms() {
            assert!(1 <= room.width && room.width <= 3);
            assert!(1 <= room.height && room.height <= 3);
        }
        check_laws(&dungeon);
    }
}

#[test]
fn the_dungeon_is_what_the_draws_give_in_their_order() {
    for seed in 0..100u64 {
        let (width, height, max_rooms, min, max) = (40usize, 20usize, 12usize, 3usize, 9usize);
        let mut rng = RandomSource::from_seed(seed);
        let dungeon = Dungeon::generate(width, height, max_rooms, min, max, &mut rng);

        let mut twin = RandomSource::from_seed(seed);
        let mut builder = DungeonBuilder::new(width, height);
        let mut accepted = 0;
        for _ in 0..max_rooms {
            let w = twin.in_range_inclusive(min, max);
            let h = twin.in_range_inclusive(min, max);
            let x = twin.in_range_inclusive(1, width - w - 1);
            let y = twin.in_range_inclusive(1, height - h - 1);
            let room = Room::new(x, y, w, h);
            if !builder.intersects_any(&room) {
                let horizontal_first = accepted > 0 && twin.coin_flip();
                assert!(builder.place_room(room, horizontal_first));
                accepted += 1;
            }
        }
        let expected = builder.finish();
        assert_eq!(dungeon.rooms(), expected.rooms());
        assert_eq!(dungeon.player_start(), expected.player_start());
        for y in 0..height {
            for x in 0..width {
                assert_eq!(dungeon.tile(x, y), expected.tile(x, y));
            }
        }
        assert_eq!(rng.in_range(0, 1_000_000), twin.in_range(0, 1_000_000));
    }
}

#[test]
fn create_room_opens_the_rooms_tiles_inside_the_grid() {
    let mut builder = DungeonBuilder::new(80, 24);
    let room = Room::new(70, 20, 15, 10);
    builder.create_room(&room);
    for y in 0..24 {
        for x in 0..80 {
            let expected = if contains(&room, x, y) { Tile::Floor } else { Tile::Wall };
            assert_eq!(builder.tile(x, y), Some(expected));
        }
    }
    builder.create_room(&Room::new(usize::MAX - 2, usize::MAX - 2, 2, 2));
    builder.create_room(&Room::new(3, 3, 0, 5));
    assert_eq!(builder.tile(3, 3), Some(Tile::Wall));
    builder.create_room(&Room::new(0, 0, 2, 1));
    assert_eq!(builder.tile(0, 0), Some(Tile::Floor));
    assert_eq!(builder.tile(1, 0), Some(Tile::Floor));
    assert_eq!(builder.tile(2, 0), Some(Tile::Wall));
    assert_eq!(builder.tile(0, 1), Some(Tile::Wall));
    assert_eq!(builder.tile(80, 0), None);
}

#[test]
fn a_horizontal_tunnel_opens_both_ends_in_either_order() {
    let mut forward = DungeonBuilder::new(80, 24);
    let mut backward = DungeonBuilder::new(80, 24);
    forward.create_horizontal_tunnel(5, 12, 7);
    backward.create_horizontal_tunnel(12, 5, 7);
    for y in 0..24 {
        for x in 0..80 {
            let expected = if y == 7 && 5 <= x && x <= 12 { Tile::Floor } else { Tile::Wall };
            assert_eq!(forward.tile(x, y), Some(expected));
            assert_eq!(backward.tile(x, y), Some(expected));
        }
    }
    forward.create_horizontal_tunnel(75, usize::MAX, 0);
    assert_eq!(forward.tile(74, 0), Some(Tile::Wall));
    assert_eq!(forward.tile(75, 0), Some(Tile::Floor));
    assert_eq!(forward.tile(79, 0), Some(Tile::Floor));
    forward.create_horizontal_tunnel(0, 79, 24);
    forward.create_horizontal_tunnel(3, 3, 3);
    assert_eq!(forward.tile(3, 3), Some(Tile::Floor));
    assert_eq!(forward.tile(4, 3), Some(Tile::Wall));
}

#[test]
fn a_vertical_tunnel_opens_both_ends_in_either_order() {
    let mut forward = DungeonBuilder::new(80, 24);
    let mut backward = DungeonBuilder::new(80, 24);
    forward.create_vertical_tunnel(3, 18, 40);
    backward.create_vertical_tunnel(18, 3, 40);
    for y in 0..24 {
        for x in 0..80 {
            let expected = if x == 40 && 3 <= y && y <= 18 { Tile::Floor } else { Tile::Wall };
            assert_eq!(forward.tile(x, y), Some(expected));
            assert_eq!(backward.tile(x, y), Some(expected));
        }
    }
    forward.create_vertical_tunnel(20, usize::MAX, 0);
    assert_eq!(forward.tile(0, 19), Some(Tile::Wall));
    assert_eq!(forward.tile(0, 20), Some(Tile::Floor));
    assert_eq!(forward.tile(0, 23), Some(Tile::Floor));
    forward.create_vertical_tunnel(0, 23, 80);
}

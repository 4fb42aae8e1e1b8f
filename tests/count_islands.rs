use islands::{count_islands, Terrain, World};

fn world_of(rows: usize, cols: usize, land: &[(usize, usize)]) -> World {
    let mut world = World::new(Terrain::Water, rows, cols).unwrap();
    for &(row, col) in land {
        assert!(world.set(row, col, Terrain::Land).is_some());
    }
    world
}

fn two_island_world() -> World {
    let terrain = vec![
        Terrain::Land,  Terrain::Land,  Terrain::Water,
        Terrain::Land,  Terrain::Land,  Terrain::Water,
        Terrain::Water, Terrain::Water, Terrain::Water,
        Terrain::Water, Terrain::Land,  Terrain::Land,
        Terrain::Water, Terrain::Land,  Terrain::Land,
    ];
    World::from_vec(terrain, 5, 3).unwrap()
}

#[test]
fn single_cell_water_world_returns_0() {
    let expected_res = 0;
    let world = World::new(Terrain::Water, 1, 1).unwrap();

    let res = count_islands(&world);

    assert!(res == expected_res);
}

#[test]
fn single_cell_land_world_returns_1() {
    let world = World::new(Terrain::Land, 1, 1).unwrap();

    assert_eq!(count_islands(&world), 1);
}

#[test]
fn two_island_world_returns_2() {
    assert_eq!(count_islands(&two_island_world()), 2);
}

#[test]
fn one_row_two_land_cells_is_one_island() {
    let world = World::new(Terrain::Land, 1, 2).unwrap();

    assert_eq!(count_islands(&world), 1);
}

#[test]
fn all_land_is_one_island() {
    let world = World::new(Terrain::Land, 30, 40).unwrap();

    assert_eq!(count_islands(&world), 1);
}

#[test]
fn diagonal_cells_are_separate_islands() {
    let world = world_of(3, 3, &[(0, 0), (1, 1), (2, 2), (0, 2), (2, 0)]);

    assert_eq!(count_islands(&world), 5);
}

#[test]
fn edges_do_not_wrap() {
    let world = world_of(3, 3, &[(0, 0), (0, 2), (2, 0), (2, 2)]);

    assert_eq!(count_islands(&world), 4);
}

#[test]
fn island_first_reached_late_in_the_scan_is_counted_once() {
    // A U shape: its two arms are first met in row 0, and joined only in row 2.
    let world = world_of(3, 3, &[(0, 0), (1, 0), (2, 0), (2, 1), (2, 2), (1, 2), (0, 2)]);

    assert_eq!(count_islands(&world), 1);
}

#[test]
fn counting_leaves_the_map_unchanged() {
    let world = two_island_world();
    let before = world.iter().to_vec();

    assert_eq!(count_islands(&world), count_islands(&world));
    assert_eq!(world.iter(), before.as_slice());
}

#[test]
fn count_is_the_same_for_the_transposed_map() {
    let world = world_of(4, 5, &[(0, 0), (0, 1), (1, 3), (2, 3), (3, 0), (3, 4), (2, 1)]);
    let transposed = world_of(5, 4, &[(0, 0), (1, 0), (3, 1), (3, 2), (0, 3), (4, 3), (1, 2)]);

    assert_eq!(count_islands(&world), 5);
    assert_eq!(count_islands(&transposed), 5);
}

#[test]
fn count_is_the_same_for_the_mirrored_map() {
    let world = two_island_world();
    let mirrored = world_of(5, 3, &[(0, 2), (0, 1), (1, 2), (1, 1), (3, 1), (3, 0), (4, 1), (4, 0)]);

    assert_eq!(count_islands(&world), count_islands(&mirrored));
}

use islands::{Terrain, VisitedWorld, World};

fn two_island_world() -> World {
    let terrain = vec![
        Terrain::Land,  Terrain::Land,  Terrain::Water,
        Terrain::Land,  Terrain::Land,  Terrain::Water,
        Terrain::Water, Terrain::Water, Terrain::Water,
        Terrain::Water, Terrain::Land,  Terrain::Land,
        Terrain::Water, Terrain::Land,  Terrain::Land,
    ];
    World::from_vec(terrain, 5, 3).unwrap()
}

#[test]
fn visited_world_cols_rows_rows_and_cols_accessors_return_expected_dimensions() {
    let (rows, cols) = (911, 1117);
    let terrain = Terrain::Water;
    let expected_res = (rows, cols);
    let world = World::new(terrain, rows, cols).unwrap();
    let sut = VisitedWorld::new(&world);

    let res = (sut.rows(), sut.cols());

    assert!((res.0, res.1) == expected_res);
}

#[test]
fn water_location_returns_false() {
    let (rows, cols) = (1, 1);
    let (row, col) = (0, 0);
    let terrain = Terrain::Water;
    let expected_res = false;
    let world = World::new(terrain, rows, cols).unwrap();
    let sut = VisitedWorld::new(&world);

    let res = sut.is_unvisited_land(row, col);

    assert!(res == expected_res);
}

#[test]
fn visited_land_location_returns_false() {
    let (rows, cols) = (1, 1);
    let (row, col) = (0, 0);
    let terrain = Terrain::Land;
    let expected_res = false;
    let world = World::new(terrain, rows, cols).unwrap();
    let sut = {
        let mut tmp = VisitedWorld::new(&world);
        tmp.set_visited(row, col, true);
        tmp
    };

    let res = sut.is_unvisited_land(row, col);

    assert!(res == expected_res);
}

#[test]
fn out_of_bounds_row_location_returns_false() {
    let (rows, cols) = (1, 1);
    let (row, col) = (0, 0);
    let (oob_row, _oob_col) = (92, 61);
    let terrain = Terrain::Land;
    let expected_res = false;
    let world = World::new(terrain, rows, cols).unwrap();
    let sut = {
        let mut tmp = VisitedWorld::new(&world);
        tmp.set_visited(row, col, true);
        tmp
    };

    let res = sut.is_unvisited_land(oob_row, col);

    assert!(res == expected_res);
}

#[test]
fn out_of_bounds_col_location_returns_false() {
    let (rows, cols) = (1, 1);
    let (row, col) = (0, 0);
    let (_oob_row, oob_col) = (92, 61);
    let terrain = Terrain::Land;
    let expected_res = false;
    let world = World::new(terrain, rows, cols).unwrap();
    let sut = {
        let mut tmp = VisitedWorld::new(&world);
        tmp.set_visited(row, col, true);
        tmp
    };

    let res = sut.is_unvisited_land(row, oob_col);

    assert!(res == expected_res);
}

#[test]
fn out_of_bounds_location_returns_false() {
    let (rows, cols) = (1, 1);
    let (row, col) = (0, 0);
    let (oob_row, oob_col) = (92, 61);
    let terrain = Terrain::Land;
    let expected_res = false;
    let world = World::new(terrain, rows, cols).unwrap();
    let sut = {
        let mut tmp = VisitedWorld::new(&world);
        tmp.set_visited(row, col, true);
        tmp
    };

    let res = sut.is_unvisited_land(oob_row, oob_col);

    assert!(res == expected_res);
}

#[test]
fn unvisited_land_location_returns_false() {
    let (rows, cols) = (1, 1);
    let (row, col) = (0, 0);
    let terrain = Terrain::Land;
    let expected_res = true;
    let world = World::new(terrain, rows, cols).unwrap();
    let sut = VisitedWorld::new(&world);

    let res = sut.is_unvisited_land(row, col);

    assert!(res == expected_res);
}

#[test]
fn on_water_does_nothing() {
    let (rows, cols) = (1, 2);
    let (unvisited_row, unvisited_col) = (0, 0);
    let (visited_row, visited_col) = (0, 1);
    let terrain = Terrain::Water;
    let expected_res = false;
    let world = World::new(terrain, rows, cols).unwrap();
    let mut sut = VisitedWorld::new(&world);

    let res = sut.visit_contiguous_land(unvisited_row, unvisited_col);

    assert!(res.is_unvisited_land(unvisited_row, unvisited_col) == expected_res);
    assert!(res.is_unvisited_land(visited_row, visited_col) == expected_res);
    assert!(res.iter().iter().all(|&v| !v));
}

// The starting cell stays visited along with the rest of its island.
#[test]
fn on_1_row_2_col_land_returns_expected_results() {
    let (rows, cols) = (1, 2);
    let (origin_row, origin_col) = (0, 0);
    let (visited_row, visited_col) = (0, 1);
    let terrain = Terrain::Land;
    let search_origin_expected_res = false;
    let everywhere_else_expected_res = false;
    let world = World::new(terrain, rows, cols).unwrap();
    let mut sut = VisitedWorld::new(&world);

    let res = sut.visit_contiguous_land(origin_row, origin_col);

    assert!(res.is_unvisited_land(origin_row, origin_col) == search_origin_expected_res);
    assert!(res.is_unvisited_land(visited_row, visited_col) == everywhere_else_expected_res);
}

#[test]
fn on_2_island_world_returns_only_1_visited_island() {
    let (origin_row, origin_col) = (0, 0);
    let expected_res = [
        true,  true,  false,
        true,  true,  false,
        false, false, false,
        false, false, false,
        false, false, false,
    ];
    let world = two_island_world();
    let mut sut = VisitedWorld::new(&world);

    let res = sut.visit_contiguous_land(origin_row, origin_col);

    assert!(res.iter().iter().eq(expected_res.iter()));
}

#[test]
fn flood_fill_from_either_cell_of_a_two_cell_island_visits_both() {
    let world = World::new(Terrain::Land, 1, 2).unwrap();
    for (row, col) in [(0, 0), (0, 1)] {
        let mut sut = VisitedWorld::new(&world);

        sut.visit_contiguous_land(row, col);

        assert_eq!(sut.iter(), &[true, true]);
    }
}

#[test]
fn flood_fill_from_a_discovered_island_finds_it_fully_visited() {
    let world = two_island_world();
    let mut sut = VisitedWorld::new(&world);
    sut.visit_contiguous_land(0, 0);
    let after_first = sut.iter().to_vec();

    for (row, col) in [(0, 1), (1, 0), (1, 1)] {
        assert!(!sut.is_unvisited_land(row, col));
        sut.visit_contiguous_land(row, col);
        assert_eq!(sut.iter(), after_first.as_slice());
    }
}

#[test]
fn flood_fill_from_the_bottom_right_island_leaves_the_other_alone() {
    let world = two_island_world();
    let mut sut = VisitedWorld::new(&world);

    sut.visit_contiguous_land(4, 2);

    assert_eq!(
        sut.iter(),
        &[
            false, false, false,
            false, false, false,
            false, false, false,
            false, true,  true,
            false, true,  true,
        ]
    );
}

#[test]
fn flood_fill_out_of_bounds_does_nothing() {
    let world = World::new(Terrain::Land, 2, 2).unwrap();
    let mut sut = VisitedWorld::new(&world);

    sut.visit_contiguous_land(2, 0);
    sut.visit_contiguous_land(0, 2);

    assert_eq!(sut.iter(), &[false; 4]);
}

#[test]
fn flood_fill_does_not_cross_diagonals() {
    let world = World::from_vec(
        vec![Terrain::Land, Terrain::Water, Terrain::Water, Terrain::Land],
        2,
        2,
    )
    .unwrap();
    let mut sut = VisitedWorld::new(&world);

    sut.visit_contiguous_land(0, 0);

    assert_eq!(sut.iter(), &[true, false, false, false]);
}

#[test]
fn set_visited_can_clear_a_mark() {
    let world = World::new(Terrain::Land, 1, 1).unwrap();
    let mut sut = VisitedWorld::new(&world);

    sut.set_visited(0, 0, true).set_visited(0, 0, false);

    assert!(sut.is_unvisited_land(0, 0));
}

#[test]
fn set_visited_out_of_bounds_is_a_no_op() {
    let world = World::new(Terrain::Land, 1, 1).unwrap();
    let mut sut = VisitedWorld::new(&world);

    sut.set_visited(3, 3, true);

    assert_eq!(sut.iter(), &[false]);
}

#[test]
fn visited_iter_mut_writes_through() {
    let world = World::new(Terrain::Land, 1, 2).unwrap();
    let mut sut = VisitedWorld::new(&world);

    sut.iter_mut()[1] = true;

    assert!(sut.is_unvisited_land(0, 0));
    assert!(!sut.is_unvisited_land(0, 1));
}

#[test]
fn new_visited_world_has_one_unvisited_flag_per_cell() {
    let world = World::new(Terrain::Land, 3, 4).unwrap();
    let sut = VisitedWorld::new(&world);

    assert_eq!(sut.iter().len(), 12);
    assert!(sut.iter().iter().all(|&v| !v));
    assert_eq!(sut.into_vec(), vec![false; 12]);
}

#[test]
fn flood_fill_from_water_leaves_the_flags_as_they_were() {
    let world = World::new(Terrain::Water, 1, 2).unwrap();
    let mut sut = VisitedWorld::new(&world);

    sut.visit_contiguous_land(0, 0);

    assert_eq!(sut.iter(), &[false, false]);
}

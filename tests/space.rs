use conway_cubes::{get_3d_neigbour_coords, get_4d_neigbour_coords, FourSpace, ThreeSpace};

const TEST_INPUT: &str = ".#.\n..#\n###\n";

fn rows(text: &str) -> Vec<&str> {
    text.lines().collect()
}

#[test]
fn it_successfully_initializes() {
    let space = ThreeSpace::new(&rows(TEST_INPUT));

    assert!(space.is_active((1, 0, 0)));
    assert!(!space.is_active((0, 0, 0)));
    assert!(space.is_active((2, 1, 0)));
}

#[test]
fn it_successfully_cycles() {
    let mut space = ThreeSpace::new(&rows(TEST_INPUT));
    space.cycle();
    assert_eq!(11, space.get_active_count());
}

#[test]
fn it_successfully_cycles_6_times() {
    let mut space = ThreeSpace::new(&rows(TEST_INPUT));
    space.cycle_n_times(6);
    assert_eq!(112, space.get_active_count());
}

#[test]
fn it_successfully_cycles_4_space() {
    let mut space = FourSpace::new(&rows(TEST_INPUT));
    space.cycle();
    assert_eq!(29, space.get_active_count());
}

#[test]
fn it_successfully_cycles_4_space_6_times() {
    let mut space = FourSpace::new(&rows(TEST_INPUT));
    space.cycle_n_times(6);
    assert_eq!(848, space.get_active_count());
}

#[test]
fn initial_count_matches_hashes() {
    assert_eq!(5, ThreeSpace::new(&rows(TEST_INPUT)).get_active_count());
    assert_eq!(5, FourSpace::new(&rows(TEST_INPUT)).get_active_count());
}

#[test]
fn four_space_places_the_grid_on_x_and_y() {
    let space = FourSpace::new(&rows(TEST_INPUT));
    assert!(space.is_active((1, 0, 0, 0)));
    assert!(space.is_active((2, 1, 0, 0)));
    assert!(space.is_active((0, 2, 0, 0)));
    assert!(space.is_active((1, 2, 0, 0)));
    assert!(space.is_active((2, 2, 0, 0)));
    assert!(!space.is_active((0, 0, 0, 0)));
    assert!(!space.is_active((1, 1, 0, 0)));
    assert!(!space.is_active((0, 1, 0, 0)));
    assert!(!FourSpace::new(&[".#"]).is_active((0, 1, 0, 0)));
    assert!(FourSpace::new(&[".#"]).is_active((1, 0, 0, 0)));
}

#[test]
fn empty_input_gives_empty_space() {
    let mut space = ThreeSpace::new(&[]);
    assert_eq!(0, space.get_active_count());
    space.cycle_n_times(3);
    assert_eq!(0, space.get_active_count());
    let mut four = FourSpace::new(&[]);
    four.cycle();
    assert_eq!(0, four.get_active_count());
}

#[test]
fn ragged_rows_and_other_characters() {
    let space = ThreeSpace::new(&["#", "x.#", "", "?#"]);
    assert_eq!(3, space.get_active_count());
    assert!(space.is_active((0, 0, 0)));
    assert!(space.is_active((2, 1, 0)));
    assert!(space.is_active((1, 3, 0)));
    assert!(!space.is_active((0, 1, 0)));
}

#[test]
fn zero_cycles_leave_space_unchanged() {
    let start = ThreeSpace::new(&rows(TEST_INPUT));
    let mut space = start.clone();
    space.cycle_n_times(0);
    assert_eq!(start, space);
    let start4 = FourSpace::new(&rows(TEST_INPUT));
    let mut space4 = start4.clone();
    space4.cycle_n_times(0);
    assert_eq!(start4, space4);
}

#[test]
fn cycle_n_times_matches_single_cycles() {
    let mut many = ThreeSpace::new(&rows(TEST_INPUT));
    many.cycle_n_times(6);
    let mut single = ThreeSpace::new(&rows(TEST_INPUT));
    for _ in 0..6 {
        single.cycle();
    }
    assert_eq!(many, single);

    let mut many4 = FourSpace::new(&rows(TEST_INPUT));
    many4.cycle_n_times(2);
    let mut single4 = FourSpace::new(&rows(TEST_INPUT));
    single4.cycle();
    single4.cycle();
    assert_eq!(many4, single4);
}

#[test]
fn new_cells_lie_next_to_old_ones() {
    let before = ThreeSpace::new(&rows(TEST_INPUT));
    let mut after = before.clone();
    after.cycle();
    let mut seen = 0;
    for x in -3..6i64 {
        for y in -3..6i64 {
            for z in -3..4i64 {
                if after.is_active((x, y, z)) {
                    seen += 1;
                    let near = get_3d_neigbour_coords(x, y, z)
                        .into_iter()
                        .any(|n| before.is_active(n));
                    assert!(near);
                }
            }
        }
    }
    assert_eq!(11, seen);
}

#[test]
fn neighbours_in_three_dimensions() {
    for (cx, cy, cz) in [(0i64, 0i64, 0i64), (-5, 7, -1), (i64::MAX - 1, i64::MIN + 1, 3)] {
        let n = get_3d_neigbour_coords(cx, cy, cz);
        assert_eq!(26, n.len());
        assert!(!n.contains(&(cx, cy, cz)));
        for (i, a) in n.iter().enumerate() {
            assert!((a.0 - cx).abs() <= 1 && (a.1 - cy).abs() <= 1 && (a.2 - cz).abs() <= 1);
            assert!(!n[i + 1..].contains(a));
        }
    }
}

#[test]
fn neighbours_in_four_dimensions() {
    for (cx, cy, cz, cw) in [(0i64, 0i64, 0i64, 0i64), (2, -5, 7, -1)] {
        let n = get_4d_neigbour_coords(cx, cy, cz, cw);
        assert_eq!(80, n.len());
        assert!(!n.contains(&(cx, cy, cz, cw)));
        for (i, a) in n.iter().enumerate() {
            assert!((a.0 - cx).abs() <= 1 && (a.1 - cy).abs() <= 1);
            assert!((a.2 - cz).abs() <= 1 && (a.3 - cw).abs() <= 1);
            assert!(!n[i + 1..].contains(a));
        }
    }
}

#[test]
fn lone_cell_dies_and_blinker_turns() {
    let mut lone = ThreeSpace::new(&["#"]);
    lone.cycle();
    assert_eq!(0, lone.get_active_count());

    // A row of three: the middle cell keeps two neighbours, and every cell
    // next to the middle one with exactly three active neighbours is born.
    let mut row = ThreeSpace::new(&["###"]);
    row.cycle();
    assert!(row.is_active((1, 0, 0)));
    assert!(!row.is_active((0, 0, 0)));
    assert!(row.is_active((1, 1, 0)));
    assert!(row.is_active((1, -1, 1)));
    assert_eq!(9, row.get_active_count());
}

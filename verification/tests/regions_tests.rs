use ffce_engine::regions::components_touching;

fn board_of(squares: &[(usize, usize)]) -> [[bool; 8]; 8] {
    let mut g = [[false; 8]; 8];
    for &(x, y) in squares {
        g[y][x] = true;
    }
    g
}

fn marked(g: &[[bool; 8]; 8]) -> Vec<(usize, usize)> {
    let mut v = Vec::new();
    for y in 0..8 {
        for x in 0..8 {
            if g[y][x] {
                v.push((x, y));
            }
        }
    }
    v
}

#[test]
fn empty_mask_reaches_nothing() {
    let mask = [[false; 8]; 8];
    let zone = [[true; 8]; 8];
    assert!(marked(&components_touching(&mask, &zone)).is_empty());
}

#[test]
fn whole_region_lights_up_when_one_square_is_in_the_zone() {
    let mask = board_of(&[(0, 0), (1, 0), (2, 0), (3, 0), (6, 6), (6, 7)]);
    let zone = board_of(&[(3, 0), (5, 5)]);
    let r = components_touching(&mask, &zone);
    assert_eq!(marked(&r), vec![(0, 0), (1, 0), (2, 0), (3, 0)]);
}

#[test]
fn diagonal_squares_are_not_connected() {
    let mask = board_of(&[(0, 0), (1, 1)]);
    let zone = board_of(&[(1, 1)]);
    let r = components_touching(&mask, &zone);
    assert!(!r[0][0]);
    assert!(r[1][1]);
}

#[test]
fn zone_square_outside_the_mask_does_not_count() {
    let mask = board_of(&[(0, 0), (1, 0)]);
    let zone = board_of(&[(2, 0), (0, 1)]);
    assert!(marked(&components_touching(&mask, &zone)).is_empty());
}

#[test]
fn winding_region_is_followed_to_its_far_end() {
    // a snake from (0, 0) along row 0, down column 7, back along row 2
    let mut squares = Vec::new();
    for x in 0..8 {
        squares.push((x, 0));
    }
    squares.push((7, 1));
    for x in 0..8 {
        squares.push((x, 2));
    }
    let mask = board_of(&squares);
    let zone = board_of(&[(0, 2)]);
    let r = components_touching(&mask, &zone);
    let mut expected = squares.clone();
    expected.sort_by_key(|&(x, y)| (y, x));
    assert_eq!(marked(&r), expected);
}

#[test]
fn two_regions_touching_the_zone_both_light_up() {
    let mask = board_of(&[(0, 0), (0, 1), (5, 5), (5, 6), (7, 7)]);
    let zone = board_of(&[(0, 1), (5, 5)]);
    let r = components_touching(&mask, &zone);
    assert_eq!(marked(&r), vec![(0, 0), (0, 1), (5, 5), (5, 6)]);
}

use core::cmp::Ordering;
use intcode::asteroids::{
    get_bounds, has_clear_path, index_map, parse_input, solve_1, Point, Quadrant, Slope, Space,
};

#[test]
fn get_bounds_from_map() {
    let max_row = 5;
    let max_col = 4;
    let mut input: Vec<Point> = Vec::new();
    for row in 0..=max_row {
        for col in 0..=max_col {
            input.push(Point(row, col, Space::Empty));
        }
    }

    let (row_bound, col_bound) = get_bounds(&input);

    assert_eq!(row_bound, max_row);
    assert_eq!(col_bound, max_col);
}

#[test]
fn adjacent_clear_path() {
    let map = vec![
        vec![Space::Asteroid, Space::Empty],
        vec![Space::Empty, Space::Asteroid],
    ];

    let a = Point(0, 0, Space::Asteroid);
    let b = Point(1, 1, Space::Asteroid);

    assert_eq!(has_clear_path(&map, a, b), true);
}

#[test]
fn blocked_and_free() {
    let map = vec![
        vec![Space::Asteroid, Space::Empty, Space::Empty],
        vec![Space::Empty, Space::Asteroid, Space::Empty],
        vec![Space::Empty, Space::Asteroid, Space::Asteroid],
    ];

    let a = Point(0, 0, Space::Asteroid);
    let b = Point(2, 2, Space::Asteroid);
    let c = Point(2, 1, Space::Asteroid);

    assert_eq!(has_clear_path(&map, a, b), false);
    assert_eq!(has_clear_path(&map, a, c), true);
}

#[test]
fn same_x() {
    let lines: Vec<Vec<char>> = vec![
        ".#..#".chars().collect(),
        ".....".chars().collect(),
        "#####".chars().collect(),
        "....#".chars().collect(),
        "...##".chars().collect(),
    ];
    let map = parse_input(&lines);
    let asteroid = Point(4, 0, Space::Asteroid);
    let map = index_map(&map);

    assert_eq!(has_clear_path(&map, asteroid, Point(4, 4, Space::Asteroid)), false);
}

#[test]
fn create_slopes() {
    let start = Point(1, 1, Space::Empty);
    let one = Point(2, 0, Space::Empty);
    let two = Point(2, 2, Space::Empty);
    let three = Point(0, 2, Space::Empty);
    let four = Point(0, 0, Space::Empty);

    let slope_one = Slope::new(&start, &one);

    assert_eq!(slope_one.quadrant, Quadrant::One);
    assert_eq!(slope_one.slope, (-1, 1));

    let slope_two = Slope::new(&start, &two);

    assert_eq!(slope_two.quadrant, Quadrant::Two);
    assert_eq!(slope_two.slope, (1, 1));

    let slope_three = Slope::new(&start, &three);

    assert_eq!(slope_three.quadrant, Quadrant::Three);
    assert_eq!(slope_three.slope, (1, -1));

    let slope_four = Slope::new(&start, &four);

    assert_eq!(slope_four.quadrant, Quadrant::Four);
    assert_eq!(slope_four.slope, (-1, -1));

    assert_eq!(slope_one.cmp(&slope_two), Ordering::Less);
    assert_eq!(slope_two.cmp(&slope_three), Ordering::Less);
    assert_eq!(slope_three.cmp(&slope_four), Ordering::Less);
}

#[test]
fn compare_slopes() {
    let start = Point(4, 4, Space::Empty);
    let a = Slope::new(&start, &Point(5, 0, Space::Empty));
    let b = Slope::new(&start, &Point(5, 1, Space::Empty));
    let c = Slope::new(&start, &Point(5, 2, Space::Empty));

    assert_eq!(a.cmp(&b), Ordering::Less);
    assert_eq!(b.cmp(&c), Ordering::Less);

    let up = Slope::new(&start, &Point(4, 3, Space::Empty));
    let right = Slope::new(&start, &Point(5, 4, Space::Empty));
    let down = Slope::new(&start, &Point(4, 5, Space::Empty));
    let left = Slope::new(&start, &Point(3, 4, Space::Empty));

    assert_eq!(up.slope, (-1, 0));
    assert_eq!(up.quadrant, Quadrant::One);
    assert_eq!(right.slope, (0, 1));
    assert_eq!(right.quadrant, Quadrant::Two);
    assert_eq!(down.slope, (1, 0));
    assert_eq!(down.quadrant, Quadrant::Three);
    assert_eq!(left.slope, (0, -1));
    assert_eq!(left.quadrant, Quadrant::Four);

    assert_eq!(up.cmp(&right), Ordering::Less);
    assert_eq!(right.cmp(&down), Ordering::Less);
    assert_eq!(down.cmp(&left), Ordering::Less);
}

#[test]
fn best_spot_small_map() {
    let lines: Vec<Vec<char>> = vec![
        ".#..#".chars().collect(),
        ".....".chars().collect(),
        "#####".chars().collect(),
        "....#".chars().collect(),
        "...##".chars().collect(),
    ];
    let map = parse_input(&lines);
    assert_eq!(solve_1(&map), 8);
}

#[test]
fn laser_starves_on_a_small_field() {
    // fewer than two hundred asteroids: the sweep clears them all and
    // then starves
    let lines: Vec<Vec<char>> = vec![
        ".#..#".chars().collect(),
        ".....".chars().collect(),
        "#####".chars().collect(),
        "....#".chars().collect(),
        "...##".chars().collect(),
    ];
    let map = parse_input(&lines);
    assert_eq!(
        intcode::asteroids::solve_2(&map),
        Err(intcode::asteroids::LaserError::Starved)
    );
}

#[test]
fn destroying_clears_the_first_asteroid_on_the_ray() {
    let mut map = vec![
        vec![Space::Empty, Space::Empty, Space::Empty],
        vec![Space::Empty, Space::Asteroid, Space::Asteroid],
        vec![Space::Empty, Space::Empty, Space::Asteroid],
    ];
    let origin = Point(1, 0, Space::Asteroid);
    let up = Slope {
        slope: (1, 0),
        quadrant: Quadrant::Three,
    };
    let hit = intcode::asteroids::destroy_asteroid(&mut map, &origin, &up);
    assert_eq!(hit, Some((1, 1)));
    assert_eq!(map[1][1], Space::Empty);
    let second = intcode::asteroids::destroy_asteroid(&mut map, &origin, &up);
    assert_eq!(second, Some((1, 2)));
    let third = intcode::asteroids::destroy_asteroid(&mut map, &origin, &up);
    assert_eq!(third, None);
}

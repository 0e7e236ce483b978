use toboggan::piste::{line_reader_to_lines, lines_to_piste_model, Piste};
use toboggan::slope::{count_trees, survey, survey_slopes, trees_product, Vector};
use toboggan::terrain::{line_to_terrain_vec, parse_marker, InvalidMarker, Terrain};

const EXAMPLE: [&str; 11] = [
    "..##.......",
    "#...#...#..",
    ".#....#..#.",
    "..#.#...#.#",
    ".#...##..#.",
    "..#.##.....",
    ".#.#.#....#",
    ".#........#",
    "#.##...#...",
    "#...##....#",
    ".#..#...#.#",
];

fn grid(lines: &[&str]) -> Piste {
    let lines: Vec<String> = lines.iter().map(|l| l.to_string()).collect();
    Piste::new_from_lines(&lines).expect("valid grid")
}

#[test]
fn example_first_slope_meets_seven_trees() {
    let piste = grid(&EXAMPLE);
    assert_eq!(count_trees(&piste, &Vector::new(1, 3)), 7);
}

#[test]
fn example_each_slope_count() {
    let piste = grid(&EXAMPLE);
    assert_eq!(count_trees(&piste, &Vector::new(1, 1)), 2);
    assert_eq!(count_trees(&piste, &Vector::new(1, 5)), 3);
    assert_eq!(count_trees(&piste, &Vector::new(1, 7)), 4);
    assert_eq!(count_trees(&piste, &Vector::new(2, 1)), 2);
}

#[test]
fn example_product_is_336() {
    let piste = grid(&EXAMPLE);
    assert_eq!(trees_product(&piste, &survey_slopes()), Some(336));
}

#[test]
fn example_survey() {
    let piste = grid(&EXAMPLE);
    let s = survey(&piste);
    assert_eq!(s.first, 7);
    assert_eq!(s.product, Some(336));
}

#[test]
fn product_ignores_slope_order() {
    let piste = grid(&EXAMPLE);
    let mut slopes = survey_slopes();
    slopes.reverse();
    assert_eq!(trees_product(&piste, &slopes), Some(336));
    slopes.swap(0, 3);
    assert_eq!(trees_product(&piste, &slopes), Some(336));
}

#[test]
fn product_with_a_zero_count_is_zero() {
    let piste = grid(&["...", "...", "..#"]);
    let slopes = vec![Vector::new(1, 1), Vector::new(1, 2)];
    assert_eq!(count_trees(&piste, &Vector::new(1, 1)), 1);
    assert_eq!(count_trees(&piste, &Vector::new(1, 2)), 0);
    assert_eq!(trees_product(&piste, &slopes), Some(0));
}

#[test]
fn product_of_no_slopes_is_one() {
    let piste = grid(&EXAMPLE);
    assert_eq!(trees_product(&piste, &Vec::new()), Some(1));
}

#[test]
fn product_too_large_is_none() {
    let rows: Vec<&str> = vec!["#"; 10000];
    let piste = grid(&rows);
    assert_eq!(count_trees(&piste, &Vector::new(1, 3)), 10000);
    assert_eq!(count_trees(&piste, &Vector::new(2, 1)), 5000);
    assert_eq!(trees_product(&piste, &survey_slopes()), None);
}

#[test]
fn repeated_walk_gives_same_count() {
    let piste = grid(&EXAMPLE);
    let v = Vector::new(1, 3);
    let a = count_trees(&piste, &v);
    let b = count_trees(&piste, &v);
    assert_eq!(a, b);
}

#[test]
fn visited_cells_bound_count() {
    // every cell a tree: the count equals the number of visited cells
    let rows: Vec<&str> = vec!["##"; 11];
    let piste = grid(&rows);
    assert_eq!(count_trees(&piste, &Vector::new(1, 1)), 11);
    assert_eq!(count_trees(&piste, &Vector::new(2, 1)), 6);
    assert_eq!(count_trees(&piste, &Vector::new(3, 7)), 4);
    assert_eq!(count_trees(&piste, &Vector::new(11, 0)), 1);
    assert_eq!(count_trees(&piste, &Vector::new(12, 5)), 1);
    assert_eq!(count_trees(&piste, &Vector::new(usize::MAX, usize::MAX)), 1);
}

#[test]
fn empty_grid_meets_no_trees() {
    let piste = grid(&[]);
    assert_eq!(piste.rows(), 0);
    assert_eq!(count_trees(&piste, &Vector::new(1, 3)), 0);
}

#[test]
fn single_row_grid_visits_first_cell_only() {
    let tree = grid(&["#.."]);
    let open = grid(&[".##"]);
    for r in [0usize, 1, 2, 3, 1000, usize::MAX] {
        assert_eq!(count_trees(&tree, &Vector::new(1, r)), 1);
        assert_eq!(count_trees(&open, &Vector::new(1, r)), 0);
    }
}

#[test]
fn lookup_wraps_on_row_width() {
    let piste = grid(&["..#", "#.", "."]);
    assert_eq!(piste.get_terrain(0, 2), Some(Terrain::Tree));
    assert_eq!(piste.get_terrain(0, 5), Some(Terrain::Tree));
    assert_eq!(piste.get_terrain(0, 4), Some(Terrain::Slope));
    assert_eq!(piste.get_terrain(1, 4), Some(Terrain::Tree));
    assert_eq!(piste.get_terrain(1, 3), Some(Terrain::Slope));
    // usize::MAX is 1 modulo 3 and odd
    assert_eq!(piste.get_terrain(0, usize::MAX), Some(Terrain::Slope));
    assert_eq!(piste.get_terrain(1, usize::MAX), Some(Terrain::Slope));
    assert_eq!(piste.get_terrain(1, usize::MAX - 1), Some(Terrain::Tree));
    assert_eq!(piste.get_terrain(3, 0), None);
}

#[test]
fn rows_of_different_widths_wrap_each_on_its_own() {
    let piste = grid(&["#", ".#", "..#", "...#"]);
    assert_eq!(count_trees(&piste, &Vector::new(1, 1)), 4);
    assert_eq!(count_trees(&piste, &Vector::new(1, 0)), 1);
}

#[test]
fn invalid_marker_in_line_is_rejected() {
    assert_eq!(line_to_terrain_vec("..x#y"), Err(InvalidMarker { marker: 'x' }));
    assert_eq!(line_to_terrain_vec("#."), Ok(vec![Terrain::Tree, Terrain::Slope]));
    assert_eq!(line_to_terrain_vec(""), Ok(vec![]));
}

#[test]
fn invalid_marker_in_grid_is_rejected() {
    let lines = vec!["..#".to_string(), "#x.".to_string(), "z".to_string()];
    assert_eq!(lines_to_piste_model(&lines), Err(InvalidMarker { marker: 'x' }));
    assert!(Piste::new_from_lines(&lines).is_err());
    let lines = vec!["..# ".to_string()];
    assert_eq!(lines_to_piste_model(&lines), Err(InvalidMarker { marker: ' ' }));
}

#[test]
fn grid_model_follows_lines() {
    let lines = vec!["#.".to_string(), "".to_string(), ".".to_string()];
    let model = lines_to_piste_model(&lines).unwrap();
    assert_eq!(
        model,
        vec![vec![Terrain::Tree, Terrain::Slope], vec![], vec![Terrain::Slope]]
    );
    let piste = Piste::new(model);
    assert_eq!(piste.rows(), 3);
    assert!(!piste.rows_nonempty());
    assert!(grid(&EXAMPLE).rows_nonempty());
}

#[test]
fn markers_parse() {
    assert_eq!(parse_marker('.'), Some(Terrain::Slope));
    assert_eq!(parse_marker('#'), Some(Terrain::Tree));
    assert_eq!(parse_marker('x'), None);
    assert_eq!(parse_marker('O'), None);
}

#[test]
fn lines_gathered_in_order() {
    let reader: Vec<Result<String, u8>> = vec![Ok("a".to_string()), Ok("b".to_string())];
    assert_eq!(line_reader_to_lines(reader), Ok(vec!["a".to_string(), "b".to_string()]));
    let empty: Vec<Result<String, u8>> = Vec::new();
    assert_eq!(line_reader_to_lines(empty), Ok(vec![]));
}

#[test]
fn first_failed_read_is_reported() {
    let reader: Vec<Result<String, u8>> =
        vec![Ok("a".to_string()), Err(1), Ok("b".to_string()), Err(2)];
    assert_eq!(line_reader_to_lines(reader), Err(1));
}

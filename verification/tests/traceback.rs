use seq_align::algorithms::Direction;
use seq_align::reconstruction::{
    cell_has, find_max_indices, get_aligned_sequence, get_largest_entry,
    get_smith_waterman_sequence, table_covers, table_has_shape,
};
use seq_align::text::{reversed_string, symbols_of};

fn pair(a: &str, b: &str) -> (String, String) {
    (String::from(a), String::from(b))
}

#[test]
fn tags_are_followed_in_a_fixed_order() {
    // One cell with all four tags: Start, then Diagonal, Left and Up.
    let all = vec![Direction::Up, Direction::Left, Direction::Diagonal, Direction::Start];
    let dirs = vec![
        vec![vec![], vec![Direction::Left]],
        vec![vec![Direction::Up], all],
    ];
    assert_eq!(
        get_aligned_sequence("A", "C", &dirs, &mut 10).unwrap(),
        vec![pair("", ""), pair("A", "C"), pair("A-", "-C"), pair("-A", "C-")]
    );
    assert_eq!(
        get_aligned_sequence("A", "C", &dirs, &mut 2).unwrap(),
        vec![pair("", ""), pair("A", "C")]
    );
}

#[test]
fn a_walk_goes_on_past_a_start_tag_beside_others() {
    let dirs = vec![
        vec![vec![Direction::Start], vec![Direction::Start]],
        vec![vec![Direction::Start, Direction::Up], vec![Direction::Up]],
    ];
    // From (1, 1): Up to (0, 1), which ends there.
    assert_eq!(
        get_aligned_sequence("A", "C", &dirs, &mut 10).unwrap(),
        vec![pair("A", "-")]
    );
    // From (1, 0): Start ends at once, Up leads to the corner.
    assert_eq!(
        get_aligned_sequence("A", "", &dirs, &mut 10).unwrap(),
        vec![pair("", ""), pair("A", "-")]
    );
}

#[test]
fn a_cell_without_tags_ends_no_alignment() {
    let dirs = vec![
        vec![vec![], vec![]],
        vec![vec![Direction::Up], vec![Direction::Left, Direction::Up]],
    ];
    // Left leads to (1, 0) and on to the corner; Up leads to (0, 1), a dead end.
    assert_eq!(
        get_aligned_sequence("A", "C", &dirs, &mut 10).unwrap(),
        vec![pair("A-", "-C")]
    );
}

#[test]
fn tags_that_lead_out_of_the_table_root_nothing() {
    let dirs = vec![
        vec![vec![], vec![Direction::Up, Direction::Diagonal, Direction::Left]],
        vec![vec![Direction::Left, Direction::Diagonal], vec![Direction::Left, Direction::Up]],
    ];
    // (1, 0) has only tags that leave the table; (0, 1) can go Left to the corner.
    assert_eq!(
        get_aligned_sequence("A", "C", &dirs, &mut 10).unwrap(),
        vec![pair("-A", "C-")]
    );
}

#[test]
fn every_largest_cell_roots_alignments_row_by_row() {
    let tab = vec![vec![0, 0], vec![0, 5], vec![0, 5], vec![0, 5]];
    let dirs = vec![
        vec![vec![Direction::Start], vec![Direction::Start]],
        vec![vec![Direction::Start], vec![Direction::Diagonal]],
        vec![vec![Direction::Start], vec![Direction::Diagonal]],
        vec![vec![Direction::Start], vec![Direction::Diagonal]],
    ];
    assert_eq!(find_max_indices(&tab), vec![(1, 1), (2, 1), (3, 1)]);
    assert_eq!(
        get_smith_waterman_sequence("ACG", "T", &tab, &dirs, 10).unwrap(),
        vec![pair("A", "T"), pair("C", "T"), pair("G", "T")]
    );
    assert_eq!(
        get_smith_waterman_sequence("ACG", "T", &tab, &dirs, 2).unwrap(),
        vec![pair("A", "T"), pair("C", "T")]
    );
}

#[test]
fn largest_entries_are_found_in_ragged_grids() {
    assert_eq!(find_max_indices(&vec![]), vec![]);
    assert_eq!(find_max_indices(&vec![vec![], vec![]]), vec![]);
    assert_eq!(find_max_indices(&vec![vec![1, 5], vec![5, 2]]), vec![(0, 1), (1, 0)]);
    assert_eq!(find_max_indices(&vec![vec![7], vec![], vec![3, 7, 7]]), vec![(0, 0), (2, 1), (2, 2)]);
    assert_eq!(find_max_indices(&vec![vec![i32::MIN, i32::MIN]]), vec![(0, 0), (0, 1)]);
    assert_eq!(find_max_indices(&vec![vec![-3, -9], vec![-3]]), vec![(0, 0), (1, 0)]);
    assert_eq!(get_largest_entry(&vec![vec![1, 5], vec![5, 2]]), 5);
    assert_eq!(get_largest_entry(&vec![vec![-3, -9], vec![-3]]), -3);
    assert_eq!(get_largest_entry(&vec![]), i32::MIN);
}

#[test]
fn cells_are_searched_for_tags() {
    let cell = vec![Direction::Diagonal, Direction::Up];
    assert!(cell_has(&cell, Direction::Up));
    assert!(cell_has(&cell, Direction::Diagonal));
    assert!(!cell_has(&cell, Direction::Left));
    assert!(!cell_has(&vec![], Direction::Start));
}

#[test]
fn table_dimensions_are_checked() {
    let dirs: Vec<Vec<Vec<Direction>>> = vec![vec![vec![]; 3]; 2];
    assert!(table_covers(&dirs, 1, 2));
    assert!(table_covers(&dirs, 0, 0));
    assert!(!table_covers(&dirs, 2, 2));
    assert!(!table_covers(&dirs, 1, 3));
    let ragged: Vec<Vec<Vec<Direction>>> = vec![vec![vec![]; 3], vec![vec![]; 1]];
    assert!(table_covers(&ragged, 0, 2));
    assert!(!table_covers(&ragged, 1, 2));
    let tab = vec![vec![0; 3]; 2];
    assert!(table_has_shape(&tab, 1, 2));
    assert!(!table_has_shape(&tab, 0, 2));
    assert!(!table_has_shape(&tab, 1, 1));
    assert!(!table_has_shape(&tab, 2, 2));
    assert!(!table_has_shape(&vec![], 0, 0));
    assert!(!table_has_shape(&vec![vec![]], 0, 0));
    assert!(table_has_shape(&vec![vec![4]], 0, 0));
}

#[test]
fn strings_are_read_symbol_by_symbol() {
    assert_eq!(symbols_of(""), vec![]);
    assert_eq!(symbols_of("GAT"), vec!['G', 'A', 'T']);
    assert_eq!(symbols_of("né"), vec!['n', 'é']);
}

#[test]
fn reversed_strings_hold_the_symbols_from_last_to_first() {
    assert_eq!(reversed_string(&vec![]), "");
    assert_eq!(reversed_string(&vec!['G', 'A', '-', 'T']), "T-AG");
}

#[test]
fn the_order_of_tags_in_a_cell_changes_nothing() {
    let one = vec![
        vec![vec![], vec![Direction::Left]],
        vec![vec![Direction::Up], vec![Direction::Diagonal, Direction::Up, Direction::Left]],
    ];
    let other = vec![
        vec![vec![Direction::Diagonal], vec![Direction::Left, Direction::Left]],
        vec![vec![Direction::Up], vec![Direction::Left, Direction::Up, Direction::Diagonal, Direction::Up]],
    ];
    let found = get_aligned_sequence("A", "C", &one, &mut 10).unwrap();
    assert_eq!(found, vec![pair("A", "C"), pair("A-", "-C"), pair("-A", "C-")]);
    assert_eq!(get_aligned_sequence("A", "C", &other, &mut 10).unwrap(), found);
}

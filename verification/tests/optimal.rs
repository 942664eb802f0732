use seq_align::algorithms::{
    get_char_idx, get_largest_magnitude, get_matrix_table, Algorithm, Direction,
};
use seq_align::error::AlignError;
use seq_align::reconstruction::{
    get_aligned_sequence, get_alignment_score, get_smith_waterman_sequence,
};

const SCORES: [[i32; 4]; 4] = [
    [5, -4, -4, -1],
    [-4, 5, -4, -1],
    [-4, -4, 5, -1],
    [-1, -1, -1, 5],
];

fn index(c: char) -> usize {
    get_char_idx(c).unwrap()
}

fn score_of(a1: &str, a2: &str, gap: i32) -> i32 {
    a1.chars()
        .zip(a2.chars())
        .map(|(x, y)| if x == '-' || y == '-' { gap } else { SCORES[index(x)][index(y)] })
        .sum()
}

/// Every alignment of `u` with `v`, by plain recursion on the last column.
fn all_alignments(u: &[char], v: &[char]) -> Vec<(String, String)> {
    if u.is_empty() && v.is_empty() {
        return vec![(String::new(), String::new())];
    }
    let mut out = Vec::new();
    if !u.is_empty() && !v.is_empty() {
        for (a, b) in all_alignments(&u[..u.len() - 1], &v[..v.len() - 1]) {
            out.push((format!("{}{}", a, u[u.len() - 1]), format!("{}{}", b, v[v.len() - 1])));
        }
    }
    if !v.is_empty() {
        for (a, b) in all_alignments(u, &v[..v.len() - 1]) {
            out.push((format!("{}-", a), format!("{}{}", b, v[v.len() - 1])));
        }
    }
    if !u.is_empty() {
        for (a, b) in all_alignments(&u[..u.len() - 1], v) {
            out.push((format!("{}{}", a, u[u.len() - 1]), format!("{}-", b)));
        }
    }
    out
}

fn sorted(mut pairs: Vec<(String, String)>) -> Vec<(String, String)> {
    pairs.sort();
    pairs.dedup();
    pairs
}

#[test]
fn global_alignments_are_the_best_of_all() {
    let cases = [("GAT", "GCT"), ("TTT", "T"), ("ACGT", "AGT"), ("A", ""), ("", ""), ("CA", "AC")];
    for (s1, s2) in cases {
        for gap in [-3, -2, 0, 1] {
            let (tab, dirs) =
                get_matrix_table(s1, s2, gap, SCORES, &Algorithm::NeedlemanWunsch).unwrap().unwrap();
            let u: Vec<char> = s1.chars().collect();
            let v: Vec<char> = s2.chars().collect();
            let every = all_alignments(&u, &v);
            let best = every.iter().map(|(a, b)| score_of(a, b, gap)).max().unwrap();
            assert_eq!(tab[u.len()][v.len()], best, "{:?} {:?} {}", s1, s2, gap);
            assert_eq!(
                get_alignment_score(s1, s2, &tab, &Algorithm::NeedlemanWunsch),
                Ok(best)
            );
            let expected: Vec<(String, String)> =
                every.into_iter().filter(|(a, b)| score_of(a, b, gap) == best).collect();
            let found = get_aligned_sequence(s1, s2, &dirs, &mut 10_000).unwrap();
            assert_eq!(found.len(), expected.len(), "{:?} {:?} {}", s1, s2, gap);
            assert_eq!(sorted(found), sorted(expected), "{:?} {:?} {}", s1, s2, gap);
        }
    }
}

#[test]
fn local_alignments_are_the_best_of_all() {
    let cases = [("GAT", "GCT"), ("TTT", "T"), ("ACGT", "AGT"), ("A", ""), ("", ""), ("CA", "AC")];
    for (s1, s2) in cases {
        for gap in [-3, -2, -1] {
            let (tab, dirs) =
                get_matrix_table(s1, s2, gap, SCORES, &Algorithm::SmithWaterman).unwrap().unwrap();
            let u: Vec<char> = s1.chars().collect();
            let v: Vec<char> = s2.chars().collect();
            let mut every = Vec::new();
            for k in 0..=u.len() {
                for i in k..=u.len() {
                    for l in 0..=v.len() {
                        for j in l..=v.len() {
                            every.extend(all_alignments(&u[k..i], &v[l..j]));
                        }
                    }
                }
            }
            let best = every.iter().map(|(a, b)| score_of(a, b, gap)).max().unwrap();
            assert_eq!(
                get_alignment_score(s1, s2, &tab, &Algorithm::SmithWaterman),
                Ok(best),
                "{:?} {:?} {}",
                s1,
                s2,
                gap
            );
            let expected: Vec<(String, String)> =
                every.into_iter().filter(|(a, b)| score_of(a, b, gap) == best).collect();
            let found = get_smith_waterman_sequence(s1, s2, &tab, &dirs, 10_000).unwrap();
            assert_eq!(sorted(found), sorted(expected), "{:?} {:?} {}", s1, s2, gap);
        }
    }
}

/// The alignments that end at `(i, j)`, by plain recursion on the tags.
fn walk(u: &[char], v: &[char], dirs: &[Vec<Vec<Direction>>], i: usize, j: usize) -> Vec<(String, String)> {
    if i == 0 && j == 0 {
        return vec![(String::new(), String::new())];
    }
    let cell = &dirs[i][j];
    let mut out = Vec::new();
    if cell.contains(&Direction::Start) {
        out.push((String::new(), String::new()));
    }
    if cell.contains(&Direction::Diagonal) && i > 0 && j > 0 {
        for (a, b) in walk(u, v, dirs, i - 1, j - 1) {
            out.push((format!("{}{}", a, u[i - 1]), format!("{}{}", b, v[j - 1])));
        }
    }
    if cell.contains(&Direction::Left) && j > 0 {
        for (a, b) in walk(u, v, dirs, i, j - 1) {
            out.push((format!("{}-", a), format!("{}{}", b, v[j - 1])));
        }
    }
    if cell.contains(&Direction::Up) && i > 0 {
        for (a, b) in walk(u, v, dirs, i - 1, j) {
            out.push((format!("{}{}", a, u[i - 1]), format!("{}-", b)));
        }
    }
    out
}

#[test]
fn any_direction_table_is_walked_in_order() {
    let tags = [Direction::Up, Direction::Left, Direction::Diagonal, Direction::Start];
    let u: Vec<char> = "ACG".chars().collect();
    let v: Vec<char> = "TGA".chars().collect();
    let mut state: u64 = 0x2545_f491_4f6c_dd1d;
    for _ in 0..200 {
        let mut dirs: Vec<Vec<Vec<Direction>>> = Vec::new();
        for _ in 0..4 {
            let mut row = Vec::new();
            for _ in 0..4 {
                state = state.wrapping_mul(6364136223846793005).wrapping_add(1442695040888963407);
                let bits = (state >> 33) as usize;
                let mut cell = Vec::new();
                for (k, tag) in tags.iter().enumerate() {
                    if bits >> k & 1 == 1 {
                        cell.push(*tag);
                    }
                }
                if bits >> 4 & 1 == 1 {
                    cell.reverse();
                }
                row.push(cell);
            }
            dirs.push(row);
        }
        let every = walk(&u, &v, &dirs, 3, 3);
        for cap in [0usize, 1, 2, 5, 1000] {
            let mut n = cap as u32;
            let found = get_aligned_sequence("ACG", "TGA", &dirs, &mut n).unwrap();
            let expected: Vec<(String, String)> = every.iter().take(cap).cloned().collect();
            assert_eq!(found, expected);
            assert_eq!(n as usize, cap - found.len());
        }
    }
}

#[test]
fn symbols_have_their_place_in_the_alphabet() {
    assert_eq!(get_char_idx('A'), Ok(0));
    assert_eq!(get_char_idx('C'), Ok(1));
    assert_eq!(get_char_idx('G'), Ok(2));
    assert_eq!(get_char_idx('T'), Ok(3));
    assert_eq!(get_char_idx('a'), Err(AlignError::InvalidSymbol));
    assert_eq!(get_char_idx('-'), Err(AlignError::InvalidSymbol));
}

#[test]
fn the_largest_magnitude_is_found() {
    assert_eq!(get_largest_magnitude(-2, &SCORES), 5);
    assert_eq!(get_largest_magnitude(-7, &SCORES), 7);
    assert_eq!(get_largest_magnitude(0, &[[0; 4]; 4]), 0);
    assert_eq!(get_largest_magnitude(i32::MIN, &SCORES), 2147483648);
    let mut scores = [[0; 4]; 4];
    scores[3][2] = -9;
    assert_eq!(get_largest_magnitude(8, &scores), 9);
    scores[0][0] = i32::MAX;
    assert_eq!(get_largest_magnitude(8, &scores), 2147483647);
}

use seq_align::algorithms::Algorithm;
use seq_align::cli::{run, Cli, MatrixError, RunError};

const MATRIX: &str = "5,-4,-4,-1;-4,5,-4,-1;-4,-4,5,-1;-1,-1,-1,5";

fn request(n: u32, gap: i32, s1: &str, s2: &str, matrix: &str, algorithm: Algorithm) -> Cli {
    Cli {
        n,
        gap,
        s1: String::from(s1),
        s2: String::from(s2),
        substitution_matrix: String::from(matrix),
        algorithm,
    }
}

#[test]
fn a_global_run_yields_table_score_and_alignments() {
    let cli = request(100, -2, "GATTACA", "GCATGCG", MATRIX, Algorithm::NeedlemanWunsch);
    let out = run(&cli).unwrap();
    assert_eq!(out.scores, [[5, -4, -4, -1], [-4, 5, -4, -1], [-4, -4, 5, -1], [-1, -1, -1, 5]]);
    assert_eq!(out.tab.len(), 8);
    assert_eq!(out.tab[7], vec![-14, -7, 0, 7, 5, 6, 13, 11]);
    assert_eq!(out.dir_tab.len(), 8);
    assert_eq!(out.score, 11);
    assert_eq!(
        out.aligned,
        vec![
            (String::from("G-ATTACA"), String::from("GCATG-CG")),
            (String::from("G-ATTACA-"), String::from("GCATG-C-G")),
            (String::from("G-ATTAC-A"), String::from("GCATG-CG-")),
        ]
    );
}

#[test]
fn a_local_run_yields_table_score_and_alignments() {
    let cli = request(100, -2, "GATTACA", "GCATGCG", MATRIX, Algorithm::SmithWaterman);
    let out = run(&cli).unwrap();
    assert_eq!(out.tab[6], vec![0, 0, 5, 3, 7, 8, 15, 13]);
    assert_eq!(out.score, 15);
    assert_eq!(out.aligned, vec![(String::from("G-ATTAC"), String::from("GCATG-C"))]);
}

#[test]
fn a_run_lists_no_more_than_asked_for() {
    let cli = request(2, -2, "TTT", "T", MATRIX, Algorithm::NeedlemanWunsch);
    let out = run(&cli).unwrap();
    assert_eq!(out.score, 1);
    assert_eq!(
        out.aligned,
        vec![
            (String::from("TTT"), String::from("--T")),
            (String::from("TTT"), String::from("-T-")),
        ]
    );
    let cli = request(0, -2, "TTT", "T", MATRIX, Algorithm::SmithWaterman);
    let out = run(&cli).unwrap();
    assert_eq!(out.score, 5);
    assert_eq!(out.aligned, vec![]);
}

#[test]
fn a_run_reports_a_bad_matrix_first() {
    for (text, error) in [
        ("1,2,3,4", MatrixError::RowCount),
        ("1,2,3;1,2,3,4;1,2,3,4;1,2,3,4", MatrixError::ColumnCount),
        ("1,2,3,4;1,2,3,4;1,2,3,4;1,2,3,x", MatrixError::Number),
    ] {
        let cli = request(5, i32::MAX, "GAX", "GC", text, Algorithm::NeedlemanWunsch);
        assert_eq!(run(&cli).err(), Some(RunError::Matrix(error)));
    }
}

#[test]
fn a_run_reports_scores_that_are_too_large_before_symbols() {
    let cli = request(5, i32::MAX, "GAX", "GC", MATRIX, Algorithm::NeedlemanWunsch);
    assert_eq!(run(&cli).err(), Some(RunError::ScoreOverflow));
    let cli = request(5, 0, "A", "C", "2147483647,0,0,0;0,0,0,0;0,0,0,0;0,0,0,0", Algorithm::SmithWaterman);
    assert_eq!(run(&cli).err(), Some(RunError::ScoreOverflow));
}

#[test]
fn a_run_reports_symbols_outside_the_alphabet() {
    for mode in [Algorithm::NeedlemanWunsch, Algorithm::SmithWaterman] {
        let cli = request(5, -2, "GAX", "GC", MATRIX, mode);
        assert_eq!(run(&cli).err(), Some(RunError::InvalidSymbol));
        let cli = request(5, -2, "GA", "gc", MATRIX, mode);
        assert_eq!(run(&cli).err(), Some(RunError::InvalidSymbol));
    }
}

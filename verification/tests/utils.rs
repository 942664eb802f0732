use seq_align::algorithms::{get_matrix_table, Algorithm};
use seq_align::error::AlignError;
use seq_align::utils::format_tab;

/// The table as the formatting machinery of std lays it out.
fn laid_out(s1: &str, s2: &str, tab: &[Vec<i32>]) -> String {
    let mut out = format!("{:12} ", "");
    for symbol in s2.chars() {
        out.push_str(&format!("{:4} ", symbol));
    }
    out.push('\n');
    for (i, row) in tab.iter().enumerate() {
        let label = if i == 0 { ' ' } else { s1.chars().nth(i - 1).unwrap() };
        out.push_str(&format!("{:4} ", label));
        for value in row {
            out.push_str(&format!("{:4} ", value));
        }
        out.push('\n');
    }
    out
}

#[test]
fn a_table_is_written_in_fields_of_width_four() {
    let tab = vec![vec![0, -2], vec![-2, 5], vec![-4, 3], vec![-6, 1]];
    let expected = concat(&[
        "             T    \n",
        "        0   -2 \n",
        "T      -2    5 \n",
        "T      -4    3 \n",
        "T      -6    1 \n",
    ]);
    assert_eq!(format_tab("TTT", "T", &tab), Ok(expected));
}

fn concat(lines: &[&str]) -> String {
    let mut out = String::new();
    for line in lines {
        out.push_str(line);
    }
    out
}

#[test]
fn wide_numbers_take_the_room_they_need() {
    let tab = vec![
        vec![0, 7, 42, 999],
        vec![1000, -1, -99, -999],
        vec![-1000, 12345, i32::MAX, i32::MIN],
    ];
    assert_eq!(format_tab("AC", "GTA", &tab), Ok(laid_out("AC", "GTA", &tab)));
    let line = format_tab("AC", "GTA", &tab).unwrap();
    assert!(line.contains("1000   -1  -99 -999 \n"));
    assert!(line.contains("-1000 12345 2147483647 -2147483648 \n"));
}

#[test]
fn built_tables_are_written_as_std_lays_them_out() {
    for mode in [Algorithm::NeedlemanWunsch, Algorithm::SmithWaterman] {
        for (s1, s2) in [("GATTACA", "GCATGCG"), ("", ""), ("A", ""), ("", "CG")] {
            let (tab, _) = get_matrix_table(s1, s2, -2, [[5, -4, -4, -1], [-4, 5, -4, -1], [-4, -4, 5, -1], [-1, -1, -1, 5]], &mode)
                .unwrap()
                .unwrap();
            assert_eq!(format_tab(s1, s2, &tab), Ok(laid_out(s1, s2, &tab)));
        }
    }
    assert_eq!(format_tab("", "", &vec![vec![0]]), Ok(String::from("             \n        0 \n")));
}

#[test]
fn a_table_of_other_sequences_is_not_written() {
    let tab = vec![vec![0, -2], vec![-2, 5]];
    assert_eq!(format_tab("TT", "T", &tab), Err(AlignError::InvalidDimensions));
    assert_eq!(format_tab("T", "TT", &tab), Err(AlignError::InvalidDimensions));
    assert_eq!(format_tab("T", "T", &vec![]), Err(AlignError::InvalidDimensions));
}

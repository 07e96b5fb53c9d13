use ttt_compiler::ttt::encode;
use ttt_compiler::ttt::get_winner;
use ttt_compiler::ttt::get_winner_col;
use ttt_compiler::ttt::get_winner_diag;
use ttt_compiler::ttt::get_winner_row;

/// Packs a board given as one character per cell: 'N' empty, 'X' team A,
/// 'O' team B.
fn hash_state(s: &str) -> u128 {
    let digits: Vec<u8> = s
        .chars()
        .map(|c| match c {
            'X' => 1,
            'O' => 2,
            _ => 0,
        })
        .collect();
    encode(&digits)
}

#[test]
fn winner_row_none() {
    assert_eq!(0, get_winner_row(&0, 3));
}

#[test]
fn winner_row_0() {
    let s = hash_state("XXXNNNNNN");
    assert_eq!(1, get_winner_row(&s, 3));
}

#[test]
fn winner_row_1() {
    let s = hash_state("NNNXXXNNN");
    assert_eq!(1, get_winner_row(&s, 3));
}

#[test]
fn winner_row_2() {
    let s = hash_state("NNNNNNXXX");
    assert_eq!(1, get_winner_row(&s, 3));
}

#[test]
fn get_winner_row_9641() {
    assert_eq!(1, get_winner_row(&9641, 3));
}

#[test]
fn winner_col_none() {
    assert_eq!(0, get_winner_col(&0, 3));
}

#[test]
fn winner_col_0() {
    let s = hash_state("XNNXNNXNN");
    assert_eq!(1, get_winner_col(&s, 3));
}

#[test]
fn winner_col_1() {
    let s = hash_state("NXNNXNNXN");
    assert_eq!(1, get_winner_col(&s, 3));
}

#[test]
fn winner_col_2() {
    let s = hash_state("NNXNNXNNX");
    assert_eq!(1, get_winner_col(&s, 3));
}

#[test]
fn winner_diag_none() {
    assert_eq!(0, get_winner_diag(&0, 3));
}

#[test]
fn winner_diag_0() {
    let s = hash_state("XNNNXNNNX");
    assert_eq!(1, get_winner_diag(&s, 3));
}

#[test]
fn winner_diag_1() {
    let s = hash_state("NNXNXNXNN");
    assert_eq!(1, get_winner_diag(&s, 3));
}

#[test]
fn winner_team_b_row() {
    let s = hash_state("NNNOOONNN");
    assert_eq!(2, get_winner(&s, 3));
}

#[test]
fn winner_found_in_column_after_rows() {
    // Column 0 is complete while no row is: the verdict comes from the
    // column scan.
    let t = hash_state("XOOXNNXNN");
    assert_eq!(0, get_winner_row(&t, 3));
    assert_eq!(1, get_winner_col(&t, 3));
    assert_eq!(1, get_winner(&t, 3));
}

#[test]
fn winner_scales_with_board_size() {
    // A 4x4 board with its first row filled by team A: cells 0..=3.
    let id: u128 = 1 + 3 + 9 + 27;
    assert_eq!(1, get_winner_row(&id, 4));
    assert_eq!(1, get_winner(&id, 4));
}

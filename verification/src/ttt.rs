//! Base-3 board encoding and win detection for square n-in-a-row boards.
//!
//! A board of size `n` has `n * n` cells, indexed row-major.  Cell `i` of a
//! state identifier `id` holds the base-3 digit `(id / 3^i) % 3`:
//! 0 = empty, 1 = team A, 2 = team B.

use vstd::prelude::*;
use vstd::arithmetic::power::pow;
use vstd::arithmetic::power::lemma_pow_adds;
use vstd::arithmetic::power::lemma_pow_increases;
use vstd::arithmetic::power::lemma_pow_positive;
use vstd::arithmetic::power::lemma_pow1;
use vstd::arithmetic::power::lemma_pow_strictly_increases;
use vstd::arithmetic::div_mod::lemma_fundamental_div_mod;
use vstd::arithmetic::div_mod::lemma_fundamental_div_mod_converse_div;
use vstd::arithmetic::div_mod::lemma_mod_division_less_than_divisor;
use vstd::arithmetic::div_mod::lemma_mod_multiples_vanish;
use vstd::arithmetic::div_mod::lemma_small_mod;
use vstd::arithmetic::div_mod::lemma_div_denominator;
use vstd::arithmetic::div_mod::lemma_multiply_divide_lt;
use vstd::arithmetic::div_mod::lemma_div_of0;
use std::collections::HashMap;
use crate::NodeIndex;
use crate::NodeMap;
use crate::Node;
use crate::Compilation;
use crate::counters_same;

verus! {

broadcast use vstd::std_specs::hash::group_hash_axioms;

/// Digit of `id` at cell index `i`: 0 = empty, 1 = team A, 2 = team B.
pub open spec fn cell_digit(id: int, i: int) -> int {
    (id / pow(3, i as nat)) % 3
}

/// The largest power of 3 a cell index can call for, by repeated squaring.
proof fn lemma_pow3_80_value()
    ensures
        pow(3, 80) == 147808829414345923316083210206383297601,
{
    reveal_with_fuel(pow, 11);
    assert(pow(3, 10) == 59049);
    lemma_pow_adds(3, 10, 10);
    assert(pow(3, 20) == 59049 * 59049);
    lemma_pow_adds(3, 20, 20);
    assert(pow(3, 40) == 3486784401 * 3486784401);
    lemma_pow_adds(3, 40, 40);
    assert(pow(3, 80) == 12157665459056928801 * 12157665459056928801);
}

/// All cell indices fit in 0..=80, so every power of 3 used fits in a `u128`.
proof fn lemma_pow3_fits(e: nat)
    requires
        e <= 80,
    ensures
        0 < pow(3, e) <= u128::MAX,
{
    lemma_pow_positive(3, e);
    lemma_pow_increases(3, e, 80);
    lemma_pow3_80_value();
}

/// `pow(3, e)` as an executable function.
pub fn pow3(e: u32) -> (r: u128)
    requires
        e <= 80,
    ensures
        r == pow(3, e as nat),
{
    proof {
        lemma_pow3_fits(e as nat);
        vstd::arithmetic::power::lemma_pow0(3);
    }
    let mut r: u128 = 1;
    let mut k: u32 = 0;
    while k < e
        invariant
            k <= e,
            e <= 80,
            r == pow(3, k as nat),
        decreases e - k,
    {
        proof {
            lemma_pow1(3);
            lemma_pow_adds(3, k as nat, 1);
            lemma_pow_increases(3, (k + 1) as nat, e as nat);
            lemma_pow3_fits(e as nat);
        }
        r = r * 3;
        k = k + 1;
    }
    r
}

/// Reads one cell of the packed board.
pub fn get_cell(id: u128, i: u32) -> (d: u8)
    requires
        i <= 80,
    ensures
        d == cell_digit(id as int, i as int),
        d < 3,
{
    proof {
        lemma_pow3_fits(i as nat);
    }
    let p = pow3(i);
    ((id / p) % 3) as u8
}

/// Winner of the line of `len` cells starting at cell `start` with stride
/// `step`: the team holding every cell of the line, or 0 if the line is not
/// complete.
pub open spec fn line_winner(id: int, start: int, step: int, len: int) -> int {
    let t = cell_digit(id, start);
    if t != 0 && (forall|k: int| 0 <= k < len ==> #[trigger] cell_digit(id, start + k * step) == t) {
        t
    } else {
        0
    }
}

fn line_team(id: u128, start: u32, step: u32, len: u8) -> (t: u8)
    requires
        1 <= len,
        start + (len - 1) as int * step as int <= 80,
    ensures
        t == line_winner(id as int, start as int, step as int, len as int),
        t < 3,
{
    let t0 = get_cell(id, start);
    if t0 == 0 {
        return 0;
    }
    let mut k: u8 = 1;
    while k < len
        invariant
            1 <= k <= len,
            start + (len - 1) as int * step as int <= 80,
            t0 == cell_digit(id as int, start as int),
            0 < t0 < 3,
            forall|j: int| 0 <= j < k ==> #[trigger] cell_digit(id as int, start + j * step) == t0,
        decreases len - k,
    {
        proof {
            assert((k as int) * (step as int) <= (len - 1) as int * step as int)
                by (nonlinear_arith)
                requires 1 <= k as int <= (len - 1) as int, step as int >= 0;
        }
        let c = get_cell(id, start + (k as u32) * step);
        if c != t0 {
            return 0;
        }
        k = k + 1;
    }
    t0
}

/// Winner among rows `r..size`, scanning upward; 0 if none is complete.
pub open spec fn rows_winner(id: int, size: int, r: int) -> int
    decreases size - r,
{
    if r < 0 || r >= size {
        0
    } else if line_winner(id, r * size, 1, size) != 0 {
        line_winner(id, r * size, 1, size)
    } else {
        rows_winner(id, size, r + 1)
    }
}

/// Winner among columns `c..size`, scanning upward; 0 if none is complete.
pub open spec fn cols_winner(id: int, size: int, c: int) -> int
    decreases size - c,
{
    if c < 0 || c >= size {
        0
    } else if line_winner(id, c, size, size) != 0 {
        line_winner(id, c, size, size)
    } else {
        cols_winner(id, size, c + 1)
    }
}

/// Winner of the main diagonal, else of the anti-diagonal; 0 if neither is
/// complete.
pub open spec fn diags_winner(id: int, size: int) -> int {
    if line_winner(id, 0, size + 1, size) != 0 {
        line_winner(id, 0, size + 1, size)
    } else {
        line_winner(id, size - 1, size - 1, size)
    }
}

/// The winner verdict for state `id`: rows are checked first, then columns,
/// then the two diagonals; 0 means no line is complete.
pub open spec fn winner_spec(id: int, size: int) -> int {
    if rows_winner(id, size, 0) != 0 {
        rows_winner(id, size, 0)
    } else if cols_winner(id, size, 0) != 0 {
        cols_winner(id, size, 0)
    } else {
        diags_winner(id, size)
    }
}

/// Winner among the rows of state `id`.
pub fn get_winner_row(id: &NodeIndex, size: u8) -> (w: u8)
    requires
        1 <= size <= 8,
    ensures
        w == rows_winner(*id as int, size as int, 0),
        w < 3,
{
    let mut row: u8 = 0;
    while row < size
        invariant
            row <= size,
            1 <= size <= 8,
            rows_winner(*id as int, size as int, 0) == rows_winner(*id as int, size as int, row as int),
        decreases size - row,
    {
        proof {
            assert((row as int) * (size as int) + (size as int - 1) <= 63) by (nonlinear_arith)
                requires 0 <= row as int, (row as int) < (size as int), size as int <= 8;
        }
        let t = line_team(*id, (row as u32) * (size as u32), 1, size);
        if t != 0 {
            return t;
        }
        row = row + 1;
    }
    0
}

/// Winner among the columns of state `id`.
pub fn get_winner_col(id: &NodeIndex, size: u8) -> (w: u8)
    requires
        1 <= size <= 8,
    ensures
        w == cols_winner(*id as int, size as int, 0),
        w < 3,
{
    let mut col: u8 = 0;
    while col < size
        invariant
            col <= size,
            1 <= size <= 8,
            cols_winner(*id as int, size as int, 0) == cols_winner(*id as int, size as int, col as int),
        decreases size - col,
    {
        proof {
            assert(col as int + (size as int - 1) * (size as int) <= 63) by (nonlinear_arith)
                requires 0 <= col as int, (col as int) < (size as int), size as int <= 8;
        }
        let t = line_team(*id, col as u32, size as u32, size);
        if t != 0 {
            return t;
        }
        col = col + 1;
    }
    0
}

/// Winner among the two diagonals of state `id`, main diagonal first.
pub fn get_winner_diag(id: &NodeIndex, size: u8) -> (w: u8)
    requires
        1 <= size <= 8,
    ensures
        w == diags_winner(*id as int, size as int),
        w < 3,
{
    proof {
        assert((size as int - 1) * (size as int + 1) <= 63) by (nonlinear_arith)
            requires 1 <= size as int <= 8;
        assert((size as int - 1) + (size as int - 1) * (size as int - 1) <= 63) by (nonlinear_arith)
            requires 1 <= size as int <= 8;
    }
    let t = line_team(*id, 0, (size as u32) + 1, size);
    if t != 0 {
        return t;
    }
    line_team(*id, (size as u32) - 1, (size as u32) - 1, size)
}

/// The winner verdict for state `id`: 1 or 2 for a complete line of that
/// team, 0 if no line is complete.
pub fn get_winner(id: &NodeIndex, size: u8) -> (w: u8)
    requires
        1 <= size <= 8,
    ensures
        w == winner_spec(*id as int, size as int),
        w < 3,
{
    let winner = get_winner_row(id, size);
    if winner != 0 {
        return winner;
    }
    let winner = get_winner_col(id, size);
    if winner != 0 {
        return winner;
    }
    get_winner_diag(id, size)
}

/// Writing digit `c` into empty cell `n` of `id` sets that digit and leaves
/// every other digit unchanged.
pub proof fn lemma_write_cell(id: int, n: int, c: int)
    requires
        0 <= id,
        0 <= n,
        cell_digit(id, n) == 0,
        0 <= c < 3,
    ensures
        forall|j: int|
            0 <= j ==> #[trigger] cell_digit(id + c * pow(3, n as nat), j) == if j == n {
                c
            } else {
                cell_digit(id, j)
            },
{
    let p = pow(3, n as nat);
    let x = id + c * p;
    lemma_pow_positive(3, n as nat);
    let a = id % p;
    let b = id / p;
    lemma_fundamental_div_mod(id, p);
    lemma_mod_division_less_than_divisor(id, p);
    assert(b % 3 == 0);
    let b2 = b / 3;
    lemma_fundamental_div_mod(b, 3);
    assert forall|j: int|
        0 <= j implies #[trigger] cell_digit(x, j) == if j == n {
        c
    } else {
        cell_digit(id, j)
    } by {
        let d = pow(3, j as nat);
        lemma_pow_positive(3, j as nat);
        if j < n {
            let e = pow(3, (n - j) as nat);
            lemma_pow_adds(3, j as nat, (n - j) as nat);
            lemma_pow_positive(3, (n - j) as nat);
            lemma_fundamental_div_mod(id, d);
            lemma_mod_division_less_than_divisor(id, d);
            assert(x == d * (id / d + c * e) + id % d) by (nonlinear_arith)
                requires
                    id == d * (id / d) + id % d,
                    p == d * e,
                    x == id + c * p,
            ;
            lemma_fundamental_div_mod_converse_div(x, d, id / d + c * e, id % d);
            let e1 = pow(3, (n - j - 1) as nat);
            lemma_pow1(3);
            lemma_pow_adds(3, 1, (n - j - 1) as nat);
            lemma_mod_multiples_vanish(c * e1, id / d, 3);
            assert(x / d == 3 * (c * e1) + id / d) by (nonlinear_arith)
                requires
                    x / d == id / d + c * e,
                    e == 3 * e1,
            ;
        } else if j == n {
            assert(x == p * (b + c) + a) by (nonlinear_arith)
                requires
                    id == p * b + a,
                    x == id + c * p,
            ;
            lemma_fundamental_div_mod_converse_div(x, p, b + c, a);
            lemma_mod_multiples_vanish(b2, c, 3);
            lemma_small_mod(c as nat, 3);
            assert(b + c == 3 * b2 + c);
        } else {
            let p3 = pow(3, (n + 1) as nat);
            lemma_pow1(3);
            lemma_pow_adds(3, n as nat, 1);
            lemma_pow_positive(3, (n + 1) as nat);
            assert(id == p3 * b2 + a) by (nonlinear_arith)
                requires
                    id == p * b + a,
                    b == 3 * b2,
                    p3 == p * 3,
            ;
            assert(x == p3 * b2 + (a + c * p)) by (nonlinear_arith)
                requires
                    id == p3 * b2 + a,
                    x == id + c * p,
            ;
            assert(0 <= a + c * p < p3) by (nonlinear_arith)
                requires
                    0 <= a < p,
                    0 <= c < 3,
                    p3 == p * 3,
                    p > 0,
            ;
            lemma_fundamental_div_mod_converse_div(id, p3, b2, a);
            lemma_fundamental_div_mod_converse_div(x, p3, b2, a + c * p);
            let f = pow(3, (j - n - 1) as nat);
            lemma_pow_adds(3, (n + 1) as nat, (j - n - 1) as nat);
            lemma_pow_positive(3, (j - n - 1) as nat);
            lemma_div_denominator(x, p3, f);
            lemma_div_denominator(id, p3, f);
            assert(x / d == b2 / f);
            assert(id / d == b2 / f);
        }
    }
}

/// Writing into an empty cell below `cells` keeps the identifier below
/// `pow(3, cells)`.
pub proof fn lemma_write_cell_bound(id: int, n: int, c: int, cells: nat)
    requires
        0 <= id < pow(3, cells),
        0 <= n < cells,
        cell_digit(id, n) == 0,
        0 <= c < 3,
    ensures
        id <= id + c * pow(3, n as nat) < pow(3, cells),
{
    let p = pow(3, n as nat);
    let p3 = pow(3, (n + 1) as nat);
    let x = id + c * p;
    lemma_pow_positive(3, n as nat);
    lemma_pow_positive(3, (n + 1) as nat);
    lemma_pow1(3);
    lemma_pow_adds(3, n as nat, 1);
    let a = id % p;
    let b = id / p;
    lemma_fundamental_div_mod(id, p);
    lemma_mod_division_less_than_divisor(id, p);
    assert(b % 3 == 0);
    let b2 = b / 3;
    lemma_fundamental_div_mod(b, 3);
    assert(id == p3 * b2 + a && x == p3 * b2 + (a + c * p) && 0 <= a + c * p < p3)
        by (nonlinear_arith)
        requires
            id == p * b + a,
            b == 3 * b2,
            p3 == p * 3,
            0 <= a < p,
            0 <= c < 3,
            x == id + c * p,
            p > 0,
    ;
    let g = pow(3, (cells - n - 1) as nat);
    lemma_pow_adds(3, (n + 1) as nat, (cells - n - 1) as nat);
    lemma_pow_positive(3, (cells - n - 1) as nat);
    assert(id < p3 * g) by (nonlinear_arith)
        requires
            id < pow(3, cells),
            pow(3, cells) == p3 * g,
    ;
    lemma_multiply_divide_lt(id, p3, g);
    lemma_fundamental_div_mod_converse_div(id, p3, b2, a);
    assert(b2 < g);
    assert(x < p3 * g) by (nonlinear_arith)
        requires
            x == p3 * b2 + (a + c * p),
            0 <= a + c * p < p3,
            b2 < g,
            p3 > 0,
    ;
    assert(c * p >= 0) by (nonlinear_arith)
        requires
            c >= 0,
            p > 0,
    ;
}

/// Number of non-empty cells among cells `0..cells` of `id`: the ply count
/// of the state.
pub open spec fn ply_of(id: int, cells: nat) -> nat
    decreases cells,
{
    if cells == 0 {
        0
    } else {
        ply_of(id, (cells - 1) as nat) + if cell_digit(id, cells - 1) != 0 {
            1 as nat
        } else {
            0 as nat
        }
    }
}

proof fn lemma_ply_eq(x: int, y: int, m: nat)
    requires
        forall|j: int| 0 <= j < m ==> cell_digit(x, j) == cell_digit(y, j),
    ensures
        ply_of(x, m) == ply_of(y, m),
    decreases m,
{
    if m > 0 {
        lemma_ply_eq(x, y, (m - 1) as nat);
    }
}

/// A move into an empty cell raises the ply count by exactly one.
pub proof fn lemma_write_cell_ply(id: int, n: int, c: int, cells: nat)
    requires
        0 <= id,
        0 <= n < cells,
        cell_digit(id, n) == 0,
        1 <= c < 3,
    ensures
        ply_of(id + c * pow(3, n as nat), cells) == ply_of(id, cells) + 1,
    decreases cells,
{
    let x = id + c * pow(3, n as nat);
    lemma_write_cell(id, n, c);
    if cells == n + 1 {
        lemma_ply_eq(x, id, n as nat);
    } else {
        lemma_write_cell_ply(id, n, c, (cells - 1) as nat);
    }
}

/// The ply count never exceeds the number of cells.
pub proof fn lemma_ply_le_cells(id: int, cells: nat)
    ensures
        ply_of(id, cells) <= cells,
    decreases cells,
{
    if cells > 0 {
        lemma_ply_le_cells(id, (cells - 1) as nat);
    }
}

/// The identifier whose digits are the board `s`, cell 0 least significant.
pub open spec fn encode_spec(s: Seq<u8>) -> int
    decreases s.len(),
{
    if s.len() == 0 {
        0
    } else {
        encode_spec(s.drop_last()) + (s.last() as int) * pow(3, (s.len() - 1) as nat)
    }
}

/// The board of `n` cells read off the digits of `id`.
pub open spec fn decode_spec(id: int, n: nat) -> Seq<u8> {
    Seq::new(n, |i: int| cell_digit(id, i) as u8)
}

/// The encoding of a board is bounded by `pow(3, len)` and reproduces the
/// board, digit by digit: encoding and decoding are mutually inverse.
pub proof fn lemma_encode_digits(s: Seq<u8>)
    requires
        forall|i: int| 0 <= i < s.len() ==> s[i] < 3,
    ensures
        0 <= encode_spec(s) < pow(3, s.len() as nat),
        forall|i: int|
            0 <= i ==> #[trigger] cell_digit(encode_spec(s), i) == if i < s.len() {
                s[i] as int
            } else {
                0
            },
    decreases s.len(),
{
    vstd::arithmetic::power::lemma_pow0(3);
    if s.len() == 0 {
        assert forall|i: int| 0 <= i implies #[trigger] cell_digit(0, i) == 0 by {
            lemma_pow_positive(3, i as nat);
            lemma_div_of0(pow(3, i as nat));
        }
    } else {
        let s0 = s.drop_last();
        let n = s.len() - 1;
        let c = s.last() as int;
        lemma_encode_digits(s0);
        lemma_pow_increases(3, s0.len() as nat, s.len() as nat);
        lemma_write_cell(encode_spec(s0), n, c);
        lemma_write_cell_bound(encode_spec(s0), n, c, s.len() as nat);
    }
}

/// Decoding an encoded board gives the board back.
pub proof fn lemma_decode_encode(s: Seq<u8>)
    requires
        forall|i: int| 0 <= i < s.len() ==> s[i] < 3,
    ensures
        decode_spec(encode_spec(s), s.len()) == s,
{
    lemma_encode_digits(s);
    assert(decode_spec(encode_spec(s), s.len()) =~= s);
}

/// Packs a board, given as one digit per cell, into a state identifier.
pub fn encode(board: &Vec<u8>) -> (id: NodeIndex)
    requires
        board@.len() <= 80,
        forall|i: int| 0 <= i < board@.len() ==> board@[i] < 3,
    ensures
        id as int == encode_spec(board@),
{
    let ghost s = board@;
    let mut acc: u128 = 0;
    let mut i: usize = 0;
    proof {
        vstd::arithmetic::power::lemma_pow0(3);
    }
    while i < board.len()
        invariant
            0 <= i <= s.len() <= 80,
            s == board@,
            forall|k: int| 0 <= k < s.len() ==> s[k] < 3,
            acc as int == encode_spec(s.take(i as int)),
        decreases s.len() - i,
    {
        proof {
            assert(s.take(i as int + 1).drop_last() =~= s.take(i as int));
            assert(s.take(i as int + 1).last() == s[i as int]);
            lemma_encode_digits(s.take(i as int));
            lemma_encode_digits(s.take(i as int + 1));
            lemma_pow_increases(3, (i + 1) as nat, 80);
            lemma_pow3_80_value();
        }
        let d = board[i];
        acc = acc + (d as u128) * pow3(i as u32);
        i = i + 1;
    }
    proof {
        assert(s.take(s.len() as int) =~= s);
    }
    acc
}

/// Unpacks a state identifier into its first `n` cells, one digit per cell.
pub fn decode(id: NodeIndex, n: usize) -> (board: Vec<u8>)
    requires
        n <= 80,
    ensures
        board@ == decode_spec(id as int, n as nat),
{
    let mut board: Vec<u8> = Vec::new();
    let mut i: usize = 0;
    while i < n
        invariant
            0 <= i <= n <= 80,
            board@.len() == i,
            forall|k: int| 0 <= k < i ==> board@[k] == cell_digit(id as int, k) as u8,
        decreases n - i,
    {
        let d = get_cell(id, i as u32);
        board.push(d);
        i = i + 1;
    }
    proof {
        assert(board@ =~= decode_spec(id as int, n as nat));
    }
    board
}

/// The ordered candidate child states of `id` when `team` moves, scanning
/// cells `0..i`: one new identifier for every empty cell.
pub open spec fn child_states_spec(id: int, team: int, i: nat) -> Seq<NodeIndex>
    decreases i,
{
    if i == 0 {
        Seq::empty()
    } else {
        child_states_spec(id, team, (i - 1) as nat) + if cell_digit(id, i - 1) == 0 {
            seq![(id + team * pow(3, (i - 1) as nat)) as NodeIndex]
        } else {
            Seq::empty()
        }
    }
}

/// Facts about the candidate children of a valid state: each is a valid
/// identifier one ply deeper, they are strictly increasing (hence pairwise
/// distinct and distinct from `id`), and there is one per empty cell.
pub proof fn lemma_child_states_props(id: int, team: int, i: nat, cells: nat)
    requires
        0 <= id < pow(3, cells),
        1 <= team <= 2,
        i <= cells,
        cells <= 80,
    ensures
        ({
            let cs = child_states_spec(id, team, i);
            &&& forall|j: int| 0 <= j < cs.len() ==> id < #[trigger] cs[j] as int
            &&& forall|j: int| 0 <= j < cs.len() ==> ((#[trigger] cs[j]) as int) < id + team * pow(3, i)
            &&& forall|j: int| 0 <= j < cs.len() ==> ((#[trigger] cs[j]) as int) < pow(3, cells)
            &&& forall|j: int|
                0 <= j < cs.len() ==> ply_of(#[trigger] cs[j] as int, cells) == ply_of(id, cells)
                    + 1
            &&& forall|j1: int, j2: int| 0 <= j1 < j2 < cs.len() ==> cs[j1] < cs[j2]
            &&& cs.len() + ply_of(id, i) == i
        }),
    decreases i,
{
    lemma_pow3_80_value();
    lemma_pow_increases(3, cells, 80);
    lemma_pow_positive(3, i as nat);
    if i > 0 {
        lemma_child_states_props(id, team, (i - 1) as nat, cells);
        let cs0 = child_states_spec(id, team, (i - 1) as nat);
        let cs = child_states_spec(id, team, i);
        lemma_pow_positive(3, (i - 1) as nat);
        lemma_pow_strictly_increases(3, (i - 1) as nat, i);
        assert(team * pow(3, (i - 1) as nat) < team * pow(3, i)) by (nonlinear_arith)
            requires
                1 <= team,
                0 < pow(3, (i - 1) as nat) < pow(3, i),
        ;
        if cell_digit(id, i - 1) == 0 {
            let x = id + team * pow(3, (i - 1) as nat);
            lemma_write_cell_bound(id, i - 1, team, cells);
            lemma_write_cell_ply(id, i - 1, team, cells);
            assert(0 < team * pow(3, (i - 1) as nat)) by (nonlinear_arith)
                requires
                    1 <= team,
                    0 < pow(3, (i - 1) as nat),
            ;
            assert(x as NodeIndex as int == x);
            assert(cs == cs0 + seq![x as NodeIndex]);
        } else {
            assert(cs == cs0 + Seq::<NodeIndex>::empty());
            assert(cs =~= cs0);
        }
    }
}

/// The ordered candidate children of `id` when `team` moves: for every empty
/// cell, in ascending cell order, the identifier with `team`'s digit written
/// into that cell.
pub fn enumerate_moves(id: NodeIndex, team: u8, size: u8) -> (v: Vec<NodeIndex>)
    requires
        1 <= size <= 8,
        1 <= team <= 2,
        (id as int) < pow(3, (size as nat * size as nat)),
    ensures
        v@ == child_states_spec(id as int, team as int, (size as nat * size as nat)),
{
    proof {
        assert((size as int) * (size as int) <= 64) by (nonlinear_arith)
            requires
                1 <= size as int <= 8,
        ;
    }
    let cells: u32 = (size as u32) * (size as u32);
    proof {
        assert(cells as nat == size as nat * size as nat);
        assert(cells <= 64) by (nonlinear_arith)
            requires
                cells as int == (size as int) * (size as int),
                1 <= size as int <= 8,
        ;
    }
    let mut v: Vec<NodeIndex> = Vec::new();
    let mut i: u32 = 0;
    while i < cells
        invariant
            0 <= i <= cells <= 64,
            1 <= team <= 2,
            cells as nat == size as nat * size as nat,
            (id as int) < pow(3, cells as nat),
            v@ == child_states_spec(id as int, team as int, i as nat),
        decreases cells - i,
    {
        let d = get_cell(id, i);
        if d == 0 {
            proof {
                lemma_write_cell_bound(id as int, i as int, team as int, cells as nat);
                lemma_pow3_80_value();
                lemma_pow_increases(3, cells as nat, 80);
            }
            v.push(id + (team as u128) * pow3(i));
        }
        proof {
            assert(v@ == child_states_spec(id as int, team as int, (i + 1) as nat));
        }
        i = i + 1;
    }
    v
}

/// Every digit of the empty board is 0.
pub proof fn lemma_zero_digits(j: int)
    ensures
        cell_digit(0, j) == 0,
{
    lemma_pow_positive(3, j as nat);
    lemma_div_of0(pow(3, j as nat));
}

/// The empty board is at ply 0.
pub proof fn lemma_ply_zero(cells: nat)
    ensures
        ply_of(0, cells) == 0,
    decreases cells,
{
    if cells > 0 {
        lemma_ply_zero((cells - 1) as nat);
        lemma_zero_digits(cells - 1);
    }
}

proof fn lemma_empty_rows(size: int, r: int)
    ensures
        rows_winner(0, size, r) == 0,
    decreases size - r,
{
    if 0 <= r && r < size {
        lemma_zero_digits(r * size);
        lemma_empty_rows(size, r + 1);
    }
}

proof fn lemma_empty_cols(size: int, c: int)
    ensures
        cols_winner(0, size, c) == 0,
    decreases size - c,
{
    if 0 <= c && c < size {
        lemma_zero_digits(c);
        lemma_empty_cols(size, c + 1);
    }
}

/// The all-empty board has no winner, whatever the board size.
pub proof fn lemma_empty_board_no_winner(size: int)
    ensures
        winner_spec(0, size) == 0,
{
    lemma_empty_rows(size, 0);
    lemma_empty_cols(size, 0);
    lemma_zero_digits(0);
    lemma_zero_digits(size - 1);
}

/// A state offers no moves exactly when its board is full: every candidate
/// child comes from an empty cell.
pub proof fn lemma_no_moves_iff_full(id: int, team: int, cells: nat)
    requires
        0 <= id < pow(3, cells),
        1 <= team <= 2,
        cells <= 80,
    ensures
        child_states_spec(id, team, cells).len() == 0 <==> ply_of(id, cells) == cells,
{
    lemma_child_states_props(id, team, cells, cells);
    lemma_ply_le_cells(id, cells);
}

/// The concrete store for the n-in-a-row game: a node map, the three stage
/// counters, the insertion order of the identifiers, and the board size.
pub struct TTTCompilation {
    pub nodes: NodeMap,
    pub ids: Vec<NodeIndex>,
    pub nodes_processed: usize,
    pub winners_processed: usize,
    pub nodes_scored: usize,
    pub board_size: u8,
}

impl TTTCompilation {
    /// A fresh store for the default 3x3 board.
    pub fn new() -> (c: TTTCompilation)
        ensures
            c.inv(),
            c.node_map() == Map::<NodeIndex, Node>::empty(),
            c.id_list() == Seq::<NodeIndex>::empty(),
            c.processed_count() == 0,
            c.winners_count() == 0,
            c.scored_count() == 0,
            c.board_size == 3,
    {
        TTTCompilation {
            nodes: HashMap::new(),
            ids: Vec::new(),
            nodes_processed: 0,
            winners_processed: 0,
            nodes_scored: 0,
            board_size: 3,
        }
    }

    /// Configures the board size.
    pub fn set_board_size(&mut self, size: u8)
        requires
            old(self).inv(),
            1 <= size <= 8,
        ensures
            final(self).inv(),
            final(self).board_size == size,
            final(self).node_map() == old(self).node_map(),
            final(self).id_list() == old(self).id_list(),
            counters_same(*old(self), *final(self)),
    {
        self.board_size = size;
    }
}

impl Compilation for TTTCompilation {
    open spec fn node_map(&self) -> Map<NodeIndex, Node> {
        self.nodes@
    }

    open spec fn cfg(&self) -> int {
        self.board_size as int
    }

    open spec fn inv(&self) -> bool {
        &&& 1 <= self.board_size <= 8
        &&& forall|i: int|
            0 <= i < self.ids@.len() ==> self.nodes@.dom().contains(#[trigger] self.ids@[i])
        &&& forall|k: NodeIndex| #[trigger] self.nodes@.dom().contains(k) ==> self.ids@.contains(k)
        &&& forall|i: int, j: int| 0 <= i < j < self.ids@.len() ==> self.ids@[i] != self.ids@[j]
    }

    open spec fn id_list(&self) -> Seq<NodeIndex> {
        self.ids@
    }

    open spec fn processed_count(&self) -> usize {
        self.nodes_processed
    }

    open spec fn winners_count(&self) -> usize {
        self.winners_processed
    }

    open spec fn scored_count(&self) -> usize {
        self.nodes_scored
    }

    open spec fn winner_of(cfg: int, id: NodeIndex) -> u8 {
        if 1 <= cfg <= 8 {
            winner_spec(id as int, cfg) as u8
        } else {
            0
        }
    }

    open spec fn child_states_of(cfg: int, id: NodeIndex, team: u8) -> Seq<NodeIndex> {
        if 1 <= cfg <= 8 {
            child_states_spec(id as int, team as int, (cfg * cfg) as nat)
        } else {
            Seq::empty()
        }
    }

    open spec fn valid_id(cfg: int, id: NodeIndex) -> bool {
        1 <= cfg <= 8 && (id as int) < pow(3, (cfg * cfg) as nat)
    }

    open spec fn id_level(cfg: int, id: NodeIndex) -> nat {
        ply_of(id as int, (cfg * cfg) as nat)
    }

    open spec fn default_cfg() -> int {
        3
    }

    proof fn lemma_root(&self) {
        lemma_pow_positive(3, (self.cfg() * self.cfg()) as nat);
        lemma_ply_zero((self.cfg() * self.cfg()) as nat);
    }

    proof fn lemma_child_states(cfg: int, id: NodeIndex, team: u8) {
        let cells = (cfg * cfg) as nat;
        assert(cells <= 64) by (nonlinear_arith)
            requires
                1 <= cfg <= 8,
                cells == (cfg * cfg) as nat,
        ;
        lemma_child_states_props(id as int, team as int, cells, cells);
        lemma_ply_le_cells(id as int, cells);
        let cs = child_states_spec(id as int, team as int, cells);
        assert forall|j: int| 0 <= j < cs.len() implies {
            let c = #[trigger] Self::child_states_of(cfg, id, team)[j];
            &&& Self::valid_id(cfg, c)
            &&& Self::id_level(cfg, c) == Self::id_level(cfg, id) + 1
            &&& c != id
        } by {
            assert(id < cs[j]);
        }
    }

    fn inc_nodes_processed(&mut self) {
        self.nodes_processed = self.nodes_processed + 1;
    }

    fn get_nodes_processed(&self) -> usize {
        self.nodes_processed
    }

    fn inc_winners_processed(&mut self) {
        self.winners_processed = self.winners_processed + 1;
    }

    fn get_winners_processed(&self) -> usize {
        self.winners_processed
    }

    fn inc_nodes_scored(&mut self) {
        self.nodes_scored = self.nodes_scored + 1;
    }

    fn get_nodes_scored(&self) -> usize {
        self.nodes_scored
    }

    fn get_node<'a>(&'a self, id: NodeIndex) -> Option<&'a Node> {
        self.nodes.get(&id)
    }

    fn insert_node(&mut self, id: NodeIndex, n: Node) {
        if !self.nodes.contains_key(&id) {
            self.nodes.insert(id, n);
            self.ids.push(id);
            proof {
                assert forall|k: NodeIndex| #[trigger]
                    self.nodes@.dom().contains(k) implies self.ids@.contains(k) by {
                    if k == id {
                        assert(self.ids@[self.ids@.len() - 1] == k);
                    } else {
                        let i = choose|i: int|
                            0 <= i < old(self).ids@.len() && old(self).ids@[i] == k;
                        assert(self.ids@[i] == k);
                    }
                }
            }
        }
    }

    fn contains_node(&self, id: &NodeIndex) -> bool {
        self.nodes.contains_key(id)
    }

    fn get_cloned_map(&self) -> NodeMap {
        self.nodes.clone()
    }

    fn get_node_ids(&self) -> Vec<NodeIndex> {
        let mut v: Vec<NodeIndex> = Vec::new();
        let mut i: usize = 0;
        while i < self.ids.len()
            invariant
                0 <= i <= self.ids@.len(),
                v@ == self.ids@.take(i as int),
            decreases self.ids@.len() - i,
        {
            v.push(self.ids[i]);
            proof {
                assert(v@ =~= self.ids@.take(i + 1));
            }
            i = i + 1;
        }
        proof {
            assert(v@ =~= self.ids@);
        }
        v
    }

    fn get_winner(&self, id: &NodeIndex) -> u8 {
        get_winner(id, self.board_size)
    }

    fn get_child_states(&self, id: NodeIndex, team: u8) -> Vec<NodeIndex> {
        proof {
            assert((self.board_size as int) * (self.board_size as int) == self.cfg() * self.cfg());
        }
        enumerate_moves(id, team, self.board_size)
    }

    fn append_parent(&mut self, id: NodeIndex, parent: NodeIndex) {
        let mut n = self.nodes.remove(&id).unwrap();
        n.parents.push(parent);
        self.nodes.insert(id, n);
        proof {
            assert(self.nodes@.dom() =~= old(self).nodes@.dom());
        }
    }

    fn append_child(&mut self, id: NodeIndex, child: NodeIndex) {
        let mut n = self.nodes.remove(&id).unwrap();
        n.children.push(child);
        self.nodes.insert(id, n);
        proof {
            assert(self.nodes@.dom() =~= old(self).nodes@.dom());
        }
    }

    fn set_score(&mut self, id: NodeIndex, score: i8) {
        let mut n = self.nodes.remove(&id).unwrap();
        n.score = score;
        self.nodes.insert(id, n);
        proof {
            assert(self.nodes@.dom() =~= old(self).nodes@.dom());
        }
    }

    fn reset(&mut self) {
        self.nodes = HashMap::new();
        self.ids = Vec::new();
        self.nodes_processed = 0;
        self.winners_processed = 0;
        self.nodes_scored = 0;
        self.board_size = 3;
    }
}

} // verus!

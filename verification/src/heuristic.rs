use vstd::prelude::*;

use crate::board::Board;

verus! {

/// Integer power of ten.
pub open spec fn pow10(k: int) -> int
    decreases k,
{
    if k <= 0 {
        1
    } else {
        10 * pow10(k - 1)
    }
}

/// Length of the contiguous run of side `s` starting at index i of a line.
pub open spec fn run_len(line: Seq<i8>, s: i8, i: int) -> int
    decreases line.len() - i,
{
    if i < 0 || i >= line.len() || line[i] != s {
        0
    } else {
        1 + run_len(line, s, i + 1)
    }
}

/// Index i begins a maximal run of side `s`.
pub open spec fn run_start(line: Seq<i8>, s: i8, i: int) -> bool {
    0 <= i < line.len() && line[i] == s && (i == 0 || line[i - 1] != s)
}

/// The score of the maximal run starting at i: a run of length l > 1 scores
/// 1.2 * 10^l (written exactly as 12 * 10^(l-1)) when both ends are empty,
/// 10^l when exactly one end is empty, and nothing when neither is.
pub open spec fn streak_score(line: Seq<i8>, s: i8, i: int) -> int {
    let l = run_len(line, s, i);
    let left_open = i > 0 && line[i - 1] == 0;
    let right_open = i + l < line.len() && line[i + l] == 0;
    if l < 2 {
        0
    } else if left_open && right_open {
        12 * pow10(l - 1)
    } else if left_open || right_open {
        pow10(l)
    } else {
        0
    }
}

/// Sum of the scores of the maximal runs of `s` starting at index i or later.
pub open spec fn score_from(line: Seq<i8>, s: i8, i: int) -> int
    decreases line.len() - i,
{
    if i < 0 || i >= line.len() {
        0
    } else {
        (if run_start(line, s, i) {
            streak_score(line, s, i)
        } else {
            0
        }) + score_from(line, s, i + 1)
    }
}

/// The streak score of one whole line.
pub open spec fn line_score(line: Seq<i8>, s: i8) -> int {
    score_from(line, s, 0)
}

/// Row y of the board, west to east.
pub open spec fn row_seq(b: Board, y: int) -> Seq<i8> {
    Seq::new(b.shape as nat, |i: int| b.cell(i, y))
}

/// Column x of the board, north to south.
pub open spec fn col_seq(b: Board, x: int) -> Seq<i8> {
    Seq::new(b.shape as nat, |i: int| b.cell(x, i))
}

/// Falling diagonal number d (of 2*shape - 1), north-west to south-east.
pub open spec fn fall_seq(b: Board, d: int) -> Seq<i8> {
    let n = b.shape as int;
    let c = d - (n - 1);
    let x0 = if c >= 0 {
        c
    } else {
        0
    };
    let y0 = x0 - c;
    let len = n - (if c >= 0 {
        c
    } else {
        -c
    });
    Seq::new(len as nat, |i: int| b.cell(x0 + i, y0 + i))
}

/// Rising diagonal number d (of 2*shape - 1), south-west to north-east.
pub open spec fn rise_seq(b: Board, d: int) -> Seq<i8> {
    let n = b.shape as int;
    let x0 = if d - (n - 1) >= 0 {
        d - (n - 1)
    } else {
        0
    };
    let xmax = if d < n - 1 {
        d
    } else {
        n - 1
    };
    Seq::new((xmax - x0 + 1) as nat, |i: int| b.cell(x0 + i, d - (x0 + i)))
}

/// Streak scores of rows y and later.
pub open spec fn rows_from(b: Board, s: i8, y: int) -> int
    decreases b.shape - y,
{
    if y < 0 || y >= b.shape {
        0
    } else {
        line_score(row_seq(b, y), s) + rows_from(b, s, y + 1)
    }
}

/// Streak scores of columns x and later.
pub open spec fn cols_from(b: Board, s: i8, x: int) -> int
    decreases b.shape - x,
{
    if x < 0 || x >= b.shape {
        0
    } else {
        line_score(col_seq(b, x), s) + cols_from(b, s, x + 1)
    }
}

/// Streak scores of falling diagonals d and later.
pub open spec fn falls_from(b: Board, s: i8, d: int) -> int
    decreases 2 * b.shape - 1 - d,
{
    if d < 0 || d >= 2 * b.shape - 1 {
        0
    } else {
        line_score(fall_seq(b, d), s) + falls_from(b, s, d + 1)
    }
}

/// Streak scores of rising diagonals d and later.
pub open spec fn rises_from(b: Board, s: i8, d: int) -> int
    decreases 2 * b.shape - 1 - d,
{
    if d < 0 || d >= 2 * b.shape - 1 {
        0
    } else {
        line_score(rise_seq(b, d), s) + rises_from(b, s, d + 1)
    }
}

/// The heuristic value of `s`'s position: the streak scores of all four line
/// families summed.
pub open spec fn heur(b: Board, s: i8) -> int {
    rows_from(b, s, 0) + cols_from(b, s, 0) + falls_from(b, s, 0) + rises_from(b, s, 0)
}

proof fn lemma_pow10_mono(a: int, b: int)
    requires
        a <= b,
    ensures
        pow10(a) <= pow10(b),
        1 <= pow10(a),
    decreases b,
{
    if b > 0 {
        if a == b {
            lemma_pow10_mono(a - 1, b - 1);
        } else {
            lemma_pow10_mono(a, b - 1);
        }
    }
}

pub proof fn lemma_pow10_32()
    ensures
        pow10(32) == 100000000000000000000000000000000,
{
    reveal_with_fuel(pow10, 33);
}

/// A run never runs past the end of the line.
proof fn lemma_run_len_bound(line: Seq<i8>, s: i8, i: int)
    ensures
        0 <= run_len(line, s, i) <= line.len() - i || run_len(line, s, i) == 0,
    decreases line.len() - i,
{
    if !(i < 0 || i >= line.len() || line[i] != s) {
        lemma_run_len_bound(line, s, i + 1);
    }
}

/// One streak of a line of length at most 32 scores at most 12 * 10^32.
proof fn lemma_streak_bound(line: Seq<i8>, s: i8, i: int)
    requires
        line.len() <= 32,
    ensures
        0 <= streak_score(line, s, i) <= 12 * pow10(32),
{
    lemma_run_len_bound(line, s, i);
    let l = run_len(line, s, i);
    if l >= 2 {
        lemma_pow10_mono(l - 1, 32);
        lemma_pow10_mono(l, 32);
        lemma_pow10_mono(0, 32);
    } else {
        lemma_pow10_mono(0, 32);
    }
}

/// The suffix score of a line of length at most 32 is at most
/// (len - i) * 12 * 10^32, and never negative.
pub proof fn lemma_score_from_bound(line: Seq<i8>, s: i8, i: int)
    requires
        line.len() <= 32,
        0 <= i <= line.len(),
    ensures
        0 <= score_from(line, s, i) <= (line.len() - i) * (12 * pow10(32)),
    decreases line.len() - i,
{
    lemma_pow10_mono(0, 32);
    if i < line.len() {
        lemma_score_from_bound(line, s, i + 1);
        lemma_streak_bound(line, s, i);
        assert((line.len() - i - 1) * (12 * pow10(32)) + 12 * pow10(32) == (line.len() - i) * (12
            * pow10(32))) by (nonlinear_arith);
    }
}

/// A whole line of length at most 32 scores at most 32 * 12 * 10^32.
pub proof fn lemma_line_score_bound(line: Seq<i8>, s: i8)
    requires
        line.len() <= 32,
    ensures
        0 <= line_score(line, s) <= 32 * (12 * pow10(32)),
{
    lemma_score_from_bound(line, s, 0);
    lemma_pow10_mono(0, 32);
    assert((line.len() - 0) * (12 * pow10(32)) <= 32 * (12 * pow10(32))) by (nonlinear_arith)
        requires
            line.len() <= 32,
            1 <= pow10(32),
    ;
}

/// 10^k, computed exactly.
#[verifier::loop_isolation(false)]
fn pow10_exec(k: u32) -> (r: u128)
    requires
        k <= 32,
    ensures
        r == pow10(k as int),
{
    proof {
        lemma_pow10_32();
    }
    let mut r: u128 = 1;
    let mut t: u32 = 0;
    while t < k
        invariant
            t <= k <= 32,
            r == pow10(t as int),
        decreases k - t,
    {
        proof {
            lemma_pow10_mono(t as int, 31);
            lemma_pow10_mono(31, 32);
        }
        r = r * 10;
        t = t + 1;
    }
    r
}

/// The streak score of one line, scanned left to right.
#[verifier::loop_isolation(false)]
fn line_score_exec(line: &Vec<i8>, side: i8) -> (r: u128)
    requires
        line@.len() <= 32,
    ensures
        r == line_score(line@, side),
{
    proof {
        lemma_pow10_32();
        lemma_score_from_bound(line@, side, 0);
    }
    let n = line.len();
    let mut acc: u128 = 0;
    let mut i: usize = 0;
    while i < n
        invariant
            i <= n,
            line_score(line@, side) == acc + score_from(line@, side, i as int),
            acc >= 0,
        decreases n - i,
    {
        let mut add: u128 = 0;
        if line[i] == side && (i == 0 || line[i - 1] != side) {
            // measure the run that starts here
            let mut j: usize = i;
            while j < n && line[j] == side
                invariant
                    i <= j <= n,
                    run_len(line@, side, i as int) == (j - i) + run_len(line@, side, j as int),
                decreases n - j,
            {
                j = j + 1;
            }
            proof {
                assert(run_len(line@, side, j as int) == 0);
            }
            let l: u32 = (j - i) as u32;
            let left_open = i > 0 && line[i - 1] == 0;
            let right_open = j < n && line[j] == 0;
            if l >= 2 {
                proof {
                    lemma_pow10_mono(l as int - 1, 32);
                    lemma_pow10_mono(l as int, 32);
                }
                if left_open && right_open {
                    add = 12 * pow10_exec(l - 1);
                } else if left_open || right_open {
                    add = pow10_exec(l);
                }
            }
            proof {
                assert(add == streak_score(line@, side, i as int));
            }
        }
        proof {
            lemma_score_from_bound(line@, side, i as int);
            lemma_score_from_bound(line@, side, i as int + 1);
            lemma_streak_bound(line@, side, i as int);
            assert((line@.len() - i) * (12 * pow10(32)) <= 32 * (12 * pow10(32)))
                by (nonlinear_arith)
                requires
                    0 <= i,
                    line@.len() <= 32,
                    1 <= pow10(32),
            ;
        }
        acc = acc + add;
        i = i + 1;
    }
    acc
}

impl Board {
    /// The cells from (x0, y0) along (dx, dy), as one line.
    #[verifier::loop_isolation(false)]
    fn extract_line(&self, x0: u32, y0: u32, dx: u32, dy: i32, n: u32) -> (v: Vec<i8>)
        requires
            self.wf(),
            n <= 46340,
            dx <= 1,
            -1 <= dy <= 1,
            forall|i: int|
                0 <= i < n ==> #[trigger] self.in_range(x0 + i * (dx as int), y0 + i * (dy as int)),
        ensures
            v@ == Seq::new(n as nat, |i: int| self.cell(x0 + i * (dx as int), y0 + i * (dy as int))),
    {
        let mut v: Vec<i8> = Vec::new();
        let mut i: u32 = 0;
        while i < n
            invariant
                i <= n,
                self.wf(),
                dx <= 1,
                -1 <= dy <= 1,
                forall|t: int|
                    0 <= t < n ==> #[trigger] self.in_range(x0 + t * (dx as int), y0 + t * (dy as int)),
                v@.len() == i,
                forall|t: int|
                    0 <= t < i ==> #[trigger] v@[t] == self.cell(
                        x0 + t * (dx as int),
                        y0 + t * (dy as int),
                    ),
            decreases n - i,
        {
            proof {
                assert(self.in_range(
                    x0 + (i as int) * (dx as int),
                    y0 + (i as int) * (dy as int),
                ));
                assert(-46340 <= (i as int) * (dx as int) <= 46340 && -46340 <= (i as int) * (
                dy as int) <= 46340) by (nonlinear_arith)
                    requires
                        0 <= i <= 46340,
                        0 <= dx <= 1,
                        -1 <= dy <= 1,
                ;
            }
            let px: i64 = (x0 as i64) + (i as i64) * (dx as i64);
            let py: i64 = (y0 as i64) + (i as i64) * (dy as i64);
            let c = self.get_at(px as u32, py as u32);
            v.push(c);
            i = i + 1;
        }
        proof {
            assert(v@ =~= Seq::new(
                n as nat,
                |i: int| self.cell(x0 + i * (dx as int), y0 + i * (dy as int)),
            ));
        }
        v
    }

    /// The heuristic value of side `side`'s position: every maximal streak of
    /// length above one, in every row, column and diagonal, scores by its
    /// length and open ends, and the scores are summed.
    #[verifier::loop_isolation(false)]
    pub fn heuristic_value(&self, side: i8) -> (r: u128)
        requires
            self.wf(),
            self.shape <= 32,
        ensures
            r == heur(*self, side),
            r <= 192 * 32 * (12 * pow10(32)),
    {
        let n = self.shape;
        let mut acc: u128 = 0;
        proof {
            lemma_pow10_32();
        }

        // rows
        let mut y: u32 = 0;
        while y < n
            invariant
                y <= n,
                acc + rows_from(*self, side, y as int) == rows_from(*self, side, 0),
                acc >= 0,
                acc <= y * (32 * (12 * pow10(32))),
            decreases n - y,
        {
            proof {
                assert forall|i: int| 0 <= i < n implies #[trigger] self.in_range(
                    0 + i * 1int,
                    (y as int) + i * 0int,
                ) by {}
            }
            let line = self.extract_line(0, y, 1, 0, n);
            proof {
                assert(line@ =~= row_seq(*self, y as int));
                lemma_line_score_bound(line@, side);
                lemma_step_bound(y as int, n as int, 32 * (12 * pow10(32)));
                lemma_unit_mono((y as int) + 1, 192, 32 * (12 * pow10(32)));
            }
            let sc = line_score_exec(&line, side);
            acc = acc + sc;
            y = y + 1;
        }

        // columns
        let ghost rows_total = acc as int;
        let mut x: u32 = 0;
        while x < n
            invariant
                x <= n,
                acc == rows_total + (cols_from(*self, side, 0) - cols_from(*self, side, x as int)),
                rows_total == rows_from(*self, side, 0),
                acc >= 0,
                acc <= (n + x) * (32 * (12 * pow10(32))),
            decreases n - x,
        {
            proof {
                assert forall|i: int| 0 <= i < n implies #[trigger] self.in_range(
                    (x as int) + i * 0int,
                    0 + i * 1int,
                ) by {}
            }
            let line = self.extract_line(x, 0, 0, 1, n);
            proof {
                assert(line@ =~= col_seq(*self, x as int));
                lemma_line_score_bound(line@, side);
                lemma_step_bound((n + x) as int, 2 * n as int, 32 * (12 * pow10(32)));
                lemma_unit_mono((n as int) + (x as int) + 1, 192, 32 * (12 * pow10(32)));
            }
            let sc = line_score_exec(&line, side);
            acc = acc + sc;
            x = x + 1;
        }

        // falling diagonals
        let ghost rc_total = acc as int;
        let mut d: u32 = 0;
        while d < 2 * n - 1
            invariant
                d <= 2 * n - 1,
                acc == rc_total + (falls_from(*self, side, 0) - falls_from(*self, side, d as int)),
                rc_total == rows_from(*self, side, 0) + cols_from(*self, side, 0),
                acc >= 0,
                acc <= (2 * n + d) * (32 * (12 * pow10(32))),
            decreases 2 * n - 1 - d,
        {
            let c: i64 = (d as i64) - (n as i64 - 1);
            let x0: u32 = if c >= 0 {
                c as u32
            } else {
                0
            };
            let y0: u32 = if c >= 0 {
                0
            } else {
                (-c) as u32
            };
            let len: u32 = if c >= 0 {
                n - (c as u32)
            } else {
                n - ((-c) as u32)
            };
            proof {
                assert forall|i: int| 0 <= i < len implies #[trigger] self.in_range(
                    (x0 as int) + i * 1int,
                    (y0 as int) + i * 1int,
                ) by {}
            }
            let line = self.extract_line(x0, y0, 1, 1, len);
            proof {
                assert(line@ =~= fall_seq(*self, d as int));
                lemma_line_score_bound(line@, side);
                lemma_step_bound((2 * n + d) as int, 4 * n as int, 32 * (12 * pow10(32)));
                assert((2 * (n as int) + (d as int) + 1) * (32 * (12 * pow10(32))) <= 192 * (32 * (
                12 * pow10(32)))) by (nonlinear_arith)
                    requires
                        1 <= n <= 32,
                        0 <= d <= 2 * n - 2,
                        1 <= pow10(32),
                ;
            }
            let sc = line_score_exec(&line, side);
            acc = acc + sc;
            d = d + 1;
        }

        // rising diagonals
        proof {
            lemma_unit_mono(2 * (n as int) + (2 * (n as int) - 1), 4 * (n as int), 32 * (12
                * pow10(32)));
        }
        let ghost rcf_total = acc as int;
        let mut e: u32 = 0;
        while e < 2 * n - 1
            invariant
                e <= 2 * n - 1,
                acc == rcf_total + (rises_from(*self, side, 0) - rises_from(*self, side, e as int)),
                rcf_total == rows_from(*self, side, 0) + cols_from(*self, side, 0) + falls_from(
                    *self,
                    side,
                    0,
                ),
                acc >= 0,
                acc <= (4 * n + e) * (32 * (12 * pow10(32))),
            decreases 2 * n - 1 - e,
        {
            let x0: u32 = if e >= n {
                e - (n - 1)
            } else {
                0
            };
            let xmax: u32 = if e < n - 1 {
                e
            } else {
                n - 1
            };
            let y0: u32 = e - x0;
            let len: u32 = xmax - x0 + 1;
            proof {
                assert forall|i: int| 0 <= i < len implies #[trigger] self.in_range(
                    (x0 as int) + i * 1int,
                    (y0 as int) + i * (-1int),
                ) by {}
            }
            let line = self.extract_line(x0, y0, 1, -1, len);
            proof {
                assert(line@ =~= rise_seq(*self, e as int));
                lemma_line_score_bound(line@, side);
                lemma_step_bound((4 * n + e) as int, 6 * n as int, 32 * (12 * pow10(32)));
                assert((4 * (n as int) + (e as int) + 1) * (32 * (12 * pow10(32))) <= 192 * (32 * (
                12 * pow10(32)))) by (nonlinear_arith)
                    requires
                        1 <= n <= 32,
                        0 <= e <= 2 * n - 2,
                        1 <= pow10(32),
                ;
            }
            let sc = line_score_exec(&line, side);
            acc = acc + sc;
            e = e + 1;
        }
        proof {
            assert((4 * (n as int) + (2 * (n as int) - 1)) * (32 * (12 * pow10(32))) <= 192 * 32
                * (12 * pow10(32))) by (nonlinear_arith)
                requires
                    1 <= n <= 32,
                    1 <= pow10(32),
            ;
        }
        acc
    }
}

/// Multiplying both sides of a comparison by a nonnegative unit.
proof fn lemma_unit_mono(a: int, b: int, unit: int)
    requires
        a <= b,
        0 <= unit,
    ensures
        a * unit <= b * unit,
{
    assert(a * unit <= b * unit) by (nonlinear_arith)
        requires
            a <= b,
            0 <= unit,
    ;
}

/// Arithmetic helper: growing a bounded sum by one bounded step.
proof fn lemma_step_bound(k: int, cap: int, unit: int)
    requires
        0 <= k < cap,
        0 <= unit,
    ensures
        k * unit + unit <= cap * unit,
        (k + 1) * unit == k * unit + unit,
{
    assert(k * unit + unit <= cap * unit && (k + 1) * unit == k * unit + unit)
        by (nonlinear_arith)
        requires
            0 <= k < cap,
            0 <= unit,
    ;
}

/// Runs of s in one line are runs of t in the pointwise-negated line.
proof fn lemma_run_len_flip(la: Seq<i8>, lb: Seq<i8>, s: i8, t: i8, i: int)
    requires
        lb.len() == la.len(),
        forall|j: int| 0 <= j < la.len() ==> (#[trigger] lb[j] as int) == -(la[j] as int),
        s == 1 || s == -1,
        (t as int) == -(s as int),
    ensures
        run_len(la, s, i) == run_len(lb, t, i),
    decreases la.len() - i,
{
    if !(i < 0 || i >= la.len()) {
        lemma_run_len_flip(la, lb, s, t, i + 1);
    }
}

/// Streak scores of s in one line equal those of t in the negated line.
proof fn lemma_score_from_flip(la: Seq<i8>, lb: Seq<i8>, s: i8, t: i8, i: int)
    requires
        lb.len() == la.len(),
        forall|j: int| 0 <= j < la.len() ==> (#[trigger] lb[j] as int) == -(la[j] as int),
        s == 1 || s == -1,
        (t as int) == -(s as int),
    ensures
        score_from(la, s, i) == score_from(lb, t, i),
    decreases la.len() - i,
{
    if !(i < 0 || i >= la.len()) {
        lemma_score_from_flip(la, lb, s, t, i + 1);
        lemma_run_len_flip(la, lb, s, t, i);
        if run_start(la, s, i) {
            let l = run_len(la, s, i);
            lemma_run_len_bound(la, s, i);
        }
    }
}

/// Law: the heuristic is symmetric under side inversion — evaluating side s
/// on a board equals evaluating side -s on the colour-swapped board. The
/// second board holds the pointwise-negated grid of the first.
pub proof fn lemma_heur_flip(a: Board, b: Board, s: i8, t: i8)
    requires
        a.wf(),
        b.wf(),
        a.shape == b.shape,
        b.data@.len() == a.data@.len(),
        forall|i: int| 0 <= i < a.data@.len() ==> (#[trigger] b.data@[i] as int) == -(
        a.data@[i] as int),
        s == 1 || s == -1,
        (t as int) == -(s as int),
    ensures
        heur(a, s) == heur(b, t),
{
    lemma_totals_flip(a, b, s, t, 0);
}

proof fn lemma_cell_flip(a: Board, b: Board, x: int, y: int)
    requires
        a.wf(),
        b.wf(),
        a.shape == b.shape,
        b.data@.len() == a.data@.len(),
        forall|i: int| 0 <= i < a.data@.len() ==> (#[trigger] b.data@[i] as int) == -(
        a.data@[i] as int),
        a.in_range(x, y),
    ensures
        (b.cell(x, y) as int) == -(a.cell(x, y) as int),
{
    assert(0 <= x + y * a.shape < a.data@.len()) by (nonlinear_arith)
        requires
            0 <= x < a.shape,
            0 <= y < a.shape,
            a.data@.len() == a.shape * a.shape,
    ;
}

proof fn lemma_totals_flip(a: Board, b: Board, s: i8, t: i8, k: int)
    requires
        a.wf(),
        b.wf(),
        a.shape == b.shape,
        b.data@.len() == a.data@.len(),
        forall|i: int| 0 <= i < a.data@.len() ==> (#[trigger] b.data@[i] as int) == -(
        a.data@[i] as int),
        s == 1 || s == -1,
        (t as int) == -(s as int),
    ensures
        rows_from(a, s, k) == rows_from(b, t, k),
        cols_from(a, s, k) == cols_from(b, t, k),
        falls_from(a, s, k) == falls_from(b, t, k),
        rises_from(a, s, k) == rises_from(b, t, k),
    decreases 2 * a.shape - k,
{
    if k < 2 * a.shape {
        lemma_totals_flip(a, b, s, t, k + 1);
    }
    let n = a.shape as int;
    if 0 <= k < n {
        assert forall|i: int| 0 <= i < row_seq(a, k).len() implies (#[trigger] row_seq(b, k)[
        i] as int) == -(row_seq(a, k)[i] as int) by {
            lemma_cell_flip(a, b, i, k);
        }
        lemma_score_from_flip(row_seq(a, k), row_seq(b, k), s, t, 0);
        assert forall|i: int| 0 <= i < col_seq(a, k).len() implies (#[trigger] col_seq(b, k)[
        i] as int) == -(col_seq(a, k)[i] as int) by {
            lemma_cell_flip(a, b, k, i);
        }
        lemma_score_from_flip(col_seq(a, k), col_seq(b, k), s, t, 0);
    }
    if 0 <= k < 2 * n - 1 {
        let c = k - (n - 1);
        let fx0 = if c >= 0 {
            c
        } else {
            0
        };
        let fy0 = fx0 - c;
        assert forall|i: int| 0 <= i < fall_seq(a, k).len() implies (#[trigger] fall_seq(b, k)[
        i] as int) == -(fall_seq(a, k)[i] as int) by {
            lemma_cell_flip(a, b, fx0 + i, fy0 + i);
        }
        lemma_score_from_flip(fall_seq(a, k), fall_seq(b, k), s, t, 0);
        let rx0 = if k - (n - 1) >= 0 {
            k - (n - 1)
        } else {
            0
        };
        assert forall|i: int| 0 <= i < rise_seq(a, k).len() implies (#[trigger] rise_seq(b, k)[
        i] as int) == -(rise_seq(a, k)[i] as int) by {
            lemma_cell_flip(a, b, rx0 + i, k - (rx0 + i));
        }
        lemma_score_from_flip(rise_seq(a, k), rise_seq(b, k), s, t, 0);
    }
}

} // verus!

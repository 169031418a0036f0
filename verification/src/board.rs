use vstd::prelude::*;

verus! {

/// Board state for five-in-a-row: a square grid whose cells hold 0 (empty),
/// 1 or -1 (the two sides), plus the move count, the terminal flag and the
/// coordinate of the last committed move.
///
/// `radius` is the Chebyshev-distance window used by the candidate-move
/// filter `would_play_here`.
pub struct Board {
    pub shape: u32,
    pub play_count: u32,
    pub done: bool,
    pub data: Vec<i8>,
    pub last_play_position: (u32, u32),
    pub radius: u32,
}

impl Board {
    /// Flat row-major index of (x, y).
    pub open spec fn sidx(self, x: int, y: int) -> int {
        x + y * self.shape
    }

    /// The value held at (x, y).
    pub open spec fn cell(self, x: int, y: int) -> i8 {
        self.data@[self.sidx(x, y)]
    }

    pub open spec fn in_range(self, x: int, y: int) -> bool {
        0 <= x < self.shape && 0 <= y < self.shape
    }

    /// Well-formedness: the flat array has exactly shape * shape cells, every
    /// cell holds one of the three side values, and the sizes are small enough
    /// that flat indices fit 32-bit arithmetic on every target.
    pub open spec fn wf(self) -> bool {
        &&& 1 <= self.shape <= 46340
        &&& self.data@.len() == self.shape * self.shape
        &&& forall|i: int|
            0 <= i < self.data@.len() ==> (#[trigger] self.data@[i] == 0 || self.data@[i] == 1
                || self.data@[i] == -1)
        &&& 1 <= self.radius <= self.shape
    }

    /// (x, y) is on the board and holds a stone.
    pub open spec fn occupied(self, x: int, y: int) -> bool {
        self.in_range(x, y) && self.cell(x, y) != 0
    }

    /// Some cell within the configured Chebyshev window around (x, y) holds a
    /// stone: the candidate-move filter.
    pub open spec fn neighbor_occupied(self, x: int, y: int) -> bool {
        exists|dx: int, dy: int|
            -(self.radius as int) <= dx <= self.radius && -(self.radius as int) <= dy
                <= self.radius && #[trigger] self.occupied(x + dx, y + dy)
    }

    /// Two boards hold bit-for-bit the same state.
    pub open spec fn same_state(self, o: Board) -> bool {
        &&& self.shape == o.shape
        &&& self.play_count == o.play_count
        &&& self.done == o.done
        &&& self.data@ == o.data@
        &&& self.last_play_position == o.last_play_position
        &&& self.radius == o.radius
    }

    /// The board holds no stone at all.
    pub open spec fn all_empty(self) -> bool {
        forall|i: int| 0 <= i < self.data@.len() ==> #[trigger] self.data@[i] == 0
    }

    /// x-step of line direction d (0 horizontal, 1 vertical, 2 falling
    /// diagonal, 3 rising diagonal).
    pub open spec fn dir_dx(d: int) -> int {
        if d == 1 {
            0
        } else {
            1
        }
    }

    /// y-step of line direction d.
    pub open spec fn dir_dy(d: int) -> int {
        if d == 0 {
            0
        } else if d == 3 {
            -1
        } else {
            1
        }
    }

    /// Cell (cx, cy) counts for `player` in a window through (x, y): it is in
    /// range and holds `player`'s stone, or is the probed cell (x, y) itself,
    /// which win detection always counts for `player`.
    pub open spec fn win_cell_ok(self, player: i8, x: int, y: int, cx: int, cy: int) -> bool {
        self.in_range(cx, cy) && ((cx == x && cy == y) || self.cell(cx, cy) == player)
    }

    /// The window of five cells whose k-th cell is (x, y), along (dx, dy),
    /// has every cell counting for `player`.
    pub open spec fn window_ok(self, player: i8, x: int, y: int, dx: int, dy: int, k: int) -> bool {
        forall|i: int|
            0 <= i < 5 ==> #[trigger] self.win_cell_ok(player, x, y, x + (i - k) * dx, y + (i - k)
                * dy)
    }

    /// Five contiguous cells along direction (dx, dy) all count for `player`,
    /// one of them being (x, y).
    pub open spec fn five_in_dir(self, player: i8, x: int, y: int, dx: int, dy: int) -> bool {
        exists|k: int| 0 <= k < 5 && #[trigger] self.window_ok(player, x, y, dx, dy, k)
    }

    /// A brute-force scan finds five contiguous stones of `player` through
    /// (x, y) in one of the four line families.
    pub open spec fn wins_at(self, player: i8, x: int, y: int) -> bool {
        exists|d: int|
            0 <= d < 4 && self.five_in_dir(player, x, y, Self::dir_dx(d), Self::dir_dy(d))
    }

    /// Cell at offset i from (x, y) along (dx, dy) is in range and holds
    /// `player`'s stone.
    pub open spec fn run_ok(self, player: i8, x: int, y: int, dx: int, dy: int, i: int) -> bool {
        self.in_range(x + i * dx, y + i * dy) && self.cell(x + i * dx, y + i * dy) == player
    }

    /// All cells empty, no move played, not terminal, configured radius.
    pub fn new_with_radius(shape: u32, radius: u32) -> (b: Board)
        requires
            1 <= shape <= 46340,
            1 <= radius <= shape,
        ensures
            b.wf(),
            b.shape == shape,
            b.radius == radius,
            b.play_count == 0,
            !b.done,
            b.all_empty(),
            b.last_play_position == (0u32, 0u32),
    {
        proof {
            assert(0 <= shape * shape <= 46340 * 46340) by (nonlinear_arith)
                requires
                    1 <= shape <= 46340,
            ;
        }
        let total: usize = (shape as usize) * (shape as usize);
        let mut data: Vec<i8> = Vec::new();
        let mut i: usize = 0;
        while i < total
            invariant
                i <= total,
                data@.len() == i,
                forall|j: int| 0 <= j < i ==> #[trigger] data@[j] == 0,
            decreases total - i,
        {
            data.push(0);
            i = i + 1;
        }
        Board { shape, play_count: 0, done: false, data, last_play_position: (0, 0), radius }
    }

    /// All cells empty, with the default candidate window of radius 2.
    pub fn new(shape: u32) -> (b: Board)
        requires
            2 <= shape <= 46340,
        ensures
            b.wf(),
            b.shape == shape,
            b.radius == 2,
            b.play_count == 0,
            !b.done,
            b.all_empty(),
            b.last_play_position == (0u32, 0u32),
    {
        Self::new_with_radius(shape, 2)
    }

    pub fn get_at(&self, x: u32, y: u32) -> (v: i8)
        requires
            self.wf(),
            self.in_range(x as int, y as int),
        ensures
            v == self.cell(x as int, y as int),
    {
        proof {
            assert(0 <= y * self.shape && x + y * self.shape < self.data@.len() && x + y
                * self.shape < 46340 * 46340) by (nonlinear_arith)
                requires
                    0 <= x < self.shape <= 46340,
                    0 <= y < self.shape,
                    self.data@.len() == self.shape * self.shape,
            ;
        }
        self.data[(x as usize) + (y as usize) * (self.shape as usize)]
    }

    /// Overwrite one cell; every other component of the state is untouched.
    pub fn set_at(&mut self, x: u32, y: u32, val: i8)
        requires
            old(self).wf(),
            old(self).in_range(x as int, y as int),
            val == 0 || val == 1 || val == -1,
        ensures
            final(self).wf(),
            final(self).data@ == old(self).data@.update(
                old(self).sidx(x as int, y as int),
                val,
            ),
            final(self).cell(x as int, y as int) == val,
            forall|cx: int, cy: int|
                old(self).in_range(cx, cy) && !(cx == x && cy == y) ==> #[trigger] final(self).cell(
                    cx,
                    cy,
                ) == old(self).cell(cx, cy),
            final(self).shape == old(self).shape,
            final(self).play_count == old(self).play_count,
            final(self).done == old(self).done,
            final(self).last_play_position == old(self).last_play_position,
            final(self).radius == old(self).radius,
    {
        proof {
            assert(0 <= y * self.shape && x + y * self.shape < self.data@.len() && x + y
                * self.shape < 46340 * 46340) by (nonlinear_arith)
                requires
                    0 <= x < self.shape <= 46340,
                    0 <= y < self.shape,
                    self.data@.len() == self.shape * self.shape,
            ;
        }
        let i: usize = (x as usize) + (y as usize) * (self.shape as usize);
        self.data.set(i, val);
        proof {
            assert forall|cx: int, cy: int|
                self.in_range(cx, cy) && !(cx == x && cy == y) implies #[trigger] self.cell(cx, cy)
                == old(self).cell(cx, cy) by {
                assert(cx + cy * self.shape != x + y * self.shape) by (nonlinear_arith)
                    requires
                        0 <= cx < self.shape,
                        0 <= cy < self.shape,
                        0 <= x < self.shape,
                        0 <= y < self.shape,
                        !(cx == x && cy == y),
                ;
                assert(0 <= cx + cy * self.shape < self.data@.len()) by (nonlinear_arith)
                    requires
                        0 <= cx < self.shape,
                        0 <= cy < self.shape,
                        self.data@.len() == self.shape * self.shape,
                ;
            }
        }
    }

    /// True iff (x, y) is on the board and occupied; out-of-range coordinates
    /// simply answer false.
    pub fn played_at(&self, x: i32, y: i32) -> (r: bool)
        requires
            self.wf(),
        ensures
            r == self.occupied(x as int, y as int),
    {
        if x < 0 || y < 0 || x >= self.shape as i32 || y >= self.shape as i32 {
            return false;
        }
        self.get_at(x as u32, y as u32) != 0
    }

    /// The candidate-move filter: true iff some cell within the configured
    /// Chebyshev window around (x, y) is occupied.
    pub fn would_play_here(&self, x: i32, y: i32) -> (r: bool)
        requires
            self.wf(),
            self.in_range(x as int, y as int),
        ensures
            r == self.neighbor_occupied(x as int, y as int),
    {
        let rad = self.radius as i32;
        let mut dx: i32 = -rad;
        while dx <= rad
            invariant
                self.wf(),
                self.in_range(x as int, y as int),
                rad == self.radius,
                -rad <= dx <= rad + 1,
                forall|a: int, b: int|
                    -rad <= a < dx && -rad <= b <= rad ==> !#[trigger] self.occupied(x + a, y + b),
            decreases rad + 1 - dx,
        {
            let mut dy: i32 = -rad;
            while dy <= rad
                invariant
                    self.wf(),
                    self.in_range(x as int, y as int),
                    rad == self.radius,
                    -rad <= dx <= rad,
                    -rad <= dy <= rad + 1,
                    forall|a: int, b: int|
                        -rad <= a < dx && -rad <= b <= rad ==> !#[trigger] self.occupied(x + a, y + b),
                    forall|b: int| -rad <= b < dy ==> !#[trigger] self.occupied(x + dx, y + b),
                decreases rad + 1 - dy,
            {
                if self.played_at(x + dx, y + dy) {
                    return true;
                }
                dy = dy + 1;
            }
            dx = dx + 1;
        }
        false
    }

    /// Count the contiguous stones of `player` along (dx, dy) from (x, y),
    /// excluding (x, y) itself, capped at 4.
    fn count_dir(&self, player: i8, x: i32, y: i32, dx: i32, dy: i32) -> (c: u32)
        requires
            self.wf(),
            self.in_range(x as int, y as int),
            -1 <= dx <= 1,
            -1 <= dy <= 1,
        ensures
            c <= 4,
            forall|i: int|
                1 <= i <= c ==> #[trigger] self.run_ok(player, x as int, y as int, dx as int, dy as int, i),
            c < 4 ==> !self.run_ok(player, x as int, y as int, dx as int, dy as int, c + 1),
    {
        let mut c: u32 = 0;
        while c < 4
            invariant
                self.wf(),
                self.in_range(x as int, y as int),
                -1 <= dx <= 1,
                -1 <= dy <= 1,
                c <= 4,
                forall|i: int|
                    1 <= i <= c ==> #[trigger] self.run_ok(player, x as int, y as int, dx as int, dy as int, i),
            decreases 4 - c,
        {
            let i: i32 = (c as i32) + 1;
            proof {
                assert(-4 <= i * dx <= 4 && -4 <= i * dy <= 4) by (nonlinear_arith)
                    requires
                        1 <= i <= 4,
                        -1 <= dx <= 1,
                        -1 <= dy <= 1,
                ;
            }
            let cx: i64 = (x as i64) + (i as i64) * (dx as i64);
            let cy: i64 = (y as i64) + (i as i64) * (dy as i64);
            if cx < 0 || cy < 0 || cx >= self.shape as i64 || cy >= self.shape as i64 {
                return c;
            }
            if self.get_at(cx as u32, cy as u32) != player {
                return c;
            }
            c = c + 1;
        }
        c
    }

    /// If runs of `player` extend f cells one way and b cells the other way
    /// from (x, y) along (dx, dy), and 1 + f + b >= 5, a five-window through
    /// (x, y) exists in that direction.
    proof fn lemma_runs_give_window(self, player: i8, x: int, y: int, dx: int, dy: int, f: int, b: int)
        requires
            self.wf(),
            self.in_range(x, y),
            0 <= f <= 4,
            0 <= b <= 4,
            1 + f + b >= 5,
            forall|i: int| 1 <= i <= f ==> #[trigger] self.run_ok(player, x, y, dx, dy, i),
            forall|i: int| 1 <= i <= b ==> #[trigger] self.run_ok(player, x, y, -dx, -dy, i),
        ensures
            self.five_in_dir(player, x, y, dx, dy),
    {
        let k = if b <= 4 { b } else { 4 };
        assert forall|i: int| 0 <= i < 5 implies #[trigger] self.win_cell_ok(
            player,
            x,
            y,
            x + (i - k) * dx,
            y + (i - k) * dy,
        ) by {
            if i == k {
                assert((i - k) * dx == 0 && (i - k) * dy == 0);
            } else if i < k {
                let j = k - i;
                assert(self.run_ok(player, x, y, -dx, -dy, j));
                assert(j * -dx == (i - k) * dx) by (nonlinear_arith)
                    requires j == k - i,
                ;
                assert(j * -dy == (i - k) * dy) by (nonlinear_arith)
                    requires j == k - i,
                ;
            } else {
                let j = i - k;
                assert(j <= f);
                assert(self.run_ok(player, x, y, dx, dy, j));
                assert(j * dx == (i - k) * dx && j * dy == (i - k) * dy);
            }
        }
        assert(self.window_ok(player, x, y, dx, dy, k));
        assert(0 <= k < 5);
    }

    /// If a five-window through (x, y) exists in direction (dx, dy) with
    /// (dx, dy) != (0, 0), the two runs from (x, y) cover it: counting f
    /// forward and b backward with the usual maximality gives 1 + f + b >= 5.
    proof fn lemma_window_gives_runs(self, player: i8, x: int, y: int, dx: int, dy: int, f: int, b: int)
        requires
            self.wf(),
            self.in_range(x, y),
            !(dx == 0 && dy == 0),
            -1 <= dx <= 1,
            -1 <= dy <= 1,
            0 <= f <= 4,
            0 <= b <= 4,
            forall|i: int| 1 <= i <= f ==> #[trigger] self.run_ok(player, x, y, dx, dy, i),
            forall|i: int| 1 <= i <= b ==> #[trigger] self.run_ok(player, x, y, -dx, -dy, i),
            f < 4 ==> !self.run_ok(player, x, y, dx, dy, f + 1),
            b < 4 ==> !self.run_ok(player, x, y, -dx, -dy, b + 1),
            self.five_in_dir(player, x, y, dx, dy),
        ensures
            1 + f + b >= 5,
    {
        let k = choose|k: int| 0 <= k < 5 && #[trigger] self.window_ok(player, x, y, dx, dy, k);
        if 1 + f + b < 5 {
            // The window cells at offsets -b-1..-b-? : one of the two runs is
            // too short to cover the window; exhibit the missing cell.
            if f < 4 - k {
                let i = k + f + 1;
                assert(0 <= i < 5);
                assert(self.win_cell_ok(player, x, y, x + (i - k) * dx, y + (i - k) * dy));
                let j = f + 1;
                assert((i - k) == j);
                // the window cell is not (x, y): it sits j >= 1 steps away
                assert(j * dx != 0 || j * dy != 0) by (nonlinear_arith)
                    requires j >= 1, !(dx == 0 && dy == 0), -1 <= dx <= 1, -1 <= dy <= 1,
                ;
                assert(self.run_ok(player, x, y, dx, dy, j));
                assert(false);
            } else {
                let i = k - b - 1;
                assert(f >= 4 - k);
                assert(b < k);
                assert(0 <= i < 5);
                assert(self.win_cell_ok(player, x, y, x + (i - k) * dx, y + (i - k) * dy));
                let j = b + 1;
                assert((i - k) == -j);
                assert(j * dx != 0 || j * dy != 0) by (nonlinear_arith)
                    requires j >= 1, !(dx == 0 && dy == 0), -1 <= dx <= 1, -1 <= dy <= 1,
                ;
                assert((-j) * dx == j * -dx && (-j) * dy == j * -dy) by (nonlinear_arith);
                assert(j * -dx == -(j * dx) && j * -dy == -(j * dy)) by (nonlinear_arith);
                assert(self.run_ok(player, x, y, -dx, -dy, j));
                assert(false);
            }
        }
    }

    /// Check the runs through (x, y) in one direction and decide a win there.
    fn win_in_dir(&self, player: i8, x: i32, y: i32, dx: i32, dy: i32) -> (r: bool)
        requires
            self.wf(),
            self.in_range(x as int, y as int),
            -1 <= dx <= 1,
            -1 <= dy <= 1,
            !(dx == 0 && dy == 0),
        ensures
            r == self.five_in_dir(player, x as int, y as int, dx as int, dy as int),
    {
        let f = self.count_dir(player, x, y, dx, dy);
        let b = self.count_dir(player, x, y, -dx, -dy);
        proof {
            // bridge: runs counted with (-dx, -dy) are runs along the negated
            // direction of (dx, dy)
            assert forall|i: int|
                1 <= i <= b implies #[trigger] self.run_ok(
                player,
                x as int,
                y as int,
                -(dx as int),
                -(dy as int),
                i,
            ) by {
                assert(self.run_ok(player, x as int, y as int, (-dx) as int, (-dy) as int, i));
            }
        }
        if 1 + f + b >= 5 {
            proof {
                self.lemma_runs_give_window(
                    player,
                    x as int,
                    y as int,
                    dx as int,
                    dy as int,
                    f as int,
                    b as int,
                );
            }
            true
        } else {
            proof {
                if self.five_in_dir(player, x as int, y as int, dx as int, dy as int) {
                    self.lemma_window_gives_runs(
                        player,
                        x as int,
                        y as int,
                        dx as int,
                        dy as int,
                        f as int,
                        b as int,
                    );
                }
            }
            false
        }
    }

    /// Win detection at the just-played cell: true iff a brute-force scan
    /// finds five contiguous stones of `player` through (x, y) in one of the
    /// four line families, the cell (x, y) itself always counting for
    /// `player`.
    pub fn define_win(&self, player: i8, x: i32, y: i32) -> (r: bool)
        requires
            self.wf(),
            self.in_range(x as int, y as int),
        ensures
            r == self.wins_at(player, x as int, y as int),
    {
        if self.win_in_dir(player, x, y, 1, 0) {
            proof {
                assert(Self::dir_dx(0) == 1 && Self::dir_dy(0) == 0);
            }
            return true;
        }
        if self.win_in_dir(player, x, y, 0, 1) {
            proof {
                assert(Self::dir_dx(1) == 0 && Self::dir_dy(1) == 1);
            }
            return true;
        }
        if self.win_in_dir(player, x, y, 1, 1) {
            proof {
                assert(Self::dir_dx(2) == 1 && Self::dir_dy(2) == 1);
            }
            return true;
        }
        if self.win_in_dir(player, x, y, 1, -1) {
            proof {
                assert(Self::dir_dx(3) == 1 && Self::dir_dy(3) == -1);
            }
            return true;
        }
        proof {
            assert forall|d: int| 0 <= d < 4 implies !self.five_in_dir(
                player,
                x as int,
                y as int,
                Self::dir_dx(d),
                Self::dir_dy(d),
            ) by {
                if d == 0 {
                } else if d == 1 {
                } else if d == 2 {
                } else {
                }
            }
        }
        false
    }

    /// Win detection reads only the grid: boards with equal shape and equal
    /// cell contents agree on `wins_at`.
    pub proof fn lemma_wins_at_same_grid(a: Board, b: Board, player: i8, x: int, y: int)
        requires
            a.shape == b.shape,
            a.data@ == b.data@,
        ensures
            a.wins_at(player, x, y) == b.wins_at(player, x, y),
    {
        assert forall|dx: int, dy: int, k: int| #[trigger] a.window_ok(
            player,
            x,
            y,
            dx,
            dy,
            k,
        ) implies b.window_ok(player, x, y, dx, dy, k) by {
            assert forall|i: int| 0 <= i < 5 implies #[trigger] b.win_cell_ok(
                player,
                x,
                y,
                x + (i - k) * dx,
                y + (i - k) * dy,
            ) by {
                assert(a.win_cell_ok(player, x, y, x + (i - k) * dx, y + (i - k) * dy));
            }
        }
        assert forall|dx: int, dy: int, k: int| #[trigger] b.window_ok(
            player,
            x,
            y,
            dx,
            dy,
            k,
        ) implies a.window_ok(player, x, y, dx, dy, k) by {
            assert forall|i: int| 0 <= i < 5 implies #[trigger] a.win_cell_ok(
                player,
                x,
                y,
                x + (i - k) * dx,
                y + (i - k) * dy,
            ) by {
                assert(b.win_cell_ok(player, x, y, x + (i - k) * dx, y + (i - k) * dy));
            }
        }
        if a.wins_at(player, x, y) {
            let d = choose|d: int|
                0 <= d < 4 && a.five_in_dir(player, x, y, Self::dir_dx(d), Self::dir_dy(d));
            let k = choose|k: int|
                0 <= k < 5 && #[trigger] a.window_ok(
                    player,
                    x,
                    y,
                    Self::dir_dx(d),
                    Self::dir_dy(d),
                    k,
                );
            assert(b.window_ok(player, x, y, Self::dir_dx(d), Self::dir_dy(d), k));
            assert(b.five_in_dir(player, x, y, Self::dir_dx(d), Self::dir_dy(d)));
        }
        if b.wins_at(player, x, y) {
            let d = choose|d: int|
                0 <= d < 4 && b.five_in_dir(player, x, y, Self::dir_dx(d), Self::dir_dy(d));
            let k = choose|k: int|
                0 <= k < 5 && #[trigger] b.window_ok(
                    player,
                    x,
                    y,
                    Self::dir_dx(d),
                    Self::dir_dy(d),
                    k,
                );
            assert(a.window_ok(player, x, y, Self::dir_dx(d), Self::dir_dy(d), k));
            assert(a.five_in_dir(player, x, y, Self::dir_dx(d), Self::dir_dy(d)));
        }
    }

    /// Flat cell i is a legal candidate move: empty, and near an existing
    /// stone unless no move has been played yet.
    pub open spec fn is_cand(self, i: int) -> bool {
        self.data@[i] == 0 && (self.play_count == 0 || self.neighbor_occupied(
            i % (self.shape as int),
            i / (self.shape as int),
        ))
    }

    /// The candidate coordinates among flat cells i.. of the scan order.
    pub open spec fn cand_seq_from(self, i: int) -> Seq<(u32, u32)>
        decreases self.data@.len() - i,
    {
        if i < 0 || i >= self.data@.len() {
            Seq::empty()
        } else if self.is_cand(i) {
            seq![(((i % (self.shape as int)) as u32), ((i / (self.shape as int)) as u32))]
                + self.cand_seq_from(i + 1)
        } else {
            self.cand_seq_from(i + 1)
        }
    }

    /// All candidate moves, in the scan order (y outer, x inner).
    pub open spec fn cand_seq(self) -> Seq<(u32, u32)> {
        self.cand_seq_from(0)
    }

    /// All candidate moves in scan order: empty cells passing the
    /// neighborhood filter, or every empty cell while the board has no stone.
    pub fn collect_candidates(&self) -> (v: Vec<(u32, u32)>)
        requires
            self.wf(),
        ensures
            v@ == self.cand_seq(),
            forall|j: int|
                0 <= j < v@.len() ==> self.in_range(#[trigger] v@[j].0 as int, v@[j].1 as int)
                    && self.cell(v@[j].0 as int, v@[j].1 as int) == 0,
    {
        let total: usize = self.data.len();
        let shape_us: usize = self.shape as usize;
        let mut v: Vec<(u32, u32)> = Vec::new();
        let mut i: usize = 0;
        while i < total
            invariant
                self.wf(),
                total == self.data@.len(),
                shape_us == self.shape,
                i <= total,
                self.cand_seq() == v@ + self.cand_seq_from(i as int),
                forall|j: int|
                    0 <= j < v@.len() ==> self.in_range(#[trigger] v@[j].0 as int, v@[j].1 as int)
                        && self.cell(v@[j].0 as int, v@[j].1 as int) == 0,
            decreases total - i,
        {
            proof {
                assert((i as int) % (self.shape as int) < self.shape && (i as int) / (
                self.shape as int) < self.shape && (i as int) % (self.shape as int) + ((
                i as int) / (self.shape as int)) * (self.shape as int) == i && 0 <= (i as int) / (
                self.shape as int)) by (nonlinear_arith)
                    requires
                        0 <= i < total,
                        total == self.shape * self.shape,
                        1 <= self.shape,
                ;
            }
            let x: u32 = (i % shape_us) as u32;
            let y: u32 = (i / shape_us) as u32;
            let c = self.data[i];
            let chosen = c == 0 && (self.play_count == 0 || self.would_play_here(
                x as i32,
                y as i32,
            ));
            let ghost prev = v@;
            if chosen {
                v.push((x, y));
            }
            proof {
                if chosen {
                    assert(self.cand_seq_from(i as int) == seq![(x, y)] + self.cand_seq_from(
                        i as int + 1,
                    ));
                    assert(prev + self.cand_seq_from(i as int) =~= v@ + self.cand_seq_from(
                        i as int + 1,
                    ));
                } else {
                    assert(self.cand_seq_from(i as int) == self.cand_seq_from(i as int + 1));
                }
            }
            i = i + 1;
        }
        proof {
            assert(self.cand_seq_from(total as int) =~= Seq::empty());
            assert(v@ + self.cand_seq_from(total as int) =~= v@);
        }
        v
    }

    /// On a board with no stones, the candidate filter accepts no point.
    pub proof fn lemma_filter_empty_board(b: Board, x: int, y: int)
        requires
            b.wf(),
            b.all_empty(),
        ensures
            !b.neighbor_occupied(x, y),
    {
        assert forall|dx: int, dy: int| !#[trigger] b.occupied(x + dx, y + dy) by {
            if b.in_range(x + dx, y + dy) {
                assert(0 <= (y + dy) * b.shape && (x + dx) + (y + dy) * b.shape < b.data@.len())
                    by (nonlinear_arith)
                    requires
                        0 <= x + dx < b.shape,
                        0 <= y + dy < b.shape,
                        b.data@.len() == b.shape * b.shape,
                ;
            }
        }
    }

    /// As soon as a stone stands at (px, py), every point within the window
    /// radius around it passes the candidate filter.
    pub proof fn lemma_filter_near_stone(b: Board, x: int, y: int, px: int, py: int)
        requires
            b.wf(),
            b.occupied(px, py),
            -(b.radius as int) <= px - x <= b.radius,
            -(b.radius as int) <= py - y <= b.radius,
        ensures
            b.neighbor_occupied(x, y),
    {
        assert(b.occupied(x + (px - x), y + (py - y)));
    }

    /// An independent copy holding bit-for-bit the same state.
    pub fn duplicate(&self) -> (b: Board)
        requires
            self.wf(),
        ensures
            b.same_state(*self),
            b.wf(),
    {
        let mut data: Vec<i8> = Vec::new();
        let mut i: usize = 0;
        while i < self.data.len()
            invariant
                i <= self.data@.len(),
                data@.len() == i,
                forall|j: int| 0 <= j < i ==> #[trigger] data@[j] == self.data@[j],
            decreases self.data@.len() - i,
        {
            let v = self.data[i];
            data.push(v);
            i = i + 1;
        }
        proof {
            assert(data@ =~= self.data@);
        }
        Board {
            shape: self.shape,
            play_count: self.play_count,
            done: self.done,
            data,
            last_play_position: self.last_play_position,
            radius: self.radius,
        }
    }

    /// Every candidate move names an empty in-range cell.
    pub proof fn lemma_cand_props(b: Board, i: int)
        requires
            b.wf(),
        ensures
            forall|j: int|
                0 <= j < b.cand_seq_from(i).len() ==> b.in_range(
                    (#[trigger] b.cand_seq_from(i)[j]).0 as int,
                    b.cand_seq_from(i)[j].1 as int,
                ) && b.cell(b.cand_seq_from(i)[j].0 as int, b.cand_seq_from(i)[j].1 as int) == 0,
        decreases b.data@.len() - i,
    {
        if i < 0 || i >= b.data@.len() {
        } else {
            Self::lemma_cand_props(b, i + 1);
            if b.is_cand(i) {
                let sh = b.shape as int;
                assert(0 <= i % sh < sh && 0 <= i / sh < sh && (i % sh) + (i / sh) * sh == i)
                    by (nonlinear_arith)
                    requires
                        0 <= i < b.data@.len(),
                        b.data@.len() == sh * sh,
                        1 <= sh,
                ;
                let hd = (((i % sh) as u32), ((i / sh) as u32));
                assert(b.cell(hd.0 as int, hd.1 as int) == b.data@[i]);
                assert forall|j: int| 0 <= j < b.cand_seq_from(i).len() implies b.in_range(
                    (#[trigger] b.cand_seq_from(i)[j]).0 as int,
                    b.cand_seq_from(i)[j].1 as int,
                ) && b.cell(b.cand_seq_from(i)[j].0 as int, b.cand_seq_from(i)[j].1 as int)
                    == 0 by {
                    if j == 0 {
                        assert(b.cand_seq_from(i)[0] == hd);
                    } else {
                        assert(b.cand_seq_from(i)[j] == b.cand_seq_from(i + 1)[j - 1]);
                    }
                }
            } else {
                assert forall|j: int| 0 <= j < b.cand_seq_from(i).len() implies b.in_range(
                    (#[trigger] b.cand_seq_from(i)[j]).0 as int,
                    b.cand_seq_from(i)[j].1 as int,
                ) && b.cell(b.cand_seq_from(i)[j].0 as int, b.cand_seq_from(i)[j].1 as int)
                    == 0 by {
                    assert(b.cand_seq_from(i)[j] == b.cand_seq_from(i + 1)[j]);
                }
            }
        }
    }

    /// Boards agreeing on grid, move count and radius list the same
    /// candidate moves; the terminal flag and last move play no part.
    pub proof fn lemma_cand_same_state(a: Board, b: Board)
        requires
            a.shape == b.shape,
            a.play_count == b.play_count,
            a.radius == b.radius,
            a.data@ == b.data@,
        ensures
            a.cand_seq() == b.cand_seq(),
    {
        Self::lemma_cand_from_same(a, b, 0);
    }

    proof fn lemma_cand_from_same(a: Board, b: Board, i: int)
        requires
            a.shape == b.shape,
            a.play_count == b.play_count,
            a.radius == b.radius,
            a.data@ == b.data@,
        ensures
            a.cand_seq_from(i) == b.cand_seq_from(i),
        decreases a.data@.len() - i,
    {
        if i < 0 || i >= a.data@.len() {
        } else {
            Self::lemma_cand_from_same(a, b, i + 1);
            let sh = a.shape as int;
            assert forall|px: int, py: int| a.occupied(px, py) == b.occupied(px, py) by {}
            if a.neighbor_occupied(i % sh, i / sh) {
                let (dx, dy) = choose|dx: int, dy: int|
                    -(a.radius as int) <= dx <= a.radius && -(a.radius as int) <= dy <= a.radius
                        && #[trigger] a.occupied(i % sh + dx, i / sh + dy);
                assert(b.occupied(i % sh + dx, i / sh + dy));
            }
            if b.neighbor_occupied(i % sh, i / sh) {
                let (dx, dy) = choose|dx: int, dy: int|
                    -(b.radius as int) <= dx <= b.radius && -(b.radius as int) <= dy <= b.radius
                        && #[trigger] b.occupied(i % sh + dx, i / sh + dy);
                assert(a.occupied(i % sh + dx, i / sh + dy));
            }
            assert(a.is_cand(i) == b.is_cand(i));
        }
    }

    /// Win detection at (x, y) never reads the probed cell itself, so boards
    /// differing only there agree on `wins_at` at that point.
    pub proof fn lemma_wins_at_ignores_probe(a: Board, b: Board, player: i8, x: int, y: int)
        requires
            a.wf(),
            a.in_range(x, y),
            a.shape == b.shape,
            a.data@.len() == b.data@.len(),
            forall|j: int|
                0 <= j < a.data@.len() && j != a.sidx(x, y) ==> #[trigger] a.data@[j]
                    == b.data@[j],
        ensures
            a.wins_at(player, x, y) == b.wins_at(player, x, y),
    {
        assert forall|cx: int, cy: int| #[trigger] a.win_cell_ok(player, x, y, cx, cy)
            == b.win_cell_ok(player, x, y, cx, cy) by {
            if a.in_range(cx, cy) && !(cx == x && cy == y) {
                assert(cx + cy * a.shape != x + y * a.shape && 0 <= cx + cy * a.shape
                    < a.data@.len()) by (nonlinear_arith)
                    requires
                        0 <= cx < a.shape,
                        0 <= cy < a.shape,
                        0 <= x < a.shape,
                        0 <= y < a.shape,
                        !(cx == x && cy == y),
                        a.data@.len() == a.shape * a.shape,
                ;
            }
        }
        assert forall|dx: int, dy: int, k: int| #[trigger] a.window_ok(
            player,
            x,
            y,
            dx,
            dy,
            k,
        ) implies b.window_ok(player, x, y, dx, dy, k) by {
            assert forall|i: int| 0 <= i < 5 implies #[trigger] b.win_cell_ok(
                player,
                x,
                y,
                x + (i - k) * dx,
                y + (i - k) * dy,
            ) by {
                assert(a.win_cell_ok(player, x, y, x + (i - k) * dx, y + (i - k) * dy));
            }
        }
        assert forall|dx: int, dy: int, k: int| #[trigger] b.window_ok(
            player,
            x,
            y,
            dx,
            dy,
            k,
        ) implies a.window_ok(player, x, y, dx, dy, k) by {
            assert forall|i: int| 0 <= i < 5 implies #[trigger] a.win_cell_ok(
                player,
                x,
                y,
                x + (i - k) * dx,
                y + (i - k) * dy,
            ) by {
                assert(b.win_cell_ok(player, x, y, x + (i - k) * dx, y + (i - k) * dy));
            }
        }
        if a.wins_at(player, x, y) {
            let d = choose|d: int|
                0 <= d < 4 && a.five_in_dir(player, x, y, Self::dir_dx(d), Self::dir_dy(d));
            let k = choose|k: int|
                0 <= k < 5 && #[trigger] a.window_ok(
                    player,
                    x,
                    y,
                    Self::dir_dx(d),
                    Self::dir_dy(d),
                    k,
                );
            assert(b.window_ok(player, x, y, Self::dir_dx(d), Self::dir_dy(d), k));
            assert(b.five_in_dir(player, x, y, Self::dir_dx(d), Self::dir_dy(d)));
        }
        if b.wins_at(player, x, y) {
            let d = choose|d: int|
                0 <= d < 4 && b.five_in_dir(player, x, y, Self::dir_dx(d), Self::dir_dy(d));
            let k = choose|k: int|
                0 <= k < 5 && #[trigger] b.window_ok(
                    player,
                    x,
                    y,
                    Self::dir_dx(d),
                    Self::dir_dy(d),
                    k,
                );
            assert(a.window_ok(player, x, y, Self::dir_dx(d), Self::dir_dy(d), k));
            assert(a.five_in_dir(player, x, y, Self::dir_dx(d), Self::dir_dy(d)));
        }
    }

    /// Commit a move: the only non-reverted mutation. Sets the cell,
    /// increments the move count, records the last-move coordinate, and sets
    /// the terminal flag iff the move completes five in a row.
    pub fn play_at(&mut self, x: u32, y: u32, player: i8)
        requires
            old(self).wf(),
            old(self).in_range(x as int, y as int),
            old(self).cell(x as int, y as int) == 0,
            player == 1 || player == -1,
            old(self).play_count < u32::MAX,
        ensures
            final(self).wf(),
            final(self).shape == old(self).shape,
            final(self).radius == old(self).radius,
            final(self).data@ == old(self).data@.update(old(self).sidx(x as int, y as int), player),
            final(self).cell(x as int, y as int) == player,
            forall|cx: int, cy: int|
                old(self).in_range(cx, cy) && !(cx == x && cy == y) ==> #[trigger] final(self).cell(
                    cx,
                    cy,
                ) == old(self).cell(cx, cy),
            final(self).play_count == old(self).play_count + 1,
            final(self).done == (old(self).done || final(self).wins_at(
                player,
                x as int,
                y as int,
            )),
            final(self).last_play_position == (x, y),
    {
        self.set_at(x, y, player);
        let ghost placed = *self;
        self.play_count = self.play_count + 1;
        self.last_play_position = (x, y);
        let ghost mid = *self;
        if self.define_win(player, x as i32, y as i32) {
            self.done = true;
        }
        proof {
            Self::lemma_wins_at_same_grid(mid, *self, player, x as int, y as int);
            assert forall|cx: int, cy: int|
                old(self).in_range(cx, cy) && !(cx == x && cy == y) implies #[trigger] self.cell(
                cx,
                cy,
            ) == old(self).cell(cx, cy) by {
                assert(placed.cell(cx, cy) == old(self).cell(cx, cy));
            }
        }
    }
}

} // verus!

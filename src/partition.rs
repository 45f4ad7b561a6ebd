//! Domain decomposition: splitting a `width` x `height` grid into one
//! rectangular block per worker.
use vstd::arithmetic::div_mod::{
    lemma_div_pos_is_pos, lemma_fundamental_div_mod, lemma_fundamental_div_mod_converse,
};
use vstd::arithmetic::mul::{lemma_mul_inequality, lemma_mul_is_commutative};
use vstd::prelude::*;
use vstd::string::StringExecFns;

verus! {

/// `rows` is the number of block rows chosen for `n` workers: the largest
/// divisor of `n` whose square does not exceed `n`.
pub open spec fn is_block_rows(n: int, rows: int) -> bool {
    &&& 1 <= rows
    &&& rows * rows <= n
    &&& n % rows == 0
    &&& forall|d: int| rows < d && #[trigger] (d * d) <= n ==> n % d != 0
}

/// The decomposition of a grid for a number of workers can be carried out:
/// the cell count divides evenly among the workers, and the chosen block
/// arrangement divides both axes.
pub open spec fn partition_ok(width: int, height: int, runners: int, rows: int) -> bool {
    &&& (width * height) % runners == 0
    &&& width % (runners / rows) == 0
    &&& height % rows == 0
}

/// The number of block rows for `n` workers.
pub open spec fn block_rows(n: int) -> int {
    choose|rows: int| is_block_rows(n, rows)
}

/// The grid cannot be split among the workers.
pub open spec fn decompose_fails(width: int, height: int, runners: int) -> bool {
    !partition_ok(width, height, runners, block_rows(runners))
}

/// Error returned when the grid cannot be split evenly among the workers.
#[derive(Debug, Clone, Copy, PartialEq, Eq)]
pub struct InvalidThreadNumber();

impl InvalidThreadNumber {
    /// Human-readable description of the error.
    pub fn message(&self) -> (r: String)
        ensures
            r@ == "Size of domain (x*y) was not divisible by the number of threads"@,
    {
        String::from_str("Size of domain (x*y) was not divisible by the number of threads")
    }
}

/// The block arrangement of a grid.
///
/// Block `r` (counted in row-major order over `rows` x `cols` blocks) covers
/// the columns `[x0, x0 + block_width)` and rows `[y0, y0 + block_height)`,
/// with `x0 = (r % cols) * block_width` and `y0 = (r / cols) * block_height`.
#[derive(Debug, Clone, Copy, PartialEq, Eq)]
pub struct Partition {
    pub width: usize,
    pub height: usize,
    pub runners: usize,
    pub rows: usize,
    pub cols: usize,
    pub block_width: usize,
    pub block_height: usize,
}

impl Partition {
    pub open spec fn wf(&self) -> bool {
        &&& 1 <= self.runners
        &&& self.width * self.height <= usize::MAX
        &&& is_block_rows(self.runners as int, self.rows as int)
        &&& self.cols == self.runners / self.rows
        &&& self.cols >= 1
        &&& self.rows * self.cols == self.runners
        &&& self.block_width * self.cols == self.width
        &&& self.block_height * self.rows == self.height
    }

    pub open spec fn cell_count(&self) -> int {
        self.width * self.height
    }

    pub open spec fn block_size(&self) -> int {
        self.block_width * self.block_height
    }

    pub open spec fn block_x0(&self, r: int) -> int {
        (r % self.cols as int) * self.block_width
    }

    pub open spec fn block_y0(&self, r: int) -> int {
        (r / self.cols as int) * self.block_height
    }

    /// Cell `(x, y)` lies in block `r`.
    pub open spec fn in_block(&self, r: int, x: int, y: int) -> bool {
        &&& 0 <= r < self.runners
        &&& self.block_x0(r) <= x < self.block_x0(r) + self.block_width
        &&& self.block_y0(r) <= y < self.block_y0(r) + self.block_height
    }

    /// The block that holds cell `(x, y)`.
    pub open spec fn block_of(&self, x: int, y: int) -> int {
        (y / self.block_height as int) * self.cols + x / self.block_width as int
    }

    /// Column of the `k`-th cell of block `r` (cells are counted row by row).
    pub open spec fn member_x(&self, r: int, k: int) -> int {
        self.block_x0(r) + k % self.block_width as int
    }

    /// Row of the `k`-th cell of block `r`.
    pub open spec fn member_y(&self, r: int, k: int) -> int {
        self.block_y0(r) + k / self.block_width as int
    }

    /// Position of cell `(x, y)` in the cell list of its block.
    pub open spec fn member_of(&self, x: int, y: int) -> int {
        (y % self.block_height as int) * self.block_width + x % self.block_width as int
    }

    /// Index of the cell at position `q` of the cell order: the blocks in
    /// rank order, each block's cells row by row.
    pub open spec fn cell_at(&self, q: int) -> int {
        let r = q / self.block_size();
        let k = q % self.block_size();
        self.member_y(r, k) * self.width + self.member_x(r, k)
    }

    /// Position of cell `i` (row-major index) in the cell order.
    pub open spec fn position_of(&self, i: int) -> int {
        let x = i % self.width as int;
        let y = i / self.width as int;
        self.block_of(x, y) * self.block_size() + self.member_of(x, y)
    }

    /// Left column of block `r`.
    pub fn x0(&self, r: usize) -> (x: usize)
        requires
            self.wf(),
            r < self.runners,
        ensures
            x == self.block_x0(r as int),
            x + self.block_width <= self.width,
    {
        proof {
            lemma_block_in_grid(*self, r as int);
        }
        (r % self.cols) * self.block_width
    }

    /// Top row of block `r`.
    pub fn y0(&self, r: usize) -> (y: usize)
        requires
            self.wf(),
            r < self.runners,
        ensures
            y == self.block_y0(r as int),
            y + self.block_height <= self.height,
    {
        proof {
            lemma_block_in_grid(*self, r as int);
        }
        (r / self.cols) * self.block_height
    }
}

/// Number of block rows for `n` workers: the largest divisor of `n` that is
/// at most the square root of `n`.
pub fn compute_number_of_block_rows(n: usize) -> (rows: usize)
    requires
        n >= 1,
    ensures
        is_block_rows(n as int, rows as int),
{
    // the integer square root of n
    let mut s: usize = 1;
    while s < n / s && (s + 1) <= n / (s + 1)
        invariant
            1 <= s,
            s * s <= n,
            n >= 1,
        decreases n - s,
    {
        proof {
            lemma_mul_below_quotient(s + 1, n as int);
            lemma_mul_inequality(s as int, s as int + 1, s as int + 1);
        }
        s = s + 1;
    }
    proof {
        lemma_square_bound(s as int, n as int);
    }
    let mut rows: usize = s;
    while n % rows != 0
        invariant
            1 <= rows <= s,
            s * s <= n,
            forall|d: int| s < d ==> #[trigger] (d * d) > n as int,
            forall|d: int| rows < d && #[trigger] (d * d) <= n as int ==> (n as int) % d != 0,
        decreases rows,
    {
        proof {
            assert(n % 1 == 0);
        }
        rows = rows - 1;
    }
    proof {
        lemma_mul_inequality(rows as int, s as int, rows as int);
        lemma_mul_inequality(rows as int, s as int, s as int);
        lemma_mul_is_commutative(rows as int, s as int);
    }
    rows
}

proof fn lemma_mul_below_quotient(a: int, n: int)
    requires
        1 <= a,
        a <= n / a,
        0 <= n,
    ensures
        a * a <= n,
{
    lemma_fundamental_div_mod(n, a);
    lemma_mul_inequality(a, n / a, a);
    lemma_mul_is_commutative(a, n / a);
}

/// Once the loop for the square root stops at `s`, no larger number has its
/// square within `n`.
proof fn lemma_square_bound(s: int, n: int)
    requires
        1 <= s,
        s * s <= n,
        !(s < n / s && (s + 1) <= n / (s + 1)),
    ensures
        forall|d: int| s < d ==> #[trigger] (d * d) > n,
{
    assert forall|d: int| s < d implies #[trigger] (d * d) > n by {
        lemma_fundamental_div_mod(n, s + 1);
        lemma_fundamental_div_mod(n, s);
        if (s + 1) * (s + 1) <= n {
            assert((s + 1) <= n / (s + 1)) by {
                lemma_div_at_least(n, s + 1);
            }
            assert(s < n / s) by {
                lemma_mul_inequality(s, s + 1, s);
                lemma_div_at_least(n, s);
                assert(s * (s + 1) <= n) by (nonlinear_arith)
                    requires
                        (s + 1) * (s + 1) <= n,
                        1 <= s,
                ;
            }
        }
        assert((s + 1) * (s + 1) > n);
        lemma_mul_inequality(s + 1, d, s + 1);
        lemma_mul_inequality(s + 1, d, d);
        lemma_mul_is_commutative(s + 1, d);
    }
}

/// `a * a <= n` (or `a * (a + 1) <= n`) gives `a <= n / a`.
proof fn lemma_div_at_least(n: int, a: int)
    requires
        1 <= a,
        0 <= n,
    ensures
        a * a <= n ==> a <= n / a,
        a * (a + 1) <= n ==> a + 1 <= n / a,
{
    lemma_fundamental_div_mod(n, a);
    if a * a <= n && n / a < a {
        lemma_mul_inequality(n / a + 1, a, a);
        lemma_mul_is_commutative(n / a + 1, a);
        assert(a * (n / a + 1) == a * (n / a) + a) by (nonlinear_arith);
    }
    if a * (a + 1) <= n && n / a < a + 1 {
        lemma_mul_inequality(n / a + 1, a + 1, a);
        lemma_mul_is_commutative(n / a + 1, a);
        lemma_mul_is_commutative(a + 1, a);
        assert(a * (n / a + 1) == a * (n / a) + a) by (nonlinear_arith);
    }
}

/// Splits a `width` x `height` grid among `runners` workers.
///
/// Fails exactly when the cell count is not divisible by `runners`, or when
/// the block arrangement chosen for `runners` does not divide both axes.
pub fn decompose(width: usize, height: usize, runners: usize) -> (res: Result<
    Partition,
    InvalidThreadNumber,
>)
    requires
        runners >= 1,
        width * height <= usize::MAX,
    ensures
        is_block_rows(runners as int, block_rows(runners as int)),
        res is Err <==> decompose_fails(width as int, height as int, runners as int),
        res is Ok ==> ({
            let p = res->Ok_0;
            &&& p.wf()
            &&& p.width == width
            &&& p.height == height
            &&& p.runners == runners
        }),
        (width * height) % (runners as int) != 0 ==> res is Err,
{
    let rows = compute_number_of_block_rows(runners);
    proof {
        lemma_block_rows_unique(runners as int, rows as int);
    }
    let cols = runners / rows;
    proof {
        lemma_fundamental_div_mod(runners as int, rows as int);
        assert(cols >= 1) by (nonlinear_arith)
            requires
                runners as int == rows * (runners as int / rows as int) + runners as int % rows as int,
                runners as int % rows as int == 0,
                runners >= 1,
                cols == runners as int / rows as int,
                rows >= 1,
        ;
    }
    if (width * height) % runners != 0 || width % cols != 0 || height % rows != 0 {
        return Err(InvalidThreadNumber());
    }
    let block_width = width / cols;
    let block_height = height / rows;
    proof {
        lemma_fundamental_div_mod(width as int, cols as int);
        lemma_fundamental_div_mod(height as int, rows as int);
        lemma_mul_is_commutative(block_width as int, cols as int);
        lemma_mul_is_commutative(block_height as int, rows as int);
        lemma_mul_is_commutative(rows as int, cols as int);
    }
    Ok(Partition { width, height, runners, rows, cols, block_width, block_height })
}

/// There is exactly one number of block rows for each worker count.
proof fn lemma_block_rows_unique(n: int, rows: int)
    requires
        is_block_rows(n, rows),
    ensures
        forall|other: int| is_block_rows(n, other) ==> other == rows,
{
    assert forall|other: int| is_block_rows(n, other) implies other == rows by {
        if other > rows {
            assert(n % other != 0);
        } else if other < rows {
            assert(n % rows != 0);
        }
    }
}

/// Block `r` lies inside the grid.
pub proof fn lemma_block_in_grid(p: Partition, r: int)
    requires
        p.wf(),
        0 <= r < p.runners,
    ensures
        0 <= p.block_x0(r),
        p.block_x0(r) + p.block_width <= p.width,
        0 <= p.block_y0(r),
        p.block_y0(r) + p.block_height <= p.height,
{
    let c = p.cols as int;
    let rows = p.rows as int;
    lemma_fundamental_div_mod(r, c);
    assert(r % c < c);
    assert(r / c < rows) by {
        if r / c >= rows {
            lemma_mul_inequality(rows, r / c, c);
            lemma_mul_is_commutative(r / c, c);
        }
    }
    lemma_mul_inequality(r % c + 1, c, p.block_width as int);
    lemma_mul_inequality(r / c + 1, rows, p.block_height as int);
    assert((r % c + 1) * p.block_width == (r % c) * p.block_width + p.block_width) by (nonlinear_arith);
    assert((r / c + 1) * p.block_height == (r / c) * p.block_height + p.block_height) by (nonlinear_arith);
    lemma_mul_is_commutative(c, p.block_width as int);
    lemma_mul_is_commutative(rows, p.block_height as int);
    assert(0 <= (r % c) * p.block_width) by (nonlinear_arith)
        requires r % c >= 0;
    assert(0 <= (r / c) * p.block_height) by (nonlinear_arith)
        requires r / c >= 0;
}

/// Cell `(x, y)` of the grid lies in block `block_of(x, y)`, and in no other.
proof fn lemma_block_of(p: Partition, x: int, y: int)
    requires
        p.wf(),
        0 <= x < p.width,
        0 <= y < p.height,
    ensures
        0 <= p.block_of(x, y) < p.runners,
        p.in_block(p.block_of(x, y), x, y),
        forall|r: int| p.in_block(r, x, y) ==> r == p.block_of(x, y),
{
    let bw = p.block_width as int;
    let bh = p.block_height as int;
    let c = p.cols as int;
    let rows = p.rows as int;
    assert(bw > 0 && c > 0) by {
        if bw <= 0 {
            assert(bw * c <= 0) by (nonlinear_arith) requires bw <= 0, c >= 0;
        }
        if c <= 0 {
            assert(bw * c <= 0) by (nonlinear_arith) requires c <= 0, bw >= 0;
        }
    }
    assert(bh > 0) by {
        if bh <= 0 {
            assert(bh * rows <= 0) by (nonlinear_arith) requires bh <= 0, rows >= 0;
        }
    }
    lemma_fundamental_div_mod(x, bw);
    lemma_fundamental_div_mod(y, bh);
    let qx = x / bw;
    let qy = y / bh;
    assert(0 <= qx < c) by {
        lemma_div_pos_is_pos(x, bw);
        if qx >= c {
            lemma_mul_inequality(c, qx, bw);
            lemma_mul_is_commutative(c, bw);
        }
    }
    assert(0 <= qy < rows) by {
        lemma_div_pos_is_pos(y, bh);
        if qy >= rows {
            lemma_mul_inequality(rows, qy, bh);
            lemma_mul_is_commutative(rows, bh);
        }
    }
    let b = qy * c + qx;
    assert(b < p.runners) by {
        lemma_mul_inequality(qy + 1, rows, c);
        assert((qy + 1) * c == qy * c + c) by (nonlinear_arith);
    }
    assert(0 <= qy * c) by (nonlinear_arith) requires qy >= 0, c >= 0;
    lemma_fundamental_div_mod_converse(b, c, qy, qx);
    lemma_mul_is_commutative(qx, bw);
    lemma_mul_is_commutative(qy, bh);
    assert forall|r: int| p.in_block(r, x, y) implies r == b by {
        lemma_fundamental_div_mod(r, c);
        lemma_fundamental_div_mod_converse(x, bw, r % c, x - (r % c) * bw);
        lemma_fundamental_div_mod_converse(y, bh, r / c, y - (r / c) * bh);
        lemma_mul_is_commutative(c, r / c);
    }
}

/// A cell of block `r` lies in the grid and in block `r`.
proof fn lemma_member_in_block(p: Partition, r: int, x: int, y: int)
    requires
        p.wf(),
        p.in_block(r, x, y),
    ensures
        0 <= x < p.width,
        0 <= y < p.height,
{
    lemma_block_in_grid(p, r);
}

proof fn lemma_sizes_positive(p: Partition)
    requires
        p.wf(),
        p.width * p.height > 0,
    ensures
        p.block_width > 0,
        p.block_height > 0,
        p.cols > 0,
        p.block_size() > 0,
        p.cell_count() == p.runners * p.block_size(),
{
    let bw = p.block_width as int;
    let bh = p.block_height as int;
    let c = p.cols as int;
    let rows = p.rows as int;
    assert(p.width * p.height == (rows * c) * (bw * bh)) by (nonlinear_arith)
        requires
            p.width == bw * c,
            p.height == bh * rows,
    ;
    assert(bw > 0 && bh > 0 && c > 0) by (nonlinear_arith)
        requires
            (rows * c) * (bw * bh) > 0,
            bw >= 0,
            bh >= 0,
            c >= 0,
            rows >= 1,
    ;
    assert(bw * bh > 0) by (nonlinear_arith)
        requires
            bw > 0,
            bh > 0,
    ;
}

/// Cell `i` of the grid stands at `position_of(i)` of the cell order.
proof fn lemma_position_of(p: Partition, i: int)
    requires
        p.wf(),
        0 <= i < p.cell_count(),
    ensures
        0 <= p.position_of(i) < p.cell_count(),
        p.cell_at(p.position_of(i)) == i,
{
    let w = p.width as int;
    let bw = p.block_width as int;
    let bh = p.block_height as int;
    let c = p.cols as int;
    lemma_sizes_positive(p);
    let bs = p.block_size();
    assert(w > 0) by (nonlinear_arith)
        requires
            w * p.height > 0,
            w >= 0,
            p.height >= 0,
    ;
    lemma_fundamental_div_mod(i, w);
    let x = i % w;
    let y = i / w;
    assert(y < p.height) by {
        if y >= p.height {
            lemma_mul_inequality(p.height as int, y, w);
            lemma_mul_is_commutative(p.height as int, w);
            lemma_mul_is_commutative(y, w);
        }
    }
    assert(0 <= y) by {
        lemma_div_pos_is_pos(i, w);
    }
    lemma_block_of(p, x, y);
    let r = p.block_of(x, y);
    lemma_fundamental_div_mod(x, bw);
    lemma_fundamental_div_mod(y, bh);
    let k = p.member_of(x, y);
    assert(0 <= k < bs) by {
        assert((y % bh) * bw + x % bw < bw * bh) by (nonlinear_arith)
            requires
                0 <= y % bh < bh,
                0 <= x % bw < bw,
        ;
        assert(0 <= (y % bh) * bw) by (nonlinear_arith)
            requires
                0 <= y % bh,
                0 <= bw,
        ;
    }
    let q = r * bs + k;
    assert(0 <= q < p.cell_count()) by {
        lemma_mul_inequality(r + 1, p.runners as int, bs);
        assert((r + 1) * bs == r * bs + bs) by (nonlinear_arith);
        assert(0 <= r * bs) by (nonlinear_arith)
            requires
                0 <= r,
                0 <= bs,
        ;
    }
    lemma_fundamental_div_mod_converse(q, bs, r, k);
    lemma_fundamental_div_mod_converse(k, bw, y % bh, x % bw);
    // block r starts at the multiples of the block sizes below x and y
    lemma_fundamental_div_mod(r, c);
    lemma_fundamental_div_mod_converse(x, bw, r % c, x - (r % c) * bw);
    lemma_fundamental_div_mod_converse(y, bh, r / c, y - (r / c) * bh);
    lemma_mul_is_commutative(bw, x / bw);
    lemma_mul_is_commutative(bh, y / bh);
    lemma_mul_is_commutative(w, y);
}

/// The cell at position `q` of the cell order lies in block `q / block_size`
/// and stands at position `q`.
proof fn lemma_cell_at(p: Partition, q: int)
    requires
        p.wf(),
        0 <= q < p.cell_count(),
    ensures
        0 <= p.cell_at(q) < p.cell_count(),
        p.in_block(q / p.block_size(), p.cell_at(q) % p.width as int, p.cell_at(q) / p.width as int),
        p.position_of(p.cell_at(q)) == q,
        0 <= p.member_x(q / p.block_size(), q % p.block_size()) < p.width,
        0 <= p.member_y(q / p.block_size(), q % p.block_size()) < p.height,
{
    let w = p.width as int;
    let bw = p.block_width as int;
    let bh = p.block_height as int;
    lemma_sizes_positive(p);
    let bs = p.block_size();
    lemma_fundamental_div_mod(q, bs);
    let r = q / bs;
    let k = q % bs;
    assert(0 <= r < p.runners) by {
        lemma_div_pos_is_pos(q, bs);
        if r >= p.runners {
            lemma_mul_inequality(p.runners as int, r, bs);
            lemma_mul_is_commutative(r, bs);
            lemma_mul_is_commutative(p.runners as int, bs);
        }
    }
    lemma_fundamental_div_mod(k, bw);
    let kx = k % bw;
    let ky = k / bw;
    assert(0 <= ky < bh) by {
        lemma_div_pos_is_pos(k, bw);
        if ky >= bh {
            lemma_mul_inequality(bh, ky, bw);
            lemma_mul_is_commutative(bh, bw);
            lemma_mul_is_commutative(bw, ky);
        }
    }
    let mx = p.member_x(r, k);
    let my = p.member_y(r, k);
    assert(p.in_block(r, mx, my));
    lemma_member_in_block(p, r, mx, my);
    let i = my * w + mx;
    lemma_fundamental_div_mod_converse(i, w, my, mx);
    assert(i < p.cell_count()) by {
        lemma_mul_inequality(my + 1, p.height as int, w);
        assert((my + 1) * w == my * w + w) by (nonlinear_arith);
        lemma_mul_is_commutative(p.height as int, w);
    }
    assert(0 <= my * w) by (nonlinear_arith)
        requires
            0 <= my,
            0 <= w,
    ;
    lemma_block_of(p, mx, my);
    let c = p.cols as int;
    lemma_fundamental_div_mod(r, c);
    assert(0 <= r % c);
    assert(0 <= r / c) by {
        lemma_div_pos_is_pos(r, c);
    }
    lemma_fundamental_div_mod_converse(mx, bw, r % c, kx);
    lemma_fundamental_div_mod_converse(my, bh, r / c, ky);
    lemma_mul_is_commutative(bw, ky);
    lemma_mul_is_commutative(bs, r);
}

/// The cell order lists every cell of the grid exactly once, and lists the
/// cells of block `r` at the positions `[r * block_size, (r + 1) * block_size)`.
pub proof fn lemma_cell_order(p: Partition)
    requires
        p.wf(),
    ensures
        p.cell_count() == p.runners * p.block_size(),
        forall|q: int|
            0 <= q < p.cell_count() ==> {
                &&& 0 <= #[trigger] p.cell_at(q) < p.cell_count()
                &&& p.position_of(p.cell_at(q)) == q
                &&& p.in_block(
                    q / p.block_size(),
                    p.cell_at(q) % p.width as int,
                    p.cell_at(q) / p.width as int,
                )
                &&& 0 <= p.member_x(q / p.block_size(), q % p.block_size()) < p.width
                &&& 0 <= p.member_y(q / p.block_size(), q % p.block_size()) < p.height
            },
        forall|i: int|
            0 <= i < p.cell_count() ==> {
                &&& 0 <= #[trigger] p.position_of(i) < p.cell_count()
                &&& p.cell_at(p.position_of(i)) == i
            },
{
    if p.width * p.height > 0 {
        lemma_sizes_positive(p);
    } else {
        assert(p.width * p.height == (p.rows * p.cols) * (p.block_width * p.block_height))
            by (nonlinear_arith)
            requires
                p.width == p.block_width * p.cols,
                p.height == p.block_height * p.rows,
        ;
    }
    assert forall|q: int| 0 <= q < p.cell_count() implies {
        &&& 0 <= #[trigger] p.cell_at(q) < p.cell_count()
        &&& p.position_of(p.cell_at(q)) == q
        &&& p.in_block(q / p.block_size(), p.cell_at(q) % p.width as int, p.cell_at(q) / p.width as int)
        &&& 0 <= p.member_x(q / p.block_size(), q % p.block_size()) < p.width
        &&& 0 <= p.member_y(q / p.block_size(), q % p.block_size()) < p.height
    } by {
        lemma_cell_at(p, q);
    }
    assert forall|i: int| 0 <= i < p.cell_count() implies {
        &&& 0 <= #[trigger] p.position_of(i) < p.cell_count()
        &&& p.cell_at(p.position_of(i)) == i
    } by {
        lemma_position_of(p, i);
    }
}

/// The blocks of a decomposition partition the grid: there are exactly
/// `runners` of them, each lies inside the grid, every cell of the grid lies
/// in one of them, and no cell lies in two.
pub proof fn lemma_blocks_partition_grid(p: Partition)
    requires
        p.wf(),
    ensures
        p.rows * p.cols == p.runners,
        forall|r: int, x: int, y: int|
            #[trigger] p.in_block(r, x, y) ==> 0 <= x < p.width && 0 <= y < p.height,
        forall|x: int, y: int|
            0 <= x < p.width && 0 <= y < p.height ==> p.in_block(#[trigger] p.block_of(x, y), x, y),
        forall|r1: int, r2: int, x: int, y: int|
            #[trigger] p.in_block(r1, x, y) && #[trigger] p.in_block(r2, x, y) ==> r1 == r2,
{
    assert forall|r: int, x: int, y: int| #[trigger] p.in_block(r, x, y) implies 0 <= x < p.width
        && 0 <= y < p.height by {
        lemma_member_in_block(p, r, x, y);
    }
    assert forall|x: int, y: int| 0 <= x < p.width && 0 <= y < p.height implies p.in_block(
        #[trigger] p.block_of(x, y),
        x,
        y,
    ) by {
        lemma_block_of(p, x, y);
    }
    assert forall|r1: int, r2: int, x: int, y: int|
        #[trigger] p.in_block(r1, x, y) && #[trigger] p.in_block(r2, x, y) implies r1 == r2 by {
        lemma_member_in_block(p, r1, x, y);
        lemma_block_of(p, x, y);
    }
}

} // verus!

//! A sparse grid of cells addressed by column and row. It is stored densely,
//! row by row, and doubles in width or height whenever a cell is written
//! outside it; cells that were never written read as empty text.

use crate::expr::{eval_term, failure_text, value_text, Expr};
use crate::grammar::formula;
use vstd::math::max;
use vstd::prelude::*;

verus! {

/// A reference to another cell, by column and row. Kept for tracking which
/// cells depend on which; nothing records one yet.
#[derive(Clone, Copy)]
pub struct CellRef(pub usize, pub usize);

/// A cell: its text as typed, and the cells that refer to it.
pub struct Cell {
    contents: String,
    backrefs: Vec<CellRef>,
}

impl Cell {
    /// The text of the cell.
    pub closed spec fn text(self) -> Seq<char> {
        self.contents@
    }

    /// The cells that refer to this one.
    pub closed spec fn refs(self) -> Seq<CellRef> {
        self.backrefs@
    }

    /// A cell with no text and no references.
    pub fn empty() -> (r: Cell)
        ensures
            r.text() == Seq::<char>::empty(),
            r.refs() == Seq::<CellRef>::empty(),
    {
        Cell { contents: String::new(), backrefs: Vec::new() }
    }
}

impl Clone for Cell {
    fn clone(&self) -> (r: Self)
        ensures
            r.text() == self.text(),
            r.refs().len() == self.refs().len(),
    {
        Cell { contents: self.contents.clone(), backrefs: self.backrefs.clone() }
    }
}

/// What a sheet stands for: the text written to each cell, and the largest
/// column and row written to.
pub struct SheetView {
    pub cells: Map<(int, int), Seq<char>>,
    pub max_x: int,
    pub max_y: int,
}

impl SheetView {
    /// The text at column `x` and row `y`: empty where nothing was written.
    pub open spec fn text(self, x: int, y: int) -> Seq<char> {
        if self.cells.contains_key((x, y)) {
            self.cells[(x, y)]
        } else {
            Seq::empty()
        }
    }

    /// The sheet after `t` is written at column `x` and row `y`.
    pub open spec fn set(self, x: int, y: int, t: Seq<char>) -> SheetView {
        SheetView {
            cells: self.cells.insert((x, y), t),
            max_x: max(self.max_x, x),
            max_y: max(self.max_y, y),
        }
    }

    /// Writing at column `x` and row `y` needs no more cells than a `usize` counts.
    pub open spec fn fits(self, x: int, y: int) -> bool {
        4 * (max(self.max_x, x) + 1) * (max(self.max_y, y) + 1) <= usize::MAX
    }
}

/// A sheet where nothing was written.
pub open spec fn empty_sheet() -> SheetView {
    SheetView { cells: Map::empty(), max_x: 0, max_y: 0 }
}

/// The sheet that the writes `(column, row, text)` give, in order, from an
/// empty one.
pub open spec fn replay(writes: Seq<(int, int, Seq<char>)>) -> SheetView
    decreases writes.len(),
{
    if writes.len() == 0 {
        empty_sheet()
    } else {
        let w = writes.last();
        replay(writes.drop_last()).set(w.0, w.1, w.2)
    }
}

/// Reading a cell right after writing it gives the text written, and every
/// other cell keeps its text.
pub proof fn lemma_set_then_read(v: SheetView, x: int, y: int, t: Seq<char>)
    ensures
        v.set(x, y, t).text(x, y) == t,
        forall|a: int, b: int| (a, b) != (x, y) ==> #[trigger] v.set(x, y, t).text(a, b) == v.text(a, b),
{
}

/// After any writes, the largest column and row are the largest that a write
/// named (both 0 before any write), and a write never makes them smaller.
pub proof fn lemma_bounding_box(writes: Seq<(int, int, Seq<char>)>)
    requires
        forall|k: int| 0 <= k < writes.len() ==> 0 <= #[trigger] writes[k].0 && 0 <= writes[k].1,
    ensures
        forall|k: int|
            0 <= k < writes.len() ==> #[trigger] writes[k].0 <= replay(writes).max_x && writes[k].1
                <= replay(writes).max_y,
        writes.len() == 0 ==> replay(writes).max_x == 0 && replay(writes).max_y == 0,
        writes.len() > 0 ==> exists|k: int| 0 <= k < writes.len() && #[trigger] writes[k].0 == replay(writes).max_x,
        writes.len() > 0 ==> exists|k: int| 0 <= k < writes.len() && #[trigger] writes[k].1 == replay(writes).max_y,
        writes.len() > 0 ==> replay(writes).max_x >= replay(writes.drop_last()).max_x
            && replay(writes).max_y >= replay(writes.drop_last()).max_y,
    decreases writes.len(),
{
    if writes.len() > 0 {
        let prefix = writes.drop_last();
        let last = writes.len() - 1;
        lemma_bounding_box(prefix);
        assert forall|k: int| 0 <= k < writes.len() implies #[trigger] writes[k].0 <= replay(writes).max_x
            && writes[k].1 <= replay(writes).max_y by {
            if k < last {
                assert(prefix[k] == writes[k]);
            }
        }
        assert(writes[last] == writes.last());
        let v = replay(writes);
        if writes[last].0 >= replay(prefix).max_x {
            assert(writes[last].0 == v.max_x);
        } else {
            let i = choose|i: int| 0 <= i < prefix.len() && #[trigger] prefix[i].0 == replay(prefix).max_x;
            assert(writes[i] == prefix[i]);
            assert(writes[i].0 == v.max_x);
        }
        if writes[last].1 >= replay(prefix).max_y {
            assert(writes[last].1 == v.max_y);
        } else {
            let j = choose|j: int| 0 <= j < prefix.len() && #[trigger] prefix[j].1 == replay(prefix).max_y;
            assert(writes[j] == prefix[j]);
            assert(writes[j].1 == v.max_y);
        }
    }
}

/// A cell that no write names reads as empty text.
pub proof fn lemma_unwritten_is_empty(writes: Seq<(int, int, Seq<char>)>, a: int, b: int)
    requires
        forall|k: int| 0 <= k < writes.len() ==> (#[trigger] writes[k].0, writes[k].1) != (a, b),
    ensures
        replay(writes).text(a, b) == Seq::<char>::empty(),
    decreases writes.len(),
{
    if writes.len() > 0 {
        let prefix = writes.drop_last();
        assert forall|k: int| 0 <= k < prefix.len() implies (#[trigger] prefix[k].0, prefix[k].1) != (
            a,
            b,
        ) by {
            assert(prefix[k] == writes[k]);
        }
        lemma_unwritten_is_empty(prefix, a, b);
        assert(writes[writes.len() - 1] == writes.last());
    }
}

/// What a cell shows for the text `raw`: text that starts with `=` is a
/// formula, shown as its value or as the error that parsing or evaluating it
/// gave; other text is shown as it is.
pub open spec fn display(raw: Seq<char>) -> Seq<char> {
    if raw.len() > 0 && raw[0] == '=' {
        match formula(raw.drop_first()) {
            Err(f) => failure_text(f),
            Ok(t) => match eval_term(t) {
                Ok(v) => value_text(v),
                Err(f) => failure_text(f),
            },
        }
    } else {
        raw
    }
}

/// `n` is a power of two.
pub open spec fn is_pow2(n: int) -> bool
    decreases n,
{
    if n <= 1 {
        n == 1
    } else {
        n % 2 == 0 && is_pow2(n / 2)
    }
}

/// The size that doubling `size` until it exceeds `c` reaches.
pub open spec fn fit(size: int, c: int) -> int
    decreases c - size,
{
    if size <= 0 || size > c {
        size
    } else if 2 * size > c {
        2 * size
    } else {
        fit(2 * size, c)
    }
}

/// The cell at column `a` and row `b` of a grid `w` cells wide.
pub open spec fn cell_at(cells: Seq<Cell>, w: int, a: int, b: int) -> Cell {
    cells[a + b * w]
}

/// A grid position names one cell.
proof fn lemma_index(a: int, b: int, c: int, d: int, w: int)
    requires
        0 <= a < w,
        0 <= c < w,
        0 <= b,
        0 <= d,
        a + b * w == c + d * w,
    ensures
        a == c,
        b == d,
{
    if b < d {
        assert(b * w + w <= d * w) by (nonlinear_arith)
            requires
                b < d,
                0 <= w,
        ;
    } else if d < b {
        assert(d * w + w <= b * w) by (nonlinear_arith)
            requires
                d < b,
                0 <= w,
        ;
    }
}

/// A grid position lies within the grid.
proof fn lemma_in_grid(a: int, b: int, w: int, h: int)
    requires
        0 <= a < w,
        0 <= b < h,
    ensures
        0 <= a + b * w < w * h,
        b * w <= w * h - w,
{
    assert(0 <= b * w) by (nonlinear_arith)
        requires
            0 <= b,
            0 <= w,
    ;
    assert(b * w + w <= w * h) by (nonlinear_arith)
        requires
            b < h,
            0 <= w,
    ;
}

/// Doubling reaches past `c`, keeps a power of two, and overshoots by at most double.
proof fn lemma_fit(size: int, c: int)
    requires
        1 <= size,
        is_pow2(size),
        0 <= c,
    ensures
        fit(size, c) > c,
        fit(size, c) >= size,
        is_pow2(fit(size, c)),
        fit(size, c) <= max(size, 2 * c),
    decreases c - size,
{
    if size <= c {
        assert(is_pow2(2 * size)) by {
            assert((2 * size) / 2 == size);
        }
        if 2 * size <= c {
            lemma_fit(2 * size, c);
        }
    }
}

/// The cell store.
pub struct Spreadsheet {
    max_x: usize,
    max_y: usize,
    arr_w: usize,
    arr_h: usize,
    cells: Vec<Cell>,
    written: Ghost<Map<(int, int), Seq<char>>>,
}

impl View for Spreadsheet {
    type V = SheetView;

    closed spec fn view(&self) -> SheetView {
        SheetView { cells: self.written@, max_x: self.max_x as int, max_y: self.max_y as int }
    }
}

impl Spreadsheet {
    /// The text stored at column `x` and row `y`, or empty text outside the grid.
    closed spec fn stored(self, x: int, y: int) -> Seq<char> {
        if 0 <= x < self.arr_w && 0 <= y < self.arr_h {
            cell_at(self.cells@, self.arr_w as int, x, y).text()
        } else {
            Seq::empty()
        }
    }

    /// The grid has the size that its width and height give, and no cell
    /// refers to another.
    closed spec fn shaped(self) -> bool {
        &&& 1 <= self.arr_w
        &&& 1 <= self.arr_h
        &&& is_pow2(self.arr_w as int)
        &&& is_pow2(self.arr_h as int)
        &&& self.cells@.len() == self.arr_w * self.arr_h
        &&& self.arr_w * self.arr_h <= usize::MAX
        &&& forall|i: int| 0 <= i < self.cells@.len() ==> (#[trigger] self.cells@[i]).refs().len() == 0
    }

    /// The grid holds exactly what was written, and it is no larger than twice
    /// the largest column and row written to.
    pub closed spec fn wf(self) -> bool {
        &&& self.shaped()
        &&& self.max_x < self.arr_w <= 2 * self.max_x + 1
        &&& self.max_y < self.arr_h <= 2 * self.max_y + 1
        &&& forall|k: (int, int)|
            #[trigger] self.written@.contains_key(k) ==> 0 <= k.0 <= self.max_x && 0 <= k.1
                <= self.max_y
        &&& forall|x: int, y: int| #[trigger] self.stored(x, y) == self@.text(x, y)
    }

    /// An empty sheet: one empty cell.
    pub fn new() -> (r: Spreadsheet)
        ensures
            r.wf(),
            r@ == empty_sheet(),
    {
        let mut cells: Vec<Cell> = Vec::new();
        cells.push(Cell::empty());
        let r = Spreadsheet {
            max_x: 0,
            max_y: 0,
            arr_w: 1,
            arr_h: 1,
            cells,
            written: Ghost(Map::empty()),
        };
        assert(r@.cells =~= empty_sheet().cells);
        r
    }

    /// The text written at column `x` and row `y`, or empty text where
    /// nothing was.
    pub fn raw_cell(&self, x: usize, y: usize) -> (r: String)
        requires
            self.wf(),
        ensures
            r@ == self@.text(x as int, y as int),
    {
        assert(self.stored(x as int, y as int) == self@.text(x as int, y as int));
        if x < self.arr_w && y < self.arr_h {
            proof {
                lemma_in_grid(x as int, y as int, self.arr_w as int, self.arr_h as int);
            }
            let i = x + y * self.arr_w;
            self.cells[i].contents.clone()
        } else {
            String::new()
        }
    }

    /// What the cell at column `x` and row `y` shows.
    pub fn show_cell(&self, x: usize, y: usize) -> (r: String)
        requires
            self.wf(),
        ensures
            r@ == display(self@.text(x as int, y as int)),
    {
        let raw = self.raw_cell(x, y);
        let n = raw.as_str().unicode_len();
        if n > 0 && raw.as_str().get_char(0) == '=' {
            let body = raw.as_str().substring_char(1, n);
            assert(body@ == raw@.drop_first());
            match Expr::parse(body) {
                Err(e) => e.message(),
                Ok(e) => match e.eval() {
                    Ok(v) => v.to_text(),
                    Err(e) => e.message(),
                },
            }
        } else {
            raw
        }
    }

    /// Whether the grid can grow to hold column `x` and row `y`: its cells,
    /// four times over, must be countable by a `usize`.
    pub fn has_room_for(&self, x: usize, y: usize) -> (r: bool)
        ensures
            r == self@.fits(x as int, y as int),
    {
        let a = if x > self.max_x {
            x
        } else {
            self.max_x
        };
        let b = if y > self.max_y {
            y
        } else {
            self.max_y
        };
        if a == usize::MAX || b == usize::MAX {
            proof {
                assert(4 * (a + 1) * (b + 1) > usize::MAX) by (nonlinear_arith)
                    requires
                        a == usize::MAX || b == usize::MAX,
                        0 <= a,
                        0 <= b,
                ;
            }
            return false;
        }
        match (a + 1).checked_mul(b + 1) {
            Some(area) => {
                assert(4 * (a + 1) * (b + 1) == area * 4) by (nonlinear_arith)
                    requires
                        area == (a + 1) * (b + 1),
                ;
                area.checked_mul(4).is_some()
            },
            None => {
                proof {
                    assert(4 * (a + 1) * (b + 1) > usize::MAX) by (nonlinear_arith)
                        requires
                            (a + 1) * (b + 1) > usize::MAX,
                    ;
                }
                false
            },
        }
    }

    /// Writes `contents` at column `x` and row `y`, growing the grid to fit.
    pub fn set(&mut self, x: usize, y: usize, contents: String)
        requires
            old(self).wf(),
            old(self)@.fits(x as int, y as int),
        ensures
            final(self).wf(),
            final(self)@ == old(self)@.set(x as int, y as int, contents@),
    {
        let ghost a = max(self.max_x as int, x as int);
        let ghost b = max(self.max_y as int, y as int);
        proof {
            lemma_fit(self.arr_w as int, x as int);
            lemma_fit(self.arr_h as int, y as int);
            let fw = fit(self.arr_w as int, x as int);
            let fh = fit(self.arr_h as int, y as int);
            assert(fw * fh <= usize::MAX) by (nonlinear_arith)
                requires
                    1 <= fw <= 2 * a + 1,
                    1 <= fh <= 2 * b + 1,
                    4 * (a + 1) * (b + 1) <= usize::MAX,
            ;
            assert(2 * a <= usize::MAX && 2 * b <= usize::MAX) by (nonlinear_arith)
                requires
                    0 <= a,
                    0 <= b,
                    4 * (a + 1) * (b + 1) <= usize::MAX,
            ;
        }
        self.max_x = if x > self.max_x {
            x
        } else {
            self.max_x
        };
        self.max_y = if y > self.max_y {
            y
        } else {
            self.max_y
        };
        if x >= self.arr_w || y >= self.arr_h {
            self.grow_array_to_fit(x, y);
        }
        let ghost before = *self;
        proof {
            lemma_in_grid(x as int, y as int, self.arr_w as int, self.arr_h as int);
        }
        let i = x + y * self.arr_w;
        let mut c = self.cells[i].clone();
        c.contents = contents;
        self.cells.set(i, c);
        self.written = Ghost(self.written@.insert((x as int, y as int), contents@));
        proof {
            assert forall|p: int, q: int| #[trigger] self.stored(p, q) == self@.text(p, q) by {
                if 0 <= p < self.arr_w && 0 <= q < self.arr_h && (p != x || q != y) {
                    lemma_in_grid(p, q, self.arr_w as int, self.arr_h as int);
                    if p + q * self.arr_w == i {
                        lemma_index(p, q, x as int, y as int, self.arr_w as int);
                    }
                    assert(before.stored(p, q) == old(self).stored(p, q));
                    assert(old(self).stored(p, q) == old(self)@.text(p, q));
                }
            }
            assert(self@.cells =~= old(self)@.set(x as int, y as int, contents@).cells);
        }
    }

    /// Doubles the width and the height of the grid until column `x` and row
    /// `y` lie within it, keeping every cell at its column and row.
    fn grow_array_to_fit(&mut self, x: usize, y: usize)
        requires
            old(self).shaped(),
            2 * x <= usize::MAX,
            2 * y <= usize::MAX,
            fit(old(self).arr_w as int, x as int) * fit(old(self).arr_h as int, y as int) <= usize::MAX,
        ensures
            final(self).shaped(),
            final(self).arr_w == fit(old(self).arr_w as int, x as int),
            final(self).arr_h == fit(old(self).arr_h as int, y as int),
            final(self).max_x == old(self).max_x,
            final(self).max_y == old(self).max_y,
            final(self).written == old(self).written,
            forall|a: int, b: int| #[trigger] final(self).stored(a, b) == old(self).stored(a, b),
    {
        let w = self.arr_w;
        let h = self.arr_h;
        let mut new_w = w;
        let mut new_h = h;
        proof {
            lemma_fit(w as int, x as int);
            lemma_fit(h as int, y as int);
        }
        while new_w <= x
            invariant
                1 <= new_w,
                is_pow2(new_w as int),
                fit(new_w as int, x as int) == fit(w as int, x as int),
                2 * x <= usize::MAX,
            decreases usize::MAX - new_w,
        {
            assert(is_pow2(2 * new_w)) by {
                assert((2 * new_w) / 2 == new_w);
            }
            new_w = new_w * 2;
        }
        while new_h <= y
            invariant
                1 <= new_h,
                is_pow2(new_h as int),
                fit(new_h as int, y as int) == fit(h as int, y as int),
                2 * y <= usize::MAX,
            decreases usize::MAX - new_h,
        {
            assert(is_pow2(2 * new_h)) by {
                assert((2 * new_h) / 2 == new_h);
            }
            new_h = new_h * 2;
        }
        let ghost nw = new_w as int;
        let total = new_w * new_h;
        proof {
            lemma_in_grid(0, h as int - 1, new_w as int, new_h as int);
        }
        let mut new_cells: Vec<Cell> = Vec::new();
        let mut yy: usize = 0;
        while yy < h
            invariant
                self.shaped(),
                w == self.arr_w,
                h == self.arr_h,
                w <= new_w,
                h <= new_h,
                total == new_w * new_h,
                nw == new_w,
                yy <= h,
                new_cells@.len() == yy * new_w,
                forall|i: int| 0 <= i < new_cells@.len() ==> (#[trigger] new_cells@[i]).refs().len() == 0,
                forall|a: int, b: int|
                    0 <= a < nw && 0 <= b && a + b * nw < new_cells@.len() ==> #[trigger] cell_at(
                        new_cells@,
                        nw,
                        a,
                        b,
                    ).text() == self.stored(a, b),
            decreases h - yy,
        {
            proof {
                lemma_in_grid(0, yy as int, new_w as int, new_h as int);
            }
            let mut xx: usize = 0;
            while xx < new_w
                invariant
                    self.shaped(),
                    w == self.arr_w,
                    h == self.arr_h,
                    w <= new_w,
                    h <= new_h,
                    total == new_w * new_h,
                    nw == new_w,
                    yy < h,
                    xx <= new_w,
                    yy * new_w + new_w <= total,
                    new_cells@.len() == yy * new_w + xx,
                    forall|i: int|
                        0 <= i < new_cells@.len() ==> (#[trigger] new_cells@[i]).refs().len() == 0,
                    forall|a: int, b: int|
                        0 <= a < nw && 0 <= b && a + b * nw < new_cells@.len() ==> #[trigger] cell_at(
                            new_cells@,
                            nw,
                            a,
                            b,
                        ).text() == self.stored(a, b),
                decreases new_w - xx,
            {
                let ghost len = new_cells@.len() as int;
                let ghost prior = new_cells@;
                let c = if xx < w {
                    proof {
                        lemma_in_grid(xx as int, yy as int, w as int, h as int);
                    }
                    self.cells[xx + yy * w].clone()
                } else {
                    Cell::empty()
                };
                new_cells.push(c);
                proof {
                    assert forall|a: int, b: int|
                        0 <= a < nw && 0 <= b && a + b * nw < new_cells@.len() implies #[trigger] cell_at(
                            new_cells@,
                            nw,
                            a,
                            b,
                        ).text() == self.stored(a, b) by {
                        if a + b * nw == len {
                            lemma_index(a, b, xx as int, yy as int, nw);
                        } else {
                            assert(cell_at(prior, nw, a, b).text() == self.stored(a, b));
                        }
                    }
                }
                xx += 1;
            }
            yy += 1;
            assert(new_cells@.len() == yy * new_w) by (nonlinear_arith)
                requires
                    new_cells@.len() == (yy - 1) * new_w + new_w,
            ;
        }
        assert(h * new_w <= total) by (nonlinear_arith)
            requires
                h <= new_h,
                total == new_w * new_h,
        ;
        while new_cells.len() < total
            invariant
                self.shaped(),
                w == self.arr_w,
                h == self.arr_h,
                w <= new_w,
                h <= new_h,
                total == new_w * new_h,
                nw == new_w,
                h * new_w <= new_cells@.len() <= total,
                forall|i: int| 0 <= i < new_cells@.len() ==> (#[trigger] new_cells@[i]).refs().len() == 0,
                forall|a: int, b: int|
                    0 <= a < nw && 0 <= b && a + b * nw < new_cells@.len() ==> #[trigger] cell_at(
                        new_cells@,
                        nw,
                        a,
                        b,
                    ).text() == self.stored(a, b),
            decreases total - new_cells@.len(),
        {
            let ghost len = new_cells@.len() as int;
            let ghost prior = new_cells@;
            new_cells.push(Cell::empty());
            proof {
                assert forall|a: int, b: int|
                    0 <= a < nw && 0 <= b && a + b * nw < new_cells@.len() implies #[trigger] cell_at(
                        new_cells@,
                        nw,
                        a,
                        b,
                    ).text() == self.stored(a, b) by {
                    if a + b * nw == len {
                        if b < h {
                            assert(a + b * nw < h * nw) by (nonlinear_arith)
                                requires
                                    0 <= a < nw,
                                    0 <= b < h,
                            ;
                        }
                    } else {
                        assert(cell_at(prior, nw, a, b).text() == self.stored(a, b));
                    }
                }
            }
        }
        let ghost prev = *self;
        self.cells = new_cells;
        self.arr_w = new_w;
        self.arr_h = new_h;
        proof {
            assert forall|a: int, b: int| #[trigger] self.stored(a, b) == prev.stored(a, b) by {
                if 0 <= a < new_w && 0 <= b < new_h {
                    lemma_in_grid(a, b, new_w as int, new_h as int);
                }
            }
        }
    }

    /// The largest column and row written to.
    pub fn get_max_dims(&self) -> (r: (usize, usize))
        ensures
            r.0 == self@.max_x,
            r.1 == self@.max_y,
    {
        (self.max_x, self.max_y)
    }
}

} // verus!

use vstd::prelude::*;
use crate::cells::{FieldState, PieceState};
use crate::index::{idx, lemma_idx, lemma_split};
use crate::piece::{Piece, Shape};

verus! {

/// The mathematical content of a field: its dimensions and its cells in
/// row-major order.
pub struct Grid {
    pub width: nat,
    pub height: nat,
    pub cells: Seq<FieldState>,
}

/// Sum of the scores of the cells.
pub open spec fn cells_score(cells: Seq<FieldState>) -> nat
    decreases cells.len(),
{
    if cells.len() == 0 {
        0
    } else {
        cells_score(cells.drop_last()) + cells.last().score()
    }
}

impl Grid {
    pub open spec fn wf(self) -> bool {
        self.cells.len() == self.width * self.height
    }

    /// The piece placed with its top-left corner at column `ax`, row `ay`
    /// occupies cell `i`.
    pub open spec fn covers(self, p: Shape, ax: int, ay: int, i: int) -> bool {
        let x = i % (self.width as int);
        let y = i / (self.width as int);
        &&& ax <= x < ax + p.width
        &&& ay <= y < ay + p.height
        &&& p.at(x - ax, y - ay) == PieceState::Occupied
    }

    /// Every cell that the piece would occupy at this anchor is free.
    pub open spec fn fits(self, p: Shape, ax: int, ay: int) -> bool {
        forall|i: int| 0 <= i < self.cells.len() && #[trigger] self.covers(p, ax, ay, i) ==> self.cells[i].is_free()
    }

    /// The grid with the cells that the piece covers at this anchor marked as
    /// occupied by it.
    pub open spec fn stamp(self, p: Shape, ax: int, ay: int) -> Grid {
        Grid {
            width: self.width,
            height: self.height,
            cells: Seq::new(
                self.cells.len(),
                |i: int|
                    if self.covers(p, ax, ay, i) {
                        FieldState::Occupied(p.id)
                    } else {
                        self.cells[i]
                    },
            ),
        }
    }

    /// Number of anchor columns at which the piece lies inside the grid.
    pub open spec fn anchor_cols(self, p: Shape) -> nat {
        if 0 < p.width <= self.width && 0 < p.height <= self.height {
            (self.width - p.width + 1) as nat
        } else {
            0
        }
    }

    /// Number of anchor rows at which the piece lies inside the grid.
    pub open spec fn anchor_rows(self, p: Shape) -> nat {
        if 0 < p.width <= self.width && 0 < p.height <= self.height {
            (self.height - p.height + 1) as nat
        } else {
            0
        }
    }

    /// The placements at the first `k` anchors, in row-major order of anchors.
    pub open spec fn placements_upto(self, p: Shape, k: nat) -> Seq<Grid>
        decreases k,
    {
        if k == 0 {
            Seq::empty()
        } else {
            let prev = self.placements_upto(p, (k - 1) as nat);
            let a = k - 1;
            let ax = a % (self.anchor_cols(p) as int);
            let ay = a / (self.anchor_cols(p) as int);
            if self.fits(p, ax, ay) {
                prev.push(self.stamp(p, ax, ay))
            } else {
                prev
            }
        }
    }

    /// Every legal placement of the piece, anchors taken row by row, left to right.
    pub open spec fn placements(self, p: Shape) -> Seq<Grid> {
        self.placements_upto(p, self.anchor_cols(p) * self.anchor_rows(p))
    }

    /// Sum of the scores of the free cells.
    pub open spec fn score(self) -> nat {
        cells_score(self.cells)
    }
}

/// A rectangular field of cells, `width` by `height`, stored row-major.
#[derive(Clone, Debug)]
pub struct Field {
    pub width: usize,
    pub height: usize,
    pub field: Vec<FieldState>,
}

impl View for Field {
    type V = Grid;

    open spec fn view(&self) -> Grid {
        Grid { width: self.width as nat, height: self.height as nat, cells: self.field@ }
    }
}

/// The grids of a sequence of fields.
pub open spec fn grids(v: Seq<Field>) -> Seq<Grid> {
    v.map_values(|f: Field| f@)
}

impl Field {
    pub open spec fn wf(&self) -> bool {
        self@.wf()
    }

    /// A field equal to this one.
    pub fn copied(&self) -> (r: Field)
        ensures
            r@ == self@,
    {
        let n = self.field.len();
        let mut cells: Vec<FieldState> = Vec::with_capacity(n);
        let mut i: usize = 0;
        while i < n
            invariant
                n == self.field@.len(),
                i <= n,
                cells@ == self.field@.subrange(0, i as int),
            decreases n - i,
        {
            cells.push(self.field[i]);
            i += 1;
            assert(cells@ =~= self.field@.subrange(0, i as int));
        }
        assert(cells@ =~= self.field@);
        Field { width: self.width, height: self.height, field: cells }
    }

    /// The field with the piece stamped at column `ax`, row `ay`, or `None`
    /// where one of the cells it needs is not free.
    pub fn place_at(&self, piece: &Piece, ax: usize, ay: usize) -> (r: Option<Field>)
        requires
            self.wf(),
            piece.wf(),
            ax + piece.width <= self.width,
            ay + piece.height <= self.height,
        ensures
            r is Some <==> self@.fits(piece@, ax as int, ay as int),
            r matches Some(g) ==> g@ == self@.stamp(piece@, ax as int, ay as int) && g.wf(),
    {
        let w = self.width;
        let h = self.height;
        let pw = piece.width;
        let ph = piece.height;
        let n = self.field.len();
        let pn = piece.field.len();
        let ghost target = self@.stamp(piece@, ax as int, ay as int);
        let mut cells: Vec<FieldState> = Vec::with_capacity(n);
        let mut i: usize = 0;
        while i < n
            invariant
                n == self.field@.len() == w * h,
                pn == piece.field@.len(),
                w == self.width,
                h == self.height,
                pw == piece.width,
                ph == piece.height,
                piece.wf(),
                ax + pw <= w,
                ay + ph <= h,
                target == self@.stamp(piece@, ax as int, ay as int),
                i <= n,
                cells@.len() == i,
                forall|j: int| 0 <= j < i ==> cells@[j] == #[trigger] target.cells[j],
                forall|j: int|
                    0 <= j < i && #[trigger] self@.covers(piece@, ax as int, ay as int, j)
                        ==> self.field@[j].is_free(),
            decreases n - i,
        {
            proof {
                lemma_split(i as int, w as int, h as int);
            }
            let x = i % w;
            let y = i / w;
            let covered = if ax <= x && x < ax + pw && ay <= y && y < ay + ph {
                proof {
                    lemma_idx((x - ax) as int, (y - ay) as int, pw as int, ph as int);
                    assert(piece.field@.len() == pw * ph);
                    assert((y - ay) * pw <= idx((x - ax) as int, (y - ay) as int, pw as int));
                }
                match piece.field[(x - ax) + (y - ay) * pw] {
                    PieceState::Occupied => true,
                    PieceState::Free => false,
                }
            } else {
                false
            };
            assert(covered == self@.covers(piece@, ax as int, ay as int, i as int));
            if covered {
                match self.field[i] {
                    FieldState::Free(_) => cells.push(FieldState::Occupied(piece.id)),
                    _ => {
                        return None;
                    },
                }
            } else {
                cells.push(self.field[i]);
            }
            i += 1;
        }
        assert(cells@ =~= target.cells);
        Some(Field { width: w, height: h, field: cells })
    }

    /// Every field obtained by placing the piece, in this orientation, at an
    /// anchor where all the cells it occupies are free; anchors are taken row
    /// by row, left to right. Empty where the piece does not fit inside the field.
    pub fn place_iter(&self, piece: &Piece) -> (r: Vec<Field>)
        requires
            self.wf(),
            piece.wf(),
        ensures
            grids(r@) == self@.placements(piece@),
            forall|i: int| 0 <= i < r@.len() ==> (#[trigger] r@[i]).wf(),
    {
        let mut out: Vec<Field> = Vec::new();
        if piece.width == 0 || piece.height == 0 || piece.width > self.width || piece.height
            > self.height {
            assert(grids(out@) =~= self@.placements(piece@));
            return out;
        }
        let cols = self.width - piece.width + 1;
        let rows = self.height - piece.height + 1;
        assert(cols * rows <= self.width * self.height) by (nonlinear_arith)
            requires
                cols <= self.width,
                rows <= self.height,
        ;
        let n = self.field.len();
        assert(n == self.width * self.height);
        let total = cols * rows;
        let mut a: usize = 0;
        while a < total
            invariant
                self.wf(),
                piece.wf(),
                cols == self@.anchor_cols(piece@),
                cols > 0,
                rows == self@.anchor_rows(piece@),
                total == cols * rows,
                cols + piece.width == self.width + 1,
                rows + piece.height == self.height + 1,
                a <= total,
                grids(out@) == self@.placements_upto(piece@, a as nat),
                forall|i: int| 0 <= i < out@.len() ==> (#[trigger] out@[i]).wf(),
            decreases total - a,
        {
            proof {
                lemma_split(a as int, cols as int, rows as int);
            }
            let ax = a % cols;
            let ay = a / cols;
            match self.place_at(piece, ax, ay) {
                Some(g) => {
                    out.push(g);
                },
                None => {},
            }
            a += 1;
            assert(grids(out@) =~= self@.placements_upto(piece@, a as nat));
        }
        out
    }

    /// Sum of the scores of the cells that are still free.
    pub fn count(&self) -> (r: u128)
        ensures
            r == self@.score(),
    {
        let n = self.field.len();
        let mut total: u128 = 0;
        let mut i: usize = 0;
        while i < n
            invariant
                n == self.field@.len(),
                i <= n,
                total == cells_score(self.field@.subrange(0, i as int)),
                total <= 255 * i,
            decreases n - i,
        {
            let add: u8 = match self.field[i] {
                FieldState::Free(score) => score,
                _ => 0,
            };
            assert(self.field@.subrange(0, i + 1).drop_last() =~= self.field@.subrange(0, i as int));
            total = total + add as u128;
            i += 1;
        }
        assert(self.field@.subrange(0, n as int) =~= self.field@);
        total
    }
}


/// `g` is `f` with the piece stamped at an anchor inside `f` where it fits.
pub open spec fn is_placement(f: Grid, p: Shape, g: Grid) -> bool {
    exists|ax: int, ay: int|
        0 <= ax < f.anchor_cols(p) && 0 <= ay < f.anchor_rows(p) && f.fits(p, ax, ay) && g
            == #[trigger] f.stamp(p, ax, ay)
}

proof fn lemma_placements_upto_are_placements(f: Grid, p: Shape, k: nat)
    requires
        k <= f.anchor_cols(p) * f.anchor_rows(p),
    ensures
        forall|j: int|
            0 <= j < f.placements_upto(p, k).len() ==> is_placement(
                f,
                p,
                #[trigger] f.placements_upto(p, k)[j],
            ),
    decreases k,
{
    if k > 0 {
        let cols = f.anchor_cols(p) as int;
        let rows = f.anchor_rows(p) as int;
        lemma_placements_upto_are_placements(f, p, (k - 1) as nat);
        lemma_split(k - 1, cols, rows);
        let ax = (k - 1) % cols;
        let ay = (k - 1) / cols;
        let prev = f.placements_upto(p, (k - 1) as nat);
        let cur = f.placements_upto(p, k);
        if f.fits(p, ax, ay) {
            assert(is_placement(f, p, f.stamp(p, ax, ay)));
        }
        assert forall|j: int| 0 <= j < cur.len() implies is_placement(f, p, #[trigger] cur[j]) by {
            if j < prev.len() {
                assert(cur[j] == prev[j]);
            }
        }
    }
}

proof fn lemma_cells_score_le(a: Seq<FieldState>, b: Seq<FieldState>)
    requires
        a.len() == b.len(),
        forall|i: int| 0 <= i < a.len() ==> (#[trigger] a[i]).score() <= b[i].score(),
    ensures
        cells_score(a) <= cells_score(b),
    decreases a.len(),
{
    if a.len() > 0 {
        lemma_cells_score_le(a.drop_last(), b.drop_last());
    }
}

/// The piece lies inside `f` at this anchor, and `g` differs from `f` exactly
/// at the cells that the piece covers there, each of which was free in `f` and
/// is occupied by the piece in `g`.
pub open spec fn changed_at(f: Grid, p: Shape, g: Grid, ax: int, ay: int) -> bool {
    &&& 0 <= ax && ax + p.width <= f.width
    &&& 0 <= ay && ay + p.height <= f.height
    &&& forall|i: int|
        0 <= i < f.cells.len() ==> if #[trigger] f.covers(p, ax, ay, i) {
            f.cells[i].is_free() && g.cells[i] == FieldState::Occupied(p.id)
        } else {
            g.cells[i] == f.cells[i]
        }
}

/// Every field in the placements of a piece differs from the field it was placed in
/// only at the cells that the piece occupies at one anchor; each of those was
/// free and is now occupied by the piece.
pub proof fn lemma_placement_changes_only_covered_cells(f: Grid, p: Shape, g: Grid)
    requires
        f.placements(p).contains(g),
    ensures
        g.width == f.width,
        g.height == f.height,
        g.cells.len() == f.cells.len(),
        exists|ax: int, ay: int| #[trigger] changed_at(f, p, g, ax, ay),
{
    let k = f.anchor_cols(p) * f.anchor_rows(p);
    lemma_placements_upto_are_placements(f, p, k);
    let j = choose|j: int| 0 <= j < f.placements(p).len() && f.placements(p)[j] == g;
    assert(is_placement(f, p, f.placements_upto(p, k)[j]));
    let (ax, ay) = choose|ax: int, ay: int|
        0 <= ax < f.anchor_cols(p) && 0 <= ay < f.anchor_rows(p) && f.fits(p, ax, ay) && g
            == #[trigger] f.stamp(p, ax, ay);
    assert forall|i: int|
        0 <= i < f.cells.len() implies if #[trigger] f.covers(p, ax, ay, i) {
            f.cells[i].is_free() && g.cells[i] == FieldState::Occupied(p.id)
        } else {
            g.cells[i] == f.cells[i]
        } by {}
    assert(changed_at(f, p, g, ax, ay));
}

/// Placing a piece never raises the field's score.
pub proof fn lemma_placement_never_raises_score(f: Grid, p: Shape, g: Grid)
    requires
        f.placements(p).contains(g),
    ensures
        g.score() <= f.score(),
{
    lemma_placement_changes_only_covered_cells(f, p, g);
    let (ax, ay) = choose|ax: int, ay: int| changed_at(f, p, g, ax, ay);
    assert forall|i: int| 0 <= i < g.cells.len() implies (#[trigger] g.cells[i]).score()
        <= f.cells[i].score() by {
        if f.covers(p, ax, ay, i) {
        }
    }
    lemma_cells_score_le(g.cells, f.cells);
}

/// A piece wider or taller than the field has no placement in it.
pub proof fn lemma_piece_larger_than_field(f: Grid, p: Shape)
    requires
        p.width > f.width || p.height > f.height,
    ensures
        f.placements(p).len() == 0,
{
}

proof fn lemma_no_fit_no_placement(f: Grid, p: Shape, k: nat)
    requires
        k <= f.anchor_cols(p) * f.anchor_rows(p),
        forall|a: int|
            0 <= a < f.anchor_cols(p) * f.anchor_rows(p) ==> !f.fits(
                p,
                a % (f.anchor_cols(p) as int),
                #[trigger] (a / (f.anchor_cols(p) as int)),
            ),
    ensures
        f.placements_upto(p, k).len() == 0,
    decreases k,
{
    if k > 0 {
        lemma_no_fit_no_placement(f, p, (k - 1) as nat);
        assert(!f.fits(p, (k - 1) % (f.anchor_cols(p) as int), (k - 1) / (f.anchor_cols(p) as int)));
    }
}

/// On a field whose cells are all blocked, a piece with an occupied cell has
/// no placement.
pub proof fn lemma_blocked_field_has_no_placement(f: Grid, p: Shape)
    requires
        f.wf(),
        p.wf(),
        forall|i: int| 0 <= i < f.cells.len() ==> #[trigger] f.cells[i] == FieldState::Blocked,
        exists|i: int| 0 <= i < p.cells.len() && p.cells[i] == PieceState::Occupied,
    ensures
        f.placements(p).len() == 0,
{
    let cols = f.anchor_cols(p) as int;
    let rows = f.anchor_rows(p) as int;
    let w = f.width as int;
    let h = f.height as int;
    let pi = choose|i: int| 0 <= i < p.cells.len() && p.cells[i] == PieceState::Occupied;
    assert forall|a: int| 0 <= a < cols * rows implies !f.fits(p, a % cols, #[trigger] (a / cols)) by {
        lemma_split(a, cols, rows);
        lemma_split(pi, p.width as int, p.height as int);
        let px = pi % (p.width as int);
        let py = pi / (p.width as int);
        let ax = a % cols;
        let ay = a / cols;
        lemma_idx(ax + px, ay + py, w, h);
        let i = idx(ax + px, ay + py, w);
        assert(f.covers(p, ax, ay, i));
    }
    lemma_no_fit_no_placement(f, p, (cols * rows) as nat);
}

} // verus!

use vstd::prelude::*;
use vstd::set_lib::{lemma_int_range, lemma_map_size, set_int_range};
use crate::cells::PieceState;
use crate::index::{idx, lemma_idx, lemma_split};

verus! {

/// The mathematical content of a piece: its identifier, its dimensions and its
/// cells in row-major order.
pub struct Shape {
    pub id: u8,
    pub width: nat,
    pub height: nat,
    pub cells: Seq<PieceState>,
}

impl Shape {
    pub open spec fn wf(self) -> bool {
        self.cells.len() == self.width * self.height
    }

    pub open spec fn at(self, x: int, y: int) -> PieceState {
        self.cells[idx(x, y, self.width as int)]
    }

    /// Rows in reverse order.
    pub open spec fn flip_h(self) -> Shape {
        let w = self.width as int;
        let h = self.height as int;
        Shape {
            id: self.id,
            width: self.width,
            height: self.height,
            cells: Seq::new(self.cells.len(), |i: int| self.at(i % w, h - 1 - i / w)),
        }
    }

    /// Columns in reverse order within each row.
    pub open spec fn flip_v(self) -> Shape {
        let w = self.width as int;
        Shape {
            id: self.id,
            width: self.width,
            height: self.height,
            cells: Seq::new(self.cells.len(), |i: int| self.at(w - 1 - i % w, i / w)),
        }
    }

    /// Width and height swapped; the cell in column `x`, row `y` is the source's
    /// cell in column `y`, row `x`.
    pub open spec fn transpose(self) -> Shape {
        let h = self.height as int;
        Shape {
            id: self.id,
            width: self.height,
            height: self.width,
            cells: Seq::new(self.cells.len(), |i: int| self.at(i / h, i % h)),
        }
    }

    /// The orientations of the shape: each of the shape and its transpose, as it
    /// is, flipped horizontally, flipped vertically, and flipped both ways.
    pub open spec fn orientations(self) -> Set<Shape> {
        let t = self.transpose();
        set![
            self,
            self.flip_h(),
            self.flip_v(),
            self.flip_v().flip_h(),
            t,
            t.flip_h(),
            t.flip_v(),
            t.flip_v().flip_h(),
        ]
    }

    /// Indices of the occupied cells.
    pub open spec fn occupied(self) -> Set<int> {
        Set::new(|i: int| 0 <= i < self.cells.len() && self.cells[i] == PieceState::Occupied)
    }

    /// Number of occupied cells.
    pub open spec fn occupied_count(self) -> nat {
        self.occupied().len()
    }
}

/// A rigid pattern of occupied cells, `width` by `height`, stored row-major.
#[derive(Clone, Debug, Hash)]
pub struct Piece {
    pub id: u8,
    pub width: usize,
    pub height: usize,
    pub field: Vec<PieceState>,
}

impl View for Piece {
    type V = Shape;

    open spec fn view(&self) -> Shape {
        Shape {
            id: self.id,
            width: self.width as nat,
            height: self.height as nat,
            cells: self.field@,
        }
    }
}

impl Piece {
    pub open spec fn wf(&self) -> bool {
        self@.wf()
    }

    /// A piece equal to this one.
    pub fn copied(&self) -> (r: Piece)
        ensures
            r@ == self@,
    {
        let n = self.field.len();
        let mut cells: Vec<PieceState> = Vec::with_capacity(n);
        let mut i: usize = 0;
        while i < n
            invariant
                n == self.field@.len(),
                i <= n,
                cells@ == self.field@.subrange(0, i as int),
            decreases n - i,
        {
            cells.push(self.field[i]);
            i += 1;
            assert(cells@ =~= self.field@.subrange(0, i as int));
        }
        assert(cells@ =~= self.field@);
        Piece { id: self.id, width: self.width, height: self.height, field: cells }
    }

    /// The piece with its rows in reverse order.
    pub fn flipped_horizontally(&self) -> (r: Piece)
        requires
            self.wf(),
        ensures
            r@ == self@.flip_h(),
            r.wf(),
    {
        let w = self.width;
        let h = self.height;
        let n = self.field.len();
        let mut cells: Vec<PieceState> = Vec::with_capacity(n);
        let mut i: usize = 0;
        while i < n
            invariant
                n == self.field@.len() == w * h,
                w == self.width,
                h == self.height,
                i <= n,
                cells@.len() == i,
                forall|j: int| 0 <= j < i ==> cells@[j] == #[trigger] self@.flip_h().cells[j],
            decreases n - i,
        {
            proof {
                lemma_split(i as int, w as int, h as int);
                lemma_idx(i as int % w as int, h - 1 - i as int / w as int, w as int, h as int);
            }
            let y = h - 1 - i / w;
            cells.push(self.field[i % w + y * w]);
            i += 1;
        }
        let r = Piece { id: self.id, width: w, height: h, field: cells };
        assert(r@.cells =~= self@.flip_h().cells);
        r
    }

    /// The piece with the columns of each row in reverse order.
    pub fn flipped_vertically(&self) -> (r: Piece)
        requires
            self.wf(),
        ensures
            r@ == self@.flip_v(),
            r.wf(),
    {
        let w = self.width;
        let h = self.height;
        let n = self.field.len();
        let mut cells: Vec<PieceState> = Vec::with_capacity(n);
        let mut i: usize = 0;
        while i < n
            invariant
                n == self.field@.len() == w * h,
                w == self.width,
                h == self.height,
                i <= n,
                cells@.len() == i,
                forall|j: int| 0 <= j < i ==> cells@[j] == #[trigger] self@.flip_v().cells[j],
            decreases n - i,
        {
            proof {
                lemma_split(i as int, w as int, h as int);
                lemma_idx(w - 1 - i as int % w as int, i as int / w as int, w as int, h as int);
            }
            let x = w - 1 - i % w;
            cells.push(self.field[x + (i / w) * w]);
            i += 1;
        }
        let r = Piece { id: self.id, width: w, height: h, field: cells };
        assert(r@.cells =~= self@.flip_v().cells);
        r
    }

    /// The piece mirrored along its main diagonal: width and height swap.
    pub fn transposed(&self) -> (r: Piece)
        requires
            self.wf(),
        ensures
            r@ == self@.transpose(),
            r.wf(),
    {
        let w = self.width;
        let h = self.height;
        let n = self.field.len();
        proof {
            vstd::arithmetic::mul::lemma_mul_is_commutative(w as int, h as int);
        }
        let mut cells: Vec<PieceState> = Vec::with_capacity(n);
        let mut i: usize = 0;
        while i < n
            invariant
                n == self.field@.len() == w * h == h * w,
                w == self.width,
                h == self.height,
                i <= n,
                cells@.len() == i,
                forall|j: int| 0 <= j < i ==> cells@[j] == #[trigger] self@.transpose().cells[j],
            decreases n - i,
        {
            proof {
                lemma_split(i as int, h as int, w as int);
                lemma_idx(i as int / h as int, i as int % h as int, w as int, h as int);
            }
            cells.push(self.field[i / h + (i % h) * w]);
            i += 1;
        }
        let r = Piece { id: self.id, width: h, height: w, field: cells };
        assert(r@.cells =~= self@.transpose().cells);
        r
    }
}


impl PartialEq for Piece {
    /// Structural equality: same identifier, dimensions and cells.
    fn eq(&self, other: &Piece) -> (r: bool) {
        if self.id != other.id || self.width != other.width || self.height != other.height
            || self.field.len() != other.field.len() {
            return false;
        }
        let n = self.field.len();
        let mut i: usize = 0;
        while i < n
            invariant
                n == self.field@.len() == other.field@.len(),
                i <= n,
                forall|j: int| 0 <= j < i ==> self.field@[j] == other.field@[j],
            decreases n - i,
        {
            if self.field[i] != other.field[i] {
                return false;
            }
            i += 1;
        }
        assert(self.field@ =~= other.field@);
        true
    }
}

impl vstd::std_specs::cmp::PartialEqSpecImpl for Piece {
    open spec fn obeys_eq_spec() -> bool {
        true
    }

    open spec fn eq_spec(&self, other: &Piece) -> bool {
        self@ == other@
    }
}

impl Eq for Piece {
}

/// The shapes of a sequence of pieces.
pub open spec fn shapes(v: Seq<Piece>) -> Seq<Shape> {
    v.map_values(|p: Piece| p@)
}

/// `v` holds each orientation of `s` exactly once, every one well formed.
pub open spec fn is_variant_list(v: Seq<Piece>, s: Shape) -> bool {
    &&& forall|i: int| 0 <= i < v.len() ==> (#[trigger] v[i]).wf()
    &&& shapes(v).no_duplicates()
    &&& shapes(v).to_set() == s.orientations()
}

/// Adds `p` to `set` unless a piece equal to it is there already.
fn insert_unique(set: &mut Vec<Piece>, p: Piece)
    requires
        p.wf(),
        forall|i: int| 0 <= i < old(set)@.len() ==> (#[trigger] old(set)@[i]).wf(),
        shapes(old(set)@).no_duplicates(),
    ensures
        forall|i: int| 0 <= i < final(set)@.len() ==> (#[trigger] final(set)@[i]).wf(),
        shapes(final(set)@).no_duplicates(),
        shapes(final(set)@).to_set() == shapes(old(set)@).to_set().insert(p@),
        old(set)@.len() <= final(set)@.len() <= old(set)@.len() + 1,
        final(set)@.len() >= 1,
{
    let n = set.len();
    let mut i: usize = 0;
    while i < n
        invariant
            n == set@.len(),
            i <= n,
            forall|j: int| 0 <= j < i ==> set@[j]@ != p@,
            forall|j: int| 0 <= j < set@.len() ==> (#[trigger] set@[j]).wf(),
            shapes(set@).no_duplicates(),
        decreases n - i,
    {
        if set[i] == p {
            proof {
                assert(shapes(set@)[i as int] == p@);
                assert(shapes(set@).to_set().insert(p@) =~= shapes(set@).to_set());
            }
            return;
        }
        i += 1;
    }
    let ghost before = shapes(set@);
    assert forall|j: int| 0 <= j < before.len() implies before[j] != p@ by {
        assert(set@[j]@ != p@);
    }
    set.push(p);
    proof {
        let after = shapes(set@);
        assert(after =~= before.push(p@));
        assert forall|x: Shape| after.contains(x) implies before.contains(x) || x == p@ by {
            let k = choose|k: int| 0 <= k < after.len() && after[k] == x;
            if k < before.len() {
                assert(before[k] == x);
            }
        }
        assert(after[before.len() as int] == p@);
        assert forall|x: Shape| before.contains(x) implies after.contains(x) by {
            let k = choose|k: int| 0 <= k < before.len() && before[k] == x;
            assert(after[k] == x);
        }
        assert(after.to_set() =~= before.to_set().insert(p@));
        assert forall|a: int, b: int| 0 <= a < b < after.len() implies after[a] != after[b] by {
            if b == before.len() {
                assert(before[a] == before[a]);
            }
        }
    }
}

/// Adds the start piece with each combination of flips.
fn insert_flips(set: &mut Vec<Piece>, start: Piece)
    requires
        start.wf(),
        forall|i: int| 0 <= i < old(set)@.len() ==> (#[trigger] old(set)@[i]).wf(),
        shapes(old(set)@).no_duplicates(),
    ensures
        forall|i: int| 0 <= i < final(set)@.len() ==> (#[trigger] final(set)@[i]).wf(),
        shapes(final(set)@).no_duplicates(),
        shapes(final(set)@).to_set() == shapes(old(set)@).to_set().insert(start@).insert(
            start@.flip_h(),
        ).insert(start@.flip_v()).insert(start@.flip_v().flip_h()),
        1 <= final(set)@.len() <= old(set)@.len() + 4,
{
    insert_unique(set, start.flipped_horizontally());
    let vert = start.flipped_vertically();
    insert_unique(set, vert.flipped_horizontally());
    insert_unique(set, vert);
    insert_unique(set, start);
    assert(shapes(set@).to_set() =~= shapes(old(set)@).to_set().insert(start@).insert(
        start@.flip_h(),
    ).insert(start@.flip_v()).insert(start@.flip_v().flip_h()));
}

impl Piece {
    /// Every distinct orientation of the piece under flips and transposition,
    /// each once, in no particular order.
    pub fn all_variants(&self) -> (r: Vec<Piece>)
        requires
            self.wf(),
        ensures
            is_variant_list(r@, self@),
            1 <= r@.len() <= 8,
    {
        let mut set: Vec<Piece> = Vec::new();
        let t = self.transposed();
        let start = self.copied();
        insert_flips(&mut set, start);
        insert_flips(&mut set, t);
        assert(shapes(set@).to_set() =~= self@.orientations());
        set
    }
}

proof fn lemma_flip_h_flip_h(s: Shape)
    requires
        s.wf(),
    ensures
        s.flip_h().flip_h() == s,
{
    let w = s.width as int;
    let h = s.height as int;
    let a = s.flip_h();
    let b = a.flip_h();
    assert forall|i: int| 0 <= i < s.cells.len() implies b.cells[i] == s.cells[i] by {
        lemma_split(i, w, h);
        lemma_idx(i % w, h - 1 - i / w, w, h);
    }
    assert(b.cells =~= s.cells);
}

proof fn lemma_flip_v_flip_v(s: Shape)
    requires
        s.wf(),
    ensures
        s.flip_v().flip_v() == s,
{
    let w = s.width as int;
    let h = s.height as int;
    let b = s.flip_v().flip_v();
    assert forall|i: int| 0 <= i < s.cells.len() implies b.cells[i] == s.cells[i] by {
        lemma_split(i, w, h);
        lemma_idx(w - 1 - i % w, i / w, w, h);
    }
    assert(b.cells =~= s.cells);
}

proof fn lemma_flips_commute(s: Shape)
    requires
        s.wf(),
    ensures
        s.flip_v().flip_h() == s.flip_h().flip_v(),
{
    let w = s.width as int;
    let h = s.height as int;
    let a = s.flip_v().flip_h();
    let b = s.flip_h().flip_v();
    assert forall|i: int| 0 <= i < s.cells.len() implies a.cells[i] == b.cells[i] by {
        lemma_split(i, w, h);
        lemma_idx(i % w, h - 1 - i / w, w, h);
        lemma_idx(w - 1 - i % w, i / w, w, h);
    }
    assert(a.cells =~= b.cells);
}

proof fn lemma_transpose_transpose(s: Shape)
    requires
        s.wf(),
    ensures
        s.transpose().transpose() == s,
{
    let w = s.width as int;
    let h = s.height as int;
    let b = s.transpose().transpose();
    vstd::arithmetic::mul::lemma_mul_is_commutative(w, h);
    assert forall|i: int| 0 <= i < s.cells.len() implies b.cells[i] == s.cells[i] by {
        lemma_split(i, w, h);
        lemma_idx(i / w, i % w, h, w);
    }
    assert(b.cells =~= s.cells);
}

proof fn lemma_transpose_flip_h(s: Shape)
    requires
        s.wf(),
    ensures
        s.flip_h().transpose() == s.transpose().flip_v(),
{
    let w = s.width as int;
    let h = s.height as int;
    let a = s.flip_h().transpose();
    let b = s.transpose().flip_v();
    vstd::arithmetic::mul::lemma_mul_is_commutative(w, h);
    assert forall|i: int| 0 <= i < s.cells.len() implies a.cells[i] == b.cells[i] by {
        lemma_split(i, h, w);
        lemma_idx(i / h, i % h, w, h);
        lemma_idx(h - 1 - i % h, i / h, h, w);
    }
    assert(a.cells =~= b.cells);
}

proof fn lemma_transpose_flip_v(s: Shape)
    requires
        s.wf(),
    ensures
        s.flip_v().transpose() == s.transpose().flip_h(),
{
    let w = s.width as int;
    let h = s.height as int;
    let a = s.flip_v().transpose();
    let b = s.transpose().flip_h();
    vstd::arithmetic::mul::lemma_mul_is_commutative(w, h);
    assert forall|i: int| 0 <= i < s.cells.len() implies a.cells[i] == b.cells[i] by {
        lemma_split(i, h, w);
        lemma_idx(i / h, i % h, w, h);
        lemma_idx(i % h, w - 1 - i / h, h, w);
    }
    assert(a.cells =~= b.cells);
}

proof fn lemma_transforms_wf(s: Shape)
    requires
        s.wf(),
    ensures
        s.flip_h().wf(),
        s.flip_v().wf(),
        s.transpose().wf(),
{
    vstd::arithmetic::mul::lemma_mul_is_commutative(s.width as int, s.height as int);
}


/// Reading `a`'s cells through a bijection `m` of the index range (with inverse
/// `inv`) keeps the number of occupied cells.
proof fn lemma_occupied_permuted(a: Shape, b: Shape, m: spec_fn(int) -> int, inv: spec_fn(int) -> int)
    requires
        a.cells.len() == b.cells.len(),
        forall|i: int|
            0 <= i < a.cells.len() ==> {
                &&& 0 <= #[trigger] m(i) < a.cells.len()
                &&& b.cells[i] == a.cells[m(i)]
                &&& inv(m(i)) == i
            },
        forall|k: int|
            0 <= k < a.cells.len() ==> {
                &&& 0 <= #[trigger] inv(k) < a.cells.len()
                &&& m(inv(k)) == k
            },
    ensures
        b.occupied_count() == a.occupied_count(),
{
    let n = a.cells.len() as int;
    lemma_int_range(0, n);
    assert(a.occupied().subset_of(set_int_range(0, n)));
    vstd::set_lib::lemma_len_subset(a.occupied(), set_int_range(0, n));
    assert forall|j: int| b.occupied().contains(j) implies a.occupied().map(inv).contains(j) by {
        assert(a.occupied().contains(m(j)));
    }
    assert forall|j: int| a.occupied().map(inv).contains(j) implies b.occupied().contains(j) by {
        let k = choose|k: int| a.occupied().contains(k) && inv(k) == j;
        assert(b.cells[inv(k)] == a.cells[m(inv(k))]);
    }
    assert(a.occupied().map(inv) =~= b.occupied());
    assert forall|k1: int, k2: int|
        a.occupied().contains(k1) && a.occupied().contains(k2) && #[trigger] inv(k1) == #[trigger] inv(
            k2,
        ) implies k1 == k2 by {
        assert(m(inv(k1)) == k1);
    }
    lemma_map_size(a.occupied(), b.occupied(), inv);
}

proof fn lemma_transforms_keep_count(s: Shape)
    requires
        s.wf(),
    ensures
        s.flip_h().occupied_count() == s.occupied_count(),
        s.flip_v().occupied_count() == s.occupied_count(),
        s.transpose().occupied_count() == s.occupied_count(),
{
    let w = s.width as int;
    let h = s.height as int;
    let mh = |i: int| idx(i % w, h - 1 - i / w, w);
    let mv = |i: int| idx(w - 1 - i % w, i / w, w);
    let mt = |i: int| idx(i / h, i % h, w);
    let it = |k: int| idx(k / w, k % w, h);
    vstd::arithmetic::mul::lemma_mul_is_commutative(w, h);
    assert forall|i: int| 0 <= i < s.cells.len() implies {
        &&& 0 <= #[trigger] mh(i) < s.cells.len()
        &&& mh(mh(i)) == i
    } by {
        lemma_split(i, w, h);
        lemma_idx(i % w, h - 1 - i / w, w, h);
    }
    assert forall|i: int| 0 <= i < s.cells.len() implies {
        &&& 0 <= #[trigger] mv(i) < s.cells.len()
        &&& mv(mv(i)) == i
    } by {
        lemma_split(i, w, h);
        lemma_idx(w - 1 - i % w, i / w, w, h);
    }
    assert forall|i: int| 0 <= i < s.cells.len() implies {
        &&& 0 <= #[trigger] mt(i) < s.cells.len()
        &&& it(mt(i)) == i
    } by {
        lemma_split(i, h, w);
        lemma_idx(i / h, i % h, w, h);
    }
    assert forall|k: int| 0 <= k < s.cells.len() implies {
        &&& 0 <= #[trigger] it(k) < s.cells.len()
        &&& mt(it(k)) == k
    } by {
        lemma_split(k, w, h);
        lemma_idx(k / w, k % w, h, w);
    }
    lemma_occupied_permuted(s, s.flip_h(), mh, mh);
    lemma_occupied_permuted(s, s.flip_v(), mv, mv);
    lemma_occupied_permuted(s, s.transpose(), mt, it);
}

/// Every orientation of a shape has the shape's identifier and its number of
/// occupied cells, and keeps or swaps its width and height.
pub proof fn lemma_orientations_keep_id_and_count(s: Shape)
    requires
        s.wf(),
    ensures
        forall|o: Shape| #[trigger]
            s.orientations().contains(o) ==> {
                &&& o.wf()
                &&& o.id == s.id
                &&& o.occupied_count() == s.occupied_count()
                &&& (o.width == s.width && o.height == s.height) || (o.width == s.height
                    && o.height == s.width)
            },
{
    let t = s.transpose();
    lemma_transforms_wf(s);
    lemma_transforms_wf(s.flip_v());
    lemma_transforms_wf(t);
    lemma_transforms_wf(t.flip_v());
    lemma_transforms_keep_count(s);
    lemma_transforms_keep_count(s.flip_v());
    lemma_transforms_keep_count(t);
    lemma_transforms_keep_count(t.flip_v());
}

/// Flipping either way or transposing an orientation of a shape gives an
/// orientation of the same shape.
pub proof fn lemma_orientations_closed(s: Shape)
    requires
        s.wf(),
    ensures
        forall|o: Shape| #[trigger]
            s.orientations().contains(o) ==> {
                &&& s.orientations().contains(o.flip_h())
                &&& s.orientations().contains(o.flip_v())
                &&& s.orientations().contains(o.transpose())
            },
{
    let t = s.transpose();
    let v = s.flip_v();
    let tv = t.flip_v();
    lemma_transforms_wf(s);
    lemma_transforms_wf(v);
    lemma_transforms_wf(t);
    lemma_transforms_wf(tv);
    lemma_flip_h_flip_h(s);
    lemma_flip_h_flip_h(v);
    lemma_flip_h_flip_h(t);
    lemma_flip_h_flip_h(tv);
    lemma_flip_v_flip_v(s);
    lemma_flip_v_flip_v(t);
    lemma_flips_commute(s);
    lemma_flips_commute(t);
    lemma_flips_commute(v);
    lemma_flips_commute(tv);
    lemma_transpose_transpose(s);
    // transposing the flipped variants
    lemma_transpose_flip_h(s);
    lemma_transpose_flip_v(s);
    lemma_transpose_flip_h(v);
    lemma_transpose_flip_v(t);
    lemma_transpose_flip_h(t);
    lemma_transpose_flip_v(tv);
    lemma_transpose_flip_h(tv);
    lemma_transpose_transpose(s.flip_h());
    lemma_transpose_transpose(v);
}

} // verus!

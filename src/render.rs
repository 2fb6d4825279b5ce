use vstd::prelude::*;
use crate::cells::{FieldState, PieceState};
use crate::field::{Field, Grid};
use crate::piece::{Piece, Shape};

verus! {

/// The cells' texts laid out in rows of `w`, rows separated by newlines.
pub open spec fn layout(parts: Seq<Seq<char>>, w: nat) -> Seq<char>
    decreases parts.len(),
{
    if parts.len() == 0 {
        Seq::empty()
    } else {
        let k = parts.len() - 1;
        let sep = if k % (w as int) == 0 && k != 0 {
            seq!['\n']
        } else {
            Seq::empty()
        };
        layout(parts.drop_last(), w) + sep + parts.last()
    }
}

/// The decimal digit for `d` below 10.
pub open spec fn digit(d: int) -> char {
    (d + 48) as char
}

/// The decimal digits of `n`, without leading zeros.
pub open spec fn decimal(n: u8) -> Seq<char> {
    if n >= 100 {
        seq![digit(n as int / 100), digit((n as int / 10) % 10), digit(n as int % 10)]
    } else if n >= 10 {
        seq![digit(n as int / 10), digit(n as int % 10)]
    } else {
        seq![digit(n as int)]
    }
}

/// A blocked cell is a space, a free cell of no score `-`, another free cell
/// its score, an occupied cell the letter of its piece (`A` for piece 0).
pub open spec fn field_cell_text(c: FieldState) -> Seq<char> {
    match c {
        FieldState::Blocked => seq![' '],
        FieldState::Free(0) => seq!['-'],
        FieldState::Free(n) => decimal(n),
        FieldState::Occupied(id) => seq![(id + 65) as char],
    }
}

/// An occupied cell is `X`, a free one a space.
pub open spec fn piece_cell_text(c: PieceState) -> Seq<char> {
    match c {
        PieceState::Occupied => seq!['X'],
        PieceState::Free => seq![' '],
    }
}

pub open spec fn field_text(g: Grid) -> Seq<char> {
    layout(g.cells.map_values(|c: FieldState| field_cell_text(c)), g.width)
}

pub open spec fn piece_text(s: Shape) -> Seq<char> {
    layout(s.cells.map_values(|c: PieceState| piece_cell_text(c)), s.width)
}

fn push_decimal(out: &mut Vec<char>, n: u8)
    ensures
        final(out)@ == old(out)@ + decimal(n),
{
    if n >= 100 {
        out.push(((n / 100) + 48) as char);
        out.push((((n / 10) % 10) + 48) as char);
        out.push(((n % 10) + 48) as char);
    } else if n >= 10 {
        out.push(((n / 10) + 48) as char);
        out.push(((n % 10) + 48) as char);
    } else {
        out.push((n + 48) as char);
    }
    assert(final(out)@ =~= old(out)@ + decimal(n));
}


/// Every piece letter in the grid is a single byte from `A` on.
pub open spec fn letters_fit(g: Grid) -> bool {
    forall|i: int|
        0 <= i < g.cells.len() ==> (#[trigger] g.cells[i] matches FieldState::Occupied(id) ==> id
            <= 190)
}

impl Field {
    /// The field drawn as text, one line per row, without a final newline.
    pub fn render(&self) -> (r: Vec<char>)
        requires
            self.wf(),
            letters_fit(self@),
        ensures
            r@ == field_text(self@),
    {
        let ghost parts = self@.cells.map_values(|c: FieldState| field_cell_text(c));
        let n = self.field.len();
        let w = self.width;
        let mut out: Vec<char> = Vec::new();
        let mut i: usize = 0;
        assert(parts.take(0) =~= Seq::<Seq<char>>::empty());
        while i < n
            invariant
                n == self.field@.len() == parts.len(),
                n == w * self.height,
                w == self.width,
                parts == self@.cells.map_values(|c: FieldState| field_cell_text(c)),
                letters_fit(self@),
                i <= n,
                out@ == layout(parts.take(i as int), w as nat),
            decreases n - i,
        {
            assert(w > 0) by (nonlinear_arith)
                requires
                    i < n,
                    n == w * self.height,
            ;
            let ghost before = out@;
            assert(parts.take(i + 1).drop_last() =~= parts.take(i as int));
            assert(parts.take(i + 1).last() == field_cell_text(self.field@[i as int]));
            if i % w == 0 && i != 0 {
                out.push('\n');
            }
            let ghost with_sep = out@;
            match self.field[i] {
                FieldState::Blocked => out.push(' '),
                FieldState::Free(score) => {
                    if score == 0 {
                        out.push('-');
                    } else {
                        push_decimal(&mut out, score);
                    }
                },
                FieldState::Occupied(id) => {
                    assert(self@.cells[i as int] matches FieldState::Occupied(id) ==> id <= 190);
                    out.push((id + 65) as char);
                },
            }
            assert(out@ =~= with_sep + field_cell_text(self.field@[i as int]));
            i += 1;
            assert(out@ =~= layout(parts.take(i as int), w as nat));
        }
        assert(parts.take(n as int) =~= parts);
        out
    }
}

impl Piece {
    /// The piece drawn as text, `X` for occupied and space for free cells, one
    /// line per row, without a final newline.
    pub fn render(&self) -> (r: Vec<char>)
        requires
            self.wf(),
        ensures
            r@ == piece_text(self@),
    {
        let ghost parts = self@.cells.map_values(|c: PieceState| piece_cell_text(c));
        let n = self.field.len();
        let w = self.width;
        let mut out: Vec<char> = Vec::new();
        let mut i: usize = 0;
        assert(parts.take(0) =~= Seq::<Seq<char>>::empty());
        while i < n
            invariant
                n == self.field@.len() == parts.len(),
                n == w * self.height,
                w == self.width,
                parts == self@.cells.map_values(|c: PieceState| piece_cell_text(c)),
                i <= n,
                out@ == layout(parts.take(i as int), w as nat),
            decreases n - i,
        {
            assert(w > 0) by (nonlinear_arith)
                requires
                    i < n,
                    n == w * self.height,
            ;
            assert(parts.take(i + 1).drop_last() =~= parts.take(i as int));
            assert(parts.take(i + 1).last() == piece_cell_text(self.field@[i as int]));
            if i % w == 0 && i != 0 {
                out.push('\n');
            }
            let ghost with_sep = out@;
            match self.field[i] {
                PieceState::Occupied => out.push('X'),
                PieceState::Free => out.push(' '),
            }
            assert(out@ =~= with_sep + piece_cell_text(self.field@[i as int]));
            i += 1;
            assert(out@ =~= layout(parts.take(i as int), w as nat));
        }
        assert(parts.take(n as int) =~= parts);
        out
    }
}

} // verus!

use vstd::prelude::*;
use crate::cells::{FieldState, PieceState};
use crate::field::{Field, Grid};
use crate::index::{idx, lemma_idx};
use crate::piece::{shapes, Piece, Shape};

verus! {

pub const NEWLINE: u8 = 10;

pub const CARRIAGE_RETURN: u8 = 13;

/// Why a piece or field text was refused.
#[derive(Clone, Copy, Debug, PartialEq, Eq, Structural)]
pub enum ParseError {
    /// A piece needs at least one line.
    NoLines,
    /// A character that the format does not allow.
    UnexpectedCharacter,
    /// A blank line where a piece should start.
    EmptyBlock,
    /// More pieces than identifiers.
    TooManyPieces,
}

/// The text cut at every newline, the last line included even when empty.
pub open spec fn split_all(t: Seq<u8>) -> Seq<Seq<u8>>
    decreases t.len(),
{
    if t.len() == 0 {
        seq![Seq::empty()]
    } else if t.last() == NEWLINE {
        split_all(t.drop_last()).push(Seq::empty())
    } else {
        let prev = split_all(t.drop_last());
        prev.update(prev.len() - 1, prev.last().push(t.last()))
    }
}

/// The lines of the text, each ended by a newline or by the end of the text;
/// a final newline does not start another line.
pub open spec fn lines(t: Seq<u8>) -> Seq<Seq<u8>> {
    if t.len() == 0 {
        Seq::empty()
    } else if t.last() == NEWLINE {
        split_all(t.drop_last())
    } else {
        split_all(t)
    }
}

/// Length of the longest line.
pub open spec fn max_len(ls: Seq<Seq<u8>>) -> nat
    decreases ls.len(),
{
    if ls.len() == 0 {
        0
    } else {
        let m = max_len(ls.drop_last());
        if ls.last().len() > m {
            ls.last().len()
        } else {
            m
        }
    }
}

/// `X` is an occupied cell and a space a free one.
pub open spec fn piece_cell(b: u8) -> Option<PieceState> {
    if b == 88 {
        Some(PieceState::Occupied)
    } else if b == 32 {
        Some(PieceState::Free)
    } else {
        None
    }
}

/// A space is blocked, `-` free with no score, a digit from 1 to 9 free with
/// that score.
pub open spec fn field_cell(b: u8) -> Option<FieldState> {
    if b == 32 {
        Some(FieldState::Blocked)
    } else if b == 45 {
        Some(FieldState::Free(0))
    } else if 49 <= b <= 57 {
        Some(FieldState::Free((b - 48) as u8))
    } else {
        None
    }
}

/// Every character of every line is one of a piece's.
pub open spec fn piece_text_ok(ls: Seq<Seq<u8>>) -> bool {
    forall|y: int, x: int|
        0 <= y < ls.len() && 0 <= x < ls[y].len() ==> (#[trigger] piece_cell(ls[y][x])) is Some
}

/// Every character of every line is one of a field's.
pub open spec fn field_text_ok(ls: Seq<Seq<u8>>) -> bool {
    forall|y: int, x: int|
        0 <= y < ls.len() && 0 <= x < ls[y].len() ==> (#[trigger] field_cell(ls[y][x])) is Some
}

/// The piece that the lines draw, as wide as the longest line; characters
/// past the end of a shorter line are free.
pub open spec fn piece_of_lines(ls: Seq<Seq<u8>>) -> Shape {
    let w = max_len(ls) as int;
    Shape {
        id: 0,
        width: w as nat,
        height: ls.len(),
        cells: Seq::new(
            (w * ls.len()) as nat,
            |i: int|
                if i % w < ls[i / w].len() {
                    piece_cell(ls[i / w][i % w])->0
                } else {
                    PieceState::Free
                },
        ),
    }
}

/// The field that the lines draw, as wide as the longest line; characters
/// past the end of a shorter line are blocked.
pub open spec fn field_of_lines(ls: Seq<Seq<u8>>) -> Grid {
    let w = max_len(ls) as int;
    Grid {
        width: w as nat,
        height: ls.len(),
        cells: Seq::new(
            (w * ls.len()) as nat,
            |i: int|
                if i % w < ls[i / w].len() {
                    field_cell(ls[i / w][i % w])->0
                } else {
                    FieldState::Blocked
                },
        ),
    }
}

/// The contents of a sequence of byte vectors.
pub open spec fn contents(v: Seq<Vec<u8>>) -> Seq<Seq<u8>> {
    v.map_values(|l: Vec<u8>| l@)
}

/// Cuts the text into its lines.
pub fn split_lines(text: &[u8]) -> (r: Vec<Vec<u8>>)
    ensures
        contents(r@) == lines(text@),
{
    let n = text.len();
    let mut out: Vec<Vec<u8>> = Vec::new();
    if n == 0 {
        assert(contents(out@) =~= lines(text@));
        return out;
    }
    let end = if text[n - 1] == NEWLINE {
        n - 1
    } else {
        n
    };
    let ghost body = text@.take(end as int);
    assert(lines(text@) == split_all(body)) by {
        if text@.last() == NEWLINE {
            assert(body =~= text@.drop_last());
        } else {
            assert(body =~= text@);
        }
    }
    let mut cur: Vec<u8> = Vec::new();
    let mut i: usize = 0;
    assert(body.take(0) =~= Seq::<u8>::empty());
    assert(contents(out@).push(cur@) =~= split_all(body.take(0)));
    while i < end
        invariant
            end <= n == text@.len(),
            body == text@.take(end as int),
            i <= end,
            contents(out@).push(cur@) == split_all(body.take(i as int)),
        decreases end - i,
    {
        let ghost prev = contents(out@).push(cur@);
        assert(body.take(i + 1).drop_last() =~= body.take(i as int));
        assert(body.take(i + 1).last() == text@[i as int]);
        if text[i] == NEWLINE {
            out.push(cur);
            cur = Vec::new();
            assert(contents(out@).push(cur@) =~= prev.push(Seq::empty()));
        } else {
            cur.push(text[i]);
            assert(contents(out@).push(cur@) =~= prev.update(
                prev.len() - 1,
                prev.last().push(text@[i as int]),
            ));
        }
        i += 1;
    }
    assert(body.take(end as int) =~= body);
    out.push(cur);
    out
}

/// Length of the longest line.
fn longest(ls: &Vec<Vec<u8>>) -> (r: usize)
    ensures
        r == max_len(contents(ls@)),
{
    let ghost all = contents(ls@);
    let mut m: usize = 0;
    let mut i: usize = 0;
    while i < ls.len()
        invariant
            all == contents(ls@),
            i <= all.len(),
            m == max_len(all.take(i as int)),
        decreases all.len() - i,
    {
        assert(all.take(i + 1).drop_last() =~= all.take(i as int));
        assert(all.take(i + 1).last() == ls@[i as int]@);
        if ls[i].len() > m {
            m = ls[i].len();
        }
        i += 1;
    }
    assert(all.take(i as int) =~= all);
    m
}

proof fn lemma_max_len(ls: Seq<Seq<u8>>)
    ensures
        forall|y: int| 0 <= y < ls.len() ==> (#[trigger] ls[y]).len() <= max_len(ls),
    decreases ls.len(),
{
    if ls.len() > 0 {
        lemma_max_len(ls.drop_last());
        assert forall|y: int| 0 <= y < ls.len() implies (#[trigger] ls[y]).len() <= max_len(ls) by {
            if y < ls.len() - 1 {
                assert(ls[y] == ls.drop_last()[y]);
            }
        }
    }
}

fn decode_piece_cell(b: u8) -> (r: Option<PieceState>)
    ensures
        r == piece_cell(b),
{
    if b == 88 {
        Some(PieceState::Occupied)
    } else if b == 32 {
        Some(PieceState::Free)
    } else {
        None
    }
}

fn decode_field_cell(b: u8) -> (r: Option<FieldState>)
    ensures
        r == field_cell(b),
{
    if b == 32 {
        Some(FieldState::Blocked)
    } else if b == 45 {
        Some(FieldState::Free(0))
    } else if 49 <= b && b <= 57 {
        Some(FieldState::Free(b - 48))
    } else {
        None
    }
}


impl Piece {
    /// Reads a piece drawn with `X` for occupied and space for free cells, one
    /// row per line. The identifier is 0.
    pub fn parse(text: &[u8]) -> (r: Result<Piece, ParseError>)
        ensures
            lines(text@).len() == 0 ==> r == Err::<Piece, ParseError>(ParseError::NoLines),
            lines(text@).len() > 0 && !piece_text_ok(lines(text@)) ==> r == Err::<Piece, ParseError>(
                ParseError::UnexpectedCharacter,
            ),
            lines(text@).len() > 0 && piece_text_ok(lines(text@)) ==> (r matches Ok(p) && p@
                == piece_of_lines(lines(text@)) && p.wf()),
    {
        let ls = split_lines(text);
        if ls.len() == 0 {
            return Err(ParseError::NoLines);
        }
        Piece::from_lines(&ls)
    }

    /// The piece that the lines draw, with identifier 0.
    pub fn from_lines(ls: &Vec<Vec<u8>>) -> (r: Result<Piece, ParseError>)
        ensures
            !piece_text_ok(contents(ls@)) ==> r == Err::<Piece, ParseError>(
                ParseError::UnexpectedCharacter,
            ),
            piece_text_ok(contents(ls@)) ==> (r matches Ok(p) && p@ == piece_of_lines(contents(ls@))
                && p.wf()),
    {
        let ghost all = contents(ls@);
        let w = longest(&ls);
        let h = ls.len();
        let ghost target = piece_of_lines(all);
        proof {
            lemma_max_len(all);
        }
        let mut cells: Vec<PieceState> = Vec::new();
        let mut y: usize = 0;
        while y < h
            invariant
                all == contents(ls@),
                h == all.len(),
                w == max_len(all),
                target == piece_of_lines(all),
                forall|k: int| 0 <= k < all.len() ==> (#[trigger] all[k]).len() <= w,
                y <= h,
                cells@.len() == y * w,
                forall|j: int| 0 <= j < cells@.len() ==> cells@[j] == #[trigger] target.cells[j],
                forall|yy: int, x: int|
                    0 <= yy < y && 0 <= x < all[yy].len() ==> (#[trigger] piece_cell(all[yy][x])) is Some,
            decreases h - y,
        {
            let line = &ls[y];
            assert(line@ == all[y as int]);
            let mut x: usize = 0;
            while x < w
                invariant
                    all == contents(ls@),
                        h == all.len(),
                    w == max_len(all),
                    target == piece_of_lines(all),
                    line@ == all[y as int],
                    line@.len() <= w,
                    y < h,
                    x <= w,
                    cells@.len() == idx(x as int, y as int, w as int),
                    forall|j: int| 0 <= j < cells@.len() ==> cells@[j] == #[trigger] target.cells[j],
                    forall|yy: int, xx: int|
                        0 <= yy < y && 0 <= xx < all[yy].len() ==> (#[trigger] piece_cell(all[yy][xx])) is Some,
                    forall|xx: int| 0 <= xx < x && xx < line@.len() ==> (#[trigger] piece_cell(line@[xx])) is Some,
                decreases w - x,
            {
                proof {
                    lemma_idx(x as int, y as int, w as int, h as int);
                }
                if x < line.len() {
                    match decode_piece_cell(line[x]) {
                        Some(c) => cells.push(c),
                        None => {
                            assert(piece_cell(all[y as int][x as int]) is None);
                            return Err(ParseError::UnexpectedCharacter);
                        },
                    }
                } else {
                    cells.push(PieceState::Free);
                }
                x += 1;
            }
            assert((y + 1) * w == y * w + w) by (nonlinear_arith);
            y += 1;
        }
        proof {
            vstd::arithmetic::mul::lemma_mul_is_commutative(w as int, h as int);
        }
        assert(cells@ =~= target.cells);
        Ok(Piece { id: 0, width: w, height: h, field: cells })
    }
}

impl Field {
    /// Reads a field drawn with space for blocked cells, `-` for free cells of
    /// no score and a digit for free cells of that score, one row per line.
    pub fn parse(text: &[u8]) -> (r: Result<Field, ParseError>)
        ensures
            !field_text_ok(lines(text@)) ==> r == Err::<Field, ParseError>(
                ParseError::UnexpectedCharacter,
            ),
            field_text_ok(lines(text@)) ==> (r matches Ok(f) && f@ == field_of_lines(
                lines(text@),
            ) && f.wf()),
    {
        let ls = split_lines(text);
        Field::from_lines(&ls)
    }

    /// The field that the lines draw.
    pub fn from_lines(ls: &Vec<Vec<u8>>) -> (r: Result<Field, ParseError>)
        ensures
            !field_text_ok(contents(ls@)) ==> r == Err::<Field, ParseError>(
                ParseError::UnexpectedCharacter,
            ),
            field_text_ok(contents(ls@)) ==> (r matches Ok(f) && f@ == field_of_lines(contents(ls@))
                && f.wf()),
    {
        let ghost all = contents(ls@);
        let w = longest(&ls);
        let h = ls.len();
        let ghost target = field_of_lines(all);
        proof {
            lemma_max_len(all);
        }
        let mut cells: Vec<FieldState> = Vec::new();
        let mut y: usize = 0;
        while y < h
            invariant
                all == contents(ls@),
                h == all.len(),
                w == max_len(all),
                target == field_of_lines(all),
                forall|k: int| 0 <= k < all.len() ==> (#[trigger] all[k]).len() <= w,
                y <= h,
                cells@.len() == y * w,
                forall|j: int| 0 <= j < cells@.len() ==> cells@[j] == #[trigger] target.cells[j],
                forall|yy: int, x: int|
                    0 <= yy < y && 0 <= x < all[yy].len() ==> (#[trigger] field_cell(all[yy][x])) is Some,
            decreases h - y,
        {
            let line = &ls[y];
            assert(line@ == all[y as int]);
            let mut x: usize = 0;
            while x < w
                invariant
                    all == contents(ls@),
                        h == all.len(),
                    w == max_len(all),
                    target == field_of_lines(all),
                    line@ == all[y as int],
                    line@.len() <= w,
                    y < h,
                    x <= w,
                    cells@.len() == idx(x as int, y as int, w as int),
                    forall|j: int| 0 <= j < cells@.len() ==> cells@[j] == #[trigger] target.cells[j],
                    forall|yy: int, xx: int|
                        0 <= yy < y && 0 <= xx < all[yy].len() ==> (#[trigger] field_cell(all[yy][xx])) is Some,
                    forall|xx: int| 0 <= xx < x && xx < line@.len() ==> (#[trigger] field_cell(line@[xx])) is Some,
                decreases w - x,
            {
                proof {
                    lemma_idx(x as int, y as int, w as int, h as int);
                }
                if x < line.len() {
                    match decode_field_cell(line[x]) {
                        Some(c) => cells.push(c),
                        None => {
                            assert(field_cell(all[y as int][x as int]) is None);
                            return Err(ParseError::UnexpectedCharacter);
                        },
                    }
                } else {
                    cells.push(FieldState::Blocked);
                }
                x += 1;
            }
            assert((y + 1) * w == y * w + w) by (nonlinear_arith);
            y += 1;
        }
        proof {
            vstd::arithmetic::mul::lemma_mul_is_commutative(w as int, h as int);
        }
        assert(cells@ =~= target.cells);
        Ok(Field { width: w, height: h, field: cells })
    }
}


/// The line without a carriage return at its end.
pub open spec fn strip_cr(l: Seq<u8>) -> Seq<u8> {
    if l.len() > 0 && l.last() == CARRIAGE_RETURN {
        l.drop_last()
    } else {
        l
    }
}

/// The lines of the text, where a line ending may also be a carriage return
/// followed by a newline.
pub open spec fn crlf_lines(t: Seq<u8>) -> Seq<Seq<u8>> {
    let ls = lines(t);
    Seq::new(
        ls.len(),
        |i: int|
            if i < ls.len() - 1 || t.last() == NEWLINE {
                strip_cr(ls[i])
            } else {
                ls[i]
            },
    )
}

/// The blocks of non-blank lines finished so far and the block being read,
/// or `None` once a blank line has come where a block should start.
pub open spec fn group(ls: Seq<Seq<u8>>) -> Option<(Seq<Seq<Seq<u8>>>, Seq<Seq<u8>>)>
    decreases ls.len(),
{
    if ls.len() == 0 {
        Some((Seq::empty(), Seq::empty()))
    } else {
        match group(ls.drop_last()) {
            None => None,
            Some((done, cur)) => if ls.last().len() == 0 {
                if cur.len() == 0 {
                    None
                } else {
                    Some((done.push(cur), Seq::empty()))
                }
            } else {
                Some((done, cur.push(ls.last())))
            },
        }
    }
}

/// The blocks of lines, separated by single blank lines, that the text holds,
/// or `None` where a blank line starts the text or follows another.
pub open spec fn blocks(t: Seq<u8>) -> Option<Seq<Seq<Seq<u8>>>> {
    match group(crlf_lines(t)) {
        None => None,
        Some((done, cur)) => Some(
            if cur.len() > 0 {
                done.push(cur)
            } else {
                done
            },
        ),
    }
}

/// The piece that a block draws, with identifier `id`.
pub open spec fn numbered_piece(block: Seq<Seq<u8>>, id: int) -> Shape {
    Shape { id: id as u8, ..piece_of_lines(block) }
}

proof fn lemma_group_none_stays(ls: Seq<Seq<u8>>, k: int)
    requires
        0 <= k <= ls.len(),
        group(ls.take(k)) is None,
    ensures
        group(ls) is None,
    decreases ls.len() - k,
{
    if k < ls.len() {
        assert(ls.take(k + 1).drop_last() =~= ls.take(k));
        lemma_group_none_stays(ls, k + 1);
    } else {
        assert(ls.take(k) =~= ls);
    }
}

/// The contents of a sequence of blocks of lines.
pub open spec fn block_contents(v: Seq<Vec<Vec<u8>>>) -> Seq<Seq<Seq<u8>>> {
    v.map_values(|b: Vec<Vec<u8>>| contents(b@))
}

fn copy_line(l: &Vec<u8>) -> (r: Vec<u8>)
    ensures
        r@ == l@,
{
    let mut r: Vec<u8> = Vec::new();
    let mut i: usize = 0;
    while i < l.len()
        invariant
            i <= l@.len(),
            r@ == l@.take(i as int),
        decreases l@.len() - i,
    {
        r.push(l[i]);
        i += 1;
        assert(r@ =~= l@.take(i as int));
    }
    assert(l@.take(i as int) =~= l@);
    r
}

/// Cuts the lines into blocks separated by single blank lines.
fn group_lines(ls: &Vec<Vec<u8>>) -> (r: Option<Vec<Vec<Vec<u8>>>>)
    ensures
        group(contents(ls@)) is None ==> r is None,
        group(contents(ls@)) matches Some((done, cur)) ==> (r matches Some(v) && block_contents(v@)
            == if cur.len() > 0 {
            done.push(cur)
        } else {
            done
        }),
{
    let ghost all = contents(ls@);
    let mut done: Vec<Vec<Vec<u8>>> = Vec::new();
    let mut cur: Vec<Vec<u8>> = Vec::new();
    let mut i: usize = 0;
    assert(all.take(0) =~= Seq::<Seq<u8>>::empty());
    while i < ls.len()
        invariant
            all == contents(ls@),
            i <= all.len(),
            group(all.take(i as int)) == Some((block_contents(done@), contents(cur@))),
        decreases all.len() - i,
    {
        assert(all.take(i + 1).drop_last() =~= all.take(i as int));
        assert(all.take(i + 1).last() == ls@[i as int]@);
        let line = copy_line(&ls[i]);
        assert(line@ == ls@[i as int]@);
        if line.len() == 0 {
            if cur.len() == 0 {
                proof {
                    lemma_group_none_stays(all, i + 1);
                }
                return None;
            }
            let ghost old_done = block_contents(done@);
            let ghost old_cur = contents(cur@);
            done.push(cur);
            cur = Vec::new();
            assert(block_contents(done@) =~= old_done.push(old_cur));
            assert(contents(cur@) =~= Seq::<Seq<u8>>::empty());
        } else {
            let ghost old_cur = contents(cur@);
            cur.push(line);
            assert(contents(cur@) =~= old_cur.push(all[i as int]));
        }
        i += 1;
    }
    assert(all.take(i as int) =~= all);
    if cur.len() > 0 {
        let ghost old_done = block_contents(done@);
        let ghost old_cur = contents(cur@);
        done.push(cur);
        assert(block_contents(done@) =~= old_done.push(old_cur));
    }
    Some(done)
}


/// Cuts the text into lines, dropping the carriage return of a line that ends
/// with a carriage return and a newline.
fn split_crlf_lines(text: &[u8]) -> (r: Vec<Vec<u8>>)
    ensures
        contents(r@) == crlf_lines(text@),
{
    let ls = split_lines(text);
    let ghost all = contents(ls@);
    let n = ls.len();
    let ends_with_newline = text.len() > 0 && text[text.len() - 1] == NEWLINE;
    let mut out: Vec<Vec<u8>> = Vec::new();
    let mut i: usize = 0;
    while i < n
        invariant
            all == contents(ls@),
            all == lines(text@),
            n == all.len(),
            n > 0 ==> text@.len() > 0,
            ends_with_newline == (text@.len() > 0 && text@.last() == NEWLINE),
            i <= n,
            contents(out@) == crlf_lines(text@).take(i as int),
        decreases n - i,
    {
        let mut line = copy_line(&ls[i]);
        assert(line@ == all[i as int]);
        let len = line.len();
        if (i + 1 < n || ends_with_newline) && len > 0 && line[len - 1] == CARRIAGE_RETURN {
            line.pop();
            assert(line@ =~= all[i as int].drop_last());
        }
        assert(line@ == crlf_lines(text@)[i as int]);
        let ghost before = contents(out@);
        out.push(line);
        assert(contents(out@) =~= before.push(crlf_lines(text@)[i as int]));
        assert(contents(out@) =~= crlf_lines(text@).take(i + 1));
        i += 1;
    }
    assert(crlf_lines(text@).take(n as int) =~= crlf_lines(text@));
    out
}

/// Reads pieces drawn as in `Piece::parse`, separated by single blank lines,
/// and numbers them from 0 in the order they come.
pub fn parse_pieces(text: &[u8]) -> (r: Result<Vec<Piece>, ParseError>)
    ensures
        blocks(text@) is None ==> r == Err::<Vec<Piece>, ParseError>(ParseError::EmptyBlock),
        blocks(text@) matches Some(bs) ==> {
            &&& bs.len() > 256 ==> r == Err::<Vec<Piece>, ParseError>(ParseError::TooManyPieces)
            &&& bs.len() <= 256 && (exists|k: int| 0 <= k < bs.len() && !piece_text_ok(#[trigger] bs[k]))
                ==> r == Err::<Vec<Piece>, ParseError>(ParseError::UnexpectedCharacter)
            &&& bs.len() <= 256 && (forall|k: int| 0 <= k < bs.len() ==> piece_text_ok(#[trigger] bs[k]))
                ==> (r matches Ok(v) && shapes(v@) == Seq::new(bs.len(), |k: int| numbered_piece(bs[k], k))
                && forall|k: int| 0 <= k < v@.len() ==> (#[trigger] v@[k]).wf())
        },
{
    let ls = split_crlf_lines(text);
    let groups = match group_lines(&ls) {
        Some(g) => g,
        None => {
            return Err(ParseError::EmptyBlock);
        },
    };
    let ghost bs = block_contents(groups@);
    assert(blocks(text@) == Some(bs));
    if groups.len() > 256 {
        return Err(ParseError::TooManyPieces);
    }
    let mut pieces: Vec<Piece> = Vec::new();
    let mut k: usize = 0;
    while k < groups.len()
        invariant
            bs == block_contents(groups@),
            blocks(text@) == Some(bs),
            bs.len() <= 256,
            k <= bs.len(),
            shapes(pieces@) == Seq::new(k as nat, |j: int| numbered_piece(bs[j], j)),
            forall|j: int| 0 <= j < pieces@.len() ==> (#[trigger] pieces@[j]).wf(),
            forall|j: int| 0 <= j < k ==> piece_text_ok(#[trigger] bs[j]),
        decreases bs.len() - k,
    {
        assert(contents(groups@[k as int]@) == bs[k as int]);
        match Piece::from_lines(&groups[k]) {
            Ok(p) => {
                let numbered = Piece { id: k as u8, width: p.width, height: p.height, field: p.field };
                let ghost before = shapes(pieces@);
                assert(numbered@ == numbered_piece(bs[k as int], k as int));
                pieces.push(numbered);
                assert(shapes(pieces@) =~= before.push(numbered_piece(bs[k as int], k as int)));
                assert(shapes(pieces@) =~= Seq::new((k + 1) as nat, |j: int| numbered_piece(bs[j], j)));
            },
            Err(e) => {
                return Err(e);
            },
        }
        k += 1;
    }
    Ok(pieces)
}

} // verus!

use piece_packer::cells::{FieldState, PieceState};
use piece_packer::field::Field;
use piece_packer::piece::Piece;
use piece_packer::solver::Solution;
use piece_packer::text::{parse_pieces, split_lines, ParseError};

fn chars(v: Vec<char>) -> String {
    v.into_iter().collect()
}

#[test]
fn split_lines_drops_only_the_final_newline() {
    let ls = split_lines(b"ab\n\ncd\n");
    assert_eq!(ls, vec![b"ab".to_vec(), vec![], b"cd".to_vec()]);
    assert!(split_lines(b"").is_empty());
    assert_eq!(split_lines(b"\n"), vec![Vec::<u8>::new()]);
}

#[test]
fn piece_parses_and_pads_short_lines() {
    let p = Piece::parse(b"XX\nX").unwrap();
    assert_eq!(p.id, 0);
    assert_eq!((p.width, p.height), (2, 2));
    assert_eq!(
        p.field,
        vec![PieceState::Occupied, PieceState::Occupied, PieceState::Occupied, PieceState::Free]
    );
}

#[test]
fn piece_rejects_bad_input() {
    assert_eq!(Piece::parse(b"").unwrap_err(), ParseError::NoLines);
    assert_eq!(Piece::parse(b"X-").unwrap_err(), ParseError::UnexpectedCharacter);
}

#[test]
fn field_parses_scores_and_blocks() {
    let f = Field::parse(b"-9\n 1\n3").unwrap();
    assert_eq!((f.width, f.height), (2, 3));
    assert_eq!(
        f.field,
        vec![
            FieldState::Free(0),
            FieldState::Free(9),
            FieldState::Blocked,
            FieldState::Free(1),
            FieldState::Free(3),
            FieldState::Blocked,
        ]
    );
    assert_eq!(f.count(), 13);
    assert_eq!(Field::parse(b"-0").unwrap_err(), ParseError::UnexpectedCharacter);
    assert_eq!(Field::parse(b"--\r\n--").unwrap_err(), ParseError::UnexpectedCharacter);
}

#[test]
fn pieces_are_numbered_in_order() {
    let ps = parse_pieces(b"X\n\nXX\n X\r\n\nX X\n").unwrap();
    assert_eq!(ps.len(), 3);
    assert_eq!(ps.iter().map(|p| p.id).collect::<Vec<u8>>(), vec![0, 1, 2]);
    assert_eq!((ps[1].width, ps[1].height), (2, 2));
    assert_eq!((ps[2].width, ps[2].height), (3, 1));
    assert_eq!(ps[2].field[1], PieceState::Free);
}

#[test]
fn pieces_reject_double_blank_lines() {
    assert_eq!(parse_pieces(b"X\n\n\nX").unwrap_err(), ParseError::EmptyBlock);
    assert_eq!(parse_pieces(b"\nX").unwrap_err(), ParseError::EmptyBlock);
    assert_eq!(parse_pieces(b"X\n\nY").unwrap_err(), ParseError::UnexpectedCharacter);
    assert!(parse_pieces(b"").unwrap().is_empty());
}

#[test]
fn too_many_pieces_are_refused() {
    let mut text: Vec<u8> = Vec::new();
    for _ in 0..257 {
        text.extend_from_slice(b"X\n\n");
    }
    assert_eq!(parse_pieces(&text).unwrap_err(), ParseError::TooManyPieces);
    let ok: Vec<u8> = text[..text.len() - 3].to_vec();
    assert_eq!(parse_pieces(&ok).unwrap().len(), 256);
}

#[test]
fn field_renders_as_it_was_read() {
    let f = Field::parse(b"-9\n 1").unwrap();
    assert_eq!(chars(f.render()), "-9\n 1");
    let g = Field { width: 3, height: 1, field: vec![FieldState::Occupied(2), FieldState::Free(12), FieldState::Free(255)] };
    assert_eq!(chars(g.render()), "C12255");
}

#[test]
fn piece_renders_with_x_and_space() {
    let p = Piece::parse(b"X\nXX").unwrap();
    assert_eq!(chars(p.render()), "X \nXX");
    assert_eq!(chars(p.transposed().render()), "XX\n X");
}

#[test]
fn solving_parsed_input() {
    let f = Field::parse(b"11\n11").unwrap();
    let ps = parse_pieces(b"X\n").unwrap();
    let s = Solution::new(&f, &ps);
    assert_eq!(s.solutions.len(), 4);
    let mut texts: Vec<String> = s.best_solutions().into_iter().map(|g| chars(g.render())).collect();
    texts.sort();
    assert_eq!(texts, vec!["11\n1A", "11\nA1", "1A\n11", "A1\n11"]);
}

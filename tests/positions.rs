use parser::node::{Position, Span};

#[test]
fn start_is_first_line_first_column() {
    let p = Position::start();
    assert_eq!((p.cursor(), p.line(), p.column()), (0, 1, 0));
    assert_eq!(p, Position::new(0, 1, 0));
}

#[test]
fn columns_and_lines_advance() {
    let mut p = Position::new(3, 2, 1);
    p.add_columns(4);
    assert_eq!(p, Position::new(7, 2, 5));
    p.add_column();
    assert_eq!(p, Position::new(8, 2, 6));
    p.add_line_and_cursor();
    assert_eq!(p, Position::new(9, 3, 0));
    p.add_lines_and_cursor(2);
    assert_eq!(p, Position::new(11, 5, 0));
    p.add_lines(1);
    assert_eq!(p, Position::new(11, 6, 0));
    p.add_columns(2);
    p.reset_column();
    assert_eq!(p, Position::new(13, 6, 0));
}

#[test]
fn text_without_breaks_moves_columns() {
    let mut p = Position::new(2, 1, 2);
    p.add_from_str("abc");
    assert_eq!(p, Position::new(5, 1, 5));
    p.add_from_str("");
    assert_eq!(p, Position::new(5, 1, 5));
}

#[test]
fn text_with_breaks_moves_lines() {
    let mut p = Position::new(2, 1, 2);
    p.add_from_str("ab\ncd\n\nxyz");
    assert_eq!(p, Position::new(12, 4, 3));
    let mut q = Position::start();
    q.add_from_str("a\n\rb");
    assert_eq!(q, Position::new(4, 2, 1));
    let mut r = Position::start();
    r.add_from_str("\n\n\r\r");
    assert_eq!(r, Position::new(4, 3, 1));
}

#[test]
fn spans_hold_their_ends() {
    let s = Span::new(Position::new(1, 1, 1), Position::new(4, 2, 0));
    assert_eq!(s.start(), Position::new(1, 1, 1));
    assert_eq!(s.end(), Position::new(4, 2, 0));
    assert_eq!(Span::empty(), Span::collapsed(Position::start()));
    assert_eq!(Span::collapsed(Position::new(3, 1, 3)).end(), Position::new(3, 1, 3));
}

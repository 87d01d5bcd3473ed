use rectpaint::grid::Grid;
use rectpaint::grid::ParseErr;

#[test]
fn simple_parse() {
    let g = Grid::from_str("...").unwrap();
    assert_eq!((g.width(), g.height()), (3, 1));
    assert_eq!(g.to_string(), "...\n");

    let g = Grid::from_str("...\n").unwrap();
    assert_eq!((g.width(), g.height()), (3, 1));
    assert_eq!(g.to_string(), "...\n");

    let g = Grid::from_str("...\n...\n").unwrap();
    assert_eq!((g.width(), g.height()), (3, 2));
    assert_eq!(g.to_string(), "...\n...\n");

    let g = Grid::from_str("...\n...").unwrap();
    assert_eq!((g.width(), g.height()), (3, 2));
    assert_eq!(g.to_string(), "...\n...\n");

    let g = Grid::from_str("abc\ndef\n").unwrap();
    assert_eq!((g.width(), g.height()), (3, 2));
    assert_eq!(g.to_string(), "abc\ndef\n");
}

#[test]
fn premature_line_end() {
    match Grid::from_str("abc\nd") {
        Err(ParseErr::PrematureLineEnd(row, partial, expected)) => {
            assert_eq!(row, 2);
            assert_eq!(partial, "d");
            assert_eq!(expected, 3);
        }
        _ => panic!("expected PrematureLineEnd"),
    }
}

#[test]
fn unexpected_terminator() {
    match Grid::from_str("abc\ndefg") {
        Err(ParseErr::BadTerminationChar(row, partial, found)) => {
            assert_eq!(row, 2);
            assert_eq!(partial, "def");
            assert_eq!(found, 'g');
        }
        _ => panic!("expected BadTerminationChar"),
    }
}

#[test]
fn empty_input_parses_to_empty_grid() {
    let g = Grid::from_str("").unwrap();
    assert_eq!((g.width(), g.height()), (0, 0));
    assert_eq!(g.to_string(), "");
}

#[test]
fn parse_reads_cells_back() {
    let g = Grid::from_str("ab\ncd\n").unwrap();
    assert_eq!(g.get(0, 0), 'a');
    assert_eq!(g.get(1, 0), 'b');
    assert_eq!(g.get(0, 1), 'c');
    assert_eq!(g.get(1, 1), 'd');
}

#[test]
fn set_then_get() {
    let mut g = Grid::new(4, 3, '.');
    assert_eq!(g.get(2, 1), '.');
    g.set(2, 1, 'x');
    assert_eq!(g.get(2, 1), 'x');
    assert_eq!(g.get(1, 2), '.');
    assert_eq!(g.to_string(), "....\n..x.\n....\n");
}

#[test]
fn parse_round_trip_normalizes_trailing_separator() {
    let with = Grid::from_str("ab\ncd\n").unwrap().to_string();
    let without = Grid::from_str("ab\ncd").unwrap().to_string();
    assert_eq!(with, "ab\ncd\n");
    assert_eq!(without, "ab\ncd\n");
}

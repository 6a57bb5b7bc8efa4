use tetra_pack::parse_field::{lines_with_offsets, ParseError, ParsedField, Parser};
use tetra_pack::util::{Pos, Size};

fn factory() -> Parser {
    Parser::new('-', '+')
}

#[test]
fn parses_empty_2x2_field() {
    let parser = factory();

    assert_eq!(
        parser.parse("--\n--"),
        Ok(ParsedField { size: Size::new(2, 2), unavailable: Vec::new() })
    );
}

#[test]
fn parses_non_empty_3x2() {
    let parser = factory();

    assert_eq!(
        parser.parse("--+\n-+-"),
        Ok(ParsedField {
            size: Size::new(2, 3),
            unavailable: vec![Pos::new(0, 2), Pos::new(1, 1)]
        })
    );
}

#[test]
fn unexpected_char_encountered() {
    let parser = factory();

    assert_eq!(
        parser.parse("---\n--#"),
        Err(ParseError::UnexpectedCharacter { offset: 6, char_busy: '+', char_empty: '-' })
    );
}

#[test]
fn fickle_row_length_is_reported() {
    let parser = factory();

    assert_eq!(
        parser.parse("--\n---"),
        Err(ParseError::FickleRowLength { row_offset: 3, len_reference: 2, len_actual: 3 })
    );
}

#[test]
fn single_row_is_not_enough() {
    let parser = factory();

    assert_eq!(parser.parse("----"), Err(ParseError::NotEnoughRows));
}

#[test]
fn single_column_is_not_enough() {
    let parser = factory();

    assert_eq!(parser.parse("-\n-"), Err(ParseError::NotEnoughColumns { offset: 0, len: 1 }));
}

#[test]
fn empty_input_is_reported() {
    let parser = factory();

    assert_eq!(parser.parse(""), Err(ParseError::EmptyInput));
}

#[test]
fn trailing_newline_adds_no_row() {
    let parser = factory();

    assert_eq!(
        parser.parse("--\n--\n"),
        Ok(ParsedField { size: Size::new(2, 2), unavailable: Vec::new() })
    );
}

#[test]
fn carriage_returns_are_stripped_before_newlines() {
    let parser = factory();

    assert_eq!(
        parser.parse("-+\r\n+-"),
        Ok(ParsedField {
            size: Size::new(2, 2),
            unavailable: vec![Pos::new(0, 1), Pos::new(1, 0)]
        })
    );
}

#[test]
fn lines_with_offsets_reports_character_offsets() {
    let lines = lines_with_offsets("ab\ncd\n\nx");
    let collected: Vec<(usize, String)> = lines
        .iter()
        .map(|l| (l.offset, l.line.iter().collect::<String>()))
        .collect();
    assert_eq!(
        collected,
        vec![
            (0, String::from("ab")),
            (3, String::from("cd")),
            (6, String::from("")),
            (7, String::from("x"))
        ]
    );
}

#[test]
fn custom_glyphs_are_respected() {
    let parser = Parser::new('.', 'x');

    assert_eq!(
        parser.parse("..\n.x"),
        Ok(ParsedField { size: Size::new(2, 2), unavailable: vec![Pos::new(1, 1)] })
    );
    assert_eq!(
        parser.parse("..\n.-"),
        Err(ParseError::UnexpectedCharacter { offset: 4, char_busy: 'x', char_empty: '.' })
    );
}

use mimic_solver::board::Board;
use mimic_solver::grid::{is_valid_location, Cell};
use mimic_solver::input::{decode, is_whitespace, parse_tokens, parse_word, InputError};

fn word(text: &str) -> Vec<char> {
    text.chars().collect()
}

fn reference(line: &str) -> Vec<u8> {
    line.trim().split_whitespace().filter_map(|s| s.parse::<u8>().ok()).collect()
}

#[test]
fn token_23_is_column_2_row_3() {
    let tokens = parse_tokens("23");
    assert_eq!(tokens, vec![23]);
    let cell = decode(tokens[0]);
    assert_eq!(cell.col, 2);
    assert_eq!(cell.row, 3);
    assert!(is_valid_location((cell.row, cell.col)));
}

#[test]
fn token_71_is_on_the_board_and_tokens_beyond_seven_are_refused() {
    // Column 7 and row 1 both lie on the 7x7 board.
    let cell = decode(parse_tokens("71")[0]);
    assert_eq!(cell, Cell { row: 1, col: 7 });
    assert!(Board::from_input(vec![71]).is_ok());
    // A column or a row beyond 7 does not.
    assert_eq!(
        Board::from_input(parse_tokens("81")).err(),
        Some(InputError::InvalidLocation { value: 81 })
    );
    assert_eq!(
        Board::from_input(parse_tokens("78")).err(),
        Some(InputError::InvalidLocation { value: 78 })
    );
    assert_eq!(
        Board::from_input(parse_tokens("70")).err(),
        Some(InputError::InvalidLocation { value: 70 })
    );
}

#[test]
fn every_token_decodes_by_tens_and_units() {
    for value in 0..=255u8 {
        let cell = decode(value);
        assert_eq!(cell.col, value / 10);
        assert_eq!(cell.row, value % 10);
        let expected = (1..=7).contains(&cell.row) && (1..=7).contains(&cell.col);
        assert_eq!(Board::from_input(vec![value]).is_ok(), expected);
    }
}

#[test]
fn tokens_are_separated_by_white_space() {
    assert_eq!(parse_tokens("23 71 44"), vec![23, 71, 44]);
    assert_eq!(parse_tokens("  23\t71\n"), vec![23, 71]);
    assert_eq!(parse_tokens("23   71\r\n"), vec![23, 71]);
    assert_eq!(parse_tokens("11\u{a0}12\u{3000}13\u{2003}14"), vec![11, 12, 13, 14]);
}

#[test]
fn empty_and_blank_lines_hold_no_tokens() {
    assert_eq!(parse_tokens(""), Vec::<u8>::new());
    assert_eq!(parse_tokens("   \t \n"), Vec::<u8>::new());
}

#[test]
fn words_that_are_no_number_are_dropped() {
    assert_eq!(parse_tokens("23 abc 71"), vec![23, 71]);
    assert_eq!(parse_tokens("2a 23"), vec![23]);
    assert_eq!(parse_tokens("1.5 -3 23,24 + ++5 5+"), Vec::<u8>::new());
    assert_eq!(parse_tokens("\u{ff12}\u{ff13} 12"), vec![12]);
}

#[test]
fn numbers_beyond_a_byte_are_dropped() {
    assert_eq!(parse_tokens("255 256 1000 99999999999999999999999 12"), vec![255, 12]);
}

#[test]
fn plus_sign_and_leading_zeros_are_accepted() {
    assert_eq!(parse_tokens("+23 007 0 +0 000000000000000000000000000000044"), vec![23, 7, 0, 0, 44]);
}

#[test]
fn parse_word_reads_one_token() {
    assert_eq!(parse_word(&word("23")), Some(23));
    assert_eq!(parse_word(&word("+7")), Some(7));
    assert_eq!(parse_word(&word("255")), Some(255));
    assert_eq!(parse_word(&word("256")), None);
    assert_eq!(parse_word(&word("")), None);
    assert_eq!(parse_word(&word("+")), None);
    assert_eq!(parse_word(&word("-1")), None);
    assert_eq!(parse_word(&word("2 3")), None);
    assert_eq!(parse_word(&word("9999")), None);
    assert_eq!(parse_word(&word("25x")), None);
    assert_eq!(parse_word(&word("260x")), None);
}

#[test]
fn parse_word_agrees_with_the_standard_parser() {
    let alphabet = ['0', '1', '2', '5', '6', '9', '+', '-', 'a', ':', '/'];
    let mut words: Vec<String> = vec![String::new()];
    let mut last: Vec<String> = vec![String::new()];
    for _ in 0..4 {
        let mut next = Vec::new();
        for w in &last {
            for c in alphabet {
                let mut longer = w.clone();
                longer.push(c);
                next.push(longer);
            }
        }
        words.extend(next.iter().cloned());
        last = next;
    }
    assert_eq!(words.len(), 1 + 11 + 121 + 1331 + 14641);
    for w in words {
        assert_eq!(parse_word(&word(&w)), w.parse::<u8>().ok());
    }
}

#[test]
fn white_space_agrees_with_the_standard_library() {
    let mut spaces = 0;
    for code in 0..=0x10ffffu32 {
        if let Some(c) = char::from_u32(code) {
            assert_eq!(is_whitespace(c), c.is_whitespace());
            if c.is_whitespace() {
                spaces += 1;
            }
        }
    }
    assert_eq!(spaces, 25);
}

#[test]
fn parse_tokens_agrees_with_the_standard_library() {
    let lines = [
        "",
        " ",
        "23 71",
        "\t23\u{b}71\u{c}12\u{85}13\u{1680}14\u{2028}15\u{2029}16\u{202f}17\u{205f}18 ",
        "23\u{200b}71 12",
        "a b c 1 2 3",
        "+1 -1 1+ 1- 00 256 255 0255 +255 +256",
        "11 12 13 14 15 16 17 21 22 23 24 25 26 27 31 32 33 34 35 36 37",
        "  77   11\t\t44  ",
        "x",
        "7",
    ];
    for line in lines {
        assert_eq!(parse_tokens(line), reference(line));
    }
}

#[test]
fn parsed_line_builds_the_board() {
    let board = Board::from_input(parse_tokens("11 12 xx 13 300 44\n")).unwrap();
    assert!(!board.value_at(1, 1));
    assert!(!board.value_at(2, 1));
    assert!(!board.value_at(3, 1));
    assert!(!board.value_at(4, 4));
    assert_eq!(board.live_outer_count(), 21);
}

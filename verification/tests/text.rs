use solver::board::cell_text;
use solver::{FormatError, Sudoku};

const EMPTY: &str =
    "_________________________________________________________________________________";

#[test]
fn parse_refuses_every_length_but_81() {
    assert_eq!(Sudoku::parse("").err(), Some(FormatError::WrongLength));
    assert_eq!(Sudoku::parse("1").err(), Some(FormatError::WrongLength));
    assert_eq!(Sudoku::parse(&EMPTY[..80]).err(), Some(FormatError::WrongLength));
    let longer = format!("{}_", EMPTY);
    assert_eq!(longer.len(), 82);
    assert_eq!(Sudoku::parse(&longer).err(), Some(FormatError::WrongLength));
}

#[test]
fn parse_refuses_characters_outside_the_alphabet() {
    for bad in ["0", " ", ".", "a", "!", "/", ":", "^", "`", "\n"] {
        let text = format!("{}{}", &EMPTY[..80], bad);
        assert_eq!(text.len(), 81);
        assert_eq!(Sudoku::parse(&text).err(), Some(FormatError::InvalidCharacter));
        let text = format!("{}{}", bad, &EMPTY[..80]);
        assert_eq!(Sudoku::parse(&text).err(), Some(FormatError::InvalidCharacter));
    }
}

#[test]
fn parse_refuses_one_trailing_bad_character_on_an_empty_board() {
    let text = format!("{}!", &EMPTY[..80]);
    assert_eq!(Sudoku::parse(&text).err(), Some(FormatError::InvalidCharacter));
    assert_eq!(Sudoku::from_str(&text).err(), Some("Invalid char"));
}

#[test]
fn parse_checks_the_length_before_the_characters() {
    assert_eq!(Sudoku::parse("!").err(), Some(FormatError::WrongLength));
    let text = format!("{}!!", &EMPTY[..80]);
    assert_eq!(Sudoku::parse(&text).err(), Some(FormatError::WrongLength));
    assert_eq!(Sudoku::from_str(&text).err(), Some("Must be 9x9"));
}

#[test]
fn parse_does_no_trimming() {
    let text = format!(" {}", EMPTY);
    assert_eq!(Sudoku::parse(&text).err(), Some(FormatError::WrongLength));
    let text = format!("{}\n", EMPTY);
    assert_eq!(Sudoku::parse(&text).err(), Some(FormatError::WrongLength));
    let text = format!(" {}", &EMPTY[..80]);
    assert_eq!(Sudoku::parse(&text).err(), Some(FormatError::InvalidCharacter));
}

#[test]
fn parse_counts_characters() {
    // 81 characters, the last of them of two bytes.
    let text = format!("{}é", &EMPTY[..80]);
    assert_eq!(text.chars().count(), 81);
    assert_eq!(text.len(), 82);
    assert_eq!(Sudoku::parse(&text).err(), Some(FormatError::InvalidCharacter));
    assert_eq!(Sudoku::from_str(&text).err(), Some("Invalid char"));
    // The same with the character in front and in the middle.
    let text = format!("é{}", &EMPTY[..80]);
    assert_eq!(Sudoku::parse(&text).err(), Some(FormatError::InvalidCharacter));
    let text = format!("{}€{}", &EMPTY[..40], &EMPTY[..40]);
    assert_eq!(text.chars().count(), 81);
    assert_eq!(Sudoku::parse(&text).err(), Some(FormatError::InvalidCharacter));
    // 81 characters of two bytes each.
    let text = "é".repeat(81);
    assert_eq!(text.chars().count(), 81);
    assert_eq!(Sudoku::parse(&text).err(), Some(FormatError::InvalidCharacter));
    // 27 characters of three bytes each: 81 bytes, but not 81 characters.
    let text = "€".repeat(27);
    assert_eq!(text.len(), 81);
    assert_eq!(Sudoku::parse(&text).err(), Some(FormatError::WrongLength));
    assert_eq!(Sudoku::from_str(&text).err(), Some("Must be 9x9"));
    // 80 and 82 characters with one of two bytes among them.
    let text = format!("{}é", &EMPTY[..79]);
    assert_eq!(text.len(), 81);
    assert_eq!(Sudoku::parse(&text).err(), Some(FormatError::WrongLength));
    let text = format!("{}é", EMPTY);
    assert_eq!(Sudoku::parse(&text).err(), Some(FormatError::WrongLength));
}

#[test]
fn parse_refuses_digits_of_other_scripts() {
    // Arabic-Indic and fullwidth digits are no digits of the alphabet.
    for bad in ["١", "１", "９", "＿"] {
        let text = format!("{}{}", &EMPTY[..80], bad);
        assert_eq!(text.chars().count(), 81);
        assert_eq!(Sudoku::parse(&text).err(), Some(FormatError::InvalidCharacter));
    }
}

#[test]
fn parse_reads_each_character_of_the_alphabet() {
    let text = format!("123456789{}", &EMPTY[..72]);
    let board = Sudoku::parse(&text).unwrap();
    for position in 0..9 {
        assert_eq!(board.get(position), Some(position as u8 + 1));
    }
    for position in 9..81 {
        assert_eq!(board.get(position), None);
    }
}

#[test]
fn text_survives_parsing_and_writing() {
    let texts = [
        EMPTY,
        "289____4_1____4_____52____68_____491____7____634_____79____21_____3____2_2____539",
        "289613745167954328345287916872536491591478263634129857953762184418395672726841539",
        "111111111222222222333333333444444444555555555666666666777777777888888888999999999",
        "_1_2_3_4_5_6_7_8_9_1_2_3_4_5_6_7_8_9_1_2_3_4_5_6_7_8_9_1_2_3_4_5_6_7_8_9_1_2_3_4_",
    ];
    for text in texts {
        assert_eq!(Sudoku::parse(text).unwrap().to_string(), text);
        assert_eq!(Sudoku::from_str(text).unwrap().to_string(), text);
    }
}

#[test]
fn board_survives_writing_and_parsing() {
    let mut cells: Vec<Option<u8>> = Vec::new();
    for position in 0..81u8 {
        cells.push(if position % 10 == 0 { None } else { Some(position % 9 + 1) });
    }
    let board = Sudoku::new(cells.clone());
    let text = board.to_string();
    assert_eq!(text.len(), 81);
    let back = Sudoku::parse(&text).unwrap();
    for position in 0..81 {
        assert_eq!(back.get(position), cells[position]);
    }
}

#[test]
fn format_errors_are_named_in_words() {
    assert_eq!(FormatError::WrongLength.message(), "Must be 9x9");
    assert_eq!(FormatError::InvalidCharacter.message(), "Invalid char");
    assert_ne!(FormatError::WrongLength, FormatError::InvalidCharacter);
}

#[test]
fn every_cell_has_its_character() {
    assert_eq!(cell_text(None), "_");
    let digits = ["1", "2", "3", "4", "5", "6", "7", "8", "9"];
    for digit in 1..=9u8 {
        assert_eq!(cell_text(Some(digit)), digits[digit as usize - 1]);
    }
}

use std::num::IntErrorKind;

use gomoku::coordinates::CoordinatesError::{Field, Number};
use gomoku::coordinates::ParseNumberError::{Empty, InvalidDigit, PosOverflow};
use gomoku::coordinates::{coordinates_from_hex_str, coordinates_from_str, ParseCoordinatesError, ParseNumberError};

fn as_std_reads(text: &str, radix: u32) -> Result<usize, ParseNumberError> {
    usize::from_str_radix(text, radix).map_err(|error| match error.kind() {
        IntErrorKind::Empty => Empty,
        IntErrorKind::InvalidDigit => InvalidDigit,
        IntErrorKind::PosOverflow => PosOverflow,
        _ => unreachable!(),
    })
}

#[test]
fn decimal_coordinates() {
    assert_eq!(coordinates_from_str("3,12"), Ok((3, 12)));
    assert_eq!(coordinates_from_str("0,0"), Ok((0, 0)));
    assert_eq!(coordinates_from_str("14,14"), Ok((14, 14)));
    assert_eq!(coordinates_from_str("007,0010"), Ok((7, 10)));
    assert_eq!(coordinates_from_str("123456,7890"), Ok((123456, 7890)));
}

#[test]
fn hex_coordinates() {
    assert_eq!(coordinates_from_hex_str("3,C"), Ok((3, 12)));
    assert_eq!(coordinates_from_hex_str("e,E"), Ok((14, 14)));
    assert_eq!(coordinates_from_hex_str("10,ff"), Ok((16, 255)));
    assert_eq!(coordinates_from_hex_str("aB,Cd"), Ok((0xab, 0xcd)));
    assert_eq!(coordinates_from_hex_str("0,9"), Ok((0, 9)));
}

#[test]
fn plus_sign_is_read() {
    assert_eq!(coordinates_from_str("+3,+12"), Ok((3, 12)));
    assert_eq!(coordinates_from_hex_str("+a,b"), Ok((10, 11)));
    assert_eq!(coordinates_from_str("+,1"), Err(Number(InvalidDigit)));
    assert_eq!(coordinates_from_str("++1,1"), Err(Number(InvalidDigit)));
    assert_eq!(coordinates_from_str("1+,1"), Err(Number(InvalidDigit)));
}

#[test]
fn what_follows_a_second_comma_is_not_read() {
    assert_eq!(coordinates_from_str("1,2,3"), Ok((1, 2)));
    assert_eq!(coordinates_from_str("1,2,"), Ok((1, 2)));
    assert_eq!(coordinates_from_str("1,2,x y\u{e9}"), Ok((1, 2)));
    assert_eq!(coordinates_from_hex_str("a,b,,,"), Ok((10, 11)));
}

#[test]
fn text_without_a_second_field() {
    assert_eq!(coordinates_from_str("5"), Err(Field(ParseCoordinatesError)));
    assert_eq!(coordinates_from_str("+5"), Err(Field(ParseCoordinatesError)));
    assert_eq!(coordinates_from_hex_str("a"), Err(Field(ParseCoordinatesError)));
    assert_eq!(coordinates_from_hex_str("00ff"), Err(Field(ParseCoordinatesError)));
}

#[test]
fn first_field_is_blamed_first() {
    assert_eq!(coordinates_from_str(""), Err(Number(Empty)));
    assert_eq!(coordinates_from_str("x"), Err(Number(InvalidDigit)));
    assert_eq!(coordinates_from_str("x,"), Err(Number(InvalidDigit)));
    assert_eq!(coordinates_from_str(",x"), Err(Number(Empty)));
    assert_eq!(coordinates_from_str("99999999999999999999999999,x"), Err(Number(PosOverflow)));
    assert_eq!(coordinates_from_str("99999999999999999999999999"), Err(Number(PosOverflow)));
    assert_eq!(coordinates_from_hex_str(""), Err(Number(Empty)));
}

#[test]
fn empty_fields_are_refused() {
    assert_eq!(coordinates_from_str(","), Err(Number(Empty)));
    assert_eq!(coordinates_from_str("5,"), Err(Number(Empty)));
    assert_eq!(coordinates_from_str(",5"), Err(Number(Empty)));
    assert_eq!(coordinates_from_str(",,5"), Err(Number(Empty)));
    assert_eq!(coordinates_from_str("5,,6"), Err(Number(Empty)));
}

#[test]
fn text_with_other_characters_is_refused() {
    for text in ["a,1", "1,b", "-1,1", "1,-0", " 1,1", "1, 1", "1,1 ", "1;1", "1_0,1", "\u{661},1", "1,-"] {
        assert_eq!(coordinates_from_str(text), Err(Number(InvalidDigit)), "{}", text);
    }
    for text in ["g,1", "0x1,1", "1,G", "@,1", "`,1", ":,1", "/,1"] {
        assert_eq!(coordinates_from_hex_str(text), Err(Number(InvalidDigit)), "{}", text);
    }
}

#[test]
fn numbers_as_large_as_usize_holds() {
    let max = usize::MAX;
    assert_eq!(coordinates_from_str(&format!("{},{}", max, max)), Ok((max, max)));
    assert_eq!(coordinates_from_hex_str(&format!("{:x},{:X}", max, max)), Ok((max, max)));
    assert_eq!(coordinates_from_str(&format!("{}0,1", max)), Err(Number(PosOverflow)));
    assert_eq!(coordinates_from_str(&format!("1,{}", max as u128 + 1)), Err(Number(PosOverflow)));
    assert_eq!(coordinates_from_hex_str(&format!("{:x}0,1", max)), Err(Number(PosOverflow)));
    assert_eq!(coordinates_from_hex_str(&format!("1,{:x}", max as u128 + 1)), Err(Number(PosOverflow)));
}

#[test]
fn too_large_and_no_digit_in_one_field() {
    let max = usize::MAX;
    assert_eq!(coordinates_from_str(&format!("{}x,1", max)), Err(Number(InvalidDigit)));
    assert_eq!(coordinates_from_str(&format!("{}0x,1", max)), Err(Number(PosOverflow)));
    assert_eq!(coordinates_from_str(&format!("x{}0,1", max)), Err(Number(InvalidDigit)));
    assert_eq!(coordinates_from_hex_str(&format!("{:x}g,1", max)), Err(Number(InvalidDigit)));
    assert_eq!(coordinates_from_hex_str(&format!("{:x}0g,1", max)), Err(Number(PosOverflow)));
}

#[test]
fn fields_are_read_as_std_reads_them() {
    let max = usize::MAX;
    let mut texts: Vec<String> = [
        "0", "7", "+7", "", "+", "-", "-7", "+-7", "1e3", " 7", "7 ", "0x7", "\u{663}", "00000000000000000000000000000000000012", "ff", "FF", "fg",
        "+0", "+00", "1+1",
    ]
    .iter()
    .map(|text| text.to_string())
    .collect();
    for tail in ["", "0", "1", "x", "0x", "x0", "9", "f", "g"] {
        texts.push(format!("{}{}", max, tail));
        texts.push(format!("{:x}{}", max, tail));
        texts.push(format!("{}{}", max / 10, tail));
        texts.push(format!("{:x}{}", max / 16, tail));
        texts.push(format!("+{}{}", max, tail));
    }
    for text in texts.iter() {
        let found = match coordinates_from_str(&format!("{},0", text)) {
            Ok(pair) => Ok(pair.0),
            Err(Number(error)) => Err(error),
            Err(Field(_)) => unreachable!(),
        };
        assert_eq!(found, as_std_reads(text, 10), "{:?}", text);
        assert_eq!(found.ok(), text.parse::<usize>().ok());
        let found = match coordinates_from_hex_str(&format!("0,{}", text)) {
            Ok(pair) => Ok(pair.1),
            Err(Number(error)) => Err(error),
            Err(Field(_)) => unreachable!(),
        };
        assert_eq!(found, as_std_reads(text, 16), "{:?}", text);
    }
}

#[test]
fn parse_errors_have_messages() {
    assert_eq!(ParseCoordinatesError.message(), "Failed to parse coordinates.");
    assert_eq!(Empty.message(), "".parse::<usize>().unwrap_err().to_string());
    assert_eq!(InvalidDigit.message(), "x".parse::<usize>().unwrap_err().to_string());
    assert_eq!(PosOverflow.message(), "99999999999999999999999999".parse::<usize>().unwrap_err().to_string());
}

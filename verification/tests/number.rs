use structury_json::dialect::Dialect;
use structury_json::lex::number::{digit_run_len, hex_run_len, lex_number, non_digit_mask, normalize_json5_into};
use structury_json::number::{Number, Order};

#[test]
fn non_digit_mask_names_the_first_non_digit_at_every_position() {
    for value in 0u16..=0xff {
        let byte = u8::try_from(value).expect("byte range");
        for pos in 0..8 {
            let shift = 8 * u32::try_from(pos).expect("lane position");
            let word = (0x3131_3131_3131_3131 & !(0xffu64 << shift)) | (u64::from(byte) << shift);
            let mask = non_digit_mask(word);
            let got = if mask == 0 {
                8
            } else {
                (mask.trailing_zeros() / 8) as usize
            };
            let expected = if byte.is_ascii_digit() { 8 } else { pos };
            assert_eq!(expected, got, "byte {byte:#04x} at lane position {pos}");
        }
    }
}

#[test]
fn digit_run_len_agrees_with_the_scalar_predicate() {
    let corpora: &[&[u8]] = &[
        b"",
        b"0",
        b"1234567",
        b"12345678",
        b"123456789",
        b"613616999999977",
        b"12345678901234567",
        b"1234567890123456789012345678901234567890",
        b"12.",
        b"1234567e",
        b"12345678e",
        b"999999999,43.4",
        b"00000000000000000001",
    ];
    for bytes in corpora {
        for start in 0..=bytes.len() {
            let slice = &bytes[start..];
            let want = slice.iter().take_while(|b| b.is_ascii_digit()).count();
            assert_eq!(digit_run_len(slice), want, "at {start} of {bytes:?}");
        }
    }
    // A long digit run at every offset in a fixed-size buffer.
    for offset in 0..16 {
        let mut bytes = [b'9'; 64];
        bytes[offset..offset + 40].fill(b'7');
        bytes[offset + 40] = b'x';
        assert_eq!(digit_run_len(&bytes[offset..]), 40, "offset {offset}");
    }
}

#[test]
fn hex_runs_stop_at_the_first_other_byte() {
    assert_eq!(hex_run_len(b"0aFg"), 3);
    assert_eq!(hex_run_len(b"x"), 0);
}

#[test]
fn hex_numbers_are_widened_to_decimal() {
    let widen = |spelling: &[u8]| {
        let mut out = Vec::new();
        normalize_json5_into(spelling, &mut out);
        out
    };
    assert_eq!(widen(b"0x10"), b"16");
    assert_eq!(widen(b"-0xFF"), b"-255");
    assert_eq!(widen(b"+1.5"), b"1.5");
    assert_eq!(
        widen(b"0x100000000000000000000000000000000"),
        b"340282366920938463463374607431768211456"
    );
}

#[test]
fn numbers_end_where_their_token_does() {
    assert_eq!(lex_number(b"-0.5e10,", 0, Dialect::Rfc8259).expect("number"), 7);
    assert!(lex_number(b"01", 0, Dialect::Rfc8259).is_err());
    assert!(lex_number(b"1.", 0, Dialect::Rfc8259).is_err());
    assert_eq!(lex_number(b"0xfF ", 0, Dialect::Json5).expect("hex"), 4);
    assert_eq!(lex_number(b"-Infinity", 0, Dialect::Json5).expect("non-finite"), 9);
}

#[test]
fn numbers_compare_by_value_whatever_their_spelling() {
    let order = |a: &str, b: &str| {
        Number::parse(a)
            .expect("a")
            .numeric_order(&Number::parse(b).expect("b"))
            .expect("finite")
    };
    assert_eq!(order("1", "1.0"), Order::Equal);
    assert_eq!(order("1e2", "100"), Order::Equal);
    assert_eq!(order("0.1", "1e-1"), Order::Equal);
    assert_eq!(order("-2", "1"), Order::Less);
    assert_eq!(order("12345678901234567890123", "12345678901234567890122"), Order::Greater);
    assert_eq!(order("1e100", "9e99"), Order::Greater);
    assert!(Number::parse("1.").is_err());
    assert!(Number::parse("0x1").is_err());
}

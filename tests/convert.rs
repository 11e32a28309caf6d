use asciihex::fragment::{ascii_to_fragment, Fragment};
use asciihex::segment::{ascii, bytes, combine, convert, fragment, fragments, ConversionError};
use asciihex::text::{hex_digit, is_ascii};

fn text(b: &[u8]) -> String {
    convert(b).expect("conversion succeeds")
}

#[test]
fn mixed_text_then_bytes() {
    assert_eq!(convert(&[0x48, 0x69, 0xFF, 0xFE]), Ok("HiFF FE ".to_string()));
}

#[test]
fn all_ascii_is_verbatim() {
    assert_eq!(text(b"hello"), "hello");
    let all: Vec<u8> = (0u8..=0x7F).collect();
    let out = text(&all);
    assert_eq!(out.as_bytes(), &all[..]);
}

#[test]
fn all_high_bytes_are_hex() {
    assert_eq!(text(&[0xDE, 0xAD, 0xBE, 0xEF]), "DE AD BE EF ");
    assert_eq!(text(&[0x80, 0xFF]), "80 FF ");
}

#[test]
fn alternating_runs() {
    let input = [0x41, 0xFF, 0x42, 0xFE, 0x43];
    assert_eq!(text(&input), "AFF BFE C");
    let fs = fragments(&input).unwrap();
    assert_eq!(
        fs,
        vec![
            Fragment::Ascii("A"),
            Fragment::Bytes(&[0xFF]),
            Fragment::Ascii("B"),
            Fragment::Bytes(&[0xFE]),
            Fragment::Ascii("C"),
        ]
    );
}

#[test]
fn empty_input() {
    assert_eq!(convert(&[]), Ok(String::new()));
    assert!(fragments(&[]).unwrap().is_empty());
}

#[test]
fn same_input_same_output() {
    let input = [0x00, 0x7F, 0x80, 0x41, 0xC3, 0xA9, 0x0A];
    assert_eq!(convert(&input), convert(&input));
}

#[test]
fn output_length_bound() {
    let mixed = [0x41, 0x90, 0x42];
    assert_eq!(text(&mixed).len(), 5);
    assert!(text(&mixed).len() < 3 * mixed.len());
    let high = [0x90, 0xA0, 0xB0, 0xC0];
    assert_eq!(text(&high).len(), 3 * high.len());
}

#[test]
fn fragments_partition_the_input() {
    let input = [0x41, 0x42, 0x80, 0x81, 0x0A, 0xFF, 0x43, 0x44, 0x45];
    let fs = fragments(&input).unwrap();
    let mut joined: Vec<u8> = Vec::new();
    for f in &fs {
        match f {
            Fragment::Ascii(s) => joined.extend_from_slice(s.as_bytes()),
            Fragment::Bytes(b) => joined.extend_from_slice(b),
        }
    }
    assert_eq!(joined, input.to_vec());
    assert_eq!(fs.len(), 5);
    for w in fs.windows(2) {
        let a = matches!(w[0], Fragment::Ascii(_));
        let b = matches!(w[1], Fragment::Ascii(_));
        assert_ne!(a, b);
    }
    assert_eq!(combine(&fs), "AB80 81 \nFF CDE");
}

#[test]
fn single_byte_inputs() {
    assert_eq!(text(&[0x00]), "\0");
    assert_eq!(text(&[0x7F]), "\u{7f}");
    assert_eq!(text(&[0x80]), "80 ");
    assert_eq!(text(&[0xFF]), "FF ");
}

#[test]
fn ascii_predicate_bounds() {
    assert!(is_ascii(0x00));
    assert!(is_ascii(b'a'));
    assert!(is_ascii(0x7F));
    assert!(!is_ascii(0x80));
    assert!(!is_ascii(0xFF));
}

#[test]
fn hex_digits() {
    assert_eq!(hex_digit(0), '0');
    assert_eq!(hex_digit(9), '9');
    assert_eq!(hex_digit(10), 'A');
    assert_eq!(hex_digit(15), 'F');
}

#[test]
fn ascii_bytes_read_as_text() {
    assert_eq!(ascii_to_fragment(b"abc"), Ok(Fragment::Ascii("abc")));
    assert!(ascii_to_fragment(&[0xFF]).is_err());
    assert_eq!(ascii_to_fragment(&[0xC3, 0xA9]), Ok(Fragment::Ascii("\u{e9}")));
}

#[test]
fn runs_end_where_the_class_flips() {
    let input = [0x61, 0x62, 0x90, 0x91, 0x63];
    assert_eq!(ascii(&input, 0), Ok((Fragment::Ascii("ab"), 2)));
    assert_eq!(bytes(&input, 2), Ok((Fragment::Bytes(&[0x90, 0x91]), 4)));
    assert_eq!(fragment(&input, 4), Ok((Fragment::Ascii("c"), 5)));
    assert_eq!(fragment(&input, 3), Ok((Fragment::Bytes(&[0x91]), 4)));
}

#[test]
fn rendering_one_fragment() {
    let mut out = String::from("x");
    Fragment::Bytes(&[0x0F, 0xAB]).render_into(&mut out);
    assert_eq!(out, "x0F AB ");
    Fragment::Ascii("hi").render_into(&mut out);
    assert_eq!(out, "x0F AB hi");
}

#[test]
fn run_of_the_wrong_class_is_refused() {
    let input = [0x61, 0x90];
    assert_eq!(ascii(&input, 1), Err(ConversionError::Parse { offset: 1 }));
    assert_eq!(bytes(&input, 0), Err(ConversionError::Parse { offset: 0 }));
}

#[test]
fn no_run_past_the_end() {
    let input = [0x61, 0x90];
    assert_eq!(fragment(&input, 2), Err(ConversionError::Parse { offset: 2 }));
    assert_eq!(ascii(&[], 0), Err(ConversionError::Parse { offset: 0 }));
    assert_eq!(bytes(&input, 5), Err(ConversionError::Parse { offset: 5 }));
}

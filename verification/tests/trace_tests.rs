use pagealloc::header::{header_bytes, header_value};
use pagealloc::trace::{hex_digit, render_line};
use pagealloc::allocator::{free_base_label, free_label, free_size_label, malloc_label,
    malloc_null_label};

#[test]
fn hex_digit_values() {
    assert_eq!(hex_digit(0), b'0');
    assert_eq!(hex_digit(9), b'9');
    assert_eq!(hex_digit(10), b'a');
    assert_eq!(hex_digit(15), b'f');
    // only the low four bits count
    assert_eq!(hex_digit(0xff), b'f');
    assert_eq!(hex_digit(0x23), b'3');
}

#[test]
fn labels_spell_the_operations() {
    assert_eq!(malloc_label(), b"malloc ".to_vec());
    assert_eq!(malloc_null_label(), b"malloc null ".to_vec());
    assert_eq!(free_label(), b"free ".to_vec());
    assert_eq!(free_base_label(), b"free base ".to_vec());
    assert_eq!(free_size_label(), b"free size ".to_vec());
}

#[test]
fn render_line_is_fixed_width_hex() {
    let line = render_line(&malloc_label(), 0x1234, 0);
    assert_eq!(line, b"malloc 0000000000001234 0000000000000000\n".to_vec());
    let line2 = render_line(&free_label(), 0, 0xdeadbeef);
    assert_eq!(line2, b"free 0000000000000000 00000000deadbeef\n".to_vec());
    let line3 = render_line(&free_size_label(), usize::MAX, 1);
    assert_eq!(line3, b"free size ffffffffffffffff 0000000000000001\n".to_vec());
}

#[test]
fn header_encodes_little_endian() {
    let b = header_bytes(0x0102030405060708);
    assert_eq!(b, vec![0x08, 0x07, 0x06, 0x05, 0x04, 0x03, 0x02, 0x01]);
}

#[test]
fn header_round_trip() {
    for v in [0u64, 1, 16, 4096, 0xfeed_face_cafe_f00d, u64::MAX] {
        assert_eq!(header_value(&header_bytes(v)), v);
    }
}

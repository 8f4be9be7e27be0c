use vmsim::operation::{Op, Operation, SimError};

#[test]
fn parses_read_line() {
    let o = Operation::parse_line("0 R".to_string()).unwrap();
    assert_eq!(o.virtual_address, 0);
    assert_eq!(o.virtual_page_number, 0);
    assert_eq!(o.page_offset, 0);
    assert_eq!(o.op, Op::R);
}

#[test]
fn parses_write_line_with_offset() {
    let o = Operation::parse_line("12345678 W".to_string()).unwrap();
    assert_eq!(o.virtual_address, 0x1234_5678);
    assert_eq!(o.virtual_page_number, 0x12345);
    assert_eq!(o.page_offset, 0x678);
    assert_eq!(o.op, Op::W);
}

#[test]
fn parses_upper_case_hex() {
    let o = Operation::parse_line("ABCDEF01 R".to_string()).unwrap();
    assert_eq!(o.virtual_address, 0xabcd_ef01);
    assert_eq!(o.virtual_page_number, 0xabcde);
    assert_eq!(o.page_offset, 0xf01);
}

#[test]
fn parses_largest_address() {
    let o = Operation::parse_line("ffffffff W".to_string()).unwrap();
    assert_eq!(o.virtual_address, u32::MAX);
    assert_eq!(o.virtual_page_number, 0xfffff);
    assert_eq!(o.page_offset, 0xfff);
}

#[test]
fn page_and_offset_rebuild_address() {
    for line in ["0 R", "1000 W", "1fff R", "deadbeef W", "ffffffff R"] {
        let o = Operation::parse_line(line.to_string()).unwrap();
        assert_eq!((o.virtual_page_number << 12) | o.page_offset, o.virtual_address);
        assert!(o.page_offset < 4096);
        assert!(o.virtual_page_number < (1 << 20));
    }
}

#[test]
fn parsing_twice_gives_same_operation() {
    let a = Operation::parse_line("0041f7a0 W".to_string());
    let b = Operation::parse_line("0041f7a0 W".to_string());
    assert_eq!(a, b);
    let c = Operation::parse_line("zz R".to_string());
    let d = Operation::parse_line("zz R".to_string());
    assert_eq!(c, d);
}

#[test]
fn rejects_non_hex_address() {
    assert_eq!(Operation::parse_line("zz R".to_string()), Err(SimError::MalformedTraceLine));
    assert_eq!(Operation::parse_line("0x10 R".to_string()), Err(SimError::MalformedTraceLine));
    assert_eq!(Operation::parse_line("+10 R".to_string()), Err(SimError::MalformedTraceLine));
}

#[test]
fn rejects_address_over_32_bits() {
    assert_eq!(
        Operation::parse_line("100000000 R".to_string()),
        Err(SimError::MalformedTraceLine)
    );
}

#[test]
fn rejects_bad_operation_code() {
    assert_eq!(Operation::parse_line("10 X".to_string()), Err(SimError::MalformedTraceLine));
    assert_eq!(Operation::parse_line("10 r".to_string()), Err(SimError::MalformedTraceLine));
    assert_eq!(Operation::parse_line("10 RW".to_string()), Err(SimError::MalformedTraceLine));
}

#[test]
fn rejects_missing_fields() {
    assert_eq!(Operation::parse_line("".to_string()), Err(SimError::MalformedTraceLine));
    assert_eq!(Operation::parse_line("10".to_string()), Err(SimError::MalformedTraceLine));
    assert_eq!(Operation::parse_line("10 ".to_string()), Err(SimError::MalformedTraceLine));
    assert_eq!(Operation::parse_line(" R".to_string()), Err(SimError::MalformedTraceLine));
    assert_eq!(Operation::parse_line("10  R".to_string()), Err(SimError::MalformedTraceLine));
}

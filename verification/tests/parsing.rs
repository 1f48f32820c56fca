use cachesim::trace::{Operation, TraceEntry, TraceParseError, Traces};

#[test]
fn parses_records_in_order() {
    let traces = Traces::from_text("I 400,4\nL 1f,8\nS a0,2\nM Ff,1\n").unwrap();
    assert_eq!(traces.len(), 4);
    let first = traces.get(0);
    assert_eq!(first.operation, Operation::InstructionLoad);
    assert_eq!(first.address, 0x400);
    assert_eq!(first.size, 4);
    let second = traces.get(1);
    assert_eq!(second.operation, Operation::DataLoad);
    assert_eq!(second.address, 0x1f);
    assert_eq!(second.size, 8);
    let third = traces.get(2);
    assert_eq!(third.operation, Operation::DataStore);
    assert_eq!(third.address, 0xa0);
    let fourth = traces.get(3);
    assert_eq!(fourth.operation, Operation::DataModify);
    assert_eq!(fourth.address, 0xff);
}

#[test]
fn blank_lines_are_skipped() {
    let traces = Traces::from_text("\nL 10,1\n\n\nS 20,2\n\n").unwrap();
    assert_eq!(traces.len(), 2);
    assert_eq!(traces.get(0).address, 0x10);
    assert_eq!(traces.get(1).address, 0x20);
}

#[test]
fn empty_text_is_an_empty_trace() {
    let traces = Traces::from_text("").unwrap();
    assert_eq!(traces.len(), 0);
}

#[test]
fn extra_spaces_between_fields_are_allowed() {
    let traces = Traces::from_text("  L   10,1  \n").unwrap();
    assert_eq!(traces.len(), 1);
    assert_eq!(traces.get(0).address, 0x10);
}

#[test]
fn unknown_operation_is_rejected() {
    assert_eq!(Traces::from_text("X 10,1\n").unwrap_err(), TraceParseError::BadOperation);
}

#[test]
fn long_operation_field_is_rejected() {
    assert_eq!(Traces::from_text("LS 10,1\n").unwrap_err(), TraceParseError::BadOperation);
}

#[test]
fn missing_size_is_rejected() {
    assert_eq!(Traces::from_text("L 10\n").unwrap_err(), TraceParseError::BadFieldCount);
}

#[test]
fn extra_comma_part_is_rejected() {
    assert_eq!(Traces::from_text("L 10,1,2\n").unwrap_err(), TraceParseError::BadFieldCount);
}

#[test]
fn extra_field_is_rejected() {
    assert_eq!(Traces::from_text("L 10,1 z\n").unwrap_err(), TraceParseError::BadFieldCount);
}

#[test]
fn non_hex_address_is_rejected() {
    assert_eq!(Traces::from_text("L zz,1\n").unwrap_err(), TraceParseError::BadNumber);
}

#[test]
fn empty_size_is_rejected() {
    assert_eq!(Traces::from_text("L 10,\n").unwrap_err(), TraceParseError::BadNumber);
}

#[test]
fn oversized_address_is_rejected() {
    // 17 hex digits: one past what 64 bits hold.
    assert_eq!(Traces::from_text("L 10000000000000000,1\n").unwrap_err(), TraceParseError::BadNumber);
}

#[test]
fn largest_address_is_accepted() {
    let traces = Traces::from_text("L ffffffffffffffff,1\n").unwrap();
    assert_eq!(traces.get(0).address, u64::MAX);
}

#[test]
fn first_bad_line_decides_the_error() {
    assert_eq!(Traces::from_text("L 10,1\nL 20\nX 30,1\n").unwrap_err(), TraceParseError::BadFieldCount);
}

#[test]
fn push_appends_records() {
    let mut traces = Traces::empty();
    assert_eq!(traces.len(), 0);
    traces.push(TraceEntry { operation: Operation::DataLoad, address: 7, size: 1 });
    assert_eq!(traces.len(), 1);
    assert_eq!(traces.get(0).address, 7);
}

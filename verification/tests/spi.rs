use postgres_extension::executor::spi::{
    execute_outcome, AttrCursor, TupleCursor, SPI_ERROR_ARGUMENT, SPI_OK_SELECT, SPI_OPT_NONATOMIC,
};

#[test]
fn execute_outcome_keeps_non_negative_status() {
    assert_eq!(execute_outcome(SPI_OK_SELECT), Ok(5));
    assert_eq!(execute_outcome(0), Ok(0));
}

#[test]
fn execute_outcome_reports_negative_status() {
    assert_eq!(execute_outcome(SPI_ERROR_ARGUMENT), Err(-6));
    assert_eq!(execute_outcome(i32::MIN), Err(i32::MIN));
}

#[test]
fn spi_opt_nonatomic_is_bit_zero() {
    assert_eq!(SPI_OPT_NONATOMIC, 1);
}

#[test]
fn tuple_cursor_visits_each_row_once() {
    let mut c = TupleCursor::new(3);
    assert_eq!(c.next_index(), Some(0));
    assert_eq!(c.next_index(), Some(1));
    assert_eq!(c.next_index(), Some(2));
    assert_eq!(c.next_index(), None);
    assert_eq!(c.next_index(), None);
}

#[test]
fn tuple_cursor_over_no_rows_ends_at_once() {
    let mut c = TupleCursor::new(0);
    assert_eq!(c.next_index(), None);
}

#[test]
fn attr_cursor_visits_attributes_from_one() {
    let mut c = AttrCursor::new(2);
    assert_eq!(c.next_attno(), Some(1));
    assert_eq!(c.next_attno(), Some(2));
    assert_eq!(c.next_attno(), None);
    assert_eq!(c.next_attno(), None);
}

#[test]
fn attr_cursor_over_no_attributes_ends_at_once() {
    let mut c = AttrCursor::new(0);
    assert_eq!(c.next_attno(), None);
    let mut d = AttrCursor::new(-3);
    assert_eq!(d.next_attno(), None);
}

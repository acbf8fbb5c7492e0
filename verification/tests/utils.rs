use postgres_extension::rust_utils::{
    classify_panic, format_error, write_all_step, write_zero_error, IoError, IoErrorKind,
    PanicPayload, PanicType, Write, WriteStep,
};
use postgres_extension::utils::elog::{ERROR, NOTICE, WARNING};

#[test]
fn classify_panic_passes_panic_types_through() {
    let (t, report) = classify_panic(PanicPayload::Signal(PanicType::ReThrow));
    assert!(t == PanicType::ReThrow);
    assert!(report.is_none());
    let (t, report) = classify_panic(PanicPayload::Signal(PanicType::Errfinish));
    assert!(t == PanicType::Errfinish);
    assert!(report.is_none());
}

#[test]
fn classify_panic_reports_a_message() {
    let (t, report) = classify_panic(PanicPayload::Message("udf panic".to_string()));
    assert!(t == PanicType::Errfinish);
    let r = report.unwrap();
    assert_eq!(r.elevel, ERROR);
    assert_eq!(r.message, "rust panic: udf panic");
    assert_eq!(r.hint, "find out what rust code caused the panic");
    assert_eq!(r.detail, "some rust code caused a panic");
}

#[test]
fn classify_panic_reports_an_opaque_payload() {
    let (t, report) = classify_panic(PanicPayload::Opaque);
    assert!(t == PanicType::Errfinish);
    assert_eq!(report.unwrap().message, "rust panic: Box<Any>");
}

#[test]
fn elog_levels_are_ordered() {
    assert_eq!(ERROR, 20);
    assert!(NOTICE < WARNING && WARNING < ERROR);
}

#[test]
fn write_fills_the_buffer_from_the_front() {
    let mut buf = [9i8; 8];
    {
        let mut w: &mut [i8] = &mut buf[..];
        assert_eq!(w.write(b"abc").unwrap(), 3);
        assert_eq!(w.len(), 5);
    }
    assert_eq!(buf, [97, 98, 99, 9, 9, 9, 9, 9]);
}

#[test]
fn write_stops_at_the_end_of_the_buffer() {
    let mut buf = [0i8; 4];
    {
        let mut w: &mut [i8] = &mut buf[..];
        assert_eq!(w.write(b"abcdef").unwrap(), 4);
        assert_eq!(w.len(), 0);
        assert_eq!(w.write(b"g").unwrap(), 0);
    }
    assert_eq!(buf, [97, 98, 99, 100]);
}

#[test]
fn write_keeps_the_bits_of_high_bytes() {
    let mut buf = [0i8; 2];
    {
        let mut w: &mut [i8] = &mut buf[..];
        w.write(&[0xff, 0x80]).unwrap();
    }
    assert_eq!(buf, [-1, -128]);
}

#[test]
fn write_all_fails_with_write_zero_when_data_does_not_fit() {
    let mut buf = [0i8; 3];
    {
        let mut w: &mut [i8] = &mut buf[..];
        let e = w.write_all(b"abcd").unwrap_err();
        assert!(e.kind == IoErrorKind::WriteZero);
        assert_eq!(e.message, "failed to write whole buffer");
        assert_eq!(w.len(), 0);
    }
    assert_eq!(buf, [97, 98, 99]);
}

#[test]
fn write_all_succeeds_when_data_fits() {
    let mut buf = [0i8; 4];
    {
        let mut w: &mut [i8] = &mut buf[..];
        assert!(w.write_all(b"ab").is_ok());
        assert!(w.write_all(b"cd").is_ok());
        assert!(w.write_all(b"").is_ok());
        assert!(w.flush().is_ok());
        assert!(w.write_all(b"e").is_err());
    }
    assert_eq!(buf, [97, 98, 99, 100]);
}

#[test]
fn two_writes_leave_what_one_write_of_both_leaves() {
    let mut a = [0i8; 5];
    let mut b = [0i8; 5];
    {
        let mut w: &mut [i8] = &mut a[..];
        w.write(b"hel").unwrap();
        w.write(b"lo world").unwrap();
    }
    {
        let mut w: &mut [i8] = &mut b[..];
        w.write(b"hello world").unwrap();
    }
    assert_eq!(a, b);
}

#[test]
fn by_ref_writes_through_to_the_same_buffer() {
    let mut buf = [0i8; 3];
    {
        let mut w: &mut [i8] = &mut buf[..];
        w.by_ref().write_all(b"xy").unwrap();
        w.write_all(b"z").unwrap();
    }
    assert_eq!(buf, [120, 121, 122]);
}

#[test]
fn write_zero_error_has_the_std_message() {
    let e = write_zero_error();
    assert!(e.kind == IoErrorKind::WriteZero);
    assert_eq!(e.message, "failed to write whole buffer");
}

/// A sink that takes at most two bytes a call, takes none once it holds
/// `zero_after` bytes, and fails with `Other` once it holds `limit` bytes.
struct Chunky {
    out: Vec<u8>,
    calls: usize,
    limit: usize,
    zero_after: Option<usize>,
}

impl Write for Chunky {
    fn write(&mut self, buf: &[u8]) -> Result<usize, IoError> {
        self.calls += 1;
        if let Some(z) = self.zero_after {
            if self.out.len() >= z {
                return Ok(0);
            }
        }
        if self.out.len() >= self.limit {
            return Err(IoError { kind: IoErrorKind::Other, message: "full".to_string() });
        }
        let n = buf.len().min(2);
        self.out.extend_from_slice(&buf[..n]);
        Ok(n)
    }

    fn flush(&mut self) -> Result<(), IoError> {
        Ok(())
    }
}

#[test]
fn default_write_all_offers_the_rest_until_all_is_written() {
    let mut sink = Chunky { out: Vec::new(), calls: 0, limit: 100, zero_after: None };
    assert!(sink.write_all(b"hello").is_ok());
    assert_eq!(sink.out, b"hello".to_vec());
    assert_eq!(sink.calls, 3);
}

#[test]
fn write_all_step_moves_past_taken_bytes() {
    assert!(matches!(write_all_step(Ok(3)), WriteStep::Advance(3)));
    assert!(matches!(write_all_step(Ok(1)), WriteStep::Advance(1)));
}

#[test]
fn write_all_step_retries_an_interrupted_write() {
    let e = IoError { kind: IoErrorKind::Interrupted, message: "again".to_string() };
    assert!(matches!(write_all_step(Err(e)), WriteStep::Retry));
}

#[test]
fn write_all_step_stops_when_nothing_was_taken() {
    match write_all_step(Ok(0)) {
        WriteStep::Fail(e) => {
            assert!(e.kind == IoErrorKind::WriteZero);
            assert_eq!(e.message, "failed to write whole buffer");
        }
        other => panic!("unexpected step {:?}", other),
    }
}

#[test]
fn write_all_step_passes_other_errors_on_unchanged() {
    let e = IoError { kind: IoErrorKind::Other, message: "disk full".to_string() };
    match write_all_step(Err(e)) {
        WriteStep::Fail(e) => {
            assert!(e.kind == IoErrorKind::Other);
            assert_eq!(e.message, "disk full");
        }
        other => panic!("unexpected step {:?}", other),
    }
    let e = IoError { kind: IoErrorKind::WriteZero, message: "own words".to_string() };
    match write_all_step(Err(e)) {
        WriteStep::Fail(e) => {
            assert!(e.kind == IoErrorKind::WriteZero);
            assert_eq!(e.message, "own words");
        }
        other => panic!("unexpected step {:?}", other),
    }
}

#[test]
fn default_write_all_of_nothing_writes_nothing() {
    let mut sink = Chunky { out: Vec::new(), calls: 0, limit: 100, zero_after: None };
    assert!(sink.write_all(b"").is_ok());
    assert_eq!(sink.calls, 0);
}

#[test]
fn default_write_all_reports_write_zero() {
    let mut sink = Chunky { out: Vec::new(), calls: 0, limit: 100, zero_after: Some(2) };
    let e = sink.write_all(b"hello").unwrap_err();
    assert!(e.kind == IoErrorKind::WriteZero);
    assert_eq!(e.message, "failed to write whole buffer");
    assert_eq!(sink.out, b"he".to_vec());
}

#[test]
fn default_write_all_passes_other_errors_on() {
    let mut sink = Chunky { out: Vec::new(), calls: 0, limit: 4, zero_after: None };
    let e = sink.write_all(b"hello world").unwrap_err();
    assert!(e.kind == IoErrorKind::Other);
    assert_eq!(e.message, "full");
    assert_eq!(sink.out, b"hell".to_vec());
}

#[test]
fn format_error_keeps_the_sink_error() {
    let e = format_error(Some(write_zero_error()));
    assert!(e.kind == IoErrorKind::WriteZero);
    assert_eq!(e.message, "failed to write whole buffer");
}

#[test]
fn format_error_without_sink_error_is_other() {
    let e = format_error(None);
    assert!(e.kind == IoErrorKind::Other);
    assert_eq!(e.message, "formatter error");
}

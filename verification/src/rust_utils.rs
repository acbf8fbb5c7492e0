use vstd::prelude::*;

use crate::utils::elog::ERROR;

verus! {

/// How a caught panic leaves Rust code: by handing an error that Postgres
/// already raised back to it, or by finishing an error report that Rust
/// code started.
#[derive(Clone, Copy, Debug, PartialEq, Eq, Structural)]
pub enum PanicType {
    ReThrow,
    Errfinish,
}

/// The payload of a caught panic, as far as the panic handler tells payloads
/// apart: a `PanicType` sent on purpose, a message (`&str` or `String`), or
/// anything else.
pub enum PanicPayload {
    Signal(PanicType),
    Message(String),
    Opaque,
}

/// The ERROR that the panic handler raises for an unexpected panic.
pub struct ErrorReport {
    pub elevel: i32,
    pub message: String,
    pub hint: String,
    pub detail: String,
}

/// The text that a payload contributes to the error message.
pub open spec fn payload_text(payload: PanicPayload) -> Seq<char> {
    match payload {
        PanicPayload::Message(s) => s@,
        _ => "Box<Any>"@,
    }
}

/// A message payload contributes its whole text, and any other payload the
/// words `Box<Any>`.
pub proof fn lemma_payload_text_is_whole_message(payload: PanicPayload)
    ensures
        payload matches PanicPayload::Message(s) ==> payload_text(payload) == s@,
        !(payload is Message) ==> payload_text(payload) == "Box<Any>"@,
{
}

/// Decides what to do with a caught panic. A `PanicType` payload is passed
/// through unchanged and nothing is reported; every other payload is turned
/// into an ERROR report whose message is `rust panic: ` followed by the
/// payload's text, and the caller must then finish that report.
pub fn classify_panic(payload: PanicPayload) -> (res: (PanicType, Option<ErrorReport>))
    ensures
        payload matches PanicPayload::Signal(t) ==> res.0 == t && res.1 is None,
        payload matches PanicPayload::Message(s) ==> (res.1 matches Some(r) && r.message@
            == "rust panic: "@ + s@),
        payload is Opaque ==> (res.1 matches Some(r) && r.message@ == "rust panic: "@ + "Box<Any>"@),
        !(payload is Signal) ==> {
            &&& res.0 == PanicType::Errfinish
            &&& res.1 matches Some(r) && {
                &&& r.elevel == ERROR
                &&& r.message@ == "rust panic: "@ + payload_text(payload)
                &&& r.hint@ == "find out what rust code caused the panic"@
                &&& r.detail@ == "some rust code caused a panic"@
            }
        },
{
    let text: String = match payload {
        PanicPayload::Signal(t) => {
            return (t, None);
        },
        PanicPayload::Message(s) => s,
        PanicPayload::Opaque => String::from_str("Box<Any>"),
    };
    let message = String::from_str("rust panic: ").concat(text.as_str());
    let report = ErrorReport {
        elevel: ERROR,
        message,
        hint: String::from_str("find out what rust code caused the panic"),
        detail: String::from_str("some rust code caused a panic"),
    };
    (PanicType::Errfinish, Some(report))
}

/// The kinds of write failure that `Write` reports.
#[derive(Clone, Copy, Debug, PartialEq, Eq, Structural)]
pub enum IoErrorKind {
    /// The sink accepted no more bytes before the data ran out.
    WriteZero,
    /// The write was interrupted and may be retried.
    Interrupted,
    /// Any other failure.
    Other,
}

/// A write failure: its kind and a message.
#[derive(Debug)]
pub struct IoError {
    pub kind: IoErrorKind,
    pub message: String,
}

/// The error that a sink reports when it fills up before all the data went in.
pub fn write_zero_error() -> (e: IoError)
    ensures
        e.kind == IoErrorKind::WriteZero,
        e.message@ == "failed to write whole buffer"@,
{
    IoError { kind: IoErrorKind::WriteZero, message: String::from_str("failed to write whole buffer") }
}

/// The error that formatting into a sink reports: the sink's own error when
/// a write into the sink failed, and an `Other` error saying
/// `formatter error` when formatting failed by itself.
pub fn format_error(sink_error: Option<IoError>) -> (e: IoError)
    ensures
        sink_error matches Some(s) ==> e == s,
        sink_error is None ==> e.kind == IoErrorKind::Other && e.message@ == "formatter error"@,
{
    match sink_error {
        Some(e) => e,
        None => IoError { kind: IoErrorKind::Other, message: String::from_str("formatter error") },
    }
}

/// What `write_all` does with the result of one `write`.
#[derive(Debug)]
pub enum WriteStep {
    /// The write took this many bytes (at least one): go on after them.
    Advance(usize),
    /// The write was interrupted: offer the same bytes again.
    Retry,
    /// Stop with this error.
    Fail(IoError),
}

/// Decides what `write_all` does after a `write`: a write that took no byte
/// ends it with `WriteZero` ("failed to write whole buffer"), one that took
/// bytes moves it past them, an interrupted one is tried again, and any other
/// error ends it with that very error.
pub fn write_all_step(result: Result<usize, IoError>) -> (s: WriteStep)
    ensures
        match result {
            Ok(n) => if n == 0 {
                (s matches WriteStep::Fail(e) && e.kind == IoErrorKind::WriteZero && e.message@
                    == "failed to write whole buffer"@)
            } else {
                s == WriteStep::Advance(n)
            },
            Err(e) => if e.kind == IoErrorKind::Interrupted {
                s is Retry
            } else {
                s == WriteStep::Fail(e)
            },
        },
{
    match result {
        Ok(n) => {
            if n == 0 {
                WriteStep::Fail(write_zero_error())
            } else {
                WriteStep::Advance(n)
            }
        },
        Err(e) => {
            if e.kind == IoErrorKind::Interrupted {
                WriteStep::Retry
            } else {
                WriteStep::Fail(e)
            }
        },
    }
}

/// The error that `write_all` may end with, given what the last `write`
/// left as its error: that very error when the write failed (never an
/// interrupted one), or the standard `WriteZero` error when the write
/// succeeded but took no byte.
pub open spec fn write_all_error(e: IoError, last: Option<IoError>) -> bool {
    ||| last == Some(e) && e.kind != IoErrorKind::Interrupted
    ||| last is None && e.kind == IoErrorKind::WriteZero && e.message@
        == "failed to write whole buffer"@
}

/// A byte sink, in the manner of `std::io::Write`, for C character buffers.
///
/// A sink may report an interrupted write, which `write_all` retries; each
/// such report uses up one of the sink's `interruptions_left`, so that a
/// sink cannot keep `write_all` retrying forever.
///
/// A sink may also describe itself to the verifier: whether it keeps a log
/// of the bytes it accepted and of the last error it reported
/// (`keeps_log`, `accepted`, `last_error`), and whether every write of a
/// non-empty buffer is sure to take at least one byte or to be interrupted
/// (`always_progresses`). A sink that says nothing of this promises nothing
/// more than the bounds of each write.
pub trait Write {
    /// Whether `accepted` and `last_error` follow what the sink did.
    open spec fn keeps_log() -> bool {
        false
    }

    /// The bytes that the sink has accepted so far, in order.
    open spec fn accepted(&self) -> Seq<u8> {
        Seq::empty()
    }

    /// The error that the last failed write reported.
    open spec fn last_error(&self) -> Option<IoError> {
        None
    }

    /// Whether every write of a non-empty buffer, now and later, takes at
    /// least one byte or is interrupted.
    open spec fn always_progresses(&self) -> bool {
        false
    }

    /// How many more times `write` may report `Interrupted`; a sink that is
    /// never interrupted needs no more than the default.
    open spec fn interruptions_left(&self) -> nat {
        0
    }

    /// Writes a prefix of `buf` and says how long it was.
    fn write(&mut self, buf: &[u8]) -> (r: Result<usize, IoError>)
        ensures
            r matches Ok(n) ==> n <= buf@.len(),
            r matches Err(e) && e.kind == IoErrorKind::Interrupted
                ==> (*final(self)).interruptions_left() < (*old(self)).interruptions_left(),
            (*old(self)).always_progresses() ==> (*final(self)).always_progresses(),
            (*old(self)).always_progresses() && buf@.len() > 0 ==> match r {
                Ok(n) => n > 0,
                Err(e) => e.kind == IoErrorKind::Interrupted,
            },
            Self::keeps_log() ==> match r {
                Ok(n) => (*final(self)).accepted() == (*old(self)).accepted() + buf@.take(n as int)
                    && (*final(self)).last_error() is None,
                Err(e) => (*final(self)).accepted() == (*old(self)).accepted()
                    && (*final(self)).last_error() == Some(e),
            },
    ;

    /// Pushes out whatever the sink buffers.
    fn flush(&mut self) -> Result<(), IoError>;

    /// Writes all of `buf` by repeated `write`s, each offered the part of
    /// `buf` not yet taken, and handles each result as `write_all_step`
    /// says: it retries interrupted writes, stops with `WriteZero` when a
    /// write takes no byte, and stops with the first other error that a
    /// write reports. An empty `buf` needs no write at all.
    fn write_all(&mut self, buf: &[u8]) -> (r: Result<(), IoError>)
        ensures
            buf@.len() == 0 ==> r is Ok,
            r matches Err(e) ==> e.kind != IoErrorKind::Interrupted,
            (*old(self)).always_progresses() ==> r is Ok,
            Self::keeps_log() ==> match r {
                Ok(_) => (*final(self)).accepted() == (*old(self)).accepted() + buf@,
                Err(e) => exists|k: int|
                    0 <= k < buf@.len() && (*final(self)).accepted() == (*old(self)).accepted()
                        + #[trigger] buf@.take(k) && write_all_error(
                        e,
                        (*final(self)).last_error(),
                    ),
            },
    {
        let len = buf.len();
        let mut pos: usize = 0;
        while pos < len
            invariant
                pos <= len,
                len == buf@.len(),
                (*old(self)).always_progresses() ==> (*self).always_progresses(),
                Self::keeps_log() ==> (*self).accepted() == (*old(self)).accepted() + buf@.take(
                    pos as int,
                ),
            decreases len - pos, (*self).interruptions_left(),
        {
            let rest = &buf[pos..len];
            let result = self.write(rest);
            match write_all_step(result) {
                WriteStep::Advance(n) => {
                    proof {
                        assert(buf@.take(pos + n) =~= buf@.take(pos as int) + rest@.take(n as int));
                    }
                    pos = pos + n;
                },
                WriteStep::Retry => {},
                WriteStep::Fail(e) => {
                    return Err(e);
                },
            }
        }
        proof {
            assert(buf@.take(len as int) =~= buf@);
        }
        Ok(())
    }

    /// Borrows the sink itself, for adaptors that take a writer by value.
    fn by_ref(&mut self) -> (r: &mut Self) where Self: Sized
        ensures
            *r == *old(self),
            *final(self) == *final(r),
    {
        self
    }
}

/// How many bytes of `len` offered bytes fit into `cap` free places.
pub open spec fn fit(len: nat, cap: nat) -> nat {
    if len < cap { len } else { cap }
}

/// Bytes as C characters (`c_char` is `i8` here): each byte's bits unchanged.
pub open spec fn c_chars(data: Seq<u8>) -> Seq<i8> {
    data.map_values(|b: u8| b as i8)
}

/// Each C character carries the bits of its byte: reading it back as a
/// byte gives the byte, and there is one character per byte.
pub proof fn lemma_c_chars_keep_bits(data: Seq<u8>)
    ensures
        c_chars(data).len() == data.len(),
        forall|i: int| 0 <= i < data.len() ==> #[trigger] c_chars(data)[i] as u8 == data[i],
{
    assert forall|i: int| 0 <= i < data.len() implies #[trigger] c_chars(data)[i] as u8
        == data[i] by {
        let b: u8 = data[i];
        assert((b as i8) as u8 == b) by (bit_vector);
    }
}

/// What writing `data` puts at the front of a buffer with `cap` free
/// places: the bytes of `data` that fit, as C characters.
pub open spec fn emitted(data: Seq<u8>, cap: nat) -> Seq<i8> {
    c_chars(data.subrange(0, fit(data.len(), cap) as int))
}

/// Writing `data` into `cap` free places puts the first `fit(|data|, cap)`
/// bytes of `data` there, each as a C character with the byte's bits.
pub proof fn lemma_emitted_keeps_bits(data: Seq<u8>, cap: nat)
    ensures
        emitted(data, cap).len() == fit(data.len(), cap),
        fit(data.len(), cap) <= data.len(),
        fit(data.len(), cap) <= cap,
        forall|i: int|
            0 <= i < fit(data.len(), cap) ==> #[trigger] emitted(data, cap)[i] as u8 == data[i],
{
    let head = data.subrange(0, fit(data.len(), cap) as int);
    lemma_c_chars_keep_bits(head);
    assert forall|i: int| 0 <= i < fit(data.len(), cap) implies #[trigger] emitted(data, cap)[i]
        as u8 == data[i] by {
        assert(c_chars(head)[i] as u8 == head[i]);
    }
}

/// Two writes into a C buffer leave the same bytes as one write of the two
/// pieces joined: the second write starts where the first stopped, and the
/// buffer takes `fit(|d1| + |d2|, cap)` bytes in all. So formatting a
/// message piece by piece into a buffer gives what writing the whole
/// message would.
pub proof fn lemma_writes_concatenate(d1: Seq<u8>, d2: Seq<u8>, cap: nat)
    ensures
        fit(d1.len(), cap) + fit(d2.len(), (cap - fit(d1.len(), cap)) as nat) == fit((d1 + d2).len(), cap),
        emitted(d1, cap) + emitted(d2, (cap - fit(d1.len(), cap)) as nat) == emitted(d1 + d2, cap),
{
    let n1 = fit(d1.len(), cap);
    let n2 = fit(d2.len(), (cap - n1) as nat);
    let whole = d1 + d2;
    assert(whole.subrange(0, (n1 + n2) as int) =~= d1.subrange(0, n1 as int) + d2.subrange(0, n2 as int));
    assert(emitted(d1, cap) + emitted(d2, (cap - n1) as nat) =~= emitted(whole, cap));
}

/// Copies as much of `data` as fits to the front of `dst`, leaving the rest
/// of `dst` alone, and returns the number of bytes copied.
fn copy_to_c_chars(dst: &mut [i8], data: &[u8]) -> (amt: usize)
    requires
        data@.len() <= old(dst)@.len(),
    ensures
        amt == data@.len(),
        final(dst)@ == c_chars(data@) + old(dst)@.subrange(amt as int, old(dst)@.len() as int),
{
    let amt = data.len();
    let mut i: usize = 0;
    while i < amt
        invariant
            i <= amt,
            amt == data@.len(),
            amt <= old(dst)@.len(),
            dst@.len() == old(dst)@.len(),
            forall|k: int| 0 <= k < i ==> dst@[k] == data@[k] as i8,
            forall|k: int| i <= k < old(dst)@.len() ==> dst@[k] == old(dst)@[k],
        decreases amt - i,
    {
        dst[i] = data[i] as i8;
        i = i + 1;
    }
    assert(dst@ =~= c_chars(data@) + old(dst)@.subrange(amt as int, old(dst)@.len() as int));
    amt
}

/// Writing into a C character buffer fills it from the front; the writer
/// then points at the part of the buffer that is still free.
impl<'a> Write for &'a mut [i8] {
    /// Copies the longest prefix of `data` that fits, and moves the writer
    /// past it.
    fn write(&mut self, data: &[u8]) -> (r: Result<usize, IoError>)
        ensures
            r matches Ok(n) && n == fit(data@.len(), (*old(self))@.len()),
            (*final(self))@ == (*old(self))@.subrange(
                fit(data@.len(), (*old(self))@.len()) as int,
                (*old(self))@.len() as int,
            ),
            (*final(*old(self)))@ == emitted(data@, (*old(self))@.len()) + (*final(*final(self)))@,
            forall|i: int|
                0 <= i < fit(data@.len(), (*old(self))@.len()) ==> #[trigger] (*final(*old(self)))@[i]
                    as u8 == data@[i],
    {
        proof {
            lemma_emitted_keeps_bits(data@, (*old(self))@.len());
        }
        let amt = if data.len() < self.len() { data.len() } else { self.len() };
        let mut whole: &'a mut [i8] = &mut [];
        core::mem::swap(self, &mut whole);
        let (head, tail) = whole.split_at_mut(amt);
        let prefix = &data[0..amt];
        copy_to_c_chars(head, prefix);
        *self = tail;
        Ok(amt)
    }

    /// Writes all of `data` when it fits; otherwise writes as much as fits
    /// and reports `WriteZero`.
    fn write_all(&mut self, data: &[u8]) -> (r: Result<(), IoError>)
        ensures
            r is Ok <==> data@.len() <= (*old(self))@.len(),
            r matches Err(e) ==> e.kind == IoErrorKind::WriteZero
                && e.message@ == "failed to write whole buffer"@,
            (*final(self))@ == (*old(self))@.subrange(
                fit(data@.len(), (*old(self))@.len()) as int,
                (*old(self))@.len() as int,
            ),
            (*final(*old(self)))@ == emitted(data@, (*old(self))@.len()) + (*final(*final(self)))@,
            forall|i: int|
                0 <= i < fit(data@.len(), (*old(self))@.len()) ==> #[trigger] (*final(*old(self)))@[i]
                    as u8 == data@[i],
    {
        if self.write(data)? == data.len() {
            Ok(())
        } else {
            Err(write_zero_error())
        }
    }

    /// Nothing is buffered, so there is nothing to push.
    fn flush(&mut self) -> (r: Result<(), IoError>)
        ensures
            r is Ok,
            *final(self) == *old(self),
    {
        Ok(())
    }
}

} // verus!

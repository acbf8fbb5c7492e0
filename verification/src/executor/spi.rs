use vstd::prelude::*;

verus! {

/// Result codes of the server programming interface: errors are negative.
pub const SPI_ERROR_CONNECT: i32 = -1;
pub const SPI_ERROR_COPY: i32 = -2;
pub const SPI_ERROR_OPUNKNOWN: i32 = -3;
pub const SPI_ERROR_UNCONNECTED: i32 = -4;
pub const SPI_ERROR_CURSOR: i32 = -5;
pub const SPI_ERROR_ARGUMENT: i32 = -6;
pub const SPI_ERROR_PARAM: i32 = -7;
pub const SPI_ERROR_TRANSACTION: i32 = -8;
pub const SPI_ERROR_NOATTRIBUTE: i32 = -9;
pub const SPI_ERROR_NOOUTFUNC: i32 = -10;
pub const SPI_ERROR_TYPUNKNOWN: i32 = -11;
pub const SPI_ERROR_REL_DUPLICATE: i32 = -12;
pub const SPI_ERROR_REL_NOT_FOUND: i32 = -13;

pub const SPI_OK_CONNECT: i32 = 1;
pub const SPI_OK_FINISH: i32 = 2;
pub const SPI_OK_FETCH: i32 = 3;
pub const SPI_OK_UTILITY: i32 = 4;
pub const SPI_OK_SELECT: i32 = 5;
pub const SPI_OK_SELINTO: i32 = 6;
pub const SPI_OK_INSERT: i32 = 7;
pub const SPI_OK_DELETE: i32 = 8;
pub const SPI_OK_UPDATE: i32 = 9;
pub const SPI_OK_CURSOR: i32 = 10;
pub const SPI_OK_INSERT_RETURNING: i32 = 11;
pub const SPI_OK_DELETE_RETURNING: i32 = 12;
pub const SPI_OK_UPDATE_RETURNING: i32 = 13;
pub const SPI_OK_REWRITTEN: i32 = 14;
pub const SPI_OK_REL_REGISTER: i32 = 15;
pub const SPI_OK_REL_UNREGISTER: i32 = 16;
pub const SPI_OK_TD_REGISTER: i32 = 17;
pub const SPI_OPT_NONATOMIC: i32 = 1 << 0;

/// What executing a query amounts to, given the status that `SPI_execute`
/// returned: a result carrying the status when it is not negative, the
/// status as the error otherwise.
pub fn execute_outcome(status: i32) -> (r: Result<i32, i32>)
    ensures
        status >= 0 ==> r == Ok::<i32, i32>(status),
        status < 0 ==> r == Err::<i32, i32>(status),
{
    if status >= 0 {
        Ok(status)
    } else {
        Err(status)
    }
}

// ---------------------------------------------------------------------------
// Walking the rows of a result

/// One step of a walk over `count` rows from row `pos`: the row to read, if
/// any is left, and the position after the step.
pub open spec fn row_step(pos: int, count: int) -> (Option<int>, int) {
    if pos >= count {
        (None, pos)
    } else {
        (Some(pos), pos + 1)
    }
}

/// The rows that `k` steps of a walk from `pos` read, in order.
pub open spec fn row_walk(pos: int, count: int, k: nat) -> Seq<Option<int>>
    decreases k,
{
    if k == 0 {
        seq![]
    } else {
        let (r, next) = row_step(pos, count);
        seq![r] + row_walk(next, count, (k - 1) as nat)
    }
}

/// A row index as a mathematical integer, if there is one.
pub open spec fn index_value(r: Option<isize>) -> Option<int> {
    match r {
        Some(i) => Some(i as int),
        None => None,
    }
}

/// An attribute number as a mathematical integer, if there is one.
pub open spec fn attno_value(r: Option<i32>) -> Option<int> {
    match r {
        Some(a) => Some(a as int),
        None => None,
    }
}

/// The position of an iteration over the rows of a query result.
pub struct TupleCursor {
    cur: isize,
    processed: u64,
}

impl TupleCursor {
    /// The row that the next step reads.
    pub closed spec fn position(&self) -> int {
        self.cur as int
    }

    /// The number of rows in the result.
    pub closed spec fn count(&self) -> int {
        self.processed as int
    }

    #[verifier::type_invariant]
    closed spec fn inv(&self) -> bool {
        self.cur >= 0
    }

    /// A walk over `processed` rows, before the first one.
    pub fn new(processed: u64) -> (c: TupleCursor)
        ensures
            c.position() == 0,
            c.count() == processed,
    {
        TupleCursor { cur: 0, processed }
    }

    /// Whether the next step can be taken without the position overflowing.
    pub fn can_step(&self) -> (r: bool)
        ensures
            r == (self.position() < self.count() ==> self.position() < isize::MAX),
    {
        proof {
            use_type_invariant(self);
        }
        self.cur as u64 >= self.processed || self.cur < isize::MAX
    }

    /// One call of `next_index` on `before`, returning `r` and leaving
    /// `after`: one step of the row walk.
    pub open spec fn reads_row(before: TupleCursor, r: Option<isize>, after: TupleCursor) -> bool {
        &&& after.count() == before.count()
        &&& index_value(r) == row_step(before.position(), before.count()).0
        &&& after.position() == row_step(before.position(), before.count()).1
    }

    /// The index of the next row, or `None` once all rows were read; a read
    /// moves the walk one row on.
    pub fn next_index(&mut self) -> (r: Option<isize>)
        requires
            old(self).position() < old(self).count() ==> old(self).position() < isize::MAX,
        ensures
            TupleCursor::reads_row(*old(self), r, *final(self)),
    {
        proof {
            use_type_invariant(&*self);
        }
        if self.cur as u64 >= self.processed {
            return None;
        }
        let i = self.cur;
        self.cur = self.cur + 1;
        Some(i)
    }
}

// ---------------------------------------------------------------------------
// Walking the attributes of a row

/// One step of a walk over attributes `1..=natts` from attribute `cur`.
pub open spec fn attr_step(cur: int, natts: int) -> (Option<int>, int) {
    if cur > natts {
        (None, cur)
    } else {
        (Some(cur), cur + 1)
    }
}

/// The attributes that `k` steps of a walk from `cur` read, in order.
pub open spec fn attr_walk(cur: int, natts: int, k: nat) -> Seq<Option<int>>
    decreases k,
{
    if k == 0 {
        seq![]
    } else {
        let (r, next) = attr_step(cur, natts);
        seq![r] + attr_walk(next, natts, (k - 1) as nat)
    }
}

/// The position of an iteration over the attributes of a row; attribute
/// numbers start at 1.
pub struct AttrCursor {
    cur: i32,
    natts: i32,
}

impl AttrCursor {
    /// The attribute that the next step reads.
    pub closed spec fn position(&self) -> int {
        self.cur as int
    }

    /// The number of attributes of the row.
    pub closed spec fn natts(&self) -> int {
        self.natts as int
    }

    /// A walk over the `natts` attributes of a row, before the first one.
    pub fn new(natts: i32) -> (c: AttrCursor)
        ensures
            c.position() == 1,
            c.natts() == natts,
    {
        AttrCursor { cur: 1, natts }
    }

    /// Whether the next step can be taken without the position overflowing.
    pub fn can_step(&self) -> (r: bool)
        ensures
            r == (self.position() <= self.natts() ==> self.position() < i32::MAX),
    {
        self.cur > self.natts || self.cur < i32::MAX
    }

    /// One call of `next_attno` on `before`, returning `r` and leaving
    /// `after`: one step of the attribute walk.
    pub open spec fn reads_attr(before: AttrCursor, r: Option<i32>, after: AttrCursor) -> bool {
        &&& after.natts() == before.natts()
        &&& attno_value(r) == attr_step(before.position(), before.natts()).0
        &&& after.position() == attr_step(before.position(), before.natts()).1
    }

    /// The number of the next attribute, or `None` past the last one; a read
    /// moves the walk one attribute on.
    pub fn next_attno(&mut self) -> (r: Option<i32>)
        requires
            old(self).position() <= old(self).natts() ==> old(self).position() < i32::MAX,
        ensures
            AttrCursor::reads_attr(*old(self), r, *final(self)),
    {
        if self.cur > self.natts {
            return None;
        }
        let a = self.cur;
        self.cur = self.cur + 1;
        Some(a)
    }
}

/// Iterating a query result visits every row once, in order, and then
/// reports the end forever: `k` steps from a fresh walk over `n` rows read
/// rows `0, 1, ..` while they last and nothing after.
pub proof fn lemma_row_walk_visits_each_row_once(n: nat, k: nat)
    ensures
        row_walk(0, n as int, k) =~= Seq::new(k, |j: int| if j < n { Some(j) } else { None::<int> }),
{
    lemma_row_walk_from(0, n as int, k);
}

proof fn lemma_row_walk_from(pos: int, count: int, k: nat)
    requires
        0 <= pos,
    ensures
        row_walk(pos, count, k) =~= Seq::new(
            k,
            |j: int| if pos + j < count { Some(pos + j) } else { None::<int> },
        ),
    decreases k,
{
    if k > 0 {
        let next = row_step(pos, count).1;
        lemma_row_walk_from(next, count, (k - 1) as nat);
        if pos >= count {
            assert(next == pos);
        }
    }
}

/// Iterating a row visits attributes `1..=natts` once, in order, and then
/// reports the end forever.
pub proof fn lemma_attr_walk_visits_each_attribute_once(natts: int, k: nat)
    ensures
        attr_walk(1, natts, k) =~= Seq::new(
            k,
            |j: int| if j + 1 <= natts { Some(j + 1) } else { None::<int> },
        ),
{
    lemma_attr_walk_from(1, natts, k);
}

proof fn lemma_attr_walk_from(cur: int, natts: int, k: nat)
    ensures
        attr_walk(cur, natts, k) =~= Seq::new(
            k,
            |j: int| if cur + j <= natts { Some(cur + j) } else { None::<int> },
        ),
    decreases k,
{
    if k > 0 {
        let next = attr_step(cur, natts).1;
        lemma_attr_walk_from(next, natts, (k - 1) as nat);
    }
}

/// Repeated calls of `next_index` on a fresh cursor over `n` rows return
/// rows `0, 1, .., n - 1` in order and `None` on every later call:
/// `cursors[0]` is the fresh cursor, and call `i` turned `cursors[i]` into
/// `cursors[i + 1]` and returned `results[i]`.
pub proof fn lemma_next_index_calls_visit_each_row_once(
    cursors: Seq<TupleCursor>,
    results: Seq<Option<isize>>,
)
    requires
        cursors.len() == results.len() + 1,
        cursors[0].position() == 0,
        forall|i: int|
            0 <= i < results.len() ==> #[trigger] TupleCursor::reads_row(
                cursors[i],
                results[i],
                cursors[i + 1],
            ),
    ensures
        forall|i: int|
            0 <= i < results.len() ==> #[trigger] index_value(results[i]) == if i < cursors[0].count() {
                Some(i)
            } else {
                None::<int>
            },
{
    assert forall|i: int| 0 <= i < results.len() implies #[trigger] index_value(results[i]) == if i
        < cursors[0].count() {
        Some(i)
    } else {
        None::<int>
    } by {
        lemma_row_calls_position(cursors, results, i);
        assert(TupleCursor::reads_row(cursors[i], results[i], cursors[i + 1]));
    }
}

proof fn lemma_row_calls_position(cursors: Seq<TupleCursor>, results: Seq<Option<isize>>, i: int)
    requires
        cursors.len() == results.len() + 1,
        cursors[0].position() == 0,
        forall|j: int|
            0 <= j < results.len() ==> #[trigger] TupleCursor::reads_row(
                cursors[j],
                results[j],
                cursors[j + 1],
            ),
        0 <= i <= results.len(),
    ensures
        cursors[i].count() == cursors[0].count(),
        cursors[i].position() == if i < cursors[0].count() {
            i
        } else {
            cursors[0].count()
        },
    decreases i,
{
    if i > 0 {
        let j = i - 1;
        lemma_row_calls_position(cursors, results, j);
        assert(TupleCursor::reads_row(cursors[j], results[j], cursors[j + 1]));
    }
}

/// Repeated calls of `next_attno` on a fresh cursor over a row with `natts`
/// attributes return `1, 2, .., natts` in order and `None` on every later
/// call: `cursors[0]` is the fresh cursor, and call `i` turned `cursors[i]`
/// into `cursors[i + 1]` and returned `results[i]`.
pub proof fn lemma_next_attno_calls_visit_each_attribute_once(
    cursors: Seq<AttrCursor>,
    results: Seq<Option<i32>>,
)
    requires
        cursors.len() == results.len() + 1,
        cursors[0].position() == 1,
        forall|i: int|
            0 <= i < results.len() ==> #[trigger] AttrCursor::reads_attr(
                cursors[i],
                results[i],
                cursors[i + 1],
            ),
    ensures
        forall|i: int|
            0 <= i < results.len() ==> #[trigger] attno_value(results[i]) == if i + 1 <= cursors[0].natts() {
                Some(i + 1)
            } else {
                None::<int>
            },
{
    assert forall|i: int| 0 <= i < results.len() implies #[trigger] attno_value(results[i]) == if i
        + 1 <= cursors[0].natts() {
        Some(i + 1)
    } else {
        None::<int>
    } by {
        lemma_attr_calls_position(cursors, results, i);
        assert(AttrCursor::reads_attr(cursors[i], results[i], cursors[i + 1]));
    }
}

proof fn lemma_attr_calls_position(cursors: Seq<AttrCursor>, results: Seq<Option<i32>>, i: int)
    requires
        cursors.len() == results.len() + 1,
        cursors[0].position() == 1,
        forall|j: int|
            0 <= j < results.len() ==> #[trigger] AttrCursor::reads_attr(
                cursors[j],
                results[j],
                cursors[j + 1],
            ),
        0 <= i <= results.len(),
    ensures
        cursors[i].natts() == cursors[0].natts(),
        cursors[i].position() == if i + 1 <= cursors[0].natts() + 1 {
            i + 1
        } else if cursors[0].natts() >= 1 {
            cursors[0].natts() + 1
        } else {
            1
        },
    decreases i,
{
    if i > 0 {
        let j = i - 1;
        lemma_attr_calls_position(cursors, results, j);
        assert(AttrCursor::reads_attr(cursors[j], results[j], cursors[j + 1]));
    }
}

} // verus!

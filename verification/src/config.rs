use vstd::prelude::*;

verus! {

/// What `pg_config --version --bindir --pkglibdir` says about the server
/// installation.
#[derive(Debug)]
pub struct PGConfig {
    /// Major and minor version, as in `PostgreSQL 11.2`.
    pub version_num: (u32, u32),
    /// The whole first line of the output.
    pub version_string: String,
    pub bindir: String,
    pub pkglibdir: String,
}

// ---------------------------------------------------------------------------
// Characters and words

/// `char::is_whitespace`: the code points with the Unicode `White_Space`
/// property.
pub open spec fn is_whitespace(c: char) -> bool {
    let u = c as u32;
    ||| 0x09 <= u <= 0x0D
    ||| u == 0x20
    ||| u == 0x85
    ||| u == 0xA0
    ||| u == 0x1680
    ||| 0x2000 <= u <= 0x200A
    ||| u == 0x2028
    ||| u == 0x2029
    ||| u == 0x202F
    ||| u == 0x205F
    ||| u == 0x3000
}

/// `str::split_whitespace`: the maximal runs of characters that are not
/// whitespace, in order.
pub open spec fn words(s: Seq<char>) -> Seq<Seq<char>>
    decreases s.len(),
{
    if s.len() == 0 {
        seq![]
    } else {
        let prev = words(s.drop_last());
        let c = s.last();
        if is_whitespace(c) {
            prev
        } else if s.len() >= 2 && !is_whitespace(s[s.len() - 2]) {
            prev.drop_last().push(prev.last().push(c))
        } else {
            prev.push(seq![c])
        }
    }
}

/// The index of the first `c` in `w`, if there is one.
#[verifier::opaque]
pub open spec fn first_index_of(w: Seq<char>, c: char) -> Option<int> {
    if exists|i: int| 0 <= i < w.len() && w[i] == c {
        Some(choose|i: int| 0 <= i < w.len() && w[i] == c && forall|j: int| 0 <= j < i ==> w[j] != c)
    } else {
        None
    }
}

proof fn lemma_first_index_found(w: Seq<char>, c: char, i: int)
    requires
        0 <= i < w.len(),
        w[i] == c,
        forall|j: int| 0 <= j < i ==> w[j] != c,
    ensures
        first_index_of(w, c) == Some(i),
{
    reveal(first_index_of);
    let k = choose|k: int| 0 <= k < w.len() && w[k] == c && forall|j: int| 0 <= j < k ==> w[j] != c;
    assert(0 <= k < w.len() && w[k] == c && forall|j: int| 0 <= j < k ==> w[j] != c);
    if k < i {
        assert(w[k] != c);
    } else if i < k {
        assert(w[i] != c);
    }
}

/// What `first_index_of` gives: an index of `c` with no `c` before it, or
/// none when `c` does not occur.
pub proof fn lemma_first_index_range(w: Seq<char>, c: char)
    ensures
        first_index_of(w, c) matches Some(i) ==> {
            &&& 0 <= i < w.len()
            &&& w[i] == c
            &&& forall|j: int| 0 <= j < i ==> w[j] != c
        },
        first_index_of(w, c) is None ==> forall|j: int| 0 <= j < w.len() ==> w[j] != c,
{
    reveal(first_index_of);
    if exists|i: int| 0 <= i < w.len() && w[i] == c {
        let i = choose|i: int| 0 <= i < w.len() && w[i] == c;
        lemma_first_occurrence_exists(w, c, i);
    }
}

proof fn lemma_first_occurrence_exists(w: Seq<char>, c: char, i: int)
    requires
        0 <= i < w.len(),
        w[i] == c,
    ensures
        exists|k: int| 0 <= k < w.len() && w[k] == c && forall|j: int| 0 <= j < k ==> w[j] != c,
    decreases i,
{
    if exists|j: int| 0 <= j < i && w[j] == c {
        let j = choose|j: int| 0 <= j < i && w[j] == c;
        lemma_first_occurrence_exists(w, c, j);
    } else {
        assert(forall|j: int| 0 <= j < i ==> w[j] != c);
    }
}

// ---------------------------------------------------------------------------
// Lines

/// A line without the carriage return of a `\r\n` ending.
pub open spec fn strip_cr(l: Seq<char>) -> Seq<char> {
    if l.len() > 0 && l.last() == '\r' {
        l.drop_last()
    } else {
        l
    }
}

/// `str::lines`: the text split at each `\n`, a `\r` right before a `\n`
/// dropped as part of the line ending, and no empty line after a final `\n`.
pub open spec fn lines(s: Seq<char>) -> Seq<Seq<char>>
    decreases s.len(),
{
    if s.len() == 0 {
        seq![]
    } else {
        match first_index_of(s, '\n') {
            None => seq![s],
            Some(i) => {
                proof {
                    lemma_first_index_range(s, '\n');
                }
                seq![strip_cr(s.take(i))] + lines(s.skip(i + 1))
            },
        }
    }
}

/// A line ended by `\n` comes out whole, the rest of the text split on:
/// for a line `l` with no `\n` in it that does not end in `\r`,
/// `lines(l + "\n" + rest) == [l] + lines(rest)`.
pub proof fn lemma_lines_newline(l: Seq<char>, rest: Seq<char>)
    requires
        forall|j: int| 0 <= j < l.len() ==> l[j] != '\n',
        l.len() == 0 || l.last() != '\r',
    ensures
        lines(l + seq!['\n'] + rest) == seq![l] + lines(rest),
        lines(l + seq!['\n'] + rest)[0] == l,
{
    let s = l + seq!['\n'] + rest;
    lemma_first_index_found(s, '\n', l.len() as int);
    assert(s.take(l.len() as int) =~= l);
    assert(s.skip(l.len() as int + 1) =~= rest);
}

/// A line ended by `\r\n` comes out without its line ending: for a line
/// `l` with no `\n` in it, `lines(l + "\r\n" + rest) == [l] + lines(rest)`.
pub proof fn lemma_lines_crlf(l: Seq<char>, rest: Seq<char>)
    requires
        forall|j: int| 0 <= j < l.len() ==> l[j] != '\n',
    ensures
        lines(l + seq!['\r', '\n'] + rest) == seq![l] + lines(rest),
{
    let s = l + seq!['\r', '\n'] + rest;
    lemma_first_index_found(s, '\n', l.len() as int + 1);
    assert(s.take(l.len() as int + 1) =~= l.push('\r'));
    assert(l.push('\r').drop_last() =~= l);
    assert(s.skip(l.len() as int + 2) =~= rest);
}

/// Text with no `\n` in it is one line, kept whole; empty text has no lines.
pub proof fn lemma_lines_last(l: Seq<char>)
    requires
        forall|j: int| 0 <= j < l.len() ==> l[j] != '\n',
    ensures
        l.len() == 0 ==> lines(l) == Seq::<Seq<char>>::empty(),
        l.len() > 0 ==> lines(l) == seq![l],
{
    lemma_first_index_range(l, '\n');
}

// ---------------------------------------------------------------------------
// Numbers

/// An ASCII decimal digit.
pub open spec fn is_digit(c: char) -> bool {
    48 <= (c as u32) <= 57
}

/// Every character of `d` is an ASCII decimal digit.
pub open spec fn all_digits(d: Seq<char>) -> bool {
    forall|i: int| 0 <= i < d.len() ==> is_digit(#[trigger] d[i])
}

/// The value of the decimal digits `d`, most significant first.
pub open spec fn digits_value(d: Seq<char>) -> nat
    decreases d.len(),
{
    if d.len() == 0 {
        0
    } else {
        10 * digits_value(d.drop_last()) + ((d.last() as u32) - 48) as nat
    }
}

/// `str::parse::<u32>`: an optional `+`, then at least one ASCII digit and
/// nothing else, of a value that fits in a `u32`.
pub open spec fn parse_u32(s: Seq<char>) -> Option<u32> {
    let d = if s.len() > 0 && s[0] == '+' { s.drop_first() } else { s };
    if d.len() == 0 || !all_digits(d) || digits_value(d) > u32::MAX {
        None
    } else {
        Some(digits_value(d) as u32)
    }
}

proof fn lemma_digits_value_grows(d: Seq<char>, k: int)
    requires
        0 <= k <= d.len(),
    ensures
        digits_value(d.take(k)) <= digits_value(d),
    decreases d.len(),
{
    if k < d.len() {
        assert(d.drop_last().take(k) =~= d.take(k));
        lemma_digits_value_grows(d.drop_last(), k);
    } else {
        assert(d.take(k) =~= d);
    }
}

// ---------------------------------------------------------------------------
// Version strings

/// The word that follows the first `PostgreSQL` among `ws`, if any follows.
pub open spec fn word_after_marker(ws: Seq<Seq<char>>) -> Option<Seq<char>>
    decreases ws.len(),
{
    if ws.len() < 2 {
        None
    } else if ws[0] == "PostgreSQL"@ {
        Some(ws[1])
    } else {
        word_after_marker(ws.drop_first())
    }
}

/// The first two `.`-separated parts of `w` (`str::split(".")`), when `w`
/// has at least two.
pub open spec fn dot_pair(w: Seq<char>) -> Option<(Seq<char>, Seq<char>)> {
    match first_index_of(w, '.') {
        None => None,
        Some(i) => {
            let rest = w.skip(i + 1);
            let j = match first_index_of(rest, '.') {
                None => rest.len() as int,
                Some(j) => j,
            };
            Some((w.take(i), rest.take(j)))
        },
    }
}

/// `major.minor` read from a version word.
pub open spec fn dotted_version(w: Seq<char>) -> Option<(u32, u32)> {
    match dot_pair(w) {
        None => None,
        Some((a, b)) => match (parse_u32(a), parse_u32(b)) {
            (Some(x), Some(y)) => Some((x, y)),
            _ => None,
        },
    }
}

/// The version in a `pg_config --version` line such as `PostgreSQL 11.2`:
/// the word after the first `PostgreSQL` is split at its dots, and its first
/// two parts are read as numbers. There is none when no word follows a
/// `PostgreSQL`, when that word has no dot, or when either part is not a
/// `u32`.
pub open spec fn version_of(s: Seq<char>) -> Option<(u32, u32)> {
    match word_after_marker(words(s)) {
        None => None,
        Some(w) => dotted_version(w),
    }
}

// ---------------------------------------------------------------------------
// Reading back a written version

/// The decimal digit for `d < 10`.
pub open spec fn digit_char(d: nat) -> char {
    (d + 48) as char
}

/// The decimal numeral of `n`, without leading zeros.
pub open spec fn decimal(n: nat) -> Seq<char>
    decreases n,
{
    if n < 10 {
        seq![digit_char(n)]
    } else {
        decimal(n / 10).push(digit_char(n % 10))
    }
}

proof fn lemma_decimal_digits(n: nat)
    ensures
        decimal(n).len() > 0,
        all_digits(decimal(n)),
        digits_value(decimal(n)) == n,
        decimal(n)[0] != '+',
        forall|i: int| 0 <= i < decimal(n).len() ==> !is_whitespace(#[trigger] decimal(n)[i]) && decimal(n)[i] != '.',
    decreases n,
{
    let c = digit_char(n % 10);
    assert(c as u32 == n % 10 + 48);
    if n >= 10 {
        lemma_decimal_digits(n / 10);
        let d = decimal(n);
        assert(d.drop_last() =~= decimal(n / 10));
        assert(d.last() == c);
        assert(d[0] == decimal(n / 10)[0]);
        assert(forall|i: int| 0 <= i < d.len() - 1 ==> d[i] == decimal(n / 10)[i]);
        assert(digits_value(d) == 10 * (n / 10) + n % 10);
    } else {
        let d = decimal(n);
        assert(d.drop_last() =~= Seq::<char>::empty());
        assert(digits_value(d) == 10 * digits_value(d.drop_last()) + ((d.last() as u32) - 48) as nat);
    }
}

proof fn lemma_parse_decimal(n: u32)
    ensures
        parse_u32(decimal(n as nat)) == Some(n),
{
    lemma_decimal_digits(n as nat);
}

/// A run of characters that holds no whitespace is one word.
proof fn lemma_words_of_word(w: Seq<char>)
    requires
        w.len() > 0,
        forall|i: int| 0 <= i < w.len() ==> !is_whitespace(#[trigger] w[i]),
    ensures
        words(w) =~= seq![w],
    decreases w.len(),
{
    assert(!is_whitespace(w[w.len() - 1]));
    if w.len() == 1 {
        assert(w.drop_last() =~= Seq::<char>::empty());
        assert(words(w.drop_last()) =~= Seq::<Seq<char>>::empty());
        assert(seq![w.last()] =~= w);
    } else {
        let d = w.drop_last();
        assert forall|i: int| 0 <= i < d.len() implies !is_whitespace(#[trigger] d[i]) by {
            assert(d[i] == w[i]);
        }
        lemma_words_of_word(d);
        assert(!is_whitespace(w[w.len() - 2]));
        assert(d.push(w.last()) =~= w);
    }
}

/// A space then a run without whitespace adds that run as a last word.
proof fn lemma_words_append_word(p: Seq<char>, w: Seq<char>)
    requires
        w.len() > 0,
        forall|i: int| 0 <= i < w.len() ==> !is_whitespace(#[trigger] w[i]),
    ensures
        words(p + seq![' '] + w) =~= words(p).push(w),
    decreases w.len(),
{
    let s = p + seq![' '] + w;
    assert(!is_whitespace(w[w.len() - 1]));
    assert(s.last() == w[w.len() - 1]);
    assert(is_whitespace(' '));
    if w.len() == 1 {
        let q = p + seq![' '];
        assert(s.drop_last() =~= q);
        assert(q.drop_last() =~= p);
        assert(q.last() == ' ');
        assert(words(q) == words(p));
        assert(s[s.len() - 2] == ' ');
        assert(seq![w.last()] =~= w);
    } else {
        let d = w.drop_last();
        assert forall|i: int| 0 <= i < d.len() implies !is_whitespace(#[trigger] d[i]) by {
            assert(d[i] == w[i]);
        }
        lemma_words_append_word(p, d);
        assert(s.drop_last() =~= p + seq![' '] + d);
        assert(s[s.len() - 2] == w[w.len() - 2]);
        assert(!is_whitespace(w[w.len() - 2]));
        assert(d.push(w.last()) =~= w);
    }
}

/// The version parser reads back what a version line says: for all `a` and
/// `b`, the line `PostgreSQL a.b` (numbers in decimal) holds version
/// `(a, b)`.
pub proof fn lemma_version_line_round_trip(a: u32, b: u32)
    ensures
        version_of("PostgreSQL"@ + seq![' '] + decimal(a as nat) + seq!['.'] + decimal(b as nat)) == Some((a, b)),
{
    reveal_strlit("PostgreSQL");
    let marker = "PostgreSQL"@;
    let da = decimal(a as nat);
    let db = decimal(b as nat);
    let w = da + seq!['.'] + db;
    lemma_decimal_digits(a as nat);
    lemma_decimal_digits(b as nat);
    assert forall|i: int| 0 <= i < w.len() implies !is_whitespace(#[trigger] w[i]) by {
        if i < da.len() {
            assert(w[i] == da[i]);
        } else if i > da.len() {
            assert(w[i] == db[i - da.len() - 1]);
        }
    }
    assert forall|i: int| 0 <= i < marker.len() implies !is_whitespace(#[trigger] marker[i]) by {
    }
    lemma_words_of_word(marker);
    lemma_words_append_word(marker, w);
    let line = marker + seq![' '] + da + seq!['.'] + db;
    assert(line =~= marker + seq![' '] + w);
    let ws = words(line);
    assert(ws =~= seq![marker, w]);
    assert(word_after_marker(ws) == Some(w));
    lemma_first_index_found(w, '.', da.len() as int);
    let rest = w.skip(da.len() as int + 1);
    assert(rest =~= db);
    lemma_first_index_range(rest, '.');
    assert(first_index_of(rest, '.') is None);
    assert(w.take(da.len() as int) =~= da);
    assert(rest.take(db.len() as int) =~= db);
    lemma_parse_decimal(a);
    lemma_parse_decimal(b);
}

// ---------------------------------------------------------------------------
// Executable scanning

/// The characters of `s`, in order.
fn chars_of(s: &str) -> (v: Vec<char>)
    ensures
        v@ == s@,
{
    let n = s.unicode_len();
    let mut v: Vec<char> = Vec::new();
    let mut i: usize = 0;
    while i < n
        invariant
            i <= n,
            n == s@.len(),
            v@ == s@.take(i as int),
        decreases n - i,
    {
        v.push(s.get_char(i));
        i = i + 1;
        assert(v@ =~= s@.take(i as int));
    }
    assert(s@.take(n as int) =~= s@);
    v
}

/// Whether `c` is whitespace in the sense of `char::is_whitespace`.
pub fn char_is_whitespace(c: char) -> (r: bool)
    ensures
        r == is_whitespace(c),
{
    let u = c as u32;
    (0x09 <= u && u <= 0x0D) || u == 0x20 || u == 0x85 || u == 0xA0 || u == 0x1680
        || (0x2000 <= u && u <= 0x200A) || u == 0x2028 || u == 0x2029 || u == 0x202F
        || u == 0x205F || u == 0x3000
}

/// The words of `v` as `[start, end)` index ranges.
fn word_bounds(v: &Vec<char>) -> (r: (Vec<usize>, Vec<usize>))
    ensures
        r.0@.len() == r.1@.len(),
        forall|k: int| #![trigger r.0@[k]] 0 <= k < r.0@.len() ==> r.0@[k] < r.1@[k] <= v@.len(),
        words(v@) =~= Seq::new(r.0@.len(), |k: int| v@.subrange(r.0@[k] as int, r.1@[k] as int)),
{
    let n = v.len();
    let mut starts: Vec<usize> = Vec::new();
    let mut ends: Vec<usize> = Vec::new();
    let mut i: usize = 0;
    while i < n
        invariant
            i <= n,
            n == v@.len(),
            starts@.len() == ends@.len(),
            forall|k: int| 0 <= k < starts@.len() ==> #[trigger] starts@[k] < ends@[k],
            forall|k: int| 0 <= k < ends@.len() ==> #[trigger] ends@[k] <= i,
            words(v@.take(i as int)) =~= Seq::new(
                starts@.len(),
                |k: int| v@.subrange(starts@[k] as int, ends@[k] as int),
            ),
            (i > 0 && !is_whitespace(v@[i - 1])) ==> starts@.len() > 0 && ends@[starts@.len() - 1] == i,
        decreases n - i,
    {
        let c = v[i];
        let ghost prefix = v@.take(i as int + 1);
        assert(prefix.drop_last() =~= v@.take(i as int));
        assert(prefix.last() == c);
        if char_is_whitespace(c) {
        } else if i > 0 && !char_is_whitespace(v[i - 1]) {
            let last = starts.len() - 1;
            assert(v@.subrange(starts@[last as int] as int, i as int + 1)
                =~= v@.subrange(starts@[last as int] as int, i as int).push(c));
            ends.set(last, i + 1);
        } else {
            starts.push(i);
            ends.push(i + 1);
            assert(v@.subrange(i as int, i as int + 1) =~= seq![c]);
        }
        i = i + 1;
    }
    assert(v@.take(n as int) =~= v@);
    (starts, ends)
}

/// Whether the characters `v[lo..hi]` spell `lit`.
fn range_equals(v: &Vec<char>, lo: usize, hi: usize, lit: &str) -> (r: bool)
    requires
        lo <= hi <= v@.len(),
    ensures
        r == (v@.subrange(lo as int, hi as int) == lit@),
{
    let n = lit.unicode_len();
    if hi - lo != n {
        return false;
    }
    let mut j: usize = 0;
    while j < n
        invariant
            j <= n,
            n == lit@.len(),
            hi - lo == n,
            lo <= hi <= v@.len(),
            forall|k: int| 0 <= k < j ==> v@[lo + k] == lit@[k],
        decreases n - j,
    {
        if v[lo + j] != lit.get_char(j) {
            assert(v@.subrange(lo as int, hi as int)[j as int] != lit@[j as int]);
            return false;
        }
        j = j + 1;
    }
    assert(v@.subrange(lo as int, hi as int) =~= lit@);
    true
}

/// The first index in `lo..hi` holding `c`.
fn find_char(v: &Vec<char>, lo: usize, hi: usize, c: char) -> (r: Option<usize>)
    requires
        lo <= hi <= v@.len(),
    ensures
        r matches Some(i) ==> first_index_of(v@.subrange(lo as int, hi as int), c) == Some(i - lo)
            && lo <= i < hi,
        r is None ==> first_index_of(v@.subrange(lo as int, hi as int), c) is None,
{
    let mut i: usize = lo;
    while i < hi
        invariant
            lo <= i <= hi,
            hi <= v@.len(),
            forall|j: int| lo <= j < i ==> v@[j] != c,
        decreases hi - i,
    {
        if v[i] == c {
            proof {
                lemma_first_index_found(v@.subrange(lo as int, hi as int), c, i - lo);
            }
            return Some(i);
        }
        i = i + 1;
    }
    assert(!exists|k: int| 0 <= k < hi - lo && v@.subrange(lo as int, hi as int)[k] == c);
    reveal(first_index_of);
    None
}

/// `v[lo..hi]` read as a `u32` in the manner of `str::parse::<u32>`.
fn parse_u32_range(v: &Vec<char>, lo: usize, hi: usize) -> (r: Option<u32>)
    requires
        lo <= hi <= v@.len(),
    ensures
        r == parse_u32(v@.subrange(lo as int, hi as int)),
{
    let ghost s = v@.subrange(lo as int, hi as int);
    let start = if lo < hi && v[lo] == '+' { lo + 1 } else { lo };
    let ghost d = v@.subrange(start as int, hi as int);
    assert(d =~= (if s.len() > 0 && s[0] == '+' { s.drop_first() } else { s }));
    if start == hi {
        return None;
    }
    let mut acc: u64 = 0;
    let mut i: usize = start;
    while i < hi
        invariant
            start <= i <= hi,
            hi <= v@.len(),
            d == v@.subrange(start as int, hi as int),
            s == v@.subrange(lo as int, hi as int),
            d == (if s.len() > 0 && s[0] == '+' { s.drop_first() } else { s }),
            forall|k: int| 0 <= k < i - start ==> is_digit(#[trigger] d[k]),
            acc as int == digits_value(d.take(i - start)),
            acc <= u32::MAX,
        decreases hi - i,
    {
        let c = v[i];
        let u = c as u32;
        if u < 48 || u > 57 {
            assert(!is_digit(d[i - start]));
            assert(!all_digits(d));
            return None;
        }
        let ghost k = i - start;
        assert(d.take(k + 1).drop_last() =~= d.take(k));
        assert(d.take(k + 1).last() == c);
        assert(digits_value(d.take(k + 1)) == 10 * digits_value(d.take(k)) + (u - 48));
        assert(is_digit(d[k]));
        acc = acc * 10 + (u - 48) as u64;
        i = i + 1;
        if acc > 0xffff_ffff {
            proof {
                lemma_digits_value_grows(d, i - start);
            }
            assert(digits_value(d) > u32::MAX);
            assert(parse_u32(s) is None);
            return None;
        }
    }
    assert(d.take(hi - start) =~= d);
    Some(acc as u32)
}

/// The first two `.`-separated parts of `v[lo..hi]`, as index ranges.
fn dot_pair_bounds(v: &Vec<char>, lo: usize, hi: usize) -> (r: Option<(usize, usize, usize)>)
    requires
        lo <= hi <= v@.len(),
    ensures
        r is None <==> dot_pair(v@.subrange(lo as int, hi as int)) is None,
        r matches Some((dot, start, end)) ==> {
            &&& lo <= dot && dot < start && start <= end && end <= hi
            &&& dot_pair(v@.subrange(lo as int, hi as int)) == Some((
                v@.subrange(lo as int, dot as int),
                v@.subrange(start as int, end as int),
            ))
        },
{
    let ghost w = v@.subrange(lo as int, hi as int);
    let dot = match find_char(v, lo, hi, '.') {
        None => return None,
        Some(i) => i,
    };
    let ghost rest = w.skip(dot - lo + 1);
    assert(rest =~= v@.subrange(dot as int + 1, hi as int));
    let end = match find_char(v, dot + 1, hi, '.') {
        None => hi,
        Some(j) => j,
    };
    assert(w.take(dot - lo) =~= v@.subrange(lo as int, dot as int));
    assert(rest.take(end - dot - 1) =~= v@.subrange(dot as int + 1, end as int));
    Some((dot, dot + 1, end))
}

/// `major.minor` read from `v[lo..hi]`.
fn parse_dotted(v: &Vec<char>, lo: usize, hi: usize) -> (r: Option<(u32, u32)>)
    requires
        lo <= hi <= v@.len(),
    ensures
        r == dotted_version(v@.subrange(lo as int, hi as int)),
{
    match dot_pair_bounds(v, lo, hi) {
        None => None,
        Some((dot, start, end)) => {
            let major = parse_u32_range(v, lo, dot);
            let minor = parse_u32_range(v, start, end);
            match (major, minor) {
                (Some(x), Some(y)) => Some((x, y)),
                _ => None,
            }
        },
    }
}

/// The line that starts at `v[start]`, as `(lo, hi, next)`: the line is
/// `v[lo..hi]` and the next one starts at `next`.
fn next_line(v: &Vec<char>, start: usize) -> (r: (usize, usize, usize))
    requires
        start < v@.len(),
    ensures
        start <= r.0 <= r.1 <= r.2 <= v@.len(),
        start < r.2,
        lines(v@.skip(start as int)) =~= seq![v@.subrange(r.0 as int, r.1 as int)] + lines(v@.skip(r.2 as int)),
{
    let n = v.len();
    let ghost w = v@.skip(start as int);
    assert(w =~= v@.subrange(start as int, n as int));
    match find_char(v, start, n, '\n') {
        None => {
            assert(v@.skip(n as int) =~= Seq::<char>::empty());
            assert(lines(v@.skip(n as int)) =~= Seq::<Seq<char>>::empty());
            (start, n, n)
        },
        Some(i) => {
            proof {
                lemma_first_index_range(w, '\n');
            }
            assert(w.skip(i - start + 1) =~= v@.skip(i as int + 1));
            assert(w.take(i - start) =~= v@.subrange(start as int, i as int));
            let hi = if i > start && v[i - 1] == '\r' { i - 1 } else { i };
            assert(strip_cr(w.take(i - start)) =~= v@.subrange(start as int, hi as int));
            (start, hi, i + 1)
        },
    }
}

/// The installation facts in the output of
/// `pg_config --version --bindir --pkglibdir`: the first three lines, and
/// the version read from the first. There are none when the output has
/// fewer than three lines or the first line holds no version.
pub fn pg_config_from_output(output: &str) -> (r: Option<PGConfig>)
    ensures
        r is Some <==> lines(output@).len() >= 3 && version_of(lines(output@)[0]) is Some,
        r matches Some(c) ==> {
            &&& Some(c.version_num) == version_of(lines(output@)[0])
            &&& c.version_string@ == lines(output@)[0]
            &&& c.bindir@ == lines(output@)[1]
            &&& c.pkglibdir@ == lines(output@)[2]
        },
{
    let v = chars_of(output);
    let n = v.len();
    assert(v@.skip(0) =~= v@);
    if n == 0 {
        return None;
    }
    let (lo0, hi0, next0) = next_line(&v, 0);
    if next0 >= n {
        assert(v@.skip(next0 as int) =~= Seq::<char>::empty());
        return None;
    }
    let (lo1, hi1, next1) = next_line(&v, next0);
    if next1 >= n {
        assert(v@.skip(next1 as int) =~= Seq::<char>::empty());
        return None;
    }
    let (lo2, hi2, next2) = next_line(&v, next1);
    let ghost ls = lines(output@);
    assert(ls[0] == v@.subrange(lo0 as int, hi0 as int));
    assert(ls[1] == v@.subrange(lo1 as int, hi1 as int));
    assert(ls[2] == v@.subrange(lo2 as int, hi2 as int));
    let first = output.substring_char(lo0, hi0);
    let version_num = match try_parse_version(first) {
        Some(p) => p,
        None => return None,
    };
    Some(PGConfig {
        version_num,
        version_string: String::from_str(first),
        bindir: String::from_str(output.substring_char(lo1, hi1)),
        pkglibdir: String::from_str(output.substring_char(lo2, hi2)),
    })
}

/// The version in a `pg_config --version` line, or `None` where
/// `parse_version` would fail.
pub fn try_parse_version(s: &str) -> (r: Option<(u32, u32)>)
    ensures
        r == version_of(s@),
{
    let v = chars_of(s);
    let (starts, ends) = word_bounds(&v);
    let ghost ws = words(v@);
    let n = starts.len();
    let mut next = false;
    let mut k: usize = 0;
    assert(ws.skip(0) =~= ws);
    while k < n
        invariant
            k <= n,
            n == starts@.len(),
            n == ends@.len(),
            ws.len() == n,
            forall|j: int| #![trigger starts@[j]] 0 <= j < n ==> starts@[j] < ends@[j] <= v@.len(),
            forall|j: int| 0 <= j < n ==> #[trigger] ws[j] == v@.subrange(starts@[j] as int, ends@[j] as int),
            ws == words(s@),
            !next ==> word_after_marker(ws) == word_after_marker(ws.skip(k as int)),
            next ==> k > 0 && word_after_marker(ws) == (if k < n { Some(ws[k as int]) } else { None::<Seq<char>> }),
        decreases n - k,
    {
        if next {
            return parse_dotted(&v, starts[k], ends[k]);
        }
        let ghost tail = ws.skip(k as int);
        assert(tail.drop_first() =~= ws.skip(k as int + 1));
        if range_equals(&v, starts[k], ends[k], "PostgreSQL") {
            if k + 1 < n {
                assert(tail[1] == ws[k as int + 1]);
            }
            next = true;
        }
        k = k + 1;
    }
    if !next {
        assert(ws.skip(n as int).len() == 0);
    }
    None
}

/// The version in a `pg_config --version` line such as `PostgreSQL 11.2`.
pub fn parse_version(s: &str) -> (r: (u32, u32))
    requires
        version_of(s@) is Some,
    ensures
        version_of(s@) == Some(r),
{
    match try_parse_version(s) {
        Some(r) => r,
        None => (0, 0),
    }
}

} // verus!

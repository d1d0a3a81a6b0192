//! The filter worker: scan one persisted file's lines, keep those matching a
//! substring pattern, and read each kept line's leading tab-delimited field
//! as its ordering id. A kept line whose id cannot be read is a hard,
//! reported error for the whole scan, never silently dropped.

use vstd::prelude::*;
use crate::lines::{line_views, split_into_lines, split_lines};

verus! {

/// ASCII horizontal tab, the field separator of the persisted format.
pub const TAB: u8 = 9;

/// Why one matched line's id field could not be read.
#[derive(Clone, Copy, PartialEq, Eq, Structural, Debug)]
pub enum ParseFault {
    /// The line holds no tab, so no leading field is delimited.
    MissingTab,
    /// The leading field is empty.
    EmptyField,
    /// The leading field holds a byte that is not an ASCII digit.
    BadDigit,
    /// The leading field's digits name a number above `u64::MAX`.
    Overflow,
}

/// `pat` occurs in `line` starting at `i`.
pub open spec fn matches_at(line: Seq<u8>, pat: Seq<u8>, i: int) -> bool {
    0 <= i && i + pat.len() <= line.len() && line.subrange(i, i + pat.len()) == pat
}

/// The match predicate: `pat` occurs somewhere in `line`; an empty pattern
/// matches every line.
pub open spec fn line_matches(line: Seq<u8>, pat: Seq<u8>) -> bool {
    exists|i: int| matches_at(line, pat, i)
}

/// Decide whether `pat` occurs in `line`.
pub fn contains_sub(line: &Vec<u8>, pat: &Vec<u8>) -> (r: bool)
    ensures
        r == line_matches(line@, pat@),
{
    if pat.len() > line.len() {
        proof {
            if line_matches(line@, pat@) {
                let x = choose|x: int| matches_at(line@, pat@, x);
                assert(x + pat@.len() <= line@.len());
            }
        }
        return false;
    }
    if pat.len() == 0 {
        proof {
            assert(line@.subrange(0, 0) =~= pat@);
            assert(matches_at(line@, pat@, 0));
        }
        return true;
    }
    let n = line.len() - pat.len();
    let mut i: usize = 0;
    while i <= n
        invariant
            1 <= pat@.len() <= line@.len(),
            line@.len() <= usize::MAX,
            n == line@.len() - pat@.len(),
            i <= n + 1,
            forall|x: int| 0 <= x < i ==> !matches_at(line@, pat@, x),
        decreases n + 1 - i,
    {
        let mut j: usize = 0;
        while j < pat.len() && line[i + j] == pat[j]
            invariant
                pat@.len() <= line@.len(),
                line@.len() <= usize::MAX,
                i <= n,
                n == line@.len() - pat@.len(),
                j <= pat@.len(),
                forall|y: int| 0 <= y < j ==> line@[i + y] == pat@[y],
            decreases pat@.len() - j,
        {
            j = j + 1;
        }
        if j == pat.len() {
            proof {
                assert(line@.subrange(i as int, i as int + pat@.len() as int) =~= pat@);
                assert(matches_at(line@, pat@, i as int));
            }
            return true;
        }
        proof {
            if matches_at(line@, pat@, i as int) {
                assert(line@.subrange(i as int, i as int + pat@.len() as int)[j as int]
                    == pat@[j as int]);
            }
        }
        i = i + 1;
    }
    proof {
        if line_matches(line@, pat@) {
            let x = choose|x: int| matches_at(line@, pat@, x);
            assert(x + pat@.len() <= line@.len());
            assert(!matches_at(line@, pat@, x));
        }
    }
    false
}

/// The position of the first tab of `line`, or `line.len()` if there is none.
pub open spec fn first_tab(line: Seq<u8>) -> int
    decreases line.len(),
{
    if line.len() == 0 {
        0
    } else if line[0] == TAB {
        0
    } else {
        1 + first_tab(line.drop_first())
    }
}

/// What `first_tab` points at: no tab before it, and a tab at it unless the
/// line holds none.
pub proof fn lemma_first_tab(line: Seq<u8>)
    ensures
        0 <= first_tab(line) <= line.len(),
        forall|i: int| 0 <= i < first_tab(line) ==> line[i] != TAB,
        first_tab(line) < line.len() ==> line[first_tab(line)] == TAB,
    decreases line.len(),
{
    if line.len() == 0 {
    } else if line[0] == TAB {
    } else {
        lemma_first_tab(line.drop_first());
        assert forall|i: int| 0 <= i < first_tab(line) implies line[i] != TAB by {
            if i > 0 {
                assert(line.drop_first()[i - 1] == line[i]);
            }
        }
        if first_tab(line) < line.len() {
            assert(line.drop_first()[first_tab(line) - 1] == line[first_tab(line)]);
        }
    }
}

pub open spec fn has_tab(line: Seq<u8>) -> bool {
    first_tab(line) < line.len()
}

/// The leading tab-delimited field of `line`.
pub open spec fn id_field(line: Seq<u8>) -> Seq<u8> {
    line.take(first_tab(line))
}

pub open spec fn is_digit(b: u8) -> bool {
    48 <= b <= 57
}

/// Every byte of the leading field is an ASCII digit.
pub open spec fn field_digits(line: Seq<u8>) -> bool {
    forall|i: int| 0 <= i < first_tab(line) ==> is_digit(#[trigger] line[i])
}

/// The number named by a sequence of ASCII digits, most significant first.
pub open spec fn digits_val(s: Seq<u8>) -> nat
    decreases s.len(),
{
    if s.len() == 0 {
        0
    } else {
        (digits_val(s.drop_last()) * 10 + (s.last() - 48)) as nat
    }
}

/// Reading more digits never shrinks the value.
pub proof fn lemma_digits_val_prefix(s: Seq<u8>, j: int)
    requires
        0 <= j <= s.len(),
        forall|i: int| j <= i < s.len() ==> is_digit(#[trigger] s[i]),
    ensures
        digits_val(s) >= digits_val(s.take(j)),
    decreases s.len() - j,
{
    if j == s.len() {
        assert(s.take(j) =~= s);
    } else {
        assert(s.drop_last().take(j) =~= s.take(j));
        lemma_digits_val_prefix(s.drop_last(), j);
        assert(is_digit(s.last()));
        assert(digits_val(s) >= digits_val(s.drop_last()));
    }
}

/// The leading field reads as a `u64` id: a tab delimits it, it is non-empty,
/// all digits, and its value fits.
pub open spec fn parse_ok(line: Seq<u8>) -> bool {
    &&& has_tab(line)
    &&& first_tab(line) > 0
    &&& field_digits(line)
    &&& digits_val(id_field(line)) <= u64::MAX
}

/// The fault reported for a line whose id cannot be read, by the first
/// condition that fails.
pub open spec fn fault_of(line: Seq<u8>) -> ParseFault {
    if !has_tab(line) {
        ParseFault::MissingTab
    } else if first_tab(line) == 0 {
        ParseFault::EmptyField
    } else if !field_digits(line) {
        ParseFault::BadDigit
    } else {
        ParseFault::Overflow
    }
}

/// Read the leading tab-delimited field of `line` as a `u64` id.
pub fn parse_id(line: &Vec<u8>) -> (r: Result<u64, ParseFault>)
    ensures
        r is Ok <==> parse_ok(line@),
        r is Ok ==> r->Ok_0 == digits_val(id_field(line@)),
        r is Err ==> r->Err_0 == fault_of(line@),
{
    proof {
        lemma_first_tab(line@);
    }
    let mut t: usize = 0;
    while t < line.len() && line[t] != TAB
        invariant
            t <= line@.len(),
            forall|i: int| 0 <= i < t ==> line@[i] != TAB,
        decreases line@.len() - t,
    {
        t = t + 1;
    }
    proof {
        if t < line.len() {
            if first_tab(line@) < t {
                assert(line@[first_tab(line@)] != TAB);
            }
            if t < first_tab(line@) {
                assert(line@[t as int] != TAB);
            }
        } else {
            if first_tab(line@) < line@.len() {
                assert(line@[first_tab(line@)] != TAB);
            }
        }
        assert(t as int == first_tab(line@));
    }
    if t == line.len() {
        return Err(ParseFault::MissingTab);
    }
    if t == 0 {
        return Err(ParseFault::EmptyField);
    }
    let mut i: usize = 0;
    while i < t
        invariant
            0 < t < line@.len(),
            i <= t,
            t as int == first_tab(line@),
            forall|j: int| 0 <= j < i ==> is_digit(#[trigger] line@[j]),
        decreases t - i,
    {
        let b = line[i];
        if b < 48 || b > 57 {
            proof {
                assert(!is_digit(line@[i as int]));
                assert(!field_digits(line@));
                assert(fault_of(line@) == ParseFault::BadDigit);
            }
            return Err(ParseFault::BadDigit);
        }
        i = i + 1;
    }
    let ghost field = id_field(line@);
    proof {
        assert(field.len() == t);
        assert(forall|j: int| 0 <= j < field.len() ==> field[j] == line@[j]);
        assert(field.take(0) =~= Seq::<u8>::empty());
    }
    let mut val: u64 = 0;
    let mut k: usize = 0;
    while k < t
        invariant
            0 < t < line@.len(),
            k <= t,
            t as int == first_tab(line@),
            field == id_field(line@),
            field.len() == t,
            forall|j: int| 0 <= j < t ==> is_digit(#[trigger] line@[j]),
            forall|j: int| 0 <= j < field.len() ==> field[j] == line@[j],
            val == digits_val(field.take(k as int)),
        decreases t - k,
    {
        let d = line[k] - 48;
        let wide: u128 = val as u128 * 10 + d as u128;
        if wide > u64::MAX as u128 {
            proof {
                assert(field.take(k as int + 1).drop_last() =~= field.take(k as int));
                assert(field.take(k as int + 1).last() == line@[k as int]);
                assert(digits_val(field.take(k as int + 1)) > u64::MAX);
                lemma_digits_val_prefix(field, k as int + 1);
                assert(!parse_ok(line@));
                assert(fault_of(line@) == ParseFault::Overflow);
            }
            return Err(ParseFault::Overflow);
        }
        val = wide as u64;
        proof {
            assert(field.take(k as int + 1).drop_last() =~= field.take(k as int));
            assert(field.take(k as int + 1).last() == line@[k as int]);
            assert(val == digits_val(field.take(k as int + 1)));
        }
        k = k + 1;
    }
    proof {
        assert(field.take(t as int) =~= field);
        assert(parse_ok(line@));
    }
    Ok(val)
}

/// One matched, extracted log line: its ordering id and its full text.
#[derive(Debug)]
pub struct LogRecord {
    pub id: u64,
    pub raw: Vec<u8>,
}

/// The mathematical model of a record.
pub struct RecordView {
    pub id: u64,
    pub raw: Seq<u8>,
}

impl View for LogRecord {
    type V = RecordView;

    open spec fn view(&self) -> RecordView {
        RecordView { id: self.id, raw: self.raw@ }
    }
}

pub open spec fn record_views(rs: Seq<LogRecord>) -> Seq<RecordView> {
    rs.map_values(|r: LogRecord| r@)
}

/// The record a matched line yields, meaningful when `parse_ok(line)`.
pub open spec fn record_of(line: Seq<u8>) -> RecordView {
    RecordView { id: digits_val(id_field(line)) as u64, raw: line }
}

/// Every matched line of the scan has a readable id.
pub open spec fn worker_ok(lines: Seq<Seq<u8>>, pat: Seq<u8>) -> bool {
    forall|i: int|
        0 <= i < lines.len() ==> (#[trigger] line_matches(lines[i], pat) ==> parse_ok(lines[i]))
}

/// The records of the matched lines, in file order.
pub open spec fn worker_spec(lines: Seq<Seq<u8>>, pat: Seq<u8>) -> Seq<RecordView>
    decreases lines.len(),
{
    if lines.len() == 0 {
        Seq::empty()
    } else {
        worker_spec(lines.drop_last(), pat) + if line_matches(lines.last(), pat) {
            seq![record_of(lines.last())]
        } else {
            Seq::empty()
        }
    }
}

/// One worker's reported failure: the first matched line whose id could not
/// be read, and why.
#[derive(Clone, Copy, PartialEq, Eq, Structural, Debug)]
pub struct WorkerError {
    pub line: usize,
    pub fault: ParseFault,
}

/// `e` names the first matched-but-unreadable line of the scan.
pub open spec fn failure_at(lines: Seq<Seq<u8>>, pat: Seq<u8>, e: WorkerError) -> bool {
    &&& e.line < lines.len()
    &&& line_matches(lines[e.line as int], pat)
    &&& !parse_ok(lines[e.line as int])
    &&& e.fault == fault_of(lines[e.line as int])
    &&& forall|j: int|
        0 <= j < e.line ==> (#[trigger] line_matches(lines[j], pat) ==> parse_ok(lines[j]))
}

fn copy_bytes(v: &Vec<u8>) -> (r: Vec<u8>)
    ensures
        r@ == v@,
{
    let mut out: Vec<u8> = Vec::new();
    let mut i: usize = 0;
    while i < v.len()
        invariant
            i <= v@.len(),
            out@ == v@.take(i as int),
        decreases v@.len() - i,
    {
        out.push(v[i]);
        proof {
            assert(out@ =~= v@.take(i as int + 1));
        }
        i = i + 1;
    }
    proof {
        assert(v@.take(v@.len() as int) =~= v@);
    }
    out
}

/// Scan one persisted file's bytes: keep each line matching `pat`, with its
/// id read from the leading field; abort on the first matched line whose id
/// cannot be read, reporting which line and why.
pub fn filter_file(data: &Vec<u8>, pat: &Vec<u8>) -> (r: Result<Vec<LogRecord>, WorkerError>)
    ensures
        r is Ok <==> worker_ok(split_lines(data@), pat@),
        r is Ok ==> record_views(r->Ok_0@) == worker_spec(split_lines(data@), pat@),
        r is Err ==> failure_at(split_lines(data@), pat@, r->Err_0),
{
    let lines = split_into_lines(data);
    let ghost lv = split_lines(data@);
    let mut out: Vec<LogRecord> = Vec::new();
    let mut i: usize = 0;
    proof {
        assert(record_views(out@) =~~= worker_spec(lv.take(0), pat@));
    }
    while i < lines.len()
        invariant
            i <= lines@.len(),
            lv == split_lines(data@),
            lv == line_views(lines@),
            record_views(out@) == worker_spec(lv.take(i as int), pat@),
            forall|j: int|
                0 <= j < i ==> (#[trigger] line_matches(lv[j], pat@) ==> parse_ok(lv[j])),
        decreases lines@.len() - i,
    {
        let line = &lines[i];
        proof {
            assert(line@ == lv[i as int]);
            assert(lv.take(i as int + 1).drop_last() =~~= lv.take(i as int));
            assert(lv.take(i as int + 1).last() == lv[i as int]);
        }
        if contains_sub(line, pat) {
            match parse_id(line) {
                Ok(id) => {
                    let raw = copy_bytes(line);
                    out.push(LogRecord { id, raw });
                    proof {
                        assert(out@.last()@ == record_of(lv[i as int]));
                        assert(record_views(out@) =~~= worker_spec(lv.take(i as int + 1), pat@));
                    }
                },
                Err(f) => {
                    return Err(WorkerError { line: i, fault: f });
                },
            }
        } else {
            proof {
                assert(record_views(out@) =~~= worker_spec(lv.take(i as int + 1), pat@));
            }
        }
        i = i + 1;
    }
    proof {
        assert(lv.take(lines@.len() as int) =~~= lv);
    }
    Ok(out)
}

} // verus!

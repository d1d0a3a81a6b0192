//! The archive locator: a date and an hour range name the archives of one
//! run, each addressed by a zero-padded `YYYY-MM-DD-HH` key.

use vstd::prelude::*;

verus! {

/// ASCII `-`, the separator of the key format.
pub const DASH: u8 = 45;

/// A calendar date, held as plain year, month and day numbers.
#[derive(Clone, Copy, PartialEq, Eq, Structural, Debug)]
pub struct Date {
    pub year: u16,
    pub month: u8,
    pub day: u8,
}

impl Date {
    /// A date this pipeline can format: a four-digit year and in-range
    /// month and day numbers.
    pub open spec fn wf(self) -> bool {
        &&& self.year <= 9999
        &&& 1 <= self.month <= 12
        &&& 1 <= self.day <= 31
    }
}

/// The half-open hour range `[start, end)` of one retrieval run.
#[derive(Clone, Copy, PartialEq, Eq, Structural, Debug)]
pub struct HourRange {
    pub start: u8,
    pub end: u8,
}

impl HourRange {
    pub open spec fn wf(self) -> bool {
        self.start <= self.end && self.end <= 24
    }
}

/// One archive's address: the date and the hour bucket it covers.
#[derive(Clone, Copy, PartialEq, Eq, Structural, Debug)]
pub struct ArchiveIdentifier {
    pub date: Date,
    pub hour: u8,
}

/// The ASCII digit for `n`, meaningful for `0 <= n <= 9`.
pub open spec fn digit(n: int) -> u8 {
    (48 + n) as u8
}

/// `n` as two zero-padded ASCII digits, meaningful for `0 <= n <= 99`.
pub open spec fn two_digits(n: int) -> Seq<u8> {
    seq![digit(n / 10), digit(n % 10)]
}

/// `n` as four zero-padded ASCII digits, meaningful for `0 <= n <= 9999`.
pub open spec fn four_digits(n: int) -> Seq<u8> {
    two_digits(n / 100) + two_digits(n % 100)
}

/// The key `YYYY-MM-DD-HH` of the archive for `hour` of `d`.
pub open spec fn key_of(d: Date, hour: int) -> Seq<u8> {
    four_digits(d.year as int) + seq![DASH] + two_digits(d.month as int) + seq![DASH]
        + two_digits(d.day as int) + seq![DASH] + two_digits(hour)
}

impl ArchiveIdentifier {
    pub open spec fn wf(self) -> bool {
        self.date.wf() && self.hour < 24
    }

    pub open spec fn key_spec(self) -> Seq<u8> {
        key_of(self.date, self.hour as int)
    }

    /// Format this identifier's key, used both as the remote resource name
    /// and as the local file name.
    pub fn key(&self) -> (r: Vec<u8>)
        requires
            self.wf(),
        ensures
            r@ == self.key_spec(),
    {
        let mut out: Vec<u8> = Vec::new();
        push_two_digits(&mut out, (self.date.year / 100) as u8);
        push_two_digits(&mut out, (self.date.year % 100) as u8);
        out.push(DASH);
        push_two_digits(&mut out, self.date.month);
        out.push(DASH);
        push_two_digits(&mut out, self.date.day);
        out.push(DASH);
        push_two_digits(&mut out, self.hour);
        proof {
            assert(out@ =~= self.key_spec());
        }
        out
    }
}

/// Append the two zero-padded ASCII digits of `n`.
fn push_two_digits(out: &mut Vec<u8>, n: u8)
    requires
        n < 100,
    ensures
        final(out)@ == old(out)@ + two_digits(n as int),
{
    out.push(48 + n / 10);
    out.push(48 + n % 10);
    proof {
        assert(out@ =~= old(out)@ + two_digits(n as int));
    }
}

/// The locator: one identifier per hour of `[range.start, range.end)`, in
/// ascending hour order.
pub fn locate(date: Date, range: HourRange) -> (r: Vec<ArchiveIdentifier>)
    requires
        date.wf(),
        range.wf(),
    ensures
        r@.len() == range.end as int - range.start as int,
        forall|i: int|
            0 <= i < r@.len() ==> #[trigger] r@[i] == (ArchiveIdentifier {
                date,
                hour: (range.start as int + i) as u8,
            }),
{
    let mut out: Vec<ArchiveIdentifier> = Vec::new();
    let mut h: u8 = range.start;
    while h < range.end
        invariant
            date.wf(),
            range.wf(),
            range.start <= h <= range.end,
            out@.len() == h as int - range.start as int,
            forall|i: int|
                0 <= i < out@.len() ==> #[trigger] out@[i] == (ArchiveIdentifier {
                    date,
                    hour: (range.start as int + i) as u8,
                }),
        decreases range.end as int - h as int,
    {
        out.push(ArchiveIdentifier { date, hour: h });
        h = h + 1;
    }
    out
}

/// Law: the locator covers the requested range exactly — one identifier per
/// hour, no duplicates and no gaps, and distinct positions carry distinct
/// hours and distinct keys.
pub proof fn lemma_locate_distinct(r: Seq<ArchiveIdentifier>, date: Date, range: HourRange)
    requires
        date.wf(),
        range.wf(),
        r.len() == range.end as int - range.start as int,
        forall|i: int|
            0 <= i < r.len() ==> #[trigger] r[i] == (ArchiveIdentifier {
                date,
                hour: (range.start as int + i) as u8,
            }),
    ensures
        forall|i: int| 0 <= i < r.len() ==> (#[trigger] r[i]).hour == range.start as int + i,
        forall|i: int| 0 <= i < r.len() ==> (#[trigger] r[i]).wf(),
        forall|i: int, j: int|
            0 <= i < r.len() && 0 <= j < r.len() && i != j ==> r[i].hour != r[j].hour,
        forall|i: int, j: int|
            0 <= i < r.len() && 0 <= j < r.len() && i != j ==> r[i].key_spec() != r[j].key_spec(),
{
    assert forall|i: int, j: int|
        0 <= i < r.len() && 0 <= j < r.len() && i != j implies r[i].key_spec()
        != r[j].key_spec() by {
        lemma_key_injective(date, r[i].hour as int, r[j].hour as int);
    }
}

/// Two distinct hours of the same date have distinct keys: the key's last two
/// digits determine the hour.
pub proof fn lemma_key_injective(d: Date, h1: int, h2: int)
    requires
        0 <= h1 < 24,
        0 <= h2 < 24,
        h1 != h2,
    ensures
        key_of(d, h1) != key_of(d, h2),
{
    vstd::arithmetic::div_mod::lemma_fundamental_div_mod(h1, 10);
    vstd::arithmetic::div_mod::lemma_fundamental_div_mod(h2, 10);
    if key_of(d, h1) == key_of(d, h2) {
        assert(key_of(d, h1)[11] == key_of(d, h2)[11]);
        assert(key_of(d, h1)[12] == key_of(d, h2)[12]);
        assert(digit(h1 / 10) == digit(h2 / 10));
        assert(digit(h1 % 10) == digit(h2 % 10));
        assert(h1 / 10 == h2 / 10);
        assert(h1 % 10 == h2 % 10);
        assert(false);
    }
}

} // verus!

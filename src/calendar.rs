//! Calendar dates and times of day, with the fixed-width text forms
//! `YYYY-MM-DD` and `HH:MM` under which they are stored.

use vstd::prelude::*;

verus! {

/// The character of a decimal digit.
pub open spec fn digit_char(d: int) -> char {
    if d == 0 { '0' }
    else if d == 1 { '1' }
    else if d == 2 { '2' }
    else if d == 3 { '3' }
    else if d == 4 { '4' }
    else if d == 5 { '5' }
    else if d == 6 { '6' }
    else if d == 7 { '7' }
    else if d == 8 { '8' }
    else { '9' }
}

/// `n` in two decimal digits, zero-padded (`0 <= n < 100`).
pub open spec fn two_digits(n: int) -> Seq<char> {
    seq![digit_char(n / 10), digit_char(n % 10)]
}

/// `n` in four decimal digits, zero-padded (`0 <= n < 10000`).
pub open spec fn four_digits(n: int) -> Seq<char> {
    two_digits(n / 100) + two_digits(n % 100)
}

pub open spec fn is_leap_year(year: int) -> bool {
    year % 4 == 0 && (year % 100 != 0 || year % 400 == 0)
}

pub open spec fn days_in_month(year: int, month: int) -> int {
    if month == 2 {
        if is_leap_year(year) { 29 } else { 28 }
    } else if month == 4 || month == 6 || month == 9 || month == 11 {
        30
    } else {
        31
    }
}

/// The value of a decimal digit character, if `c` is one.
fn digit_value(c: char) -> (r: Option<u8>)
    ensures
        match r {
            Some(v) => v < 10 && c == digit_char(v as int),
            None => forall|k: int| 0 <= k < 10 ==> c != digit_char(k),
        },
{
    let u = c as u32;
    if 48 <= u && u <= 57 {
        let v = (u - 48) as u8;
        assert(c == digit_char(v as int));
        Some(v)
    } else {
        None
    }
}

/// The value of the two digits of `s` at `i` and `i + 1`, if both are digits.
fn two_digits_at(s: &str, i: usize) -> (r: Option<u8>)
    requires
        i + 1 < s@.len() <= usize::MAX,
    ensures
        match r {
            Some(v) => v < 100 && s@.subrange(i as int, i + 2) == two_digits(v as int),
            None => forall|k: int| 0 <= k < 100 ==> s@.subrange(i as int, i + 2) != two_digits(k),
        },
{
    let hi = digit_value(s.get_char(i));
    let lo = digit_value(s.get_char(i + 1));
    match (hi, lo) {
        (Some(h), Some(l)) => {
            let v = h * 10 + l;
            assert(s@.subrange(i as int, i + 2) =~= two_digits(v as int));
            Some(v)
        },
        _ => {
            assert forall|k: int| 0 <= k < 100 implies s@.subrange(i as int, i + 2) != two_digits(k) by {
                if s@.subrange(i as int, i + 2) == two_digits(k) {
                    assert(s@[i as int] == two_digits(k)[0]);
                    assert(s@[i + 1] == two_digits(k)[1]);
                }
            }
            None
        },
    }
}

/// Distinct values below 100 have distinct two-digit forms.
pub proof fn lemma_two_digits_injective(a: int, b: int)
    requires
        0 <= a < 100,
        0 <= b < 100,
        two_digits(a) == two_digits(b),
    ensures
        a == b,
{
    assert(two_digits(a)[0] == two_digits(b)[0]);
    assert(two_digits(a)[1] == two_digits(b)[1]);
    assert(a / 10 == b / 10);
    assert(a % 10 == b % 10);
}

/// `x` comes before `y` in lexicographic order of character codes.
pub open spec fn lex_less(x: Seq<char>, y: Seq<char>) -> bool
    decreases x.len(),
{
    if x.len() == 0 {
        y.len() > 0
    } else if y.len() == 0 {
        false
    } else if x[0] == y[0] {
        lex_less(x.drop_first(), y.drop_first())
    } else {
        (x[0] as u32) < (y[0] as u32)
    }
}

proof fn lemma_digit_code(d: int)
    requires
        0 <= d < 10,
    ensures
        digit_char(d) as u32 == 48 + d,
{
}

/// Two-digit forms compare as the numbers do.
proof fn lemma_two_digits_order(a: int, b: int, rest_a: Seq<char>, rest_b: Seq<char>)
    requires
        0 <= a < 100,
        0 <= b < 100,
    ensures
        a < b ==> lex_less(two_digits(a) + rest_a, two_digits(b) + rest_b),
        a > b ==> !lex_less(two_digits(a) + rest_a, two_digits(b) + rest_b),
        a == b ==> (lex_less(two_digits(a) + rest_a, two_digits(b) + rest_b) <==> lex_less(rest_a, rest_b)),
{
    let x = two_digits(a) + rest_a;
    let y = two_digits(b) + rest_b;
    lemma_digit_code(a / 10);
    lemma_digit_code(b / 10);
    lemma_digit_code(a % 10);
    lemma_digit_code(b % 10);
    assert(x.drop_first().drop_first() =~= rest_a);
    assert(y.drop_first().drop_first() =~= rest_b);
    assert(x[0] == digit_char(a / 10) && y[0] == digit_char(b / 10));
    assert(x.drop_first()[0] == digit_char(a % 10) && y.drop_first()[0] == digit_char(b % 10));
    assert(x.drop_first().len() > 0 && y.drop_first().len() > 0);
    assert(a == 10 * (a / 10) + a % 10);
    assert(b == 10 * (b / 10) + b % 10);
    let x1 = x.drop_first();
    let y1 = y.drop_first();
    assert(lex_less(x, y) == (if x[0] == y[0] {
        lex_less(x1, y1)
    } else {
        (x[0] as u32) < (y[0] as u32)
    }));
    assert(lex_less(x1, y1) == (if x1[0] == y1[0] {
        lex_less(x1.drop_first(), y1.drop_first())
    } else {
        (x1[0] as u32) < (y1[0] as u32)
    }));
}

/// Comparing `HH:MM` text lexicographically is comparing the times
/// chronologically.
pub proof fn lemma_hhmm_order(a: TimeOfDay, b: TimeOfDay)
    requires
        a.wf(),
        b.wf(),
    ensures
        lex_less(a.hhmm(), b.hhmm()) <==> a.minutes() < b.minutes(),
{
    let ra = seq![':'] + two_digits(a.minute as int);
    let rb = seq![':'] + two_digits(b.minute as int);
    assert(a.hhmm() =~= two_digits(a.hour as int) + ra);
    assert(b.hhmm() =~= two_digits(b.hour as int) + rb);
    lemma_two_digits_order(a.hour as int, b.hour as int, ra, rb);
    let e = Seq::<char>::empty();
    assert(two_digits(a.minute as int) =~= two_digits(a.minute as int) + e);
    assert(two_digits(b.minute as int) =~= two_digits(b.minute as int) + e);
    lemma_two_digits_order(a.minute as int, b.minute as int, e, e);
    assert(ra.drop_first() =~= two_digits(a.minute as int));
    assert(rb.drop_first() =~= two_digits(b.minute as int));
}

/// Comparing `YYYY-MM-DD` text lexicographically is comparing the dates
/// chronologically.
pub proof fn lemma_iso_order(a: Date, b: Date)
    requires
        a.wf(),
        b.wf(),
    ensures
        lex_less(a.iso(), b.iso()) <==> a.key() < b.key(),
{
    let e = Seq::<char>::empty();
    let da = seq!['-'] + two_digits(a.day as int);
    let db = seq!['-'] + two_digits(b.day as int);
    let ma = seq!['-'] + two_digits(a.month as int) + da;
    let mb = seq!['-'] + two_digits(b.month as int) + db;
    let la = two_digits(a.year as int % 100) + ma;
    let lb = two_digits(b.year as int % 100) + mb;
    assert(a.iso() =~= two_digits(a.year as int / 100) + la);
    assert(b.iso() =~= two_digits(b.year as int / 100) + lb);
    lemma_two_digits_order(a.year as int / 100, b.year as int / 100, la, lb);
    lemma_two_digits_order(a.year as int % 100, b.year as int % 100, ma, mb);
    assert(ma.drop_first() =~= two_digits(a.month as int) + da);
    assert(mb.drop_first() =~= two_digits(b.month as int) + db);
    lemma_two_digits_order(a.month as int, b.month as int, da, db);
    assert(da.drop_first() =~= two_digits(a.day as int) + e);
    assert(db.drop_first() =~= two_digits(b.day as int) + e);
    lemma_two_digits_order(a.day as int, b.day as int, e, e);
}

/// The number of days in `month` of `year`.
pub fn month_length(year: u16, month: u8) -> (r: u8)
    requires
        1 <= month <= 12,
    ensures
        r as int == days_in_month(year as int, month as int),
{
    if month == 2 {
        if year % 4 == 0 && (year % 100 != 0 || year % 400 == 0) {
            29
        } else {
            28
        }
    } else if month == 4 || month == 6 || month == 9 || month == 11 {
        30
    } else {
        31
    }
}

/// A day of the proleptic Gregorian calendar, years 0 to 9999.
#[derive(Clone, Copy, Debug, PartialEq, Eq, Structural)]
pub struct Date {
    pub year: u16,
    pub month: u8,
    pub day: u8,
}

/// A time of day at minute precision.
#[derive(Clone, Copy, Debug, PartialEq, Eq, Structural)]
pub struct TimeOfDay {
    pub hour: u8,
    pub minute: u8,
}


/// The one-character text of the decimal digit `d`.
fn digit_text(d: u8) -> (r: &'static str)
    requires
        d < 10,
    ensures
        r@ == seq![digit_char(d as int)],
{
        if d == 0 {
            proof { reveal_strlit("0"); }
            "0"
        } else if d == 1 {
            proof { reveal_strlit("1"); }
            "1"
        } else if d == 2 {
            proof { reveal_strlit("2"); }
            "2"
        } else if d == 3 {
            proof { reveal_strlit("3"); }
            "3"
        } else if d == 4 {
            proof { reveal_strlit("4"); }
            "4"
        } else if d == 5 {
            proof { reveal_strlit("5"); }
            "5"
        } else if d == 6 {
            proof { reveal_strlit("6"); }
            "6"
        } else if d == 7 {
            proof { reveal_strlit("7"); }
            "7"
        } else if d == 8 {
            proof { reveal_strlit("8"); }
            "8"
    } else {
        proof { reveal_strlit("9"); }
        "9"
    }
}

/// Appends `n` to `s` in two zero-padded digits.
fn push_two_digits(s: &mut String, n: u8)
    requires
        n < 100,
    ensures
        final(s)@ == old(s)@ + two_digits(n as int),
{
    s.append(digit_text(n / 10));
    s.append(digit_text(n % 10));
    assert(final(s)@ =~= old(s)@ + two_digits(n as int));
}

impl Date {
    pub open spec fn wf(self) -> bool {
        &&& self.year <= 9999
        &&& 1 <= self.month <= 12
        &&& 1 <= self.day <= days_in_month(self.year as int, self.month as int)
    }

    /// A number that orders dates chronologically.
    pub open spec fn key(self) -> int {
        self.year as int * 10000 + self.month as int * 100 + self.day as int
    }

    /// The ISO 8601 form `YYYY-MM-DD`.
    pub open spec fn iso(self) -> Seq<char> {
        four_digits(self.year as int) + seq!['-'] + two_digits(self.month as int) + seq!['-']
            + two_digits(self.day as int)
    }

    /// The date `year-month-day`, if it is a day of the calendar.
    pub fn new(year: u16, month: u8, day: u8) -> (r: Option<Date>)
        ensures
            r == (if (Date { year, month, day }).wf() {
                Some(Date { year, month, day })
            } else {
                None::<Date>
            }),
    {
        if year <= 9999 && 1 <= month && month <= 12 && 1 <= day && day <= month_length(year, month) {
            Some(Date { year, month, day })
        } else {
            None
        }
    }

    /// A number that orders dates chronologically.
    pub fn sort_key(&self) -> (r: u32)
        requires
            self.wf(),
        ensures
            r as int == self.key(),
    {
        self.year as u32 * 10000 + self.month as u32 * 100 + self.day as u32
    }

    /// Renders the date as `YYYY-MM-DD`.
    pub fn to_iso(&self) -> (r: String)
        requires
            self.wf(),
        ensures
            r@ == self.iso(),
    {
        let mut s = String::new();
        push_two_digits(&mut s, (self.year / 100) as u8);
        push_two_digits(&mut s, (self.year % 100) as u8);
        proof { reveal_strlit("-"); }
        s.append("-");
        push_two_digits(&mut s, self.month);
        s.append("-");
        push_two_digits(&mut s, self.day);
        assert(s@ =~= self.iso());
        s
    }

    /// Reads a date written as `YYYY-MM-DD`.
    pub fn parse_iso(s: &str) -> (r: Option<Date>)
        ensures
            match r {
                Some(d) => d.wf() && d.iso() == s@,
                None => forall|d: Date| d.wf() ==> d.iso() != s@,
            },
    {
        let n = s.unicode_len();
        if n != 10 {
            return None;
        }
        let hi = two_digits_at(s, 0);
        let lo = two_digits_at(s, 2);
        let mo = two_digits_at(s, 5);
        let da = two_digits_at(s, 8);
        let dash1 = s.get_char(4);
        let dash2 = s.get_char(7);
        proof {
            assert forall|d: Date| d.wf() && d.iso() == s@ implies
                hi == Some((d.year / 100) as u8) && lo == Some((d.year % 100) as u8)
                && mo == Some(d.month) && da == Some(d.day) && dash1 == '-' && dash2 == '-' by {
                assert(s@.subrange(0, 2) =~= two_digits(d.year as int / 100));
                assert(s@.subrange(2, 4) =~= two_digits(d.year as int % 100));
                assert(s@.subrange(5, 7) =~= two_digits(d.month as int));
                assert(s@.subrange(8, 10) =~= two_digits(d.day as int));
                assert(s@[4] == d.iso()[4]);
                assert(s@[7] == d.iso()[7]);
                if let Some(v) = hi {
                    lemma_two_digits_injective(v as int, d.year as int / 100);
                }
                if let Some(v) = lo {
                    lemma_two_digits_injective(v as int, d.year as int % 100);
                }
                if let Some(v) = mo {
                    lemma_two_digits_injective(v as int, d.month as int);
                }
                if let Some(v) = da {
                    lemma_two_digits_injective(v as int, d.day as int);
                }
            }
        }
        match (hi, lo, mo, da) {
            (Some(h), Some(l), Some(month), Some(day)) => {
                if dash1 == '-' && dash2 == '-' {
                    let year = h as u16 * 100 + l as u16;
                    assert(year / 100 == h && year % 100 == l);
                    let r = Date::new(year, month, day);
                    if let Some(d) = r {
                        assert(d.iso() =~= s@);
                    }
                    r
                } else {
                    None
                }
            },
            _ => None,
        }
    }
}

impl TimeOfDay {
    pub open spec fn wf(self) -> bool {
        self.hour < 24 && self.minute < 60
    }

    /// Minutes since midnight.
    pub open spec fn minutes(self) -> int {
        self.hour as int * 60 + self.minute as int
    }

    /// The zero-padded 24-hour form `HH:MM`.
    pub open spec fn hhmm(self) -> Seq<char> {
        two_digits(self.hour as int) + seq![':'] + two_digits(self.minute as int)
    }

    /// The time `hour:minute`, if both are in range.
    pub fn new(hour: u8, minute: u8) -> (r: Option<TimeOfDay>)
        ensures
            r == (if hour < 24 && minute < 60 {
                Some(TimeOfDay { hour, minute })
            } else {
                None::<TimeOfDay>
            }),
    {
        if hour < 24 && minute < 60 {
            Some(TimeOfDay { hour, minute })
        } else {
            None
        }
    }

    /// Minutes since midnight.
    pub fn minutes_since_midnight(&self) -> (r: u16)
        requires
            self.wf(),
        ensures
            r as int == self.minutes(),
    {
        self.hour as u16 * 60 + self.minute as u16
    }

    /// Renders the time as `HH:MM`.
    pub fn to_hhmm(&self) -> (r: String)
        requires
            self.wf(),
        ensures
            r@ == self.hhmm(),
    {
        let mut s = String::new();
        push_two_digits(&mut s, self.hour);
        proof { reveal_strlit(":"); }
        s.append(":");
        push_two_digits(&mut s, self.minute);
        assert(s@ =~= self.hhmm());
        s
    }

    /// Reads a time written as `HH:MM`.
    pub fn parse_hhmm(s: &str) -> (r: Option<TimeOfDay>)
        ensures
            match r {
                Some(t) => t.wf() && t.hhmm() == s@,
                None => forall|t: TimeOfDay| t.wf() ==> t.hhmm() != s@,
            },
    {
        let n = s.unicode_len();
        if n != 5 {
            return None;
        }
        let h = two_digits_at(s, 0);
        let m = two_digits_at(s, 3);
        let colon = s.get_char(2);
        proof {
            assert forall|t: TimeOfDay| t.wf() && t.hhmm() == s@ implies
                h == Some(t.hour) && m == Some(t.minute) && colon == ':' by {
                assert(s@.subrange(0, 2) =~= two_digits(t.hour as int));
                assert(s@.subrange(3, 5) =~= two_digits(t.minute as int));
                assert(s@[2] == t.hhmm()[2]);
                if let Some(v) = h {
                    lemma_two_digits_injective(v as int, t.hour as int);
                }
                if let Some(v) = m {
                    lemma_two_digits_injective(v as int, t.minute as int);
                }
            }
        }
        match (h, m) {
            (Some(hour), Some(minute)) => {
                if colon == ':' {
                    let r = TimeOfDay::new(hour, minute);
                    if let Some(t) = r {
                        assert(t.hhmm() =~= s@);
                    }
                    r
                } else {
                    None
                }
            },
            _ => None,
        }
    }
}

} // verus!

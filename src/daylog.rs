//! The daily log: one record per calendar date, holding the earliest and the
//! latest time of day at which a connection was observed on that date.

use vstd::prelude::*;
use crate::calendar::{Date, TimeOfDay, lex_less, lemma_iso_order};

verus! {

/// The earliest and the latest time observed on one date.
pub type Span = (TimeOfDay, TimeOfDay);

/// The earlier of two times.
pub open spec fn earlier(a: TimeOfDay, b: TimeOfDay) -> TimeOfDay {
    if a.minutes() <= b.minutes() { a } else { b }
}

/// The later of two times.
pub open spec fn later(a: TimeOfDay, b: TimeOfDay) -> TimeOfDay {
    if a.minutes() >= b.minutes() { a } else { b }
}

/// The log after one observation at `time` on `date`: a new date starts a
/// record with both ends at `time`; a known date has its span widened.
pub open spec fn upsert_spec(log: Map<Date, Span>, date: Date, time: TimeOfDay) -> Map<Date, Span> {
    if log.contains_key(date) {
        log.insert(date, (earlier(log[date].0, time), later(log[date].1, time)))
    } else {
        log.insert(date, (time, time))
    }
}

/// The log after a sequence of observations, taken in order.
pub open spec fn apply_all(log: Map<Date, Span>, samples: Seq<(Date, TimeOfDay)>) -> Map<Date, Span>
    decreases samples.len(),
{
    if samples.len() == 0 {
        log
    } else {
        let last = samples.last();
        upsert_spec(apply_all(log, samples.drop_last()), last.0, last.1)
    }
}

/// Observations at each of `times`, all on `date`.
pub open spec fn samples_on(date: Date, times: Seq<TimeOfDay>) -> Seq<(Date, TimeOfDay)> {
    times.map_values(|t: TimeOfDay| (date, t))
}

/// Two well-formed times with the same minute count are the same time.
pub proof fn lemma_minutes_injective(a: TimeOfDay, b: TimeOfDay)
    requires
        a.wf(),
        b.wf(),
        a.minutes() == b.minutes(),
    ensures
        a == b,
{
}

/// After observations at `times` on a date that had no record, the record
/// holds the smallest of the times as its earliest and the largest as its
/// latest.
pub proof fn lemma_span_is_min_max(log: Map<Date, Span>, date: Date, times: Seq<TimeOfDay>)
    requires
        !log.contains_key(date),
        times.len() > 0,
    ensures
        apply_all(log, samples_on(date, times)).contains_key(date),
        ({
            let span = apply_all(log, samples_on(date, times))[date];
            &&& forall|i: int| 0 <= i < times.len() ==>
                span.0.minutes() <= (#[trigger] times[i]).minutes() <= span.1.minutes()
            &&& exists|i: int| 0 <= i < times.len() && span.0 == times[i]
            &&& exists|i: int| 0 <= i < times.len() && span.1 == times[i]
        }),
    decreases times.len(),
{
    let samples = samples_on(date, times);
    let front = times.drop_last();
    let t = times.last();
    assert(samples.drop_last() =~= samples_on(date, front));
    assert(samples.last() == (date, t));
    let after = apply_all(log, samples);
    if times.len() == 1 {
        assert(front.len() == 0);
        assert(after[date] == (t, t));
        assert(times[0] == t);
    } else {
        lemma_span_is_min_max(log, date, front);
        let prev = apply_all(log, samples_on(date, front))[date];
        assert(after[date] == (earlier(prev.0, t), later(prev.1, t)));
        assert forall|i: int| 0 <= i < times.len() implies
            after[date].0.minutes() <= (#[trigger] times[i]).minutes() <= after[date].1.minutes() by {
            if i < front.len() {
                assert(times[i] == front[i]);
            }
        }
        let i0 = choose|i: int| 0 <= i < front.len() && prev.0 == front[i];
        let i1 = choose|i: int| 0 <= i < front.len() && prev.1 == front[i];
        assert(times[i0] == front[i0]);
        assert(times[i1] == front[i1]);
        assert(times[times.len() - 1] == t);
    }
}

/// The record that observations on one date leave does not depend on the
/// order in which they arrive.
pub proof fn lemma_order_independent(
    log: Map<Date, Span>,
    date: Date,
    a: Seq<TimeOfDay>,
    b: Seq<TimeOfDay>,
)
    requires
        !log.contains_key(date),
        a.len() > 0,
        a.to_multiset() == b.to_multiset(),
        forall|i: int| 0 <= i < a.len() ==> (#[trigger] a[i]).wf(),
    ensures
        apply_all(log, samples_on(date, a))[date] == apply_all(log, samples_on(date, b))[date],
{
    a.to_multiset_ensures();
    b.to_multiset_ensures();
    assert(b.len() > 0) by {
        assert(a.contains(a[0]));
        assert(b.to_multiset().count(a[0]) > 0);
    }
    lemma_span_is_min_max(log, date, a);
    lemma_span_is_min_max(log, date, b);
    let sa = apply_all(log, samples_on(date, a))[date];
    let sb = apply_all(log, samples_on(date, b))[date];
    // each end of one span is an element of the other sequence
    let ia0 = choose|i: int| 0 <= i < a.len() && sa.0 == a[i];
    let ia1 = choose|i: int| 0 <= i < a.len() && sa.1 == a[i];
    let ib0 = choose|i: int| 0 <= i < b.len() && sb.0 == b[i];
    let ib1 = choose|i: int| 0 <= i < b.len() && sb.1 == b[i];
    assert(a.contains(sa.0) && a.contains(sa.1));
    assert(b.contains(sb.0) && b.contains(sb.1));
    assert(a.to_multiset().count(sa.0) > 0 && a.to_multiset().count(sa.1) > 0);
    assert(b.to_multiset().count(sb.0) > 0 && b.to_multiset().count(sb.1) > 0);
    assert(b.contains(sa.0) && b.contains(sa.1));
    assert(a.contains(sb.0) && a.contains(sb.1));
    let ja0 = choose|i: int| 0 <= i < b.len() && b[i] == sa.0;
    let ja1 = choose|i: int| 0 <= i < b.len() && b[i] == sa.1;
    let jb0 = choose|i: int| 0 <= i < a.len() && a[i] == sb.0;
    let jb1 = choose|i: int| 0 <= i < a.len() && a[i] == sb.1;
    assert(sa.0.minutes() <= a[jb0].minutes());
    assert(sb.0.minutes() <= b[ja0].minutes());
    assert(sa.1.minutes() >= a[jb1].minutes());
    assert(sb.1.minutes() >= b[ja1].minutes());
    lemma_minutes_injective(sa.0, sb.0);
    lemma_minutes_injective(sa.1, sb.1);
}

/// Observing the same time on the same date a second time changes nothing.
pub proof fn lemma_upsert_idempotent(log: Map<Date, Span>, date: Date, time: TimeOfDay)
    ensures
        upsert_spec(upsert_spec(log, date, time), date, time) == upsert_spec(log, date, time),
{
    let once = upsert_spec(log, date, time);
    assert(upsert_spec(once, date, time) =~= once);
}

/// A date has a record after a sequence of observations exactly when it had
/// one before or one of the observations fell on it.
pub proof fn lemma_record_needs_sample(
    log: Map<Date, Span>,
    samples: Seq<(Date, TimeOfDay)>,
    date: Date,
)
    ensures
        apply_all(log, samples).contains_key(date) <==> (log.contains_key(date) || exists|i: int|
            0 <= i < samples.len() && (#[trigger] samples[i]).0 == date),
    decreases samples.len(),
{
    if samples.len() > 0 {
        let front = samples.drop_last();
        lemma_record_needs_sample(log, front, date);
        if exists|i: int| 0 <= i < front.len() && (#[trigger] front[i]).0 == date {
            let i = choose|i: int| 0 <= i < front.len() && (#[trigger] front[i]).0 == date;
            assert(samples[i] == front[i]);
        }
        if exists|i: int| 0 <= i < samples.len() && (#[trigger] samples[i]).0 == date {
            let i = choose|i: int| 0 <= i < samples.len() && (#[trigger] samples[i]).0 == date;
            if i < front.len() {
                assert(front[i] == samples[i]);
            }
        }
    }
}

/// One stored row.
#[derive(Clone, Copy, Debug, PartialEq, Eq, Structural)]
pub struct DailyRecord {
    pub date: Date,
    pub earliest: TimeOfDay,
    pub latest: TimeOfDay,
}

/// Why a stored row could not be read.
#[derive(Clone, Copy, Debug, PartialEq, Eq, Structural)]
pub enum RowError {
    /// The date is not a calendar day written `YYYY-MM-DD`.
    BadDate,
    /// A time is not a time of day written `HH:MM`.
    BadTime,
    /// The earliest time is later than the latest.
    Reversed,
}

pub open spec fn is_iso_date(s: Seq<char>) -> bool {
    exists|d: Date| d.wf() && d.iso() == s
}

pub open spec fn is_hhmm_time(s: Seq<char>) -> bool {
    exists|t: TimeOfDay| t.wf() && t.hhmm() == s
}

impl DailyRecord {
    /// Reads a row stored as the text columns date, earliest and latest.
    pub fn from_row(date: &str, earliest: &str, latest: &str) -> (r: Result<DailyRecord, RowError>)
        ensures
            match r {
                Ok(rec) => rec.wf() && rec.date.iso() == date@ && rec.earliest.hhmm() == earliest@
                    && rec.latest.hhmm() == latest@,
                Err(RowError::BadDate) => !is_iso_date(date@),
                Err(RowError::BadTime) => is_iso_date(date@) && !(is_hhmm_time(earliest@)
                    && is_hhmm_time(latest@)),
                Err(RowError::Reversed) => is_iso_date(date@) && exists|e: TimeOfDay, l: TimeOfDay|
                    e.wf() && l.wf() && e.hhmm() == earliest@ && l.hhmm() == latest@
                    && e.minutes() > l.minutes(),
            },
    {
        let d = match Date::parse_iso(date) {
            Some(d) => d,
            None => return Err(RowError::BadDate),
        };
        let e = TimeOfDay::parse_hhmm(earliest);
        let l = TimeOfDay::parse_hhmm(latest);
        match (e, l) {
            (Some(e), Some(l)) => {
                if e.minutes_since_midnight() <= l.minutes_since_midnight() {
                    Ok(DailyRecord { date: d, earliest: e, latest: l })
                } else {
                    Err(RowError::Reversed)
                }
            },
            _ => Err(RowError::BadTime),
        }
    }

    pub open spec fn wf(self) -> bool {
        &&& self.date.wf()
        &&& self.earliest.wf()
        &&& self.latest.wf()
        &&& self.earliest.minutes() <= self.latest.minutes()
    }

    pub open spec fn span(self) -> Span {
        (self.earliest, self.latest)
    }
}

/// Every record is well formed and the dates are strictly descending.
pub open spec fn sorted_records(rs: Seq<DailyRecord>) -> bool {
    &&& forall|i: int| 0 <= i < rs.len() ==> (#[trigger] rs[i]).wf()
    &&& forall|i: int, j: int| 0 <= i < j < rs.len() ==> rs[i].date.key() > rs[j].date.key()
}

/// `rs` holds exactly the records of `m`.
pub open spec fn records_match(rs: Seq<DailyRecord>, m: Map<Date, Span>) -> bool {
    &&& forall|d: Date| m.contains_key(d) ==> exists|i: int| 0 <= i < rs.len() && (#[trigger] rs[i]).date == d
    &&& forall|i: int| 0 <= i < rs.len() ==> m.contains_key((#[trigger] rs[i]).date) && m[rs[i].date] == rs[i].span()
}

/// The observations that a sequence of stored rows stands for: each row's
/// earliest time, then its latest, on its date.
pub open spec fn row_samples(rows: Seq<DailyRecord>) -> Seq<(Date, TimeOfDay)>
    decreases rows.len(),
{
    if rows.len() == 0 {
        Seq::empty()
    } else {
        let last = rows.last();
        row_samples(rows.drop_last()).push((last.date, last.earliest)).push((last.date, last.latest))
    }
}

/// Replaying well-formed rows with distinct dates gives back exactly those
/// rows: a log that was listed and stored is restored unchanged.
pub proof fn lemma_replay_rows(rows: Seq<DailyRecord>)
    requires
        sorted_records(rows),
    ensures
        records_match(rows, apply_all(Map::empty(), row_samples(rows))),
    decreases rows.len(),
{
    if rows.len() > 0 {
        let front = rows.drop_last();
        let last = rows.last();
        assert(sorted_records(front)) by {
            assert forall|i: int| 0 <= i < front.len() implies (#[trigger] front[i]).wf() by {
                assert(front[i] == rows[i]);
            }
        }
        lemma_replay_rows(front);
        let before = apply_all(Map::<Date, Span>::empty(), row_samples(front));
        let with_first = row_samples(front).push((last.date, last.earliest));
        let all = with_first.push((last.date, last.latest));
        assert(all.drop_last() =~= with_first);
        assert(with_first.drop_last() =~= row_samples(front));
        assert(rows.last().wf());
        assert(!before.contains_key(last.date)) by {
            if before.contains_key(last.date) {
                let j = choose|j: int| 0 <= j < front.len() && (#[trigger] front[j]).date == last.date;
                assert(rows[j].date.key() > rows[rows.len() - 1].date.key());
            }
        }
        assert(row_samples(rows) == all);
        let mid = apply_all(Map::<Date, Span>::empty(), with_first);
        assert(mid == upsert_spec(before, last.date, last.earliest));
        let after = apply_all(Map::<Date, Span>::empty(), all);
        assert(after == upsert_spec(mid, last.date, last.latest));
        assert(after =~= before.insert(last.date, (last.earliest, last.latest)));
        assert forall|d: Date| after.contains_key(d) implies
            exists|i: int| 0 <= i < rows.len() && (#[trigger] rows[i]).date == d by {
            if d == last.date {
                assert(rows[rows.len() - 1].date == d);
            } else {
                let j = choose|j: int| 0 <= j < front.len() && (#[trigger] front[j]).date == d;
                assert(rows[j].date == d);
            }
        }
        assert forall|i: int| 0 <= i < rows.len() implies
            after.contains_key((#[trigger] rows[i]).date) && after[rows[i].date] == rows[i].span() by {
            if i < rows.len() - 1 {
                assert(rows[i] == front[i]);
                assert(rows[i].date.key() > last.date.key());
            }
        }
    }
}

/// Rows in the order that `list` gives them are also strictly descending by
/// their stored `YYYY-MM-DD` text.
pub proof fn lemma_sorted_by_text(rs: Seq<DailyRecord>)
    requires
        sorted_records(rs),
    ensures
        forall|i: int, j: int| 0 <= i < j < rs.len() ==>
            lex_less(#[trigger] rs[j].date.iso(), #[trigger] rs[i].date.iso()),
{
    assert forall|i: int, j: int| 0 <= i < j < rs.len() implies
        lex_less(#[trigger] rs[j].date.iso(), #[trigger] rs[i].date.iso()) by {
        assert(rs[i].wf() && rs[j].wf());
        lemma_iso_order(rs[j].date, rs[i].date);
    }
}

/// The log, most recent date first.
pub struct DailyLog {
    records: Vec<DailyRecord>,
    model: Ghost<Map<Date, Span>>,
}

impl View for DailyLog {
    type V = Map<Date, Span>;

    closed spec fn view(&self) -> Map<Date, Span> {
        self.model@
    }
}

/// Dates that share a key are the same date.
pub proof fn lemma_key_injective(a: Date, b: Date)
    requires
        a.wf(),
        b.wf(),
        a.key() == b.key(),
    ensures
        a == b,
{
}

impl DailyLog {
    pub closed spec fn wf(&self) -> bool {
        &&& sorted_records(self.records@)
        &&& records_match(self.records@, self.model@)
    }

    /// An empty log.
    pub fn new() -> (r: DailyLog)
        ensures
            r.wf(),
            r@ == Map::<Date, Span>::empty(),
    {
        DailyLog { records: Vec::new(), model: Ghost(Map::empty()) }
    }

    /// The position of `date`'s record, or of the first record older than
    /// `date`: everything before it is more recent.
    fn find_slot(&self, date: &Date) -> (r: usize)
        requires
            self.wf(),
            date.wf(),
        ensures
            r <= self.records@.len(),
            forall|j: int| 0 <= j < r ==> self.records@[j].date.key() > date.key(),
            r < self.records@.len() ==> self.records@[r as int].date.key() <= date.key(),
    {
        let key = date.sort_key();
        let n = self.records.len();
        let mut i: usize = 0;
        while i < n && self.records[i].date.sort_key() > key
            invariant
                self.wf(),
                n == self.records@.len(),
                key == date.key(),
                0 <= i <= n,
                forall|j: int| 0 <= j < i ==> self.records@[j].date.key() > date.key(),
            decreases n - i,
        {
            proof {
                assert(self.records@[i as int].wf());
            }
            i += 1;
        }
        if i < n {
            proof {
                assert(self.records@[i as int].wf());
            }
        }
        i
    }

    /// Records one observation at `time` on `date` and returns the record
    /// of `date` as it now stands.
    pub fn upsert(&mut self, date: Date, time: TimeOfDay) -> (r: DailyRecord)
        requires
            old(self).wf(),
            date.wf(),
            time.wf(),
        ensures
            final(self).wf(),
            final(self)@ == upsert_spec(old(self)@, date, time),
            r.date == date,
            r.span() == final(self)@[date],
    {
        let i = self.find_slot(&date);
        let ghost old_recs = self.records@;
        let ghost old_model = self.model@;
        if i < self.records.len() && self.records[i].date.sort_key() == date.sort_key() {
            let cur = self.records[i];
            proof {
                assert(old_recs[i as int].wf());
                lemma_key_injective(cur.date, date);
            }
            let t = time.minutes_since_midnight();
            let earliest = if cur.earliest.minutes_since_midnight() <= t { cur.earliest } else { time };
            let latest = if cur.latest.minutes_since_midnight() >= t { cur.latest } else { time };
            let rec = DailyRecord { date, earliest, latest };
            self.records.set(i, rec);
            self.model = Ghost(upsert_spec(old_model, date, time));
            proof {
                assert(old_model.contains_key(date));
                assert(old_model[date] == cur.span());
                assert forall|j: int| 0 <= j < self.records@.len() && j != i implies
                    self.records@[j].date != date by {
                    assert(old_recs[j].date.key() != date.key());
                }
                assert forall|d: Date| self.model@.contains_key(d) implies
                    exists|j: int| 0 <= j < self.records@.len() && (#[trigger] self.records@[j]).date == d by {
                    if d == date {
                        assert(self.records@[i as int].date == d);
                    } else {
                        assert(old_model.contains_key(d));
                        let j = choose|j: int| 0 <= j < old_recs.len() && (#[trigger] old_recs[j]).date == d;
                        assert(self.records@[j].date == d);
                    }
                }
            }
            rec
        } else {
            let rec = DailyRecord { date, earliest: time, latest: time };
            proof {
                if i < old_recs.len() {
                    assert(old_recs[i as int].date.key() < date.key());
                }
                assert forall|j: int| 0 <= j < old_recs.len() implies
                    (#[trigger] old_recs[j]).date.key() != date.key() by {
                    if j > i {
                        assert(old_recs[j].date.key() < old_recs[i as int].date.key());
                    }
                }
                if old_model.contains_key(date) {
                    let j = choose|j: int| 0 <= j < old_recs.len() && (#[trigger] old_recs[j]).date == date;
                    assert(old_recs[j].date.key() != date.key());
                }
            }
            self.records.insert(i, rec);
            self.model = Ghost(upsert_spec(old_model, date, time));
            proof {
                let rs = self.records@;
                assert(rs == old_recs.insert(i as int, rec));
                assert forall|j: int| 0 <= j < rs.len() implies (#[trigger] rs[j]).wf() by {
                    if j < i {
                        assert(rs[j] == old_recs[j]);
                    } else if j > i {
                        assert(rs[j] == old_recs[j - 1]);
                    }
                }
                assert forall|a: int, b: int| 0 <= a < b < rs.len() implies
                    rs[a].date.key() > rs[b].date.key() by {
                    if b < i {
                    } else if b == i {
                    } else if a < i {
                        assert(rs[b] == old_recs[b - 1]);
                        assert(old_recs[b - 1].date.key() != date.key());
                        if b - 1 > i {
                            assert(old_recs[b - 1].date.key() < old_recs[i as int].date.key());
                        }
                    } else if a == i {
                        assert(rs[b] == old_recs[b - 1]);
                        if b - 1 > i {
                            assert(old_recs[b - 1].date.key() < old_recs[i as int].date.key());
                        }
                    } else {
                        assert(rs[a] == old_recs[a - 1]);
                        assert(rs[b] == old_recs[b - 1]);
                    }
                }
                assert forall|d: Date| self.model@.contains_key(d) implies
                    exists|j: int| 0 <= j < rs.len() && (#[trigger] rs[j]).date == d by {
                    if d == date {
                        assert(rs[i as int].date == d);
                    } else {
                        let j = choose|j: int| 0 <= j < old_recs.len() && (#[trigger] old_recs[j]).date == d;
                        if j < i {
                            assert(rs[j].date == d);
                        } else {
                            assert(rs[j + 1].date == d);
                        }
                    }
                }
                assert forall|j: int| 0 <= j < rs.len() implies
                    self.model@.contains_key((#[trigger] rs[j]).date) && self.model@[rs[j].date] == rs[j].span() by {
                    if j < i {
                        assert(rs[j] == old_recs[j]);
                        assert(old_recs[j].date != date);
                    } else if j > i {
                        assert(rs[j] == old_recs[j - 1]);
                        assert(old_recs[j - 1].date != date);
                    }
                }
            }
            rec
        }
    }

    /// Every record, most recent date first.
    pub fn list(&self) -> (r: Vec<DailyRecord>)
        requires
            self.wf(),
        ensures
            sorted_records(r@),
            records_match(r@, self@),
            r@.len() == self@.len(),
            forall|i: int, j: int| 0 <= i < j < r@.len() ==> r@[i].date != r@[j].date,
    {
        let mut out: Vec<DailyRecord> = Vec::new();
        let n = self.records.len();
        let mut i: usize = 0;
        while i < n
            invariant
                self.wf(),
                n == self.records@.len(),
                0 <= i <= n,
                out@ == self.records@.subrange(0, i as int),
            decreases n - i,
        {
            out.push(self.records[i]);
            i += 1;
            assert(out@ =~= self.records@.subrange(0, i as int));
        }
        assert(out@ =~= self.records@);
        proof {
            self.lemma_len();
        }
        out
    }

    /// The number of records equals the number of dates in the log.
    proof fn lemma_len(&self)
        requires
            self.wf(),
        ensures
            self.records@.len() == self@.len(),
    {
        let rs = self.records@;
        let ds = rs.map_values(|r: DailyRecord| r.date);
        assert(self@.dom() =~= ds.to_set()) by {
            assert forall|d: Date| self@.dom().contains(d) implies ds.to_set().contains(d) by {
                let j = choose|j: int| 0 <= j < rs.len() && (#[trigger] rs[j]).date == d;
                assert(ds[j] == d);
            }
            assert forall|d: Date| ds.to_set().contains(d) implies self@.dom().contains(d) by {
                let j = choose|j: int| 0 <= j < ds.len() && (#[trigger] ds[j]) == d;
                assert(rs[j].date == d);
            }
        }
        assert(ds.no_duplicates()) by {
            assert forall|a: int, b: int| 0 <= a < ds.len() && 0 <= b < ds.len() && a != b implies
                ds[a] != ds[b] by {
                if a < b {
                    assert(rs[a].date.key() > rs[b].date.key());
                } else {
                    assert(rs[b].date.key() > rs[a].date.key());
                }
            }
        }
        ds.unique_seq_to_set();
    }

    /// The record of `date`, if one was made.
    pub fn get(&self, date: Date) -> (r: Option<DailyRecord>)
        requires
            self.wf(),
            date.wf(),
        ensures
            r == (if self@.contains_key(date) {
                Some(DailyRecord { date, earliest: self@[date].0, latest: self@[date].1 })
            } else {
                None::<DailyRecord>
            }),
    {
        let i = self.find_slot(&date);
        if i < self.records.len() && self.records[i].date.sort_key() == date.sort_key() {
            let rec = self.records[i];
            proof {
                assert(self.records@[i as int].wf());
                lemma_key_injective(rec.date, date);
            }
            Some(rec)
        } else {
            proof {
                let rs = self.records@;
                if self@.contains_key(date) {
                    let j = choose|j: int| 0 <= j < rs.len() && (#[trigger] rs[j]).date == date;
                    if j > i {
                        assert(rs[j].date.key() < rs[i as int].date.key());
                    }
                }
            }
            None
        }
    }

    /// The number of dates in the log.
    pub fn len(&self) -> (r: usize)
        requires
            self.wf(),
        ensures
            r == self@.len(),
    {
        proof {
            self.lemma_len();
        }
        self.records.len()
    }

    /// A log rebuilt from stored rows, by replaying each row's earliest and
    /// latest time.
    pub fn from_records(rows: &Vec<DailyRecord>) -> (r: DailyLog)
        requires
            forall|i: int| 0 <= i < rows@.len() ==> (#[trigger] rows@[i]).wf(),
        ensures
            r.wf(),
            r@ == apply_all(Map::empty(), row_samples(rows@)),
    {
        let mut log = DailyLog::new();
        let n = rows.len();
        let mut i: usize = 0;
        while i < n
            invariant
                n == rows@.len(),
                0 <= i <= n,
                forall|k: int| 0 <= k < rows@.len() ==> (#[trigger] rows@[k]).wf(),
                log.wf(),
                log@ == apply_all(Map::empty(), row_samples(rows@.subrange(0, i as int))),
            decreases n - i,
        {
            let row = rows[i];
            assert(rows@[i as int].wf());
            log.upsert(row.date, row.earliest);
            log.upsert(row.date, row.latest);
            proof {
                let done = rows@.subrange(0, i + 1);
                assert(done.drop_last() =~= rows@.subrange(0, i as int));
                let prev = rows@.subrange(0, i as int);
                assert(done.last() == row);
                let with_first = row_samples(prev).push((row.date, row.earliest));
                let all = with_first.push((row.date, row.latest));
                assert(row_samples(done) == all);
                assert(all.drop_last() =~= with_first);
                assert(with_first.drop_last() =~= row_samples(prev));
                let mid = apply_all(Map::<Date, Span>::empty(), with_first);
                assert(mid == upsert_spec(apply_all(Map::<Date, Span>::empty(), row_samples(prev)), row.date, row.earliest));
                assert(apply_all(Map::<Date, Span>::empty(), all) == upsert_spec(mid, row.date, row.latest));
            }
            i += 1;
        }
        assert(rows@.subrange(0, n as int) =~= rows@);
        log
    }
}

} // verus!

//! Parsed sensor records and the aggregate reports over an ordered collection of them.

use crate::text::{parse_unsigned_range, token_bounds, token_range, unsigned_or_zero};
use crate::timestamp::{
    add_minutes, chars_of, pad_digits, push_padded, string_from_chars, timestamp_of, minutes_later, timestamp_from_chars, timestamp_in, Date, Timestamp,
};
use vstd::prelude::*;

verus! {

/// One record of the dataset: when it was taken, how many cars were counted, and the
/// line it was read from.
#[derive(Debug, Clone, PartialEq, Eq)]
pub struct CarCountEntry {
    pub timestamp: Timestamp,
    pub count: usize,
    pub raw_data: String,
}

/// What an entry holds, with its source line as a character sequence.
pub struct EntryView {
    pub timestamp: Timestamp,
    pub count: usize,
    pub raw: Seq<char>,
}

impl View for CarCountEntry {
    type V = EntryView;

    open spec fn view(&self) -> EntryView {
        EntryView { timestamp: self.timestamp, count: self.count, raw: self.raw_data@ }
    }
}

/// The entry that a dataset line denotes: its first whitespace-separated token is the
/// timestamp, its second the count (zero when malformed or missing); later tokens are
/// ignored and the whole line is kept.
pub open spec fn entry_of_line(line: Seq<char>) -> EntryView {
    let t = token_range(line, 0, 0);
    let c = token_range(line, 0, 1);
    EntryView {
        timestamp: timestamp_in(line, t.0, t.1),
        count: unsigned_or_zero(line.subrange(c.0, c.1), usize::MAX as int) as usize,
        raw: line,
    }
}

impl CarCountEntry {
    /// Makes an entry from a timestamp's text and a count; its line is the two, separated
    /// by a space.
    pub fn new(timestamp: String, count: usize) -> (r: Self)
        ensures
            r.timestamp == timestamp_of(timestamp@),
            r.count == count,
            r.raw_data@ == timestamp@ + seq![' '] + pad_digits(count as nat, 1),
    {
        let mut line = chars_of(timestamp.as_str());
        let t = timestamp_from_chars(&line, 0, line.len());
        line.push(' ');
        push_padded(&mut line, count as u64, 1);
        CarCountEntry { timestamp: t, count, raw_data: string_from_chars(line) }
    }

    /// Reads one dataset line.
    pub fn new_from_raw(raw_data: String) -> (r: Self)
        ensures
            r@ == entry_of_line(raw_data@),
    {
        let s = chars_of(raw_data.as_str());
        let (tl, th) = token_bounds(&s, 0);
        let (cl, ch) = token_bounds(&s, 1);
        let timestamp = timestamp_from_chars(&s, tl, th);
        let count = match parse_unsigned_range(&s, cl, ch, usize::MAX as u64) {
            Some(v) => v as usize,
            None => 0,
        };
        CarCountEntry { timestamp, count, raw_data }
    }

    /// Reads a timestamp from its text; malformed or missing numeric fields read as zero.
    pub fn parse_timestamp(timestamp: &str) -> (r: Timestamp)
        ensures
            r == crate::timestamp::timestamp_of(timestamp@),
    {
        crate::timestamp::parse_timestamp(timestamp)
    }

    /// A copy of the entry.
    pub fn duplicate(&self) -> (r: Self)
        ensures
            r@ == self@,
    {
        CarCountEntry {
            timestamp: self.timestamp,
            count: self.count,
            raw_data: self.raw_data.clone(),
        }
    }
}

/// The collection of entries, in the order of the dataset's lines.
pub struct CarCountsCollection {
    pub collection: Vec<CarCountEntry>,
}

impl View for CarCountsCollection {
    type V = Seq<EntryView>;

    open spec fn view(&self) -> Seq<EntryView> {
        self.collection@.map_values(|e: CarCountEntry| e@)
    }
}

/// Three entries in a row spanning 90 minutes: the total of their counts, the first
/// one's timestamp and the last one's.
#[derive(Clone, Copy, Debug, PartialEq, Eq, Structural)]
pub struct Window {
    pub total: u128,
    pub start: Timestamp,
    pub end: Timestamp,
}

/// Whether positions `i`, `i + 1`, `i + 2` hold timestamps exactly 0, 30 and 60 minutes
/// after the first.
pub open spec fn is_window(s: Seq<EntryView>, i: int) -> bool {
    &&& 0 <= i
    &&& i + 2 < s.len()
    &&& minutes_later(s[i].timestamp, 30) == Some(s[i + 1].timestamp)
    &&& minutes_later(s[i].timestamp, 60) == Some(s[i + 2].timestamp)
}

/// For each position, whether a 90-minute window starts there.
pub open spec fn contiguity(s: Seq<EntryView>) -> Seq<bool> {
    Seq::new(s.len(), |i: int| is_window(s, i))
}

pub open spec fn window_at(s: Seq<EntryView>, i: int) -> Window {
    Window {
        total: (s[i].count + s[i + 1].count + s[i + 2].count) as u128,
        start: s[i].timestamp,
        end: s[i + 2].timestamp,
    }
}

/// The windows that start before position `n`, in scan order, where `flags` says which
/// positions start one.
pub open spec fn windows_upto(s: Seq<EntryView>, flags: Seq<bool>, n: int) -> Seq<Window>
    decreases n,
{
    if n <= 0 {
        Seq::empty()
    } else {
        let w = windows_upto(s, flags, n - 1);
        let i = n - 1;
        if i + 2 < s.len() && flags[i] {
            w.push(window_at(s, i))
        } else {
            w
        }
    }
}

/// Places `w` after every window whose total is at most its own.
pub open spec fn insert_by_total(r: Seq<Window>, w: Window) -> Seq<Window>
    decreases r.len(),
{
    if r.len() == 0 || r.last().total <= w.total {
        r.push(w)
    } else {
        insert_by_total(r.drop_last(), w).push(r.last())
    }
}

/// Stable ascending sort of windows by total.
pub open spec fn rank_by_total(ws: Seq<Window>) -> Seq<Window>
    decreases ws.len(),
{
    if ws.len() == 0 {
        ws
    } else {
        insert_by_total(rank_by_total(ws.drop_last()), ws.last())
    }
}

proof fn lemma_insert_by_total_at(r: Seq<Window>, w: Window, p: int)
    requires
        0 <= p <= r.len(),
        forall|k: int| p <= k < r.len() ==> (#[trigger] r[k]).total > w.total,
        p == 0 || r[p - 1].total <= w.total,
    ensures
        insert_by_total(r, w) == r.insert(p, w),
    decreases r.len() - p,
{
    if p == r.len() {
        assert(r.push(w) =~= r.insert(p, w));
    } else {
        let q = r.drop_last();
        assert(r.last().total > w.total);
        lemma_insert_by_total_at(q, w, p);
        assert(q.insert(p, w).push(r.last()) =~= r.insert(p, w));
    }
}

/// Sum of the counts.
pub open spec fn total_count(s: Seq<EntryView>) -> int
    decreases s.len(),
{
    if s.len() == 0 {
        0
    } else {
        total_count(s.drop_last()) + s.last().count
    }
}

/// Sum of the counts of the entries taken on day `d`.
pub open spec fn day_total(s: Seq<EntryView>, d: Date) -> int
    decreases s.len(),
{
    if s.len() == 0 {
        0
    } else {
        day_total(s.drop_last(), d) + if s.last().timestamp.spec_date() == d {
            s.last().count as int
        } else {
            0
        }
    }
}

/// The days that occur in the entries, each once, in order of first appearance.
pub open spec fn unique_days(s: Seq<EntryView>) -> Seq<Date>
    decreases s.len(),
{
    if s.len() == 0 {
        Seq::empty()
    } else {
        let u = unique_days(s.drop_last());
        let d = s.last().timestamp.spec_date();
        if u.contains(d) {
            u
        } else {
            u.push(d)
        }
    }
}

/// Each day of the entries with its total, in order of first appearance.
pub open spec fn totals_by_day_of(s: Seq<EntryView>) -> Seq<(Date, u128)> {
    unique_days(s).map_values(|d: Date| (d, day_total(s, d) as u128))
}

/// Places `e` after every entry whose count is at least its own.
pub open spec fn insert_by_count(r: Seq<EntryView>, e: EntryView) -> Seq<EntryView>
    decreases r.len(),
{
    if r.len() == 0 || r.last().count >= e.count {
        r.push(e)
    } else {
        insert_by_count(r.drop_last(), e).push(r.last())
    }
}

/// Stable descending sort of entries by count.
pub open spec fn rank_by_count(s: Seq<EntryView>) -> Seq<EntryView>
    decreases s.len(),
{
    if s.len() == 0 {
        s
    } else {
        insert_by_count(rank_by_count(s.drop_last()), s.last())
    }
}

/// The (at most) three entries with the highest counts, highest first, ties in
/// collection order.
pub open spec fn top_three(s: Seq<EntryView>) -> Seq<EntryView> {
    let r = rank_by_count(s);
    if r.len() <= 3 {
        r
    } else {
        r.subrange(0, 3)
    }
}

proof fn lemma_insert_by_count_at(r: Seq<EntryView>, e: EntryView, p: int)
    requires
        0 <= p <= r.len(),
        forall|k: int| p <= k < r.len() ==> (#[trigger] r[k]).count < e.count,
        p == 0 || r[p - 1].count >= e.count,
    ensures
        insert_by_count(r, e) == r.insert(p, e),
    decreases r.len() - p,
{
    if p == r.len() {
        assert(r.push(e) =~= r.insert(p, e));
    } else {
        let q = r.drop_last();
        assert(r.last().count < e.count);
        lemma_insert_by_count_at(q, e, p);
        assert(q.insert(p, e).push(r.last()) =~= r.insert(p, e));
    }
}

proof fn lemma_insert_by_count_len(r: Seq<EntryView>, e: EntryView)
    ensures
        insert_by_count(r, e).len() == r.len() + 1,
    decreases r.len(),
{
    if r.len() > 0 && r.last().count < e.count {
        lemma_insert_by_count_len(r.drop_last(), e);
    }
}

proof fn lemma_rank_by_count_len(s: Seq<EntryView>)
    ensures
        rank_by_count(s).len() == s.len(),
    decreases s.len(),
{
    if s.len() > 0 {
        lemma_rank_by_count_len(s.drop_last());
        lemma_insert_by_count_len(rank_by_count(s.drop_last()), s.last());
    }
}

pub open spec fn descending_by_count(s: Seq<EntryView>) -> bool {
    forall|i: int, j: int| 0 <= i < j < s.len() ==> (#[trigger] s[i]).count >= (#[trigger] s[j]).count
}

pub open spec fn ascending_by_total(s: Seq<Window>) -> bool {
    forall|i: int, j: int| 0 <= i < j < s.len() ==> (#[trigger] s[i]).total <= (#[trigger] s[j]).total
}

proof fn lemma_insert_by_count_floor(r: Seq<EntryView>, e: EntryView, b: int)
    requires
        forall|k: int| 0 <= k < r.len() ==> (#[trigger] r[k]).count >= b,
        e.count >= b,
    ensures
        forall|k: int|
            0 <= k < insert_by_count(r, e).len() ==> (#[trigger] insert_by_count(r, e)[k]).count
                >= b,
    decreases r.len(),
{
    let x = insert_by_count(r, e);
    if r.len() > 0 && r.last().count < e.count {
        let q = r.drop_last();
        assert forall|k: int| 0 <= k < q.len() implies (#[trigger] q[k]).count >= b by {
            assert(q[k] == r[k]);
        }
        lemma_insert_by_count_floor(q, e, b);
        let y = insert_by_count(q, e);
        assert(x == y.push(r.last()));
        assert forall|k: int| 0 <= k < x.len() implies (#[trigger] x[k]).count >= b by {
            if k < y.len() {
                assert(x[k] == y[k]);
            }
        }
    } else {
        assert(x == r.push(e));
        assert forall|k: int| 0 <= k < x.len() implies (#[trigger] x[k]).count >= b by {
            if k < r.len() {
                assert(x[k] == r[k]);
            }
        }
    }
}

proof fn lemma_insert_by_count_sorted(r: Seq<EntryView>, e: EntryView)
    requires
        descending_by_count(r),
    ensures
        descending_by_count(insert_by_count(r, e)),
    decreases r.len(),
{
    lemma_insert_by_count_len(r, e);
    if r.len() > 0 && r.last().count < e.count {
        let q = r.drop_last();
        let l = r.last();
        lemma_insert_by_count_sorted(q, e);
        assert forall|k: int| 0 <= k < q.len() implies (#[trigger] q[k]).count >= l.count by {
            assert(r[k] == q[k]);
        }
        lemma_insert_by_count_floor(q, e, l.count as int);
    }
}

/// Ranking by count orders the entries from the highest count down and keeps all of them.
pub proof fn lemma_rank_by_count_sorted(s: Seq<EntryView>)
    ensures
        descending_by_count(rank_by_count(s)),
        rank_by_count(s).len() == s.len(),
    decreases s.len(),
{
    lemma_rank_by_count_len(s);
    if s.len() > 0 {
        lemma_rank_by_count_sorted(s.drop_last());
        lemma_insert_by_count_sorted(rank_by_count(s.drop_last()), s.last());
    }
}

proof fn lemma_insert_by_total_ceiling(r: Seq<Window>, w: Window, b: int)
    requires
        forall|k: int| 0 <= k < r.len() ==> (#[trigger] r[k]).total <= b,
        w.total <= b,
    ensures
        forall|k: int|
            0 <= k < insert_by_total(r, w).len() ==> (#[trigger] insert_by_total(r, w)[k]).total
                <= b,
    decreases r.len(),
{
    let x = insert_by_total(r, w);
    if r.len() > 0 && r.last().total > w.total {
        let q = r.drop_last();
        assert forall|k: int| 0 <= k < q.len() implies (#[trigger] q[k]).total <= b by {
            assert(q[k] == r[k]);
        }
        lemma_insert_by_total_ceiling(q, w, b);
        let y = insert_by_total(q, w);
        assert(x == y.push(r.last()));
        assert forall|k: int| 0 <= k < x.len() implies (#[trigger] x[k]).total <= b by {
            if k < y.len() {
                assert(x[k] == y[k]);
            }
        }
    } else {
        assert(x == r.push(w));
        assert forall|k: int| 0 <= k < x.len() implies (#[trigger] x[k]).total <= b by {
            if k < r.len() {
                assert(x[k] == r[k]);
            }
        }
    }
}

proof fn lemma_insert_by_total_len(r: Seq<Window>, w: Window)
    ensures
        insert_by_total(r, w).len() == r.len() + 1,
    decreases r.len(),
{
    if r.len() > 0 && r.last().total > w.total {
        lemma_insert_by_total_len(r.drop_last(), w);
    }
}

proof fn lemma_insert_by_total_sorted(r: Seq<Window>, w: Window)
    requires
        ascending_by_total(r),
    ensures
        ascending_by_total(insert_by_total(r, w)),
    decreases r.len(),
{
    lemma_insert_by_total_len(r, w);
    if r.len() > 0 && r.last().total > w.total {
        let q = r.drop_last();
        let l = r.last();
        lemma_insert_by_total_sorted(q, w);
        assert forall|k: int| 0 <= k < q.len() implies (#[trigger] q[k]).total <= l.total by {
            assert(r[k] == q[k]);
        }
        lemma_insert_by_total_ceiling(q, w, l.total as int);
    }
}

/// Ranking windows by total orders them from the lowest total up and keeps all of them.
pub proof fn lemma_rank_by_total_sorted(ws: Seq<Window>)
    ensures
        ascending_by_total(rank_by_total(ws)),
        rank_by_total(ws).len() == ws.len(),
    decreases ws.len(),
{
    if ws.len() > 0 {
        lemma_rank_by_total_sorted(ws.drop_last());
        lemma_insert_by_total_sorted(rank_by_total(ws.drop_last()), ws.last());
        lemma_insert_by_total_len(rank_by_total(ws.drop_last()), ws.last());
    }
}

/// With fewer than three entries no 90-minute window exists, whatever the contiguity
/// flags say, and the top three are all the entries, from the highest count down.
pub proof fn lemma_short_collection(s: Seq<EntryView>, flags: Seq<bool>)
    requires
        s.len() < 3,
    ensures
        rank_by_total(windows_upto(s, flags, s.len() as int)) == Seq::<Window>::empty(),
        top_three(s) == rank_by_count(s),
        top_three(s).len() == s.len(),
        descending_by_count(top_three(s)),
{
    lemma_no_windows_before(s, flags, s.len() as int);
    lemma_rank_by_count_sorted(s);
}

proof fn lemma_no_windows_before(s: Seq<EntryView>, flags: Seq<bool>, n: int)
    requires
        s.len() < 3,
        n <= s.len(),
    ensures
        windows_upto(s, flags, n) == Seq::<Window>::empty(),
    decreases n,
{
    if n > 0 {
        lemma_no_windows_before(s, flags, n - 1);
    }
}

/// A line whose count token is not an unsigned number in range still gives an entry: its
/// count is zero and it keeps the line.
pub proof fn lemma_malformed_count_is_zero(line: Seq<char>)
    requires
        crate::text::parse_unsigned(
            line.subrange(token_range(line, 0, 1).0, token_range(line, 0, 1).1),
            usize::MAX as int,
        ) is None,
    ensures
        entry_of_line(line).count == 0,
        entry_of_line(line).raw == line,
{
}

/// The reports depend on the entries alone: computed twice over the same collection,
/// each gives the same result.
pub proof fn lemma_reports_repeatable(a: Seq<EntryView>, b: Seq<EntryView>)
    requires
        a == b,
    ensures
        total_count(a) == total_count(b),
        totals_by_day_of(a) == totals_by_day_of(b),
        top_three(a) == top_three(b),
        rank_by_total(windows_upto(a, contiguity(a), a.len() as int)) == rank_by_total(
            windows_upto(b, contiguity(b), b.len() as int),
        ),
{
}

impl CarCountsCollection {
    /// Builds the collection from the dataset's lines, one entry per line, in order.
    pub fn new_from_lines(lines: &Vec<String>) -> (r: Self)
        ensures
            r@.len() == lines@.len(),
            forall|i: int| 0 <= i < lines@.len() ==> r@[i] == entry_of_line(#[trigger] lines@[i]@),
    {
        let mut v: Vec<CarCountEntry> = Vec::new();
        let mut i: usize = 0;
        while i < lines.len()
            invariant
                i <= lines.len(),
                v.len() == i,
                forall|k: int| 0 <= k < i ==> (#[trigger] v@[k])@ == entry_of_line(lines@[k]@),
            decreases lines.len() - i,
        {
            let e = CarCountEntry::new_from_raw(lines[i].clone());
            v.push(e);
            i = i + 1;
        }
        CarCountsCollection { collection: v }
    }

    /// Sum of the counts of all entries.
    pub fn total_cars_counted(&self) -> (r: u128)
        ensures
            r == total_count(self@),
    {
        let mut total: u128 = 0;
        let mut i: usize = 0;
        while i < self.collection.len()
            invariant
                i <= self.collection.len(),
                total == total_count(self@.subrange(0, i as int)),
                total <= i * (usize::MAX as int),
            decreases self.collection.len() - i,
        {
            let c = self.collection[i].count;
            proof {
                assert(self@.subrange(0, i + 1).drop_last() =~= self@.subrange(0, i as int));
                assert(total + c <= (i + 1) * (usize::MAX as int)) by (nonlinear_arith)
                    requires
                        total <= i * (usize::MAX as int),
                        c <= usize::MAX,
                ;
                assert((i + 1) * (usize::MAX as int) <= u128::MAX) by (nonlinear_arith)
                    requires
                        i < usize::MAX,
                        usize::MAX <= u64::MAX,
                ;
            }
            total = total + c as u128;
            i = i + 1;
        }
        assert(self@.subrange(0, i as int) =~= self@);
        total
    }

    /// Sum of the counts of the entries taken on `day`.
    pub fn total_for_day(&self, day: Date) -> (r: u128)
        ensures
            r == day_total(self@, day),
    {
        let mut total: u128 = 0;
        let mut i: usize = 0;
        while i < self.collection.len()
            invariant
                i <= self.collection.len(),
                total == day_total(self@.subrange(0, i as int), day),
                total <= i * (usize::MAX as int),
            decreases self.collection.len() - i,
        {
            let e = &self.collection[i];
            proof {
                assert(self@.subrange(0, i + 1).drop_last() =~= self@.subrange(0, i as int));
                let c = e.count;
                assert(total + c <= (i + 1) * (usize::MAX as int)) by (nonlinear_arith)
                    requires
                        total <= i * (usize::MAX as int),
                        c <= usize::MAX,
                ;
                assert((i + 1) * (usize::MAX as int) <= u128::MAX) by (nonlinear_arith)
                    requires
                        i < usize::MAX,
                        usize::MAX <= u64::MAX,
                ;
                assert(i * (usize::MAX as int) <= (i + 1) * (usize::MAX as int)) by (nonlinear_arith);
            }
            if e.timestamp.date() == day {
                total = total + e.count as u128;
            }
            i = i + 1;
        }
        assert(self@.subrange(0, i as int) =~= self@);
        total
    }

    /// The days that occur in the collection, each once, in order of first appearance.
    pub fn count_unique_days(&self) -> (r: Vec<Date>)
        ensures
            r@ == unique_days(self@),
    {
        let mut days: Vec<Date> = Vec::new();
        let mut i: usize = 0;
        while i < self.collection.len()
            invariant
                i <= self.collection.len(),
                days@ == unique_days(self@.subrange(0, i as int)),
            decreases self.collection.len() - i,
        {
            let d = self.collection[i].timestamp.date();
            let mut seen = false;
            let mut j: usize = 0;
            while j < days.len()
                invariant
                    j <= days.len(),
                    seen <==> exists|k: int| 0 <= k < j && days@[k] == d,
                decreases days.len() - j,
            {
                if days[j] == d {
                    seen = true;
                }
                j = j + 1;
            }
            proof {
                assert(self@.subrange(0, i + 1).drop_last() =~= self@.subrange(0, i as int));
                if seen {
                    let k = choose|k: int| 0 <= k < j && days@[k] == d;
                    assert(days@.contains(d));
                }
            }
            if !seen {
                days.push(d);
            }
            i = i + 1;
        }
        assert(self@.subrange(0, i as int) =~= self@);
        days
    }

    /// Each day of the collection with its total count, in order of first appearance.
    pub fn total_cars_counted_by_day(&self) -> (r: Vec<(Date, u128)>)
        ensures
            r@ == totals_by_day_of(self@),
    {
        let days = self.count_unique_days();
        let mut r: Vec<(Date, u128)> = Vec::new();
        let mut i: usize = 0;
        while i < days.len()
            invariant
                i <= days.len(),
                days@ == unique_days(self@),
                r@ == totals_by_day_of(self@).subrange(0, i as int),
            decreases days.len() - i,
        {
            let t = self.total_for_day(days[i]);
            r.push((days[i], t));
            proof {
                assert(r@ =~= totals_by_day_of(self@).subrange(0, i + 1));
            }
            i = i + 1;
        }
        assert(totals_by_day_of(self@).subrange(0, i as int) =~= totals_by_day_of(self@));
        r
    }

    /// The three entries with the highest counts (all of them when there are fewer), highest
    /// first; entries with equal counts keep their collection order.
    pub fn top_three_counts(&self) -> (r: Vec<CarCountEntry>)
        ensures
            r@.map_values(|e: CarCountEntry| e@) == top_three(self@),
            r.len() == if self@.len() < 3 {
                self@.len()
            } else {
                3
            },
            forall|i: int, j: int| 0 <= i < j < r.len() ==> r[i].count >= r[j].count,
    {
        let mut ranked: Vec<CarCountEntry> = Vec::new();
        let mut i: usize = 0;
        while i < self.collection.len()
            invariant
                i <= self.collection.len(),
                ranked@.map_values(|e: CarCountEntry| e@) == rank_by_count(
                    self@.subrange(0, i as int),
                ),
            decreases self.collection.len() - i,
        {
            let e = self.collection[i].duplicate();
            let ghost rv = ranked@.map_values(|e: CarCountEntry| e@);
            let mut p = ranked.len();
            while p > 0 && ranked[p - 1].count < e.count
                invariant
                    p <= ranked.len(),
                    rv == ranked@.map_values(|e: CarCountEntry| e@),
                    forall|k: int| p <= k < ranked.len() ==> (#[trigger] rv[k]).count < e.count,
                decreases p,
            {
                p = p - 1;
            }
            proof {
                lemma_insert_by_count_at(rv, e@, p as int);
                assert(self@.subrange(0, i + 1).drop_last() =~= self@.subrange(0, i as int));
            }
            ranked.insert(p, e);
            proof {
                assert(ranked@.map_values(|e: CarCountEntry| e@) =~= rv.insert(p as int, e@));
            }
            i = i + 1;
        }
        assert(self@.subrange(0, i as int) =~= self@);
        proof {
            lemma_rank_by_count_sorted(self@);
        }
        if ranked.len() > 3 {
            ranked.truncate(3);
            assert(ranked@.map_values(|e: CarCountEntry| e@) =~= rank_by_count(self@).subrange(0, 3));
        }
        proof {
            let rv = ranked@.map_values(|e: CarCountEntry| e@);
            assert forall|i: int, j: int| 0 <= i < j < ranked.len() implies ranked[i].count
                >= ranked[j].count by {
                assert(rv[i] == rank_by_count(self@)[i]);
                assert(rv[j] == rank_by_count(self@)[j]);
            }
        }
        ranked
    }

    /// Ranks the 90-minute windows, where `contiguous[i]` says whether positions `i`,
    /// `i + 1`, `i + 2` are 30 minutes apart each: ascending by total, windows with equal
    /// totals in scan order.
    pub fn rank_windows(&self, contiguous: &Vec<bool>) -> (r: Vec<Window>)
        requires
            contiguous.len() == self.collection.len(),
        ensures
            r@ == rank_by_total(windows_upto(self@, contiguous@, self@.len() as int)),
    {
        let n = self.collection.len();
        let mut ranked: Vec<Window> = Vec::new();
        let mut i: usize = 0;
        while i < n
            invariant
                n == self.collection.len() == contiguous.len(),
                i <= n,
                ranked@ == rank_by_total(windows_upto(self@, contiguous@, i as int)),
            decreases n - i,
        {
            let ghost before = windows_upto(self@, contiguous@, i as int);
            if n >= 2 && i < n - 2 && contiguous[i] {
                let a = &self.collection[i];
                let b = &self.collection[i + 1];
                let c = &self.collection[i + 2];
                let w = Window {
                    total: a.count as u128 + b.count as u128 + c.count as u128,
                    start: a.timestamp,
                    end: c.timestamp,
                };
                assert(w == window_at(self@, i as int));
                let mut p = ranked.len();
                while p > 0 && ranked[p - 1].total > w.total
                    invariant
                        p <= ranked.len(),
                        forall|k: int| p <= k < ranked.len() ==> (#[trigger] ranked[k]).total > w.total,
                    decreases p,
                {
                    p = p - 1;
                }
                proof {
                    lemma_insert_by_total_at(ranked@, w, p as int);
                    assert(before.push(w).drop_last() =~= before);
                }
                ranked.insert(p, w);
            }
            i = i + 1;
        }
        ranked
    }

    /// All 90-minute windows of the collection, ranked ascending by total; windows with
    /// equal totals stay in scan order. Empty when there is none.
    pub fn lowest_90min_total(&self) -> (r: Vec<Window>)
        ensures
            r@ == rank_by_total(windows_upto(self@, contiguity(self@), self@.len() as int)),
            forall|i: int, j: int| 0 <= i < j < r.len() ==> r[i].total <= r[j].total,
    {
        let n = self.collection.len();
        let mut flags: Vec<bool> = Vec::new();
        let mut i: usize = 0;
        while i < n
            invariant
                n == self.collection.len(),
                i <= n,
                flags.len() == i,
                forall|k: int| 0 <= k < i ==> flags[k] == is_window(self@, k),
            decreases n - i,
        {
            let mut ok = false;
            if n >= 2 && i < n - 2 {
                let start = self.collection[i].timestamp;
                let half = match add_minutes(start, 30) {
                    Some(t) => t == self.collection[i + 1].timestamp,
                    None => false,
                };
                let hour = match add_minutes(start, 60) {
                    Some(t) => t == self.collection[i + 2].timestamp,
                    None => false,
                };
                ok = half && hour;
            }
            flags.push(ok);
            i = i + 1;
        }
        assert(flags@ =~= contiguity(self@));
        let r = self.rank_windows(&flags);
        proof {
            lemma_rank_by_total_sorted(windows_upto(self@, contiguity(self@), self@.len() as int));
        }
        r
    }
}

} // verus!

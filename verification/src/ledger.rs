//! The ledger: per-activity running totals and per-day hour entries.
//!
//! A `Ledger` is the in-memory image of the persistent store: a list of
//! activities, each with its running total, and the history of day entries,
//! kept strictly sorted by (date, activity).  The central invariant of the
//! data model — every activity's running total equals the sum of its day
//! entries — is the `consistent` predicate; ingestion and removal preserve
//! it.

use vstd::prelude::*;

use crate::calendar::Date;
use crate::calendar::day_number;
use crate::calendar::iso_week_of;
use crate::calendar::lemma_day_number_injective;
use crate::calendar::spec_day_number;
use crate::calendar::spec_iso_week;
use crate::calendar::spec_iso_week_year;
use crate::calendar::valid_date;
use crate::sums::lemma_psum_all_zero;
use crate::sums::lemma_psum_elem_le;
use crate::sums::lemma_psum_insert;
use crate::sums::lemma_psum_le_total;
use crate::sums::lemma_psum_remove;
use crate::sums::lemma_psum_unique;
use crate::sums::lemma_psum_update;
use crate::sums::p_true;
use crate::sums::psum;
use vstd::pervasive::VecAdditionalExecFns;

verus! {

/// One row of the history: hours (as micro-hours) recorded for one
/// activity on one calendar date, with the date's denormalized ISO week.
#[derive(Clone, Copy, Debug, PartialEq, Eq, Structural)]
pub struct DayEntry {
    pub id: i32,
    pub date: Date,
    pub isoweek: u8,
    pub isoweekyear: i32,
    pub micro: u64,
}

/// One activity with its running total in micro-hours.
#[derive(Clone, Debug)]
pub struct ActivityRecord {
    pub id: i32,
    pub name: String,
    pub micro: u64,
}

/// An activity as shown to callers that list activities: id and name only.
#[derive(Clone, Debug)]
pub struct ActivitiesRow {
    pub id: i32,
    pub name: String,
}

/// A well-formed day entry: a valid date whose stored ISO week fields
/// agree with the date.
pub open spec fn wf_entry(e: DayEntry) -> bool {
    &&& valid_date(e.date)
    &&& e.isoweek == spec_iso_week(e.date)
    &&& e.isoweekyear == spec_iso_week_year(e.date)
}

/// The history's strict order: by day number, then by activity id.
pub open spec fn hist_lt(a: DayEntry, b: DayEntry) -> bool {
    ||| spec_day_number(a.date) < spec_day_number(b.date)
    ||| (spec_day_number(a.date) == spec_day_number(b.date) && a.id < b.id)
}

/// The predicate selecting one activity's entry on one date.
pub open spec fn p_id_date(id: i32, d: Date) -> spec_fn(DayEntry) -> bool {
    |e: DayEntry| e.id == id && e.date == d
}

/// A strict order between every adjacent pair extends to every pair.
pub proof fn lemma_hist_sorted_pairwise(s: Seq<DayEntry>)
    requires
        forall|i: int| 0 <= i < s.len() - 1 ==> hist_lt(#[trigger] s[i], s[i + 1]),
    ensures
        forall|i: int, j: int| 0 <= i < j < s.len() ==> hist_lt(#[trigger] s[i], #[trigger] s[j]),
{
    assert forall|i: int, j: int| 0 <= i < j < s.len() implies hist_lt(s[i], s[j]) by {
        lemma_hist_chain(s, i, j);
    }
}

proof fn lemma_hist_chain(s: Seq<DayEntry>, i: int, j: int)
    requires
        forall|k: int| 0 <= k < s.len() - 1 ==> hist_lt(#[trigger] s[k], s[k + 1]),
        0 <= i < j < s.len(),
    ensures
        hist_lt(s[i], s[j]),
    decreases j - i,
{
    if i + 1 < j {
        lemma_hist_chain(s, i, j - 1);
    }
}

/// The persistent store's image: activities and day-entry history.
pub struct Ledger {
    activities: Vec<ActivityRecord>,
    history: Vec<DayEntry>,
    sum_micro: u64,
}

/// Most day entries the ledger accepts; keeps every count representable.
pub const HISTORY_CAP: usize = 100_000_000;

impl Ledger {
    /// The activities, in ascending order of id.
    pub closed spec fn acts(self) -> Seq<ActivityRecord> {
        self.activities@
    }

    /// The history, sorted by (date, activity id).
    pub closed spec fn hist(self) -> Seq<DayEntry> {
        self.history@
    }

    /// The cached grand total agrees with the history.
    pub closed spec fn sum_cached(self) -> bool {
        self.sum_micro == psum(self.hist(), p_true())
    }

    /// Structural well-formedness: activity ids nonzero and strictly
    /// ascending; history entries well formed, strictly sorted, and few
    /// enough; the grand total representable and cached correctly.
    pub open spec fn wf(self) -> bool {
        &&& forall|i: int| 0 <= i < self.acts().len() ==> (#[trigger] self.acts()[i]).id != 0
        &&& forall|i: int|
            0 <= i < self.acts().len() - 1 ==> (#[trigger] self.acts()[i]).id < self.acts()[i
                + 1].id
        &&& self.hist().len() <= HISTORY_CAP
        &&& forall|i: int| 0 <= i < self.hist().len() ==> wf_entry(#[trigger] self.hist()[i])
        &&& forall|i: int|
            0 <= i < self.hist().len() - 1 ==> hist_lt(
                #[trigger] self.hist()[i],
                self.hist()[i + 1],
            )
        &&& 0 <= psum(self.hist(), p_true()) <= u64::MAX
        &&& self.sum_cached()
    }

    /// Whether an activity with this id exists.
    pub open spec fn has_activity(self, id: i32) -> bool {
        exists|i: int| 0 <= i < self.acts().len() && (#[trigger] self.acts()[i]).id == id
    }

    /// The running total of the activity with this id, zero if absent.
    pub open spec fn total_of(self, id: i32) -> int {
        if self.has_activity(id) {
            self.acts()[choose|i: int|
                0 <= i < self.acts().len() && (#[trigger] self.acts()[i]).id == id].micro as int
        } else {
            0
        }
    }

    /// Whether a day entry exists for this activity and date.
    pub open spec fn has_entry(self, id: i32, d: Date) -> bool {
        seq_has_entry(self.hist(), id, d)
    }

    /// The hours recorded for this activity on this date, in micro-hours.
    pub open spec fn hours_on(self, id: i32, d: Date) -> int {
        psum(self.hist(), p_id_date(id, d))
    }

    /// The central cross-entity invariant: every activity's running total
    /// equals the sum of that activity's day entries.
    pub open spec fn consistent(self) -> bool {
        forall|i: int|
            0 <= i < self.acts().len() ==> (#[trigger] self.acts()[i]).micro as int == psum(
                self.hist(),
                p_of_id(self.acts()[i].id),
            )
    }

    /// The sum of every day entry's micro-hours.
    pub open spec fn grand_total(self) -> int {
        psum(self.hist(), p_true())
    }

    /// An empty ledger: no activities, no history.
    pub fn new() -> (r: Ledger)
        ensures
            r.wf(),
            r.consistent(),
            r.acts().len() == 0,
            r.hist().len() == 0,
    {
        Ledger { activities: Vec::new(), history: Vec::new(), sum_micro: 0 }
    }

    /// Borrow the history rows, sorted by (date, activity id).
    pub fn history_rows(&self) -> (r: &Vec<DayEntry>)
        ensures
            r@ == self.hist(),
    {
        &self.history
    }

    /// Borrow the activity records, in ascending order of id.
    pub fn activity_records(&self) -> (r: &Vec<ActivityRecord>)
        ensures
            r@ == self.acts(),
    {
        &self.activities
    }

    /// The running total of the activity with this id, zero if absent.
    pub fn total_micro_of(&self, id: i32) -> (r: u64)
        requires
            self.wf(),
        ensures
            r as int == self.total_of(id),
    {
        match find_activity(&self.activities, id) {
            Some(i) => {
                proof {
                    lemma_total_at(*self, i as int);
                }
                self.activities[i].micro
            },
            None => 0,
        }
    }
}

/// The predicate selecting one activity's entries.
pub open spec fn p_of_id(id: i32) -> spec_fn(DayEntry) -> bool {
    |e: DayEntry| e.id == id
}

/// A point in local time: a date, the second of the day, and the UTC
/// offset that the local clock had at that moment.
#[derive(Clone, Copy, Debug, PartialEq, Eq, Structural)]
pub struct Timestamp {
    pub date: Date,
    pub sec_of_day: u32,
    pub offset_sec: i32,
}

/// A well-formed timestamp: a valid date, a second within the day, and an
/// offset within the eighteen hours either way that real clocks use.
pub open spec fn wf_timestamp(t: Timestamp) -> bool {
    &&& valid_date(t.date)
    &&& t.sec_of_day < 86400
    &&& -64800 <= t.offset_sec <= 64800
}

/// Seconds of a timestamp on the absolute (UTC) time line.
pub open spec fn spec_utc_sec(t: Timestamp) -> int {
    spec_day_number(t.date) * 86400 + t.sec_of_day - t.offset_sec
}

/// Seconds of a timestamp on the absolute (UTC) time line.
pub fn utc_sec(t: Timestamp) -> (r: i64)
    requires
        wf_timestamp(t),
    ensures
        r == spec_utc_sec(t),
        r > 0,
{
    proof {
        crate::calendar::lemma_day_number_bounds(t.date);
    }
    day_number(t.date) as i64 * 86400 + t.sec_of_day as i64 - t.offset_sec as i64
}

/// Seconds turned into micro-hours, rounded to nearest: the fixed-point
/// image of rounding hours to six decimal digits.
pub open spec fn spec_micro_of_sec(s: int) -> int {
    (s * 2500 + 4) / 9
}

/// Seconds turned into micro-hours, rounded to nearest.
pub fn micro_of_sec(s: u64) -> (r: u64)
    requires
        s <= 86400,
    ensures
        r == spec_micro_of_sec(s as int),
        r <= 24_000_000,
{
    (s * 2500 + 4) / 9
}

/// The rounding in `spec_micro_of_sec` is accurate to half a micro-hour:
/// nine times the result stays within four of 2500 times the seconds.
pub proof fn lemma_micro_of_sec_accuracy(s: int)
    requires
        s >= 0,
    ensures
        -4 <= 9 * spec_micro_of_sec(s) - 2500 * s <= 4,
{
    vstd::arithmetic::div_mod::lemma_fundamental_div_mod(s * 2500 + 4, 9);
}

/// What `enter` reports on success.
#[derive(Clone, Copy, Debug, PartialEq, Eq, Structural)]
pub enum EnterOutcome {
    /// The interval lasted a day or longer; nothing was recorded.
    TooLong,
    /// The interval lay within one day: its date, the day's new
    /// micro-hours, and the activity's new running total.
    Single { date: Date, day_micro: u64, total_micro: u64 },
    /// The interval crossed midnight: both dates, each day's new
    /// micro-hours, and the activity's new running total.
    Split {
        first_date: Date,
        first_micro: u64,
        second_date: Date,
        second_micro: u64,
        total_micro: u64,
    },
}

/// What the ledger's operations can fail with.
#[derive(Clone, Copy, Debug, PartialEq, Eq, Structural)]
pub enum LedgerError {
    /// Recoverable: no activity carries the given id.
    NoSuchActivity,
    /// Recoverable: no history entry exists to remove.
    NoSuchEntry,
    /// Recoverable: the year asked about lies before the first entry.
    OutOfScope,
    /// Recoverable: the history holds no entries at all.
    NoEntries,
    /// Fatal integrity failure: a removal would drive a running total
    /// negative, so totals and day entries have already diverged.
    CorruptTotals,
    /// Fatal integrity failure: a midnight split would land on a date
    /// that already has an entry for the activity.
    EntryCollision,
    /// Fatal integrity failure: loaded rows do not form a well-formed
    /// ledger (bad dates, wrong ISO fields, rows out of order, duplicate
    /// keys, or totals beyond the stored width).
    MalformedRows,
    /// Machine limit: a total would not fit its stored width.
    Overflow,
    /// Machine limit: the history cannot take further entries.
    CapacityExceeded,
}

/// Activity ids that ascend pairwise ascend between every pair.
pub proof fn lemma_acts_sorted_pairwise(s: Seq<ActivityRecord>)
    requires
        forall|i: int| 0 <= i < s.len() - 1 ==> (#[trigger] s[i]).id < s[i + 1].id,
    ensures
        forall|i: int, j: int| 0 <= i < j < s.len() ==> (#[trigger] s[i]).id < (#[trigger] s[j]).id,
{
    assert forall|i: int, j: int| 0 <= i < j < s.len() implies s[i].id < s[j].id by {
        lemma_acts_chain(s, i, j);
    }
}

proof fn lemma_acts_chain(s: Seq<ActivityRecord>, i: int, j: int)
    requires
        forall|k: int| 0 <= k < s.len() - 1 ==> (#[trigger] s[k]).id < s[k + 1].id,
        0 <= i < j < s.len(),
    ensures
        s[i].id < s[j].id,
    decreases j - i,
{
    if i + 1 < j {
        lemma_acts_chain(s, i, j - 1);
    }
}

/// Well-formed history sequence: entries well formed and strictly sorted.
pub open spec fn hist_wf_seq(s: Seq<DayEntry>) -> bool {
    &&& forall|i: int| 0 <= i < s.len() ==> wf_entry(#[trigger] s[i])
    &&& forall|i: int| 0 <= i < s.len() - 1 ==> hist_lt(#[trigger] s[i], s[i + 1])
}

/// Whether the sequence holds an entry for this activity and date.
pub open spec fn seq_has_entry(s: Seq<DayEntry>, id: i32, d: Date) -> bool {
    exists|i: int| 0 <= i < s.len() && (#[trigger] s[i]).id == id && s[i].date == d
}

/// The history's strict order on bare keys.
pub open spec fn key_lt(dna: int, ida: i32, dnb: int, idb: i32) -> bool {
    dna < dnb || (dna == dnb && ida < idb)
}

/// Find the entry with the given day number and activity id.
fn find_entry(hist: &Vec<DayEntry>, dn: u64, id: i32) -> (r: Option<usize>)
    requires
        forall|i: int| 0 <= i < hist@.len() ==> wf_entry(#[trigger] hist@[i]),
    ensures
        match r {
            Some(i) => i < hist@.len() && spec_day_number(hist@[i as int].date) == dn && hist@[
                i as int
            ].id == id,
            None => forall|j: int|
                0 <= j < hist@.len() ==> !(spec_day_number((#[trigger] hist@[j]).date) == dn
                    && hist@[j].id == id),
        },
{
    let mut i: usize = 0;
    while i < hist.len()
        invariant
            i <= hist@.len(),
            forall|i0: int| 0 <= i0 < hist@.len() ==> wf_entry(#[trigger] hist@[i0]),
            forall|j: int|
                0 <= j < i ==> !(spec_day_number((#[trigger] hist@[j]).date) == dn && hist@[j].id
                    == id),
        decreases hist@.len() - i,
    {
        let e = hist[i];
        if day_number(e.date) == dn && e.id == id {
            return Some(i);
        }
        i = i + 1;
    }
    None
}

/// Where an entry with the given key belongs in the sorted history.
fn insert_pos(hist: &Vec<DayEntry>, dn: u64, id: i32) -> (r: usize)
    requires
        hist_wf_seq(hist@),
    ensures
        r <= hist@.len(),
        forall|j: int|
            0 <= j < r ==> key_lt(
                spec_day_number((#[trigger] hist@[j]).date),
                hist@[j].id,
                dn as int,
                id,
            ),
        forall|j: int|
            r <= j < hist@.len() ==> !key_lt(
                spec_day_number((#[trigger] hist@[j]).date),
                hist@[j].id,
                dn as int,
                id,
            ),
{
    let mut i: usize = 0;
    while i < hist.len()
        invariant
            i <= hist@.len(),
            hist_wf_seq(hist@),
            forall|j: int|
                0 <= j < i ==> key_lt(
                    spec_day_number((#[trigger] hist@[j]).date),
                    hist@[j].id,
                    dn as int,
                    id,
                ),
        decreases hist@.len() - i,
    {
        let e = hist[i];
        let edn = day_number(e.date);
        if !(edn < dn || (edn == dn && e.id < id)) {
            proof {
                lemma_hist_sorted_pairwise(hist@);
            }
            return i;
        }
        i = i + 1;
    }
    hist.len()
}

/// Add micro-hours to one activity's entry on one date, creating the
/// entry when it is absent.  Returns the day's new micro-hours.
#[verifier::rlimit(60)]
fn add_to_day(hist: &mut Vec<DayEntry>, id: i32, d: Date, wk: u8, wkyy: i32, add: u64) -> (r: u64)
    requires
        hist_wf_seq(old(hist)@),
        valid_date(d),
        wk == spec_iso_week(d),
        wkyy == spec_iso_week_year(d),
        psum(old(hist)@, p_true()) + add <= u64::MAX,
        old(hist)@.len() < HISTORY_CAP,
    ensures
        hist_wf_seq(final(hist)@),
        final(hist)@.len() == old(hist)@.len() + (if seq_has_entry(old(hist)@, id, d) {
            0int
        } else {
            1int
        }),
        psum(final(hist)@, p_true()) == psum(old(hist)@, p_true()) + add,
        psum(final(hist)@, p_id_date(id, d)) == psum(old(hist)@, p_id_date(id, d)) + add,
        r as int == psum(final(hist)@, p_id_date(id, d)),
        psum(final(hist)@, p_of_id(id)) == psum(old(hist)@, p_of_id(id)) + add,
        forall|id2: i32|
            id2 != id ==> psum(final(hist)@, #[trigger] p_of_id(id2)) == psum(
                old(hist)@,
                p_of_id(id2),
            ),
        forall|id2: i32, d2: Date|
            !(id2 == id && d2 == d) ==> psum(final(hist)@, #[trigger] p_id_date(id2, d2)) == psum(
                old(hist)@,
                p_id_date(id2, d2),
            ),
        seq_has_entry(final(hist)@, id, d),
        forall|id2: i32, d2: Date|
            !(id2 == id && d2 == d) ==> #[trigger] seq_has_entry(final(hist)@, id2, d2)
                == seq_has_entry(old(hist)@, id2, d2),
{
    let dn = day_number(d);
    let found = find_entry(hist, dn, id);
    match found {
        Some(k) => {
            let e = hist[k];
            proof {
                if e.date != d {
                    lemma_day_number_injective(e.date, d);
                }
                lemma_hist_sorted_pairwise(hist@);
                assert forall|j: int| 0 <= j < hist@.len() && j != k implies !(p_id_date(id, d)(
                    #[trigger] hist@[j],
                )) by {
                    if hist@[j].id == id && hist@[j].date == d {
                        assert(spec_day_number(hist@[j].date) == spec_day_number(d));
                    }
                }
                lemma_psum_unique(hist@, p_id_date(id, d), k as int);
                lemma_psum_elem_le(hist@, p_true(), k as int);
            }
            let newe = DayEntry {
                id: e.id,
                date: e.date,
                isoweek: e.isoweek,
                isoweekyear: e.isoweekyear,
                micro: e.micro + add,
            };
            let ghost oldseq = hist@;
            hist.set(k, newe);
            proof {
                assert forall|i: int| 0 <= i < hist@.len() - 1 implies hist_lt(
                    #[trigger] hist@[i],
                    hist@[i + 1],
                ) by {
                    assert(hist_lt(oldseq[i], oldseq[i + 1]));
                }
                lemma_psum_update(oldseq, p_true(), k as int, newe);
                lemma_psum_update(oldseq, p_id_date(id, d), k as int, newe);
                lemma_psum_update(oldseq, p_of_id(id), k as int, newe);
                assert forall|id2: i32| id2 != id implies psum(hist@, #[trigger] p_of_id(id2))
                    == psum(oldseq, p_of_id(id2)) by {
                    lemma_psum_update(oldseq, p_of_id(id2), k as int, newe);
                }
                assert forall|id2: i32, d2: Date| !(id2 == id && d2 == d) implies psum(
                    hist@,
                    #[trigger] p_id_date(id2, d2),
                ) == psum(oldseq, p_id_date(id2, d2)) by {
                    lemma_psum_update(oldseq, p_id_date(id2, d2), k as int, newe);
                }
                assert(seq_has_entry(hist@, id, d)) by {
                    assert(hist@[k as int].id == id && hist@[k as int].date == d);
                }
                assert forall|id2: i32, d2: Date| !(id2 == id && d2 == d) implies #[trigger] seq_has_entry(
                    hist@,
                    id2,
                    d2,
                ) == seq_has_entry(oldseq, id2, d2) by {
                    if seq_has_entry(oldseq, id2, d2) {
                        let j = choose|j: int|
                            0 <= j < oldseq.len() && (#[trigger] oldseq[j]).id == id2 && oldseq[
                                j
                            ].date == d2;
                        assert(hist@[j].id == id2 && hist@[j].date == d2);
                    }
                    if seq_has_entry(hist@, id2, d2) {
                        let j = choose|j: int|
                            0 <= j < hist@.len() && (#[trigger] hist@[j]).id == id2 && hist@[
                                j
                            ].date == d2;
                        assert(oldseq[j].id == id2 && oldseq[j].date == d2);
                    }
                }
            }
            e.micro + add
        },
        None => {
            let pos = insert_pos(hist, dn, id);
            proof {
                assert forall|j: int| 0 <= j < hist@.len() implies !(p_id_date(id, d)(
                    #[trigger] hist@[j],
                )) by {
                    if hist@[j].id == id && hist@[j].date == d {
                        assert(spec_day_number(hist@[j].date) == spec_day_number(d));
                    }
                }
                lemma_psum_all_zero(hist@, p_id_date(id, d));
                lemma_psum_le_total(hist@, p_id_date(id, d));
            }
            let newe = DayEntry { id, date: d, isoweek: wk, isoweekyear: wkyy, micro: add };
            let ghost oldseq = hist@;
            hist.insert(pos, newe);
            proof {
                lemma_hist_sorted_pairwise(oldseq);
                assert forall|i: int| 0 <= i < hist@.len() - 1 implies hist_lt(
                    #[trigger] hist@[i],
                    hist@[i + 1],
                ) by {
                    if i + 1 < pos {
                        assert(hist@[i] == oldseq[i] && hist@[i + 1] == oldseq[i + 1]);
                    } else if i + 1 == pos {
                        assert(hist@[i] == oldseq[i] && hist@[i + 1] == newe);
                    } else if i == pos {
                        assert(hist@[i] == newe && hist@[i + 1] == oldseq[i]);
                        assert(!(spec_day_number(oldseq[i].date) == dn && oldseq[i].id == id));
                    } else {
                        assert(hist@[i] == oldseq[i - 1] && hist@[i + 1] == oldseq[i]);
                    }
                }
                assert forall|i: int| 0 <= i < hist@.len() implies wf_entry(#[trigger] hist@[i]) by {
                    if i < pos {
                        assert(hist@[i] == oldseq[i]);
                    } else if i > pos {
                        assert(hist@[i] == oldseq[i - 1]);
                    }
                }
                lemma_psum_insert(oldseq, p_true(), pos as int, newe);
                lemma_psum_insert(oldseq, p_id_date(id, d), pos as int, newe);
                lemma_psum_insert(oldseq, p_of_id(id), pos as int, newe);
                assert forall|id2: i32| id2 != id implies psum(hist@, #[trigger] p_of_id(id2))
                    == psum(oldseq, p_of_id(id2)) by {
                    lemma_psum_insert(oldseq, p_of_id(id2), pos as int, newe);
                }
                assert forall|id2: i32, d2: Date| !(id2 == id && d2 == d) implies psum(
                    hist@,
                    #[trigger] p_id_date(id2, d2),
                ) == psum(oldseq, p_id_date(id2, d2)) by {
                    lemma_psum_insert(oldseq, p_id_date(id2, d2), pos as int, newe);
                }
                assert(seq_has_entry(hist@, id, d)) by {
                    assert(hist@[pos as int].id == id && hist@[pos as int].date == d);
                }
                assert forall|id2: i32, d2: Date| !(id2 == id && d2 == d) implies #[trigger] seq_has_entry(
                    hist@,
                    id2,
                    d2,
                ) == seq_has_entry(oldseq, id2, d2) by {
                    if seq_has_entry(oldseq, id2, d2) {
                        let j = choose|j: int|
                            0 <= j < oldseq.len() && (#[trigger] oldseq[j]).id == id2 && oldseq[
                                j
                            ].date == d2;
                        if j < pos {
                            assert(hist@[j].id == id2 && hist@[j].date == d2);
                        } else {
                            assert(hist@[j + 1].id == id2 && hist@[j + 1].date == d2);
                        }
                    }
                    if seq_has_entry(hist@, id2, d2) {
                        let j = choose|j: int|
                            0 <= j < hist@.len() && (#[trigger] hist@[j]).id == id2 && hist@[
                                j
                            ].date == d2;
                        if j < pos {
                            assert(oldseq[j].id == id2 && oldseq[j].date == d2);
                        } else if j > pos {
                            assert(oldseq[j - 1].id == id2 && oldseq[j - 1].date == d2);
                        }
                    }
                }
            }
            add
        },
    }
}

/// True elapsed seconds between two timestamps, offsets respected.
pub open spec fn spec_duration_sec(beg: Timestamp, end: Timestamp) -> int {
    spec_utc_sec(end) - spec_utc_sec(beg)
}

/// The rounded micro-hours an interval adds to the running total.
pub open spec fn spec_entry_micro(beg: Timestamp, end: Timestamp) -> int {
    spec_micro_of_sec(spec_duration_sec(beg, end))
}

/// Whether the interval's end falls on a later calendar date than its
/// start.  An end date on or before the start date (possible across an
/// eastbound offset change) means no split.
pub open spec fn spec_crosses_midnight(beg: Timestamp, end: Timestamp) -> bool {
    spec_day_number(beg.date) < spec_day_number(end.date)
}

/// Micro-hours attributed to the start date of a split interval: the
/// naive wall-clock time until the next midnight, but never more than the
/// whole duration.  The remainder — and with it any discrepancy from an
/// offset change inside the interval — always falls to the later part.
pub open spec fn spec_till_midnight_micro(beg: Timestamp, end: Timestamp) -> int {
    let m = spec_entry_micro(beg, end);
    let t = spec_micro_of_sec(86400 - beg.sec_of_day);
    if t <= m {
        t
    } else {
        m
    }
}

/// The first reason `enter` must refuse an interval shorter than a day,
/// if there is one, in the order the checks are made.
pub open spec fn spec_enter_check(l: Ledger, beg: Timestamp, end: Timestamp, actid: i32) -> Option<
    LedgerError,
> {
    let m = spec_entry_micro(beg, end);
    if !l.has_activity(actid) {
        Some(LedgerError::NoSuchActivity)
    } else if l.hist().len() + 2 > HISTORY_CAP {
        Some(LedgerError::CapacityExceeded)
    } else if l.total_of(actid) + m > u64::MAX || l.grand_total() + m > u64::MAX {
        Some(LedgerError::Overflow)
    } else if spec_crosses_midnight(beg, end) && l.has_entry(actid, end.date) {
        Some(LedgerError::EntryCollision)
    } else {
        None
    }
}

/// Two ledgers with the same activities and the same history.
pub open spec fn same_ledger(a: Ledger, b: Ledger) -> bool {
    a.acts() == b.acts() && a.hist() == b.hist()
}

/// What a successful `enter` does to the ledger: the running total grows
/// by the rounded duration, and the touched day entries grow by parts
/// that sum to exactly that amount; everything else stays as it was.
pub open spec fn enter_applied(
    oldl: Ledger,
    newl: Ledger,
    beg: Timestamp,
    end: Timestamp,
    actid: i32,
) -> bool {
    let m = spec_entry_micro(beg, end);
    let till = spec_till_midnight_micro(beg, end);
    &&& newl.acts().len() == oldl.acts().len()
    &&& forall|i: int|
        0 <= i < newl.acts().len() ==> (#[trigger] newl.acts()[i]).id == oldl.acts()[i].id
            && newl.acts()[i].name == oldl.acts()[i].name
    &&& newl.total_of(actid) == oldl.total_of(actid) + m
    &&& forall|id2: i32| id2 != actid ==> newl.total_of(id2) == oldl.total_of(id2)
    &&& forall|id2: i32| newl.has_activity(id2) == oldl.has_activity(id2)
    &&& newl.grand_total() == oldl.grand_total() + m
    &&& if !spec_crosses_midnight(beg, end) {
        &&& newl.hours_on(actid, beg.date) == oldl.hours_on(actid, beg.date) + m
        &&& newl.has_entry(actid, beg.date)
        &&& forall|id2: i32, d2: Date|
            !(id2 == actid && d2 == beg.date) ==> newl.hours_on(id2, d2) == oldl.hours_on(id2, d2)
                && newl.has_entry(id2, d2) == oldl.has_entry(id2, d2)
        &&& newl.hist().len() == oldl.hist().len() + (if oldl.has_entry(actid, beg.date) {
            0int
        } else {
            1int
        })
    } else {
        &&& newl.hours_on(actid, beg.date) == oldl.hours_on(actid, beg.date) + till
        &&& oldl.hours_on(actid, end.date) == 0
        &&& newl.hours_on(actid, end.date) == m - till
        &&& newl.has_entry(actid, beg.date)
        &&& newl.has_entry(actid, end.date)
        &&& forall|id2: i32, d2: Date|
            !(id2 == actid && (d2 == beg.date || d2 == end.date)) ==> newl.hours_on(id2, d2)
                == oldl.hours_on(id2, d2) && newl.has_entry(id2, d2) == oldl.has_entry(id2, d2)
        &&& newl.hist().len() == oldl.hist().len() + 1 + (if oldl.has_entry(actid, beg.date) {
            0int
        } else {
            1int
        })
    }
}

/// Find the index of the activity with the given id.
fn find_activity(acts: &Vec<ActivityRecord>, id: i32) -> (r: Option<usize>)
    ensures
        match r {
            Some(i) => i < acts@.len() && acts@[i as int].id == id,
            None => forall|j: int| 0 <= j < acts@.len() ==> (#[trigger] acts@[j]).id != id,
        },
{
    let mut i: usize = 0;
    while i < acts.len()
        invariant
            i <= acts@.len(),
            forall|j: int| 0 <= j < i ==> (#[trigger] acts@[j]).id != id,
        decreases acts@.len() - i,
    {
        if acts[i].id == id {
            return Some(i);
        }
        i = i + 1;
    }
    None
}

/// With strictly ascending ids, the total of the id at an index is that
/// record's own total.
proof fn lemma_total_at(l: Ledger, i: int)
    requires
        forall|k: int| 0 <= k < l.acts().len() - 1 ==> (#[trigger] l.acts()[k]).id < l.acts()[k
            + 1].id,
        0 <= i < l.acts().len(),
    ensures
        l.has_activity(l.acts()[i].id),
        l.total_of(l.acts()[i].id) == l.acts()[i].micro as int,
{
    lemma_acts_sorted_pairwise(l.acts());
    let id = l.acts()[i].id;
    assert(0 <= i < l.acts().len() && l.acts()[i].id == id);
    assert(l.has_activity(id));
    let k = choose|k: int| 0 <= k < l.acts().len() && (#[trigger] l.acts()[k]).id == id;
    if k < i {
        assert(l.acts()[k].id < l.acts()[i].id);
    } else if k > i {
        assert(l.acts()[i].id < l.acts()[k].id);
    }
}

/// Replacing one activity record by another with the same id moves that
/// id's total to the new record's and leaves every other total alone.
proof fn lemma_acts_update_totals(oldl: Ledger, newl: Ledger, i: int, newrec: ActivityRecord)
    requires
        forall|k: int|
            0 <= k < oldl.acts().len() - 1 ==> (#[trigger] oldl.acts()[k]).id < oldl.acts()[k
                + 1].id,
        0 <= i < oldl.acts().len(),
        newl.acts() == oldl.acts().update(i, newrec),
        newrec.id == oldl.acts()[i].id,
    ensures
        forall|id2: i32| #[trigger] newl.has_activity(id2) == oldl.has_activity(id2),
        newl.total_of(newrec.id) == newrec.micro as int,
        forall|id2: i32|
            id2 != newrec.id ==> #[trigger] newl.total_of(id2) == oldl.total_of(id2),
        forall|k: int|
            0 <= k < newl.acts().len() - 1 ==> (#[trigger] newl.acts()[k]).id < newl.acts()[k
                + 1].id,
{
    assert(forall|k: int|
        0 <= k < newl.acts().len() ==> (#[trigger] newl.acts()[k]).id == oldl.acts()[k].id);
    assert forall|id2: i32| #[trigger] newl.has_activity(id2) == oldl.has_activity(id2) by {
        if oldl.has_activity(id2) {
            let k = choose|k: int|
                0 <= k < oldl.acts().len() && (#[trigger] oldl.acts()[k]).id == id2;
            assert(newl.acts()[k].id == id2);
        }
        if newl.has_activity(id2) {
            let k = choose|k: int|
                0 <= k < newl.acts().len() && (#[trigger] newl.acts()[k]).id == id2;
            assert(oldl.acts()[k].id == id2);
        }
    }
    lemma_acts_sorted_pairwise(oldl.acts());
    assert forall|k: int|
        0 <= k < newl.acts().len() - 1 implies (#[trigger] newl.acts()[k]).id < newl.acts()[k
        + 1].id by {
        assert(oldl.acts()[k].id < oldl.acts()[k + 1].id);
    }
    lemma_total_at(newl, i);
    assert forall|id2: i32| id2 != newrec.id implies #[trigger] newl.total_of(id2)
        == oldl.total_of(id2) by {
        if oldl.has_activity(id2) {
            let k = choose|k: int|
                0 <= k < oldl.acts().len() && (#[trigger] oldl.acts()[k]).id == id2;
            assert(k != i);
            lemma_total_at(oldl, k);
            lemma_total_at(newl, k);
            assert(newl.acts()[k] == oldl.acts()[k]);
        }
    }
}

impl Ledger {
    /// Record a tracked interval for an activity: split it at local
    /// midnight when its dates differ, add the parts to the affected day
    /// entries, and add the whole rounded duration to the running total.
    /// Intervals of a day or longer are refused as a no-op.
    pub fn enter(&mut self, beg: Timestamp, end: Timestamp, actid: i32) -> (r: Result<
        EnterOutcome,
        LedgerError,
    >)
        requires
            old(self).wf(),
            wf_timestamp(beg),
            wf_timestamp(end),
            spec_utc_sec(beg) < spec_utc_sec(end),
        ensures
            final(self).wf(),
            old(self).consistent() ==> final(self).consistent(),
            spec_duration_sec(beg, end) >= 86400 ==> r == Ok::<EnterOutcome, LedgerError>(
                EnterOutcome::TooLong,
            ) && same_ledger(*old(self), *final(self)),
            spec_duration_sec(beg, end) < 86400 ==> match spec_enter_check(
                *old(self),
                beg,
                end,
                actid,
            ) {
                Some(e) => r == Err::<EnterOutcome, LedgerError>(e) && same_ledger(
                    *old(self),
                    *final(self),
                ),
                None => {
                    &&& enter_applied(*old(self), *final(self), beg, end, actid)
                    &&& !spec_crosses_midnight(beg, end) ==> r == Ok::<EnterOutcome, LedgerError>(
                        (EnterOutcome::Single {
                            date: beg.date,
                            day_micro: final(self).hours_on(actid, beg.date) as u64,
                            total_micro: final(self).total_of(actid) as u64,
                        }),
                    )
                    &&& spec_crosses_midnight(beg, end) ==> r == Ok::<EnterOutcome, LedgerError>(
                        (EnterOutcome::Split {
                            first_date: beg.date,
                            first_micro: final(self).hours_on(actid, beg.date) as u64,
                            second_date: end.date,
                            second_micro: final(self).hours_on(actid, end.date) as u64,
                            total_micro: final(self).total_of(actid) as u64,
                        }),
                    )
                },
            },
    {
        let ub = utc_sec(beg);
        let ue = utc_sec(end);
        let dur_s = (ue - ub) as u64;
        if dur_s >= 86400 {
            return Ok(EnterOutcome::TooLong);
        }
        let m = micro_of_sec(dur_s);
        let act_idx = match find_activity(&self.activities, actid) {
            Some(i) => i,
            None => {
                return Err(LedgerError::NoSuchActivity);
            },
        };
        proof {
            lemma_total_at(*self, act_idx as int);
        }
        if self.history.len() + 2 > HISTORY_CAP {
            return Err(LedgerError::CapacityExceeded);
        }
        let total = self.activities[act_idx].micro;
        if m > u64::MAX - total || m > u64::MAX - self.sum_micro {
            return Err(LedgerError::Overflow);
        }
        let dn_b = day_number(beg.date);
        let dn_e = day_number(end.date);
        let wb = iso_week_of(beg.date);
        let ghost oldl = *self;
        if dn_b < dn_e {
            // The interval crosses midnight: attribute the naive time to
            // the next midnight to the start date (capped by the whole
            // duration) and the remainder to the end date.
            match find_entry(&self.history, dn_e, actid) {
                Some(k) => {
                    proof {
                        let e = self.hist()[k as int];
                        if e.date != end.date {
                            lemma_day_number_injective(e.date, end.date);
                        }
                        assert(oldl.has_entry(actid, end.date));
                    }
                    return Err(LedgerError::EntryCollision);
                },
                None => {
                    proof {
                        assert forall|j: int|
                            0 <= j < self.hist().len() implies !((#[trigger] self.hist()[j]).id
                            == actid && self.hist()[j].date == end.date) by {
                            if self.hist()[j].id == actid && self.hist()[j].date == end.date {
                                assert(spec_day_number(self.hist()[j].date) == dn_e);
                            }
                        }
                        assert(!oldl.has_entry(actid, end.date));
                    }
                },
            }
            let till_raw = micro_of_sec(86400 - beg.sec_of_day as u64);
            let till = if till_raw <= m {
                till_raw
            } else {
                m
            };
            let from = m - till;
            let we = iso_week_of(end.date);
            proof {
                assert forall|j: int|
                    0 <= j < oldl.hist().len() implies !(p_id_date(actid, end.date)(
                    #[trigger] oldl.hist()[j],
                )) by {}
                lemma_psum_all_zero(oldl.hist(), p_id_date(actid, end.date));
            }
            let d1 = add_to_day(&mut self.history, actid, beg.date, wb.0, wb.1, till);
            let d2 = add_to_day(&mut self.history, actid, end.date, we.0, we.1, from);
            let name = self.activities[act_idx].name.clone();
            self.activities.set(
                act_idx,
                ActivityRecord { id: actid, name, micro: total + m },
            );
            self.sum_micro = self.sum_micro + m;
            proof {
                lemma_enter_acts_finish(oldl, *self, act_idx as int, actid, (total + m) as u64);
            }
            Ok(
                EnterOutcome::Split {
                    first_date: beg.date,
                    first_micro: d1,
                    second_date: end.date,
                    second_micro: d2,
                    total_micro: total + m,
                },
            )
        } else {
            let d1 = add_to_day(&mut self.history, actid, beg.date, wb.0, wb.1, m);
            let name = self.activities[act_idx].name.clone();
            self.activities.set(
                act_idx,
                ActivityRecord { id: actid, name, micro: total + m },
            );
            self.sum_micro = self.sum_micro + m;
            proof {
                lemma_enter_acts_finish(oldl, *self, act_idx as int, actid, (total + m) as u64);
            }
            Ok(
                EnterOutcome::Single {
                    date: beg.date,
                    day_micro: d1,
                    total_micro: total + m,
                },
            )
        }
    }
}

/// What a successful `remove` does to the ledger: the one day entry is
/// gone, and the running total has shrunk by exactly its hours.
pub open spec fn remove_applied(oldl: Ledger, newl: Ledger, date: Date, actid: i32) -> bool {
    let h = oldl.hours_on(actid, date);
    &&& newl.acts().len() == oldl.acts().len()
    &&& forall|i: int|
        0 <= i < newl.acts().len() ==> (#[trigger] newl.acts()[i]).id == oldl.acts()[i].id
            && newl.acts()[i].name == oldl.acts()[i].name
    &&& newl.total_of(actid) == oldl.total_of(actid) - h
    &&& forall|id2: i32| id2 != actid ==> newl.total_of(id2) == oldl.total_of(id2)
    &&& forall|id2: i32| newl.has_activity(id2) == oldl.has_activity(id2)
    &&& newl.grand_total() == oldl.grand_total() - h
    &&& !newl.has_entry(actid, date)
    &&& newl.hours_on(actid, date) == 0
    &&& forall|id2: i32, d2: Date|
        !(id2 == actid && d2 == date) ==> newl.hours_on(id2, d2) == oldl.hours_on(id2, d2)
            && newl.has_entry(id2, d2) == oldl.has_entry(id2, d2)
    &&& newl.hist().len() == oldl.hist().len() - 1
}

/// Removing one entry from a sorted history: what stays sorted, what the
/// sums become, and that the removed key's entry was the only one.
#[verifier::rlimit(60)]
proof fn lemma_hist_remove(s: Seq<DayEntry>, k: int)
    requires
        forall|i: int| 0 <= i < s.len() ==> wf_entry(#[trigger] s[i]),
        forall|i: int| 0 <= i < s.len() - 1 ==> hist_lt(#[trigger] s[i], s[i + 1]),
        0 <= k < s.len(),
    ensures
        forall|i: int| 0 <= i < s.remove(k).len() ==> wf_entry(#[trigger] s.remove(k)[i]),
        forall|i: int|
            0 <= i < s.remove(k).len() - 1 ==> hist_lt(
                #[trigger] s.remove(k)[i],
                s.remove(k)[i + 1],
            ),
        psum(s, p_id_date(s[k].id, s[k].date)) == s[k].micro as int,
        psum(s.remove(k), p_true()) == psum(s, p_true()) - s[k].micro,
        psum(s.remove(k), p_of_id(s[k].id)) == psum(s, p_of_id(s[k].id)) - s[k].micro,
        psum(s.remove(k), p_id_date(s[k].id, s[k].date)) == 0,
        !seq_has_entry(s.remove(k), s[k].id, s[k].date),
        forall|id2: i32|
            id2 != s[k].id ==> psum(s.remove(k), #[trigger] p_of_id(id2)) == psum(s, p_of_id(id2)),
        forall|id2: i32, d2: Date|
            !(id2 == s[k].id && d2 == s[k].date) ==> psum(s.remove(k), #[trigger] p_id_date(id2, d2))
                == psum(s, p_id_date(id2, d2)),
        forall|id2: i32, d2: Date|
            !(id2 == s[k].id && d2 == s[k].date) ==> #[trigger] seq_has_entry(
                s.remove(k),
                id2,
                d2,
            ) == seq_has_entry(s, id2, d2),
{
    let t = s.remove(k);
    let id = s[k].id;
    let d = s[k].date;
    lemma_hist_sorted_pairwise(s);
    assert forall|j: int| 0 <= j < s.len() && j != k implies !(p_id_date(id, d)(
        #[trigger] s[j],
    )) by {
        if s[j].id == id && s[j].date == d {
            assert(spec_day_number(s[j].date) == spec_day_number(d));
        }
    }
    lemma_psum_unique(s, p_id_date(id, d), k);
    assert forall|i: int| 0 <= i < t.len() - 1 implies hist_lt(#[trigger] t[i], t[i + 1]) by {
        if i < k - 1 {
            assert(t[i] == s[i] && t[i + 1] == s[i + 1]);
        } else if i == k - 1 {
            assert(t[i] == s[i] && t[i + 1] == s[i + 2]);
            assert(hist_lt(s[i], s[i + 2]));
        } else {
            assert(t[i] == s[i + 1] && t[i + 1] == s[i + 2]);
        }
    }
    assert forall|i: int| 0 <= i < t.len() implies wf_entry(#[trigger] t[i]) by {
        if i < k {
            assert(t[i] == s[i]);
        } else {
            assert(t[i] == s[i + 1]);
        }
    }
    lemma_psum_remove(s, p_true(), k);
    lemma_psum_remove(s, p_of_id(id), k);
    lemma_psum_remove(s, p_id_date(id, d), k);
    assert forall|j: int| 0 <= j < t.len() implies !(p_id_date(id, d)(#[trigger] t[j])) by {
        if j < k {
            assert(t[j] == s[j]);
        } else {
            assert(t[j] == s[j + 1]);
        }
    }
    assert(!seq_has_entry(t, id, d));
    assert forall|id2: i32| id2 != id implies psum(t, #[trigger] p_of_id(id2)) == psum(
        s,
        p_of_id(id2),
    ) by {
        lemma_psum_remove(s, p_of_id(id2), k);
    }
    assert forall|id2: i32, d2: Date| !(id2 == id && d2 == d) implies psum(
        t,
        #[trigger] p_id_date(id2, d2),
    ) == psum(s, p_id_date(id2, d2)) by {
        lemma_psum_remove(s, p_id_date(id2, d2), k);
    }
    assert forall|id2: i32, d2: Date| !(id2 == id && d2 == d) implies #[trigger] seq_has_entry(
        t,
        id2,
        d2,
    ) == seq_has_entry(s, id2, d2) by {
        if seq_has_entry(s, id2, d2) {
            let j = choose|j: int|
                0 <= j < s.len() && (#[trigger] s[j]).id == id2 && s[j].date == d2;
            if j < k {
                assert(t[j].id == id2 && t[j].date == d2);
            } else {
                assert(t[j - 1].id == id2 && t[j - 1].date == d2);
            }
        }
        if seq_has_entry(t, id2, d2) {
            let j = choose|j: int|
                0 <= j < t.len() && (#[trigger] t[j]).id == id2 && t[j].date == d2;
            if j < k {
                assert(s[j].id == id2 && s[j].date == d2);
            } else {
                assert(s[j + 1].id == id2 && s[j + 1].date == d2);
            }
        }
    }
}

impl Ledger {
    /// Remove one day entry outright: delete the row for the given date
    /// and activity and take its hours off the running total.  The
    /// absence of such a row is a reported error; a total that would go
    /// negative is the fatal kind, for it means the stored totals and the
    /// day entries have already diverged.
    pub fn remove(&mut self, date: Date, actid: i32) -> (r: Result<u64, LedgerError>)
        requires
            old(self).wf(),
            valid_date(date),
            actid > 0,
        ensures
            final(self).wf(),
            old(self).consistent() ==> final(self).consistent(),
            !old(self).has_entry(actid, date) ==> r == Err::<u64, LedgerError>(
                LedgerError::NoSuchEntry,
            ) && same_ledger(*old(self), *final(self)),
            old(self).has_entry(actid, date) && (!old(self).has_activity(actid) || old(
                self,
            ).total_of(actid) < old(self).hours_on(actid, date)) ==> r == Err::<u64, LedgerError>(
                LedgerError::CorruptTotals,
            ) && same_ledger(*old(self), *final(self)),
            old(self).has_entry(actid, date) && old(self).has_activity(actid) && old(self).total_of(
                actid,
            ) >= old(self).hours_on(actid, date) ==> {
                &&& r == Ok::<u64, LedgerError>((old(self).hours_on(actid, date)) as u64)
                &&& remove_applied(*old(self), *final(self), date, actid)
            },
            old(self).consistent() && old(self).has_entry(actid, date) && old(self).has_activity(
                actid,
            ) ==> r is Ok,
    {
        let dn = day_number(date);
        let k = match find_entry(&self.history, dn, actid) {
            Some(k) => k,
            None => {
                proof {
                    assert forall|j: int|
                        0 <= j < self.hist().len() implies !((#[trigger] self.hist()[j]).id
                        == actid && self.hist()[j].date == date) by {
                        if self.hist()[j].id == actid && self.hist()[j].date == date {
                            assert(spec_day_number(self.hist()[j].date) == dn);
                        }
                    }
                }
                return Err(LedgerError::NoSuchEntry);
            },
        };
        proof {
            let e = self.hist()[k as int];
            if e.date != date {
                lemma_day_number_injective(e.date, date);
            }
            assert(self.has_entry(actid, date));
            lemma_hist_remove(self.hist(), k as int);
        }
        let h = self.history[k].micro;
        let act_idx = match find_activity(&self.activities, actid) {
            Some(i) => i,
            None => {
                return Err(LedgerError::CorruptTotals);
            },
        };
        proof {
            lemma_total_at(*self, act_idx as int);
            if old(self).consistent() {
                crate::sums::lemma_psum_le_impl(self.hist(), p_id_date(actid, date), p_of_id(actid));
            }
        }
        let total = self.activities[act_idx].micro;
        if total < h {
            return Err(LedgerError::CorruptTotals);
        }
        let ghost oldl = *self;
        proof {
            lemma_psum_elem_le(self.hist(), p_true(), k as int);
        }
        self.history.remove(k);
        let name = self.activities[act_idx].name.clone();
        self.activities.set(act_idx, ActivityRecord { id: actid, name, micro: total - h });
        self.sum_micro = self.sum_micro - h;
        proof {
            lemma_enter_acts_finish(oldl, *self, act_idx as int, actid, (total - h) as u64);
        }
        Ok(h)
    }
}

/// After the history mutations of `enter`, updating the activity record
/// and the cached sum re-establishes well-formedness, the totals, and the
/// central invariant.
proof fn lemma_enter_acts_finish(
    oldl: Ledger,
    newl: Ledger,
    i: int,
    actid: i32,
    newtotal: u64,
)
    requires
        oldl.wf(),
        0 <= i < oldl.acts().len(),
        oldl.acts()[i].id == actid,
        newl.acts() == oldl.acts().update(
            i,
            ActivityRecord { id: actid, name: newl.acts()[i].name, micro: newtotal },
        ),
        newl.acts()[i].micro == newtotal,
        forall|i0: int| 0 <= i0 < newl.hist().len() ==> wf_entry(#[trigger] newl.hist()[i0]),
        forall|i0: int|
            0 <= i0 < newl.hist().len() - 1 ==> hist_lt(
                #[trigger] newl.hist()[i0],
                newl.hist()[i0 + 1],
            ),
        newl.hist().len() <= HISTORY_CAP,
        newl.sum_micro == psum(newl.hist(), p_true()),
        psum(newl.hist(), p_of_id(actid)) == psum(oldl.hist(), p_of_id(actid)) + newtotal
            - oldl.acts()[i].micro,
        forall|id2: i32|
            id2 != actid ==> psum(newl.hist(), #[trigger] p_of_id(id2)) == psum(
                oldl.hist(),
                p_of_id(id2),
            ),
    ensures
        newl.wf(),
        oldl.consistent() ==> newl.consistent(),
        newl.total_of(actid) == newtotal as int,
        forall|id2: i32| id2 != actid ==> #[trigger] newl.total_of(id2) == oldl.total_of(id2),
        forall|id2: i32| #[trigger] newl.has_activity(id2) == oldl.has_activity(id2),
{
    lemma_acts_update_totals(oldl, newl, i, newl.acts()[i]);
    if oldl.consistent() {
        lemma_acts_sorted_pairwise(oldl.acts());
        assert forall|k: int|
            0 <= k < newl.acts().len() implies (#[trigger] newl.acts()[k]).micro as int == psum(
            newl.hist(),
            p_of_id(newl.acts()[k].id),
        ) by {
            if k == i {
                assert(oldl.acts()[i].micro as int == psum(oldl.hist(), p_of_id(actid)));
            } else {
                assert(newl.acts()[k] == oldl.acts()[k]);
                assert(oldl.acts()[k].id != actid);
                assert(oldl.acts()[k].micro as int == psum(oldl.hist(), p_of_id(oldl.acts()[k].id)));
            }
        }
    }
}

/// Whether loaded rows form a well-formed ledger as they stand: activity
/// ids nonzero and strictly ascending; history entries on valid dates
/// with correct ISO fields, strictly sorted by (date, id), few enough,
/// and with a representable grand total.
pub open spec fn wf_rows(acts: Seq<ActivityRecord>, hist: Seq<DayEntry>) -> bool {
    &&& forall|i: int| 0 <= i < acts.len() ==> (#[trigger] acts[i]).id != 0
    &&& forall|i: int| 0 <= i < acts.len() - 1 ==> (#[trigger] acts[i]).id < acts[i + 1].id
    &&& hist.len() <= HISTORY_CAP
    &&& forall|i: int| 0 <= i < hist.len() ==> wf_entry(#[trigger] hist[i])
    &&& forall|i: int| 0 <= i < hist.len() - 1 ==> hist_lt(#[trigger] hist[i], hist[i + 1])
    &&& psum(hist, p_true()) <= u64::MAX
}

impl Ledger {
    /// Build a ledger from loaded rows: activities ordered by id and
    /// history rows ordered by (date, id), as the store returns them.
    /// Rows that do not form a well-formed ledger are refused whole.
    #[verifier::rlimit(100)]
    pub fn from_rows(acts: Vec<ActivityRecord>, hist: Vec<DayEntry>) -> (r: Result<
        Ledger,
        LedgerError,
    >)
        ensures
            wf_rows(acts@, hist@) ==> match r {
                Ok(l) => l.wf() && l.acts() == acts@ && l.hist() == hist@,
                Err(_) => false,
            },
            !wf_rows(acts@, hist@) ==> r == Err::<Ledger, LedgerError>(LedgerError::MalformedRows),
    {
        let mut i: usize = 0;
        while i < acts.len()
            invariant
                i <= acts@.len(),
                forall|j: int| 0 <= j < i ==> (#[trigger] acts@[j]).id != 0,
                forall|j: int|
                    0 <= j < i && j + 1 < acts@.len() ==> (#[trigger] acts@[j]).id < acts@[j
                        + 1].id,
            decreases acts@.len() - i,
        {
            if acts[i].id == 0 {
                return Err(LedgerError::MalformedRows);
            }
            if i + 1 < acts.len() && acts[i].id >= acts[i + 1].id {
                return Err(LedgerError::MalformedRows);
            }
            i = i + 1;
        }
        if hist.len() > HISTORY_CAP {
            return Err(LedgerError::MalformedRows);
        }
        let mut sum: u64 = 0;
        let mut k: usize = 0;
        while k < hist.len()
            invariant
                k <= hist@.len(),
                forall|j: int| 0 <= j < k ==> wf_entry(#[trigger] hist@[j]),
                forall|j: int|
                    0 <= j < k && j + 1 < hist@.len() ==> hist_lt(
                        #[trigger] hist@[j],
                        hist@[j + 1],
                    ),
                sum as int == psum(hist@.take(k as int), p_true()),
            decreases hist@.len() - k,
        {
            let e = hist[k];
            if !crate::calendar::date_valid(e.date) {
                return Err(LedgerError::MalformedRows);
            }
            let wk = iso_week_of(e.date);
            if e.isoweek != wk.0 || e.isoweekyear != wk.1 {
                return Err(LedgerError::MalformedRows);
            }
            if k + 1 < hist.len() {
                let nx = hist[k + 1];
                if !crate::calendar::date_valid(nx.date) {
                    return Err(LedgerError::MalformedRows);
                }
                let dna = day_number(e.date);
                let dnb = day_number(nx.date);
                if !(dna < dnb || (dna == dnb && e.id < nx.id)) {
                    return Err(LedgerError::MalformedRows);
                }
            }
            proof {
                crate::sums::lemma_psum_take_step(hist@, p_true(), k as int);
            }
            if e.micro > u64::MAX - sum {
                proof {
                    crate::sums::lemma_psum_take_le(hist@, p_true(), k as int + 1);
                }
                return Err(LedgerError::MalformedRows);
            }
            sum = sum + e.micro;
            k = k + 1;
        }
        proof {
            crate::sums::lemma_psum_take_full(hist@, p_true());
        }
        Ok(Ledger { activities: acts, history: hist, sum_micro: sum })
    }
}

/// Without an entry for an activity and date, the hours on that day are
/// zero.
pub proof fn lemma_no_entry_no_hours(l: Ledger, id: i32, d: Date)
    requires
        !l.has_entry(id, d),
    ensures
        l.hours_on(id, d) == 0,
{
    assert forall|j: int| 0 <= j < l.hist().len() implies !(p_id_date(id, d)(
        #[trigger] l.hist()[j],
    )) by {
        if l.hist()[j].id == id && l.hist()[j].date == d {
            assert(seq_has_entry(l.hist(), id, d));
        }
    }
    lemma_psum_all_zero(l.hist(), p_id_date(id, d));
}

/// An interval that stays within one calendar day raises the activity's
/// running total and the one touched day entry by the same rounded
/// amount.
pub proof fn lemma_enter_single_day_balance(
    oldl: Ledger,
    newl: Ledger,
    beg: Timestamp,
    end: Timestamp,
    actid: i32,
)
    requires
        enter_applied(oldl, newl, beg, end, actid),
        !spec_crosses_midnight(beg, end),
    ensures
        newl.total_of(actid) - oldl.total_of(actid) == spec_entry_micro(beg, end),
        newl.hours_on(actid, beg.date) - oldl.hours_on(actid, beg.date) == spec_entry_micro(
            beg,
            end,
        ),
{
}

/// An interval that crosses midnight leaves two day contributions that
/// sum to exactly the rounded whole duration, which itself lies within
/// half a micro-hour of the true elapsed time.
pub proof fn lemma_enter_split_parts(
    oldl: Ledger,
    newl: Ledger,
    beg: Timestamp,
    end: Timestamp,
    actid: i32,
)
    requires
        enter_applied(oldl, newl, beg, end, actid),
        spec_crosses_midnight(beg, end),
        spec_duration_sec(beg, end) >= 0,
    ensures
        (newl.hours_on(actid, beg.date) - oldl.hours_on(actid, beg.date)) + newl.hours_on(
            actid,
            end.date,
        ) == spec_entry_micro(beg, end),
        -4 <= 9 * spec_entry_micro(beg, end) - 2500 * spec_duration_sec(beg, end) <= 4,
{
    lemma_micro_of_sec_accuracy(spec_duration_sec(beg, end));
}

/// Removing an entry directly after entering it on a date that had none
/// restores the previous running total exactly, and with it every day
/// entry: a full round trip.
pub proof fn lemma_enter_remove_round_trip(
    l0: Ledger,
    l1: Ledger,
    l2: Ledger,
    beg: Timestamp,
    end: Timestamp,
    actid: i32,
)
    requires
        !spec_crosses_midnight(beg, end),
        !l0.has_entry(actid, beg.date),
        enter_applied(l0, l1, beg, end, actid),
        remove_applied(l1, l2, beg.date, actid),
    ensures
        l2.total_of(actid) == l0.total_of(actid),
        forall|id2: i32| #[trigger] l2.total_of(id2) == l0.total_of(id2),
        forall|id2: i32, d2: Date| #[trigger] l2.hours_on(id2, d2) == l0.hours_on(id2, d2),
        forall|id2: i32, d2: Date| #[trigger] l2.has_entry(id2, d2) == l0.has_entry(id2, d2),
        l2.hist().len() == l0.hist().len(),
{
    lemma_no_entry_no_hours(l0, actid, beg.date);
    assert forall|id2: i32, d2: Date| #[trigger] l2.hours_on(id2, d2) == l0.hours_on(id2, d2) by {
        if !(id2 == actid && d2 == beg.date) {
            assert(l1.hours_on(id2, d2) == l0.hours_on(id2, d2));
        }
    }
    assert forall|id2: i32, d2: Date| #[trigger] l2.has_entry(id2, d2) == l0.has_entry(
        id2,
        d2,
    ) by {
        if !(id2 == actid && d2 == beg.date) {
            assert(l1.has_entry(id2, d2) == l0.has_entry(id2, d2));
        }
    }
}

/// The rows that a listing of activities shows, active (positive id) or
/// deactivated (negative id), in the stored ascending order.
pub open spec fn rows_select(s: Seq<ActivityRecord>, activated: bool) -> Seq<ActivitiesRow>
    decreases s.len(),
{
    if s.len() == 0 {
        Seq::empty()
    } else {
        let rest = rows_select(s.drop_last(), activated);
        let a = s.last();
        if (activated && a.id > 0) || (!activated && a.id < 0) {
            rest + seq![ActivitiesRow { id: a.id, name: a.name }]
        } else {
            rest
        }
    }
}

proof fn lemma_rows_select_take_step(s: Seq<ActivityRecord>, activated: bool, i: int)
    requires
        0 <= i < s.len(),
    ensures
        rows_select(s.take(i + 1), activated) == if (activated && s[i].id > 0) || (!activated
            && s[i].id < 0) {
            rows_select(s.take(i), activated) + seq![ActivitiesRow { id: s[i].id, name: s[i].name }]
        } else {
            rows_select(s.take(i), activated)
        },
{
    assert(s.take(i + 1).drop_last() =~= s.take(i));
    assert(s.take(i + 1).last() == s[i]);
}

/// List the activities of one state: the active ones (positive id) in
/// ascending order of id, or the deactivated ones (negative id) in
/// descending order, as the store would list them.
pub fn get_activities(l: &Ledger, activated: bool) -> (r: Vec<ActivitiesRow>)
    ensures
        activated ==> r@ == rows_select(l.acts(), true),
        !activated ==> r@ == rows_select(l.acts(), false).reverse(),
{
    let recs = l.activity_records();
    let mut fwd: Vec<ActivitiesRow> = Vec::new();
    let mut i: usize = 0;
    while i < recs.len()
        invariant
            i <= recs@.len(),
            recs@ == l.acts(),
            fwd@ == rows_select(l.acts().take(i as int), activated),
        decreases recs@.len() - i,
    {
        proof {
            lemma_rows_select_take_step(l.acts(), activated, i as int);
        }
        let id = recs[i].id;
        if (activated && id > 0) || (!activated && id < 0) {
            let name = recs[i].name.clone();
            let ghost prev = fwd@;
            fwd.push(ActivitiesRow { id, name });
            proof {
                assert(fwd@ =~= prev + seq![ActivitiesRow { id, name: l.acts()[i as int].name }]);
            }
        }
        i = i + 1;
    }
    proof {
        assert(l.acts().take(l.acts().len() as int) =~= l.acts());
    }
    if activated {
        return fwd;
    }
    let ghost forward = fwd@;
    let mut rev: Vec<ActivitiesRow> = Vec::new();
    proof {
        assert(forward.take(forward.len() as int) =~= forward);
        assert(forward.skip(forward.len() as int) =~= Seq::<ActivitiesRow>::empty());
        assert(forward.skip(forward.len() as int).reverse() =~= Seq::<ActivitiesRow>::empty());
    }
    while fwd.len() > 0
        invariant
            fwd@.len() <= forward.len(),
            fwd@ == forward.take(fwd@.len() as int),
            rev@ == forward.skip(fwd@.len() as int).reverse(),
        decreases fwd@.len(),
    {
        let ghost n = fwd@.len() as int;
        let x = match fwd.pop() {
            Some(x) => x,
            None => {
                return rev;
            },
        };
        let ghost prevrev = rev@;
        rev.push(x);
        proof {
            assert(fwd@ =~= forward.take(n - 1));
            assert(x == forward[n - 1]);
            assert(rev@ =~= forward.skip(n - 1).reverse()) by {
                assert(forward.skip(n - 1) =~= seq![forward[n - 1]] + forward.skip(n));
                assert(forward.skip(n - 1).reverse() =~= forward.skip(n).reverse() + seq![
                    forward[n - 1],
                ]);
                assert(rev@ =~= prevrev + seq![x]);
            }
        }
    }
    proof {
        assert(forward.skip(0) =~= forward);
    }
    rev
}

/// The name of the activity with the given id.
pub fn get_activityname_for_id(l: &Ledger, actid: i32) -> (r: Result<String, LedgerError>)
    ensures
        l.has_activity(actid) <==> r is Ok,
        !l.has_activity(actid) ==> r == Err::<String, LedgerError>(LedgerError::NoSuchActivity),
        match r {
            Ok(n) => exists|i: int|
                0 <= i < l.acts().len() && (#[trigger] l.acts()[i]).id == actid && n@ == l.acts()[
                    i
                ].name@,
            Err(_) => true,
        },
{
    let recs = l.activity_records();
    match find_activity(recs, actid) {
        Some(i) => {
            let n = recs[i].name.clone();
            proof {
                assert(0 <= i < l.acts().len() && l.acts()[i as int].id == actid && n@ == l.acts()[
                    i as int
                ].name@);
            }
            Ok(n)
        },
        None => Err(LedgerError::NoSuchActivity),
    }
}

/// The predicate selecting entries dated strictly after a day number.
pub open spec fn p_after_dn(lo: int) -> spec_fn(DayEntry) -> bool {
    |e: DayEntry| spec_day_number(e.date) > lo
}

} // verus!

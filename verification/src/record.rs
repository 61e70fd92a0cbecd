//! One user's ledger: for each written date, an append-only log of
//! adjustments in submission order.
//!
//! A `UserRecord` is viewed as a map from a date to that date's log
//! (`RecordModel`). Recording appends one adjustment and returns the new
//! total of the whole log; a recording whose new total would leave the
//! `i32` range is rejected and leaves the record untouched.

use vstd::prelude::*;

use crate::model::{
    date_total, fold_total, in_i32, log_in_range, log_of, signed, LedgerError, Op, RecordModel,
};
use crate::model::lemma_fold_push;

verus! {

/// One written date and its log, in submission order.
struct DateEntry {
    date: String,
    log: Vec<(u32, Op)>,
}

/// One user's ledger: each written date's log, created lazily on the first
/// adjustment for that date and only ever appended to.
pub struct UserRecord {
    entries: Vec<DateEntry>,
}

/// The map a sequence of date entries stands for, later entries winning;
/// with distinct dates, each entry's date maps to that entry's log.
spec fn record_map(s: Seq<DateEntry>) -> RecordModel
    decreases s.len(),
{
    if s.len() == 0 {
        Map::empty()
    } else {
        record_map(s.drop_last()).insert(s.last().date@, s.last().log@)
    }
}

spec fn dates_distinct(s: Seq<DateEntry>) -> bool {
    forall|i: int, j: int| 0 <= i < j < s.len() ==> s[i].date@ != s[j].date@
}

proof fn lemma_record_map_absent(s: Seq<DateEntry>, k: Seq<char>)
    requires
        forall|i: int| 0 <= i < s.len() ==> s[i].date@ != k,
    ensures
        !record_map(s).contains_key(k),
    decreases s.len(),
{
    if s.len() == 0 {
    } else {
        assert(forall|i: int| 0 <= i < s.drop_last().len() ==> s.drop_last()[i] == s[i]);
        lemma_record_map_absent(s.drop_last(), k);
    }
}

proof fn lemma_record_map_index(s: Seq<DateEntry>, i: int)
    requires
        dates_distinct(s),
        0 <= i < s.len(),
    ensures
        record_map(s).contains_key(s[i].date@),
        record_map(s)[s[i].date@] == s[i].log@,
    decreases s.len(),
{
    if i == s.len() - 1 {
    } else {
        assert(forall|j: int| 0 <= j < s.drop_last().len() ==> s.drop_last()[j] == s[j]);
        lemma_record_map_index(s.drop_last(), i);
    }
}

proof fn lemma_record_map_update(s: Seq<DateEntry>, i: int, e: DateEntry)
    requires
        dates_distinct(s),
        0 <= i < s.len(),
        e.date@ == s[i].date@,
    ensures
        record_map(s.update(i, e)) == record_map(s).insert(e.date@, e.log@),
    decreases s.len(),
{
    let t = s.update(i, e);
    if i == s.len() - 1 {
        assert(t.drop_last() =~= s.drop_last());
        assert(t.last() == e);
        assert(record_map(s.drop_last()).insert(s[i].date@, s[i].log@).insert(e.date@, e.log@)
            =~= record_map(s.drop_last()).insert(e.date@, e.log@));
    } else {
        assert(t.drop_last() =~= s.drop_last().update(i, e));
        assert(t.last() == s.last());
        assert(forall|j: int| 0 <= j < s.drop_last().len() ==> s.drop_last()[j] == s[j]);
        lemma_record_map_update(s.drop_last(), i, e);
        assert(e.date@ != s.last().date@);
        assert(record_map(s.drop_last()).insert(e.date@, e.log@).insert(
            s.last().date@,
            s.last().log@,
        ) =~= record_map(s.drop_last()).insert(s.last().date@, s.last().log@).insert(
            e.date@,
            e.log@,
        ));
    }
}

proof fn lemma_record_map_push(s: Seq<DateEntry>, e: DateEntry)
    ensures
        record_map(s.push(e)) == record_map(s).insert(e.date@, e.log@),
{
    assert(s.push(e).drop_last() =~= s);
}

/// Folds a whole log left to right and returns its total, exactly as
/// `fold_total` states it.
fn fold_log(log: &Vec<(u32, Op)>) -> (t: i32)
    requires
        log_in_range(log@),
    ensures
        t as int == fold_total(log@),
{
    let mut acc: i64 = 0;
    let mut i: usize = 0;
    while i < log.len()
        invariant
            0 <= i <= log@.len(),
            log_in_range(log@),
            acc as int == fold_total(log@.subrange(0, i as int)),
            in_i32(acc as int),
        decreases log@.len() - i,
    {
        let e = log[i];
        let delta: i64 = match e.1 {
            Op::Add => e.0 as i64,
            Op::Subtract => -(e.0 as i64),
        };
        proof {
            assert(log@.subrange(0, i as int + 1).drop_last() =~= log@.subrange(0, i as int));
            assert(log@.subrange(0, i as int + 1).last() == log@[i as int]);
            assert(fold_total(log@.subrange(0, i as int + 1)) == fold_total(
                log@.subrange(0, i as int),
            ) + signed(log@[i as int]));
            assert(in_i32(fold_total(log@.subrange(0, i as int + 1))));
        }
        acc = acc + delta;
        i = i + 1;
    }
    proof {
        assert(log@.subrange(0, log@.len() as int) =~= log@);
    }
    acc as i32
}

/// Finds the entry of a date, or reports that no entry holds it.
fn find_date(entries: &Vec<DateEntry>, date: &String) -> (r: Option<usize>)
    ensures
        match r {
            Some(i) => i < entries@.len() && entries@[i as int].date@ == date@,
            None => forall|j: int| 0 <= j < entries@.len() ==> entries@[j].date@ != date@,
        },
{
    let mut i: usize = 0;
    while i < entries.len()
        invariant
            0 <= i <= entries@.len(),
            forall|j: int| 0 <= j < i ==> entries@[j].date@ != date@,
        decreases entries@.len() - i,
    {
        if entries[i].date == *date {
            return Some(i);
        }
        i = i + 1;
    }
    None
}

impl View for UserRecord {
    type V = RecordModel;

    closed spec fn view(&self) -> RecordModel {
        record_map(self.entries@)
    }
}

impl UserRecord {
    /// Well-formedness: no date is held twice, and every log keeps all of
    /// its left-to-right partial totals in `i32` range.
    pub closed spec fn wf(&self) -> bool {
        &&& dates_distinct(self.entries@)
        &&& forall|i: int|
            0 <= i < self.entries@.len() ==> log_in_range(#[trigger] self.entries@[i].log@)
    }

    /// A fresh record: no date written, every total zero.
    pub fn new() -> (r: UserRecord)
        ensures
            r.wf(),
            r@ == Map::<Seq<char>, Seq<(u32, Op)>>::empty(),
    {
        UserRecord { entries: Vec::new() }
    }

    /// Appends one adjustment to the date's log and returns the new total of
    /// the whole log, folded in submission order. A new total outside the
    /// `i32` range is rejected and the record is left untouched: above the
    /// range with `ArithmeticOverflow`, below it with `ArithmeticUnderflow`.
    pub fn record(&mut self, date: &String, calories: u32, op: Op) -> (r: Result<i32, LedgerError>)
        requires
            old(self).wf(),
        ensures
            final(self).wf(),
            ({
                let nt = date_total(old(self)@, date@) + signed((calories, op));
                &&& (r is Ok <==> in_i32(nt))
                &&& (r matches Ok(t) ==> t as int == nt && final(self)@ == old(self)@.insert(
                    date@,
                    log_of(old(self)@, date@).push((calories, op)),
                ))
                &&& (r is Err ==> final(self)@ == old(self)@)
                &&& (r == Err::<i32, LedgerError>(LedgerError::ArithmeticOverflow) <==> nt
                    > i32::MAX as int)
                &&& (r == Err::<i32, LedgerError>(LedgerError::ArithmeticUnderflow) <==> nt
                    < i32::MIN as int)
            }),
    {
        let delta: i64 = match op {
            Op::Add => calories as i64,
            Op::Subtract => -(calories as i64),
        };
        match find_date(&self.entries, date) {
            Some(i) => {
                proof {
                    lemma_record_map_index(self.entries@, i as int);
                }
                let mut e = self.entries.remove(i);
                let base = fold_log(&e.log);
                let nt: i64 = base as i64 + delta;
                if nt > i32::MAX as i64 {
                    self.entries.insert(i, e);
                    proof {
                        assert(self.entries@ =~= old(self).entries@);
                    }
                    return Err(LedgerError::ArithmeticOverflow);
                }
                if nt < i32::MIN as i64 {
                    self.entries.insert(i, e);
                    proof {
                        assert(self.entries@ =~= old(self).entries@);
                    }
                    return Err(LedgerError::ArithmeticUnderflow);
                }
                let ghost oldlog = e.log@;
                e.log.push((calories, op));
                self.entries.insert(i, e);
                proof {
                    let s2 = self.entries@;
                    assert(s2 =~= old(self).entries@.update(i as int, s2[i as int]));
                    lemma_record_map_update(old(self).entries@, i as int, s2[i as int]);
                    lemma_fold_push(oldlog, (calories, op));
                    assert(oldlog =~= oldlog.subrange(0, oldlog.len() as int));
                    let newlog = s2[i as int].log@;
                    assert forall|k: int| 0 <= k <= newlog.len() implies in_i32(
                        fold_total(#[trigger] newlog.subrange(0, k)),
                    ) by {
                        if k <= oldlog.len() {
                            assert(newlog.subrange(0, k) =~= oldlog.subrange(0, k));
                        } else {
                            assert(newlog.subrange(0, k) =~= newlog);
                        }
                    }
                }
                Ok(nt as i32)
            },
            None => {
                proof {
                    lemma_record_map_absent(self.entries@, date@);
                }
                let nt: i64 = delta;
                if nt > i32::MAX as i64 {
                    return Err(LedgerError::ArithmeticOverflow);
                }
                if nt < i32::MIN as i64 {
                    return Err(LedgerError::ArithmeticUnderflow);
                }
                let mut log: Vec<(u32, Op)> = Vec::new();
                log.push((calories, op));
                let ghost singleton = log@;
                self.entries.push(DateEntry { date: date.clone(), log });
                proof {
                    lemma_record_map_push(old(self).entries@, self.entries@.last());
                    lemma_fold_push(Seq::empty(), (calories, op));
                    assert(singleton.drop_last() =~= Seq::<(u32, Op)>::empty());
                    assert forall|k: int| 0 <= k <= singleton.len() implies in_i32(
                        fold_total(#[trigger] singleton.subrange(0, k)),
                    ) by {
                        if k == 0 {
                            assert(singleton.subrange(0, 0) =~= Seq::<(u32, Op)>::empty());
                        } else {
                            assert(singleton.subrange(0, k) =~= singleton);
                        }
                    }
                }
                Ok(nt as i32)
            },
        }
    }

    /// Every total a well-formed record holds is representable as an `i32`.
    pub proof fn lemma_total_in_range(&self, date: Seq<char>)
        requires
            self.wf(),
        ensures
            in_i32(date_total(self@, date)),
    {
        if self@.contains_key(date) {
            if forall|i: int|
                0 <= i < self.entries@.len() ==> (#[trigger] self.entries@[i].date@) != date {
                lemma_record_map_absent(self.entries@, date);
                assert(false);
            }
            let i = choose|i: int|
                0 <= i < self.entries@.len() && self.entries@[i].date@ == date;
            lemma_record_map_index(self.entries@, i);
            let log = self.entries@[i].log@;
            assert(log.subrange(0, log.len() as int) =~= log);
            assert(in_i32(fold_total(log.subrange(0, log.len() as int))));
        }
    }

    /// The total for one date: the fold of its log, zero when the date was
    /// never written. Read-only.
    pub fn total_for(&self, date: &String) -> (t: i32)
        requires
            self.wf(),
        ensures
            t as int == date_total(self@, date@),
    {
        match find_date(&self.entries, date) {
            Some(i) => {
                proof {
                    lemma_record_map_index(self.entries@, i as int);
                }
                fold_log(&self.entries[i].log)
            },
            None => {
                proof {
                    lemma_record_map_absent(self.entries@, date@);
                }
                0
            },
        }
    }

    /// The adjustments recorded for one date, in submission order; empty
    /// when the date was never written. Exposes the stored order for audit.
    pub fn date_log(&self, date: &String) -> (l: Vec<(u32, Op)>)
        requires
            self.wf(),
        ensures
            l@ == log_of(self@, date@),
    {
        let mut out: Vec<(u32, Op)> = Vec::new();
        match find_date(&self.entries, date) {
            Some(i) => {
                proof {
                    lemma_record_map_index(self.entries@, i as int);
                }
                let mut j: usize = 0;
                let n = self.entries[i].log.len();
                while j < n
                    invariant
                        0 <= j <= n,
                        i < self.entries@.len(),
                        n == self.entries@[i as int].log@.len(),
                        out@ =~= self.entries@[i as int].log@.subrange(0, j as int),
                    decreases n - j,
                {
                    out.push(self.entries[i].log[j]);
                    proof {
                        assert(out@ =~= self.entries@[i as int].log@.subrange(0, j as int + 1));
                    }
                    j = j + 1;
                }
                proof {
                    assert(self.entries@[i as int].log@.subrange(
                        0,
                        self.entries@[i as int].log@.len() as int,
                    ) =~= self.entries@[i as int].log@);
                }
            },
            None => {
                proof {
                    lemma_record_map_absent(self.entries@, date@);
                }
            },
        }
        out
    }

    /// The dates this record holds, each exactly once.
    pub fn dates(&self) -> (d: Vec<String>)
        requires
            self.wf(),
        ensures
            forall|j: int| 0 <= j < d@.len() ==> self@.contains_key(#[trigger] d@[j]@),
            forall|i: int, j: int| 0 <= i < j < d@.len() ==> d@[i]@ != d@[j]@,
            forall|k: Seq<char>|
                self@.contains_key(k) ==> exists|j: int| 0 <= j < d@.len() && #[trigger] d@[j]@ == k,
    {
        let mut out: Vec<String> = Vec::new();
        let mut i: usize = 0;
        while i < self.entries.len()
            invariant
                0 <= i <= self.entries@.len(),
                out@.len() == i,
                forall|j: int| 0 <= j < i ==> #[trigger] out@[j]@ == self.entries@[j].date@,
            decreases self.entries@.len() - i,
        {
            out.push(self.entries[i].date.clone());
            i = i + 1;
        }
        proof {
            assert forall|j: int| 0 <= j < out@.len() implies self@.contains_key(
                #[trigger] out@[j]@,
            ) by {
                lemma_record_map_index(self.entries@, j);
            }
            assert forall|k: Seq<char>| self@.contains_key(k) implies exists|j: int|
                0 <= j < out@.len() && #[trigger] out@[j]@ == k by {
                if forall|j: int| 0 <= j < out@.len() ==> #[trigger] out@[j]@ != k {
                    assert forall|j: int| 0 <= j < self.entries@.len() implies self.entries@[j].date@
                        != k by {
                        assert(out@[j]@ == self.entries@[j].date@);
                    }
                    lemma_record_map_absent(self.entries@, k);
                }
            }
        }
        out
    }
}

} // verus!

//! The ledger store: every user's record, under the public contract that
//! callers use.
//!
//! A `CalorieTracker` is viewed as a map from a user to that user's record
//! (`StoreModel`). `add` and `subtract` append one adjustment to the log of
//! one (user, date) pair and return the new total of that log; `get`
//! answers a read-only batch query. Each mutating call takes the store
//! exclusively, which serializes the read-modify-write sequence per store.

use vstd::prelude::*;

use crate::model::{
    date_views, dedup_firsts, in_i32, key_views, log_of, record_of, recorded, signed, store_total,
    LedgerError, Op, StoreModel,
};
use crate::model::query_totals;
use crate::model::{lemma_dedup_firsts_contains, lemma_dedup_firsts_distinct};
use crate::record::UserRecord;

verus! {

/// One written user and that user's record.
struct UserEntry {
    user: String,
    record: UserRecord,
}

/// The ledger store: each written user's record, created lazily on the
/// first adjustment for that user and never deleted.
pub struct CalorieTracker {
    users: Vec<UserEntry>,
}

/// The map a sequence of user entries stands for, later entries winning;
/// with distinct users, each entry's user maps to that entry's record.
spec fn user_map(s: Seq<UserEntry>) -> StoreModel
    decreases s.len(),
{
    if s.len() == 0 {
        Map::empty()
    } else {
        user_map(s.drop_last()).insert(s.last().user@, s.last().record@)
    }
}

spec fn users_distinct(s: Seq<UserEntry>) -> bool {
    forall|i: int, j: int| 0 <= i < j < s.len() ==> s[i].user@ != s[j].user@
}

proof fn lemma_user_map_absent(s: Seq<UserEntry>, k: Seq<char>)
    requires
        forall|i: int| 0 <= i < s.len() ==> s[i].user@ != k,
    ensures
        !user_map(s).contains_key(k),
    decreases s.len(),
{
    if s.len() == 0 {
    } else {
        assert(forall|i: int| 0 <= i < s.drop_last().len() ==> s.drop_last()[i] == s[i]);
        lemma_user_map_absent(s.drop_last(), k);
    }
}

proof fn lemma_user_map_index(s: Seq<UserEntry>, i: int)
    requires
        users_distinct(s),
        0 <= i < s.len(),
    ensures
        user_map(s).contains_key(s[i].user@),
        user_map(s)[s[i].user@] == s[i].record@,
    decreases s.len(),
{
    if i == s.len() - 1 {
    } else {
        assert(forall|j: int| 0 <= j < s.drop_last().len() ==> s.drop_last()[j] == s[j]);
        lemma_user_map_index(s.drop_last(), i);
    }
}

proof fn lemma_user_map_update(s: Seq<UserEntry>, i: int, e: UserEntry)
    requires
        users_distinct(s),
        0 <= i < s.len(),
        e.user@ == s[i].user@,
    ensures
        user_map(s.update(i, e)) == user_map(s).insert(e.user@, e.record@),
    decreases s.len(),
{
    let t = s.update(i, e);
    if i == s.len() - 1 {
        assert(t.drop_last() =~= s.drop_last());
        assert(t.last() == e);
        assert(user_map(s.drop_last()).insert(s[i].user@, s[i].record@).insert(e.user@, e.record@)
            =~= user_map(s.drop_last()).insert(e.user@, e.record@));
    } else {
        assert(t.drop_last() =~= s.drop_last().update(i, e));
        assert(t.last() == s.last());
        assert(forall|j: int| 0 <= j < s.drop_last().len() ==> s.drop_last()[j] == s[j]);
        lemma_user_map_update(s.drop_last(), i, e);
        assert(e.user@ != s.last().user@);
        assert(user_map(s.drop_last()).insert(e.user@, e.record@).insert(
            s.last().user@,
            s.last().record@,
        ) =~= user_map(s.drop_last()).insert(s.last().user@, s.last().record@).insert(
            e.user@,
            e.record@,
        ));
    }
}

proof fn lemma_user_map_push(s: Seq<UserEntry>, e: UserEntry)
    ensures
        user_map(s.push(e)) == user_map(s).insert(e.user@, e.record@),
{
    assert(s.push(e).drop_last() =~= s);
}

/// Finds the entry of a user, or reports that no entry holds that user.
fn find_user(users: &Vec<UserEntry>, user: &String) -> (r: Option<usize>)
    ensures
        match r {
            Some(i) => i < users@.len() && users@[i as int].user@ == user@,
            None => forall|j: int| 0 <= j < users@.len() ==> users@[j].user@ != user@,
        },
{
    let mut i: usize = 0;
    while i < users.len()
        invariant
            0 <= i <= users@.len(),
            forall|j: int| 0 <= j < i ==> users@[j].user@ != user@,
        decreases users@.len() - i,
    {
        if users[i].user == *user {
            return Some(i);
        }
        i = i + 1;
    }
    None
}

/// Whether a result already holds an entry for a date.
fn contains_date(entries: &Vec<(String, i32)>, date: &String) -> (b: bool)
    ensures
        b <==> key_views(entries@).contains(date@),
{
    let mut i: usize = 0;
    while i < entries.len()
        invariant
            0 <= i <= entries@.len(),
            forall|j: int| 0 <= j < i ==> key_views(entries@)[j] != date@,
        decreases entries@.len() - i,
    {
        if entries[i].0 == *date {
            proof {
                assert(key_views(entries@)[i as int] == date@);
            }
            return true;
        }
        i = i + 1;
    }
    false
}

impl View for CalorieTracker {
    type V = StoreModel;

    closed spec fn view(&self) -> StoreModel {
        user_map(self.users@)
    }
}

impl CalorieTracker {
    /// Well-formedness: no user is held twice, and every user's record is
    /// itself well formed.
    pub closed spec fn wf(&self) -> bool {
        &&& users_distinct(self.users@)
        &&& forall|i: int| 0 <= i < self.users@.len() ==> (#[trigger] self.users@[i].record).wf()
    }

    /// A fresh store: no user written, every total zero.
    pub fn new() -> (r: CalorieTracker)
        ensures
            r.wf(),
            r@ == Map::<Seq<char>, Map<Seq<char>, Seq<(u32, Op)>>>::empty(),
    {
        CalorieTracker { users: Vec::new() }
    }

    /// Appends one adjustment to the log of (user, date) and returns the new
    /// total of that whole log, folded in submission order. The caller is
    /// trusted to have authenticated the user already. A new total outside
    /// the `i32` range is rejected and the store is left untouched: above
    /// the range with `ArithmeticOverflow`, below it with
    /// `ArithmeticUnderflow`.
    pub fn record(&mut self, user: &String, date: &String, calories: u32, op: Op) -> (r: Result<
        i32,
        LedgerError,
    >)
        requires
            old(self).wf(),
        ensures
            final(self).wf(),
            ({
                let nt = store_total(old(self)@, user@, date@) + signed((calories, op));
                &&& (r is Ok <==> in_i32(nt))
                &&& (r matches Ok(t) ==> t as int == nt && final(self)@ == recorded(
                    old(self)@,
                    user@,
                    date@,
                    (calories, op),
                ))
                &&& (r is Err ==> final(self)@ == old(self)@)
                &&& (r == Err::<i32, LedgerError>(LedgerError::ArithmeticOverflow) <==> nt
                    > i32::MAX as int)
                &&& (r == Err::<i32, LedgerError>(LedgerError::ArithmeticUnderflow) <==> nt
                    < i32::MIN as int)
            }),
    {
        match find_user(&self.users, user) {
            Some(i) => {
                proof {
                    lemma_user_map_index(self.users@, i as int);
                }
                let mut e = self.users.remove(i);
                let res = e.record.record(date, calories, op);
                self.users.insert(i, e);
                proof {
                    let s2 = self.users@;
                    assert(s2 =~= old(self).users@.update(i as int, s2[i as int]));
                    lemma_user_map_update(old(self).users@, i as int, s2[i as int]);
                    if res is Err {
                        assert(user_map(old(self).users@).insert(
                            user@,
                            old(self).users@[i as int].record@,
                        ) =~= user_map(old(self).users@));
                    }
                    assert forall|a: int, b: int|
                        0 <= a < b < s2.len() implies s2[a].user@ != s2[b].user@ by {
                        assert(old(self).users@[a].user@ != old(self).users@[b].user@);
                    }
                }
                res
            },
            None => {
                proof {
                    lemma_user_map_absent(self.users@, user@);
                }
                let mut e = UserEntry { user: user.clone(), record: UserRecord::new() };
                let res = e.record.record(date, calories, op);
                match res {
                    Ok(t) => {
                        self.users.push(e);
                        proof {
                            lemma_user_map_push(old(self).users@, self.users@.last());
                            assert(record_of(old(self)@, user@) =~= Map::<
                                Seq<char>,
                                Seq<(u32, Op)>,
                            >::empty());
                            assert(final(self)@ =~= recorded(
                                old(self)@,
                                user@,
                                date@,
                                (calories, op),
                            ));
                        }
                        Ok(t)
                    },
                    Err(err) => Err(err),
                }
            },
        }
    }

    /// Records an addition: the total for (user, date) grows by the
    /// magnitude.
    pub fn add(&mut self, user: &String, calories: u32, date: &String) -> (r: Result<
        i32,
        LedgerError,
    >)
        requires
            old(self).wf(),
        ensures
            final(self).wf(),
            ({
                let nt = store_total(old(self)@, user@, date@) + calories as int;
                &&& (r is Ok <==> in_i32(nt))
                &&& (r matches Ok(t) ==> t as int == nt && final(self)@ == recorded(
                    old(self)@,
                    user@,
                    date@,
                    (calories, Op::Add),
                ))
                &&& (r is Err ==> final(self)@ == old(self)@)
                &&& (r == Err::<i32, LedgerError>(LedgerError::ArithmeticOverflow) <==> nt
                    > i32::MAX as int)
                &&& (r is Err ==> r == Err::<i32, LedgerError>(LedgerError::ArithmeticOverflow))
            }),
    {
        proof {
            self.lemma_total_in_range(user@, date@);
        }
        self.record(user, date, calories, Op::Add)
    }

    /// Records a subtraction: the total for (user, date) shrinks by the
    /// magnitude.
    pub fn subtract(&mut self, user: &String, calories: u32, date: &String) -> (r: Result<
        i32,
        LedgerError,
    >)
        requires
            old(self).wf(),
        ensures
            final(self).wf(),
            ({
                let nt = store_total(old(self)@, user@, date@) - calories as int;
                &&& (r is Ok <==> in_i32(nt))
                &&& (r matches Ok(t) ==> t as int == nt && final(self)@ == recorded(
                    old(self)@,
                    user@,
                    date@,
                    (calories, Op::Subtract),
                ))
                &&& (r is Err ==> final(self)@ == old(self)@)
                &&& (r == Err::<i32, LedgerError>(LedgerError::ArithmeticUnderflow) <==> nt
                    < i32::MIN as int)
                &&& (r is Err ==> r == Err::<i32, LedgerError>(LedgerError::ArithmeticUnderflow))
            }),
    {
        proof {
            self.lemma_total_in_range(user@, date@);
        }
        self.record(user, date, calories, Op::Subtract)
    }

    /// Every total a well-formed store holds is representable as an `i32`.
    pub proof fn lemma_total_in_range(&self, user: Seq<char>, date: Seq<char>)
        requires
            self.wf(),
        ensures
            in_i32(store_total(self@, user, date)),
    {
        if self@.contains_key(user) {
            if forall|i: int|
                0 <= i < self.users@.len() ==> (#[trigger] self.users@[i].user@) != user {
                lemma_user_map_absent(self.users@, user);
                assert(false);
            }
            let i = choose|i: int| 0 <= i < self.users@.len() && self.users@[i].user@ == user;
            lemma_user_map_index(self.users@, i);
            self.users@[i].record.lemma_total_in_range(date);
        }
    }

    /// The total for one (user, date) pair: zero when either was never
    /// written. Read-only.
    pub fn total_for(&self, user: &String, date: &String) -> (t: i32)
        requires
            self.wf(),
        ensures
            t as int == store_total(self@, user@, date@),
    {
        match find_user(&self.users, user) {
            Some(i) => {
                proof {
                    lemma_user_map_index(self.users@, i as int);
                }
                self.users[i].record.total_for(date)
            },
            None => {
                proof {
                    lemma_user_map_absent(self.users@, user@);
                }
                0
            },
        }
    }

    /// The adjustments recorded for one (user, date) pair, in submission
    /// order; empty when either was never written. Exposes the stored order
    /// for audit.
    pub fn date_log(&self, user: &String, date: &String) -> (l: Vec<(u32, Op)>)
        requires
            self.wf(),
        ensures
            l@ == log_of(record_of(self@, user@), date@),
    {
        match find_user(&self.users, user) {
            Some(i) => {
                proof {
                    lemma_user_map_index(self.users@, i as int);
                }
                self.users[i].record.date_log(date)
            },
            None => {
                proof {
                    lemma_user_map_absent(self.users@, user@);
                }
                Vec::new()
            },
        }
    }

    /// Answers a batch query: one (date, total) pair for each requested
    /// date, in first-occurrence order with repetitions coalesced, each
    /// total the store's total for that date — zero for dates never
    /// written. Read-only.
    pub fn get(&self, user: &String, dates: &Vec<String>) -> (r: Vec<(String, i32)>)
        requires
            self.wf(),
        ensures
            key_views(r@) == dedup_firsts(date_views(dates@)),
            forall|j: int|
                0 <= j < r@.len() ==> (#[trigger] r@[j]).1 as int == store_total(
                    self@,
                    user@,
                    r@[j].0@,
                ),
            forall|i: int|
                0 <= i < dates@.len() ==> key_views(r@).contains(#[trigger] date_views(dates@)[i]),
            forall|a: int, b: int| 0 <= a < b < r@.len() ==> r@[a].0@ != r@[b].0@,
            forall|j: int|
                0 <= j < r@.len() ==> query_totals(self@, user@, date_views(dates@)).contains_key(
                    (#[trigger] r@[j]).0@,
                ) && query_totals(self@, user@, date_views(dates@))[r@[j].0@] == r@[j].1 as int,
    {
        let mut out: Vec<(String, i32)> = Vec::new();
        let mut i: usize = 0;
        while i < dates.len()
            invariant
                self.wf(),
                0 <= i <= dates@.len(),
                key_views(out@) == dedup_firsts(date_views(dates@).subrange(0, i as int)),
                forall|j: int|
                    0 <= j < out@.len() ==> (#[trigger] out@[j]).1 as int == store_total(
                        self@,
                        user@,
                        out@[j].0@,
                    ),
            decreases dates@.len() - i,
        {
            let ghost prefix = date_views(dates@).subrange(0, i as int);
            let ghost prefix2 = date_views(dates@).subrange(0, i as int + 1);
            proof {
                assert(prefix2.drop_last() =~= prefix);
                assert(prefix2.last() == dates@[i as int]@);
            }
            let d = &dates[i];
            if !contains_date(&out, d) {
                let ghost before = out@;
                let t = self.total_for(user, d);
                out.push((d.clone(), t));
                proof {
                    assert(key_views(out@) =~= key_views(before).push(dates@[i as int]@));
                }
            }
            i = i + 1;
        }
        proof {
            assert(date_views(dates@).subrange(0, dates@.len() as int) =~= date_views(dates@));
            assert forall|i: int| 0 <= i < dates@.len() implies key_views(out@).contains(
                #[trigger] date_views(dates@)[i],
            ) by {
                lemma_dedup_firsts_contains(date_views(dates@), date_views(dates@)[i]);
                assert(date_views(dates@).contains(date_views(dates@)[i]));
            }
            lemma_dedup_firsts_distinct(date_views(dates@));
            assert forall|a: int, b: int| 0 <= a < b < out@.len() implies out@[a].0@ != out@[b].0@ by {
                assert(key_views(out@)[a] == out@[a].0@);
                assert(key_views(out@)[b] == out@[b].0@);
            }
            assert forall|j: int| 0 <= j < out@.len() implies query_totals(
                self@,
                user@,
                date_views(dates@),
            ).contains_key((#[trigger] out@[j]).0@) && query_totals(
                self@,
                user@,
                date_views(dates@),
            )[out@[j].0@] == out@[j].1 as int by {
                assert(key_views(out@)[j] == out@[j].0@);
                assert(dedup_firsts(date_views(dates@)).contains(out@[j].0@));
                lemma_dedup_firsts_contains(date_views(dates@), out@[j].0@);
            }
        }
        out
    }
}

} // verus!

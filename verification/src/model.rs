//! The mathematical model of the ledger, and the laws that hold of it.
//!
//! A log is a sequence of adjustments in submission order; a record maps a
//! date to its log; the store maps a user to that user's record. The spec
//! functions here say what every executable operation of the crate computes,
//! and the proof functions state the laws the ledger obeys.

use vstd::prelude::*;

verus! {

/// The direction of one adjustment: an addition or a subtraction.
#[derive(Clone, Copy, Debug, Eq, PartialEq, Structural)]
pub enum Op {
    Add,
    Subtract,
}

/// Why a recording was rejected: folding the new adjustment into the log
/// would carry the total outside the representable `i32` range. A rejected
/// recording leaves the log untouched.
#[derive(Clone, Copy, Debug, Eq, PartialEq, Structural)]
pub enum LedgerError {
    ArithmeticOverflow,
    ArithmeticUnderflow,
}

/// The log of one (user, date) pair: adjustments in submission order.
pub type LogModel = Seq<(u32, Op)>;

/// One user's ledger: each written date's log under that date's name.
pub type RecordModel = Map<Seq<char>, Seq<(u32, Op)>>;

/// The whole store: each written user's record under that user's name.
pub type StoreModel = Map<Seq<char>, Map<Seq<char>, Seq<(u32, Op)>>>;

/// The signed value one adjustment contributes to a total.
pub open spec fn signed(e: (u32, Op)) -> int {
    match e.1 {
        Op::Add => e.0 as int,
        Op::Subtract => -(e.0 as int),
    }
}

/// The total of a log: the signed sum of its adjustments, folded left to
/// right in submission order.
pub open spec fn fold_total(log: LogModel) -> int
    decreases log.len(),
{
    if log.len() == 0 {
        0
    } else {
        fold_total(log.drop_last()) + signed(log.last())
    }
}

/// Whether a mathematical integer is representable as an `i32`.
pub open spec fn in_i32(n: int) -> bool {
    i32::MIN as int <= n <= i32::MAX as int
}

/// Whether every left-to-right partial total of a log is representable as an
/// `i32`. Every stored log has this shape, because a recording whose new
/// total would leave the range is rejected without touching the log.
pub open spec fn log_in_range(log: LogModel) -> bool {
    forall|k: int| 0 <= k <= log.len() ==> in_i32(#[trigger] fold_total(log.subrange(0, k)))
}

/// The log a record holds for a date: empty when the date was never written.
pub open spec fn log_of(r: RecordModel, date: Seq<char>) -> LogModel {
    if r.contains_key(date) {
        r[date]
    } else {
        Seq::empty()
    }
}

/// The total a record holds for a date: 0 when the date was never written.
pub open spec fn date_total(r: RecordModel, date: Seq<char>) -> int {
    fold_total(log_of(r, date))
}

/// The record a store holds for a user: empty when the user was never
/// written.
pub open spec fn record_of(m: StoreModel, user: Seq<char>) -> RecordModel {
    if m.contains_key(user) {
        m[user]
    } else {
        Map::empty()
    }
}

/// The total a store holds for a user and a date: 0 when either was never
/// written.
pub open spec fn store_total(m: StoreModel, user: Seq<char>, date: Seq<char>) -> int {
    date_total(record_of(m, user), date)
}

/// The store after one adjustment is appended to the log of (user, date).
pub open spec fn recorded(m: StoreModel, user: Seq<char>, date: Seq<char>, e: (u32, Op)) -> StoreModel {
    m.insert(user, record_of(m, user).insert(date, log_of(record_of(m, user), date).push(e)))
}

/// The store after a sequence of adjustments is appended, in order, to the
/// log of (user, date).
pub open spec fn applied(m: StoreModel, user: Seq<char>, date: Seq<char>, es: Seq<(u32, Op)>) -> StoreModel
    decreases es.len(),
{
    if es.len() == 0 {
        m
    } else {
        recorded(applied(m, user, date, es.drop_last()), user, date, es.last())
    }
}

/// The totals a batch query reports: the store's total for every requested
/// date, and nothing else.
pub open spec fn query_totals(m: StoreModel, user: Seq<char>, dates: Seq<Seq<char>>) -> Map<Seq<char>, int> {
    Map::new(|d: Seq<char>| dates.contains(d), |d: Seq<char>| store_total(m, user, d))
}

/// The views of a sequence of owned dates.
pub open spec fn date_views(s: Seq<String>) -> Seq<Seq<char>> {
    s.map_values(|d: String| d@)
}

/// The date views of a sequence of (date, total) pairs.
pub open spec fn key_views(s: Seq<(String, i32)>) -> Seq<Seq<char>> {
    s.map_values(|p: (String, i32)| p.0@)
}

/// The requested dates with later repetitions dropped: the keys a batch
/// query reports, in first-occurrence order.
pub open spec fn dedup_firsts(s: Seq<Seq<char>>) -> Seq<Seq<char>>
    decreases s.len(),
{
    if s.len() == 0 {
        Seq::empty()
    } else {
        let rest = dedup_firsts(s.drop_last());
        if rest.contains(s.last()) {
            rest
        } else {
            rest.push(s.last())
        }
    }
}

/// Appending one adjustment moves a log's total by exactly that adjustment's
/// signed value.
pub proof fn lemma_fold_push(log: LogModel, e: (u32, Op))
    ensures
        fold_total(log.push(e)) == fold_total(log) + signed(e),
{
    assert(log.push(e).drop_last() =~= log);
}

/// Removing one adjustment moves a log's total by exactly that adjustment's
/// signed value.
pub proof fn lemma_fold_remove(log: LogModel, i: int)
    requires
        0 <= i < log.len(),
    ensures
        fold_total(log.remove(i)) == fold_total(log) - signed(log[i]),
    decreases log.len(),
{
    if i == log.len() - 1 {
        assert(log.remove(i) =~= log.drop_last());
    } else {
        lemma_fold_remove(log.drop_last(), i);
        assert(log.remove(i).drop_last() =~= log.drop_last().remove(i));
        assert(log.remove(i).last() == log.last());
    }
}

/// Order independence of the final value: the total of a log depends only on
/// the multiset of its adjustments, so permuting a log leaves it unchanged.
pub proof fn lemma_fold_permutation(a: LogModel, b: LogModel)
    requires
        a.to_multiset() == b.to_multiset(),
    ensures
        fold_total(a) == fold_total(b),
    decreases a.len(),
{
    broadcast use vstd::seq_lib::group_to_multiset_ensures;

    if a.len() == 0 {
        assert(b.to_multiset().len() == 0);
    } else {
        let e = a.last();
        assert(a.contains(e));
        assert(b.to_multiset().count(e) > 0);
        assert(b.contains(e));
        let j = choose|j: int| 0 <= j < b.len() && b[j] == e;
        assert(a.drop_last().push(e) =~= a);
        assert(a.drop_last().push(e).to_multiset() =~= a.drop_last().to_multiset().insert(e));
        assert(b.remove(j).to_multiset() =~= b.to_multiset().remove(e));
        assert(a.drop_last().to_multiset() =~= b.remove(j).to_multiset());
        lemma_fold_permutation(a.drop_last(), b.remove(j));
        lemma_fold_remove(b, j);
    }
}

/// Absence is zero: a (user, date) pair never written holds a total of zero.
pub proof fn lemma_absent_total_zero(m: StoreModel, user: Seq<char>, date: Seq<char>)
    requires
        !record_of(m, user).contains_key(date),
    ensures
        store_total(m, user, date) == 0,
{
}

/// Appending one adjustment moves the stored total of its own (user, date)
/// by exactly that adjustment's signed value.
pub proof fn lemma_recorded_total(m: StoreModel, user: Seq<char>, date: Seq<char>, e: (u32, Op))
    ensures
        store_total(recorded(m, user, date, e), user, date) == store_total(m, user, date) + signed(e),
{
    lemma_fold_push(log_of(record_of(m, user), date), e);
}

/// Isolation: appending to one (user, date) never changes the total stored
/// for a different date of the same user, nor for any other user.
pub proof fn lemma_isolation(
    m: StoreModel,
    user: Seq<char>,
    date: Seq<char>,
    e: (u32, Op),
    other_user: Seq<char>,
    other_date: Seq<char>,
)
    requires
        other_user != user || other_date != date,
    ensures
        store_total(recorded(m, user, date, e), other_user, other_date) == store_total(
            m,
            other_user,
            other_date,
        ),
{
}

/// Fold correctness: appending a sequence of adjustments to one (user, date)
/// moves its stored total by exactly the signed sum of the sequence; from a
/// fresh store the final total is that signed sum itself.
pub proof fn lemma_fold_correctness(m: StoreModel, user: Seq<char>, date: Seq<char>, es: Seq<(u32, Op)>)
    ensures
        store_total(applied(m, user, date, es), user, date) == store_total(m, user, date)
            + fold_total(es),
    decreases es.len(),
{
    if es.len() == 0 {
    } else {
        lemma_fold_correctness(m, user, date, es.drop_last());
        lemma_recorded_total(applied(m, user, date, es.drop_last()), user, date, es.last());
    }
}

/// Permuting the adjustments appended to one (user, date) leaves the final
/// stored total unchanged — though each submission order keeps its own log.
pub proof fn lemma_applied_permutation(
    m: StoreModel,
    user: Seq<char>,
    date: Seq<char>,
    es1: Seq<(u32, Op)>,
    es2: Seq<(u32, Op)>,
)
    requires
        es1.to_multiset() == es2.to_multiset(),
    ensures
        store_total(applied(m, user, date, es1), user, date) == store_total(
            applied(m, user, date, es2),
            user,
            date,
        ),
{
    lemma_fold_correctness(m, user, date, es1);
    lemma_fold_correctness(m, user, date, es2);
    lemma_fold_permutation(es1, es2);
}

/// Batch query consistency: for every requested date, a batch query reports
/// exactly the total that a single-date query of the same store reports.
pub proof fn lemma_batch_query_consistency(
    m: StoreModel,
    user: Seq<char>,
    dates: Seq<Seq<char>>,
    i: int,
)
    requires
        0 <= i < dates.len(),
    ensures
        query_totals(m, user, dates)[dates[i]] == query_totals(m, user, seq![dates[i]])[dates[i]],
{
    assert(dates.contains(dates[i]));
    assert(seq![dates[i]][0] == dates[i]);
    assert(seq![dates[i]].contains(dates[i]));
}

/// The deduplicated key sequence holds a date exactly when the requested
/// dates hold it.
pub proof fn lemma_dedup_firsts_contains(s: Seq<Seq<char>>, k: Seq<char>)
    ensures
        dedup_firsts(s).contains(k) <==> s.contains(k),
    decreases s.len(),
{
    if s.len() == 0 {
    } else {
        lemma_dedup_firsts_contains(s.drop_last(), k);
        lemma_dedup_firsts_contains(s.drop_last(), s.last());
        let rest = dedup_firsts(s.drop_last());
        if s.contains(k) {
            let i = choose|i: int| 0 <= i < s.len() && s[i] == k;
            if i < s.len() - 1 {
                assert(s.drop_last()[i] == k);
                assert(s.drop_last().contains(k));
                if !rest.contains(s.last()) {
                    let w = choose|w: int| 0 <= w < rest.len() && rest[w] == k;
                    assert(rest.push(s.last())[w] == k);
                    assert(dedup_firsts(s).contains(k));
                }
            } else {
                if rest.contains(s.last()) {
                    assert(s.drop_last().contains(k));
                } else {
                    assert(rest.push(s.last()).last() == k);
                    assert(dedup_firsts(s).contains(k));
                }
            }
        }
        if dedup_firsts(s).contains(k) {
            if rest.contains(k) {
                let i = choose|i: int| 0 <= i < s.drop_last().len() && s.drop_last()[i] == k;
                assert(s[i] == k);
                assert(s.contains(k));
            } else {
                let w = choose|w: int| 0 <= w < dedup_firsts(s).len() && dedup_firsts(s)[w] == k;
                assert(k == s.last());
                assert(s[s.len() - 1] == k);
                assert(s.contains(k));
            }
        }
    }
}

/// No key repeats in the deduplicated key sequence.
pub proof fn lemma_dedup_firsts_distinct(s: Seq<Seq<char>>)
    ensures
        forall|i: int, j: int|
            0 <= i < j < dedup_firsts(s).len() ==> dedup_firsts(s)[i] != dedup_firsts(s)[j],
    decreases s.len(),
{
    if s.len() == 0 {
    } else {
        lemma_dedup_firsts_distinct(s.drop_last());
        let rest = dedup_firsts(s.drop_last());
        if !rest.contains(s.last()) {
            assert forall|i: int, j: int|
                0 <= i < j < dedup_firsts(s).len() implies dedup_firsts(s)[i] != dedup_firsts(
                s,
            )[j] by {
                if j == rest.len() {
                    assert(dedup_firsts(s)[j] == s.last());
                    assert(dedup_firsts(s)[i] == rest[i]);
                    if rest[i] == s.last() {
                        assert(rest.contains(s.last()));
                    }
                }
            }
        }
    }
}

} // verus!

//! Replay filtering over the durable log: which records a query selects,
//! in file order, honoring the resource filter, the `ts_start` time window
//! and the result-count limit.

use vstd::prelude::*;

use crate::config::{LogsQuery, ResourceKind};
use crate::record::{LogRecord, LogRecordView};

verus! {

/// A record passes the query's filters: resource equal (when filtered),
/// `ts_start` at or after `since` and at or before `until` (when given).
pub open spec fn spec_record_passes(
    rec: LogRecordView,
    resource_filter: Option<ResourceKind>,
    since: Option<u64>,
    until: Option<u64>,
) -> bool {
    &&& match resource_filter {
        Option::Some(k) => rec.resource == k,
        Option::None => true,
    }
    &&& match since {
        Option::Some(t) => rec.ts_start >= t,
        Option::None => true,
    }
    &&& match until {
        Option::Some(t) => rec.ts_start <= t,
        Option::None => true,
    }
}

/// Whether a record was logged for the given resource.
pub fn resource_matches(record: &LogRecord, kind: ResourceKind) -> (r: bool)
    ensures
        r == (record@.resource == kind),
{
    record.resource == kind
}

/// Apply a query's filters (not its limit) to one record.
pub fn record_passes_filter(record: &LogRecord, query: &LogsQuery) -> (r: bool)
    ensures
        r == spec_record_passes(record@, query.resource_filter, query.since, query.until),
{
    let resource_ok = match query.resource_filter {
        Some(k) => resource_matches(record, k),
        None => true,
    };
    let since_ok = match query.since {
        Some(t) => record.ts_start >= t,
        None => true,
    };
    let until_ok = match query.until {
        Some(t) => record.ts_start <= t,
        None => true,
    };
    resource_ok && since_ok && until_ok
}

/// The remaining result budget: `None` is unlimited.
pub open spec fn dec_budget(b: Option<int>) -> Option<int> {
    match b {
        Option::Some(l) => Option::Some(l - 1),
        Option::None => Option::None,
    }
}

/// A budget of zero (or less) selects nothing more.
pub open spec fn budget_spent(b: Option<int>) -> bool {
    match b {
        Option::Some(l) => l <= 0,
        Option::None => false,
    }
}

/// The budget a query starts with.
pub open spec fn budget_of(limit: Option<usize>) -> Option<int> {
    match limit {
        Option::Some(l) => Option::Some(l as int),
        Option::None => Option::None,
    }
}

/// The indices (in file order, from position `i` on) of the records the
/// query replays: each passing record in turn, until the budget is spent.
pub open spec fn spec_select(
    recs: Seq<LogRecordView>,
    i: int,
    resource_filter: Option<ResourceKind>,
    since: Option<u64>,
    until: Option<u64>,
    budget: Option<int>,
) -> Seq<int>
    decreases recs.len() - i,
{
    if i < 0 || i >= recs.len() {
        Seq::empty()
    } else if budget_spent(budget) {
        Seq::empty()
    } else if spec_record_passes(recs[i], resource_filter, since, until) {
        seq![i] + spec_select(recs, i + 1, resource_filter, since, until, dec_budget(budget))
    } else {
        spec_select(recs, i + 1, resource_filter, since, until, budget)
    }
}

/// The models of a vector of records.
pub open spec fn record_views(rs: Seq<LogRecord>) -> Seq<LogRecordView> {
    Seq::new(rs.len(), |i: int| rs[i]@)
}

/// A vector of indices as a sequence of integers.
pub open spec fn indices_of(s: Seq<usize>) -> Seq<int> {
    Seq::new(s.len(), |k: int| s[k] as int)
}

/// Select, in file order, the indices of the records the query replays:
/// exactly those passing its filters, capped at its limit.
pub fn select_records(records: &Vec<LogRecord>, query: &LogsQuery) -> (r: Vec<usize>)
    ensures
        indices_of(r@) == spec_select(
            record_views(records@),
            0,
            query.resource_filter,
            query.since,
            query.until,
            budget_of(query.limit),
        ),
{
    let ghost rv = record_views(records@);
    let ghost total = spec_select(
        rv,
        0,
        query.resource_filter,
        query.since,
        query.until,
        budget_of(query.limit),
    );
    let mut out: Vec<usize> = Vec::new();
    let mut printed: usize = 0;
    let mut i: usize = 0;
    proof {
        assert(indices_of(out@) =~= Seq::<int>::empty());
        assert(Seq::<int>::empty() + total =~= total);
    }
    while i < records.len()
        invariant
            i <= records@.len(),
            printed <= i,
            rv == record_views(records@),
            printed == out@.len(),
            total == spec_select(
                rv,
                0,
                query.resource_filter,
                query.since,
                query.until,
                budget_of(query.limit),
            ),
            match query.limit {
                Option::Some(l) => printed <= l,
                Option::None => true,
            },
            indices_of(out@) + spec_select(
                rv,
                i as int,
                query.resource_filter,
                query.since,
                query.until,
                remaining_budget(query.limit, printed as int),
            ) == total,
        ensures
            indices_of(out@) == total,
        decreases records@.len() - i,
    {
        let passes = record_passes_filter(&records[i], query);
        proof {
            assert(rv[i as int] == records@[i as int]@);
        }
        if passes {
            let stop = match query.limit {
                Some(max) => printed >= max,
                None => false,
            };
            if stop {
                proof {
                    assert(budget_spent(remaining_budget(query.limit, printed as int)));
                    assert(indices_of(out@) + Seq::<int>::empty() =~= indices_of(out@));
                }
                break;
            }
            let ghost before = out@;
            out.push(i);
            printed = printed + 1;
            proof {
                assert(indices_of(out@) =~= indices_of(before) + seq![i as int]);
                assert(dec_budget(remaining_budget(query.limit, printed as int - 1))
                    == remaining_budget(query.limit, printed as int));
                assert((indices_of(before) + seq![i as int]) + spec_select(
                    rv,
                    i as int + 1,
                    query.resource_filter,
                    query.since,
                    query.until,
                    remaining_budget(query.limit, printed as int),
                ) =~= indices_of(before) + (seq![i as int] + spec_select(
                    rv,
                    i as int + 1,
                    query.resource_filter,
                    query.since,
                    query.until,
                    remaining_budget(query.limit, printed as int),
                )));
            }
        }
        i += 1;
    }
    proof {
        assert(indices_of(out@) + Seq::<int>::empty() =~= indices_of(out@));
    }
    out
}

/// The budget left after some records were already selected.
pub open spec fn remaining_budget(limit: Option<usize>, printed: int) -> Option<int> {
    match limit {
        Option::Some(l) => Option::Some(l - printed),
        Option::None => Option::None,
    }
}

} // verus!

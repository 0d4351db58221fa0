//! The rows of result files, and the times that are reported.

use crate::text;
use vstd::prelude::*;
use vstd::string::StringExecFns;

verus! {

/// One result of one query; `S` holds the score.
pub struct ResultRow<S> {
    pub query_id: usize,
    pub doc_id: u64,
    pub rank: usize,
    pub score: S,
}

/// The rows of results that come one query after the other, `k` for each.
pub open spec fn flat_rows<S>(results: Seq<(S, u64)>, k: nat) -> Seq<ResultRow<S>> {
    Seq::new(
        results.len(),
        |i: int|
            ResultRow {
                query_id: (i / (k as int)) as usize,
                doc_id: results[i].1,
                rank: (i % (k as int) + 1) as usize,
                score: results[i].0,
            },
    )
}

/// The rows of results that come one query after the other, `k` for each.
pub fn rows_of_flat_results<S: Copy>(results: &[(S, u64)], k: usize) -> (rows: Vec<ResultRow<S>>)
    requires
        k > 0 || results@.len() == 0,
    ensures
        rows@ == flat_rows(results@, k as nat),
{
    let mut rows: Vec<ResultRow<S>> = Vec::new();
    for i in 0..results.len()
        invariant
            k > 0 || results@.len() == 0,
            rows@ == flat_rows(results@, k as nat).take(i as int),
    {
        let (score, doc_id) = results[i];
        rows.push(ResultRow { query_id: i / k, doc_id, rank: i % k + 1, score });
        assert(rows@ =~= flat_rows(results@, k as nat).take(i + 1));
    }
    assert(rows@ =~= flat_rows(results@, k as nat));
    rows
}

/// The rows of the results of one query.
pub open spec fn query_rows<S>(query_id: usize, results: Seq<(S, u64)>) -> Seq<ResultRow<S>> {
    Seq::new(
        results.len(),
        |i: int|
            ResultRow {
                query_id,
                doc_id: results[i].1,
                rank: (i + 1) as usize,
                score: results[i].0,
            },
    )
}

/// The rows of the results of several queries.
pub open spec fn nested_rows<S>(results: Seq<Vec<(S, u64)>>) -> Seq<ResultRow<S>>
    decreases results.len(),
{
    if results.len() == 0 {
        Seq::empty()
    } else {
        nested_rows(results.drop_last()) + query_rows(
            (results.len() - 1) as usize,
            results.last()@,
        )
    }
}

/// The rows of the results of several queries.
pub fn rows_of_nested_results<S: Copy>(results: &[Vec<(S, u64)>]) -> (rows: Vec<ResultRow<S>>)
    ensures
        rows@ == nested_rows(results@),
{
    let mut rows: Vec<ResultRow<S>> = Vec::new();
    for q in 0..results.len()
        invariant
            rows@ == nested_rows(results@.take(q as int)),
    {
        let list = &results[q];
        let ghost before = rows@;
        let ghost added = query_rows(q, list@);
        for i in 0..list.len()
            invariant
                added == query_rows(q, list@),
                rows@ == before + added.take(i as int),
        {
            let (score, doc_id) = list[i];
            assert(list@.len() == list.len());
            rows.push(ResultRow { query_id: q, doc_id, rank: i + 1, score });
            assert(rows@ =~= before + added.take(i + 1));
        }
        proof {
            assert(added.take(added.len() as int) =~= added);
            assert(results@.take(q + 1).drop_last() =~= results@.take(q as int));
        }
    }
    assert(results@.take(results@.len() as int) =~= results@);
    rows
}

/// The result at rank `r` of query `q` is row `q * k + r - 1`.
pub proof fn law_flat_row_of_query<S>(results: Seq<(S, u64)>, k: nat, q: int, r: int)
    requires
        k > 0,
        0 <= q,
        1 <= r <= k,
        q * k + r - 1 < results.len(),
        results.len() <= usize::MAX,
    ensures
        ({
            let row = flat_rows(results, k)[q * k + r - 1];
            &&& row.query_id == q
            &&& row.rank == r
            &&& row.doc_id == results[q * k + r - 1].1
            &&& row.score == results[q * k + r - 1].0
        }),
{
    let i = q * k + r - 1;
    assert(0 <= i) by (nonlinear_arith)
        requires
            i == q * k + r - 1,
            0 <= q,
            0 < k,
            1 <= r,
    ;
    assert(i / (k as int) == q && i % (k as int) == r - 1) by (nonlinear_arith)
        requires
            i == q * k + r - 1,
            0 <= q,
            0 < k,
            1 <= r <= k,
    ;
    assert(q <= i) by (nonlinear_arith)
        requires
            i == q * k + r - 1,
            0 <= q,
            0 < k,
            1 <= r,
    ;
}

/// The results of several queries, one query after the other.
pub open spec fn joined<S>(results: Seq<Vec<(S, u64)>>) -> Seq<(S, u64)>
    decreases results.len(),
{
    if results.len() == 0 {
        Seq::empty()
    } else {
        joined(results.drop_last()) + results.last()@
    }
}

/// Where every query has `k` results, both ways of listing them give the same rows.
pub proof fn law_both_listings_agree<S>(results: Seq<Vec<(S, u64)>>, k: nat)
    requires
        k > 0,
        forall|q: int| 0 <= q < results.len() ==> (#[trigger] results[q])@.len() == k,
        results.len() * k <= usize::MAX,
    ensures
        joined(results).len() == results.len() * k,
        flat_rows(joined(results), k) == nested_rows(results),
    decreases results.len(),
{
    if results.len() == 0 {
        assert(flat_rows(joined(results), k) =~= nested_rows(results));
    } else {
        let rest = results.drop_last();
        let q = results.len() - 1;
        assert(rest.len() * k + k == results.len() * k) by (nonlinear_arith)
            requires
                rest.len() == results.len() - 1,
        ;
        assert forall|i: int| 0 <= i < rest.len() implies (#[trigger] rest[i])@.len() == k by {
            assert(rest[i] == results[i]);
        }
        law_both_listings_agree(rest, k);
        let last = results.last()@;
        assert(results[q]@.len() == k);
        let before = joined(rest);
        let flat = flat_rows(joined(results), k);
        let nested = nested_rows(results);
        assert(nested == nested_rows(rest) + query_rows(q as usize, last));
        assert(joined(results) == before + last);
        assert forall|i: int| 0 <= i < flat.len() implies flat[i] == nested[i] by {
            if i < before.len() {
                assert(flat[i] == flat_rows(before, k)[i]);
            } else {
                law_flat_row_of_query(joined(results), k, q, i - before.len() + 1);
            }
        }
        assert(flat =~= nested);
    }
}

/// A row up to its score: query, document and rank, each followed by a tab.
pub open spec fn row_text(query_id: nat, doc_id: nat, rank: nat) -> Seq<char> {
    text::decimal(query_id) + "\t"@ + text::decimal(doc_id) + "\t"@ + text::decimal(rank) + "\t"@
}

impl<S> ResultRow<S> {
    /// The row up to its score.
    pub fn start(&self) -> (line: String)
        ensures
            line@ == row_text(self.query_id as nat, self.doc_id as nat, self.rank as nat),
    {
        let mut line = text::decimal_text(self.query_id as u64);
        line.append("\t");
        line.append(text::decimal_text(self.doc_id).as_str());
        line.append("\t");
        line.append(text::decimal_text(self.rank as u64).as_str());
        line.append("\t");
        line
    }
}

/// The results of each search.
pub open spec fn results_of<S>(searches: Seq<(Vec<(S, u64)>, u128)>) -> Seq<Vec<(S, u64)>> {
    searches.map_values(|found: (Vec<(S, u64)>, u128)| found.0)
}

/// The time that all searches took.
pub open spec fn time_of<S>(searches: Seq<(Vec<(S, u64)>, u128)>) -> nat
    decreases searches.len(),
{
    if searches.len() == 0 {
        0
    } else {
        time_of(searches.drop_last()) + searches.last().1 as nat
    }
}

/// Each search is one that `search` can have made, and the queries come round in turn.
pub open spec fn are_searches<S, F: Fn(usize) -> (Vec<(S, u64)>, u128)>(
    search: F,
    num_queries: nat,
    searches: Seq<(Vec<(S, u64)>, u128)>,
) -> bool {
    forall|i: int|
        0 <= i < searches.len() ==> search.ensures(
            ((i % num_queries as int) as usize,),
            #[trigger] searches[i],
        )
}

/// Runs all queries in turn, as often as asked for.
///
/// Returns the results of all searches, one after the other, and the time they took together.
pub fn run_queries<S, F: Fn(usize) -> (Vec<(S, u64)>, u128)>(
    num_queries: usize,
    num_runs: usize,
    search: &F,
) -> (r: (Vec<(S, u64)>, u128))
    requires
        num_queries * num_runs <= usize::MAX,
        forall|query: usize| query < num_queries ==> #[trigger] search.requires((query,)),
        forall|query: usize, found: (Vec<(S, u64)>, u128)| #[trigger]
            search.ensures((query,), found) ==> found.1 <= u64::MAX,
    ensures
        exists|searches: Seq<(Vec<(S, u64)>, u128)>|
            searches.len() == num_queries * num_runs && #[trigger] are_searches(
                *search,
                num_queries as nat,
                searches,
            ) && r.0@ == joined(results_of(searches)) && r.1 == time_of(searches),
{
    let mut results: Vec<(S, u64)> = Vec::new();
    let mut total: u128 = 0;
    let ghost mut searches: Seq<(Vec<(S, u64)>, u128)> = Seq::empty();
    assert(results@ =~= joined(results_of(searches)));
    assert(0 * num_queries == 0) by (nonlinear_arith);
    for run in 0..num_runs
        invariant
            num_queries * num_runs <= usize::MAX,
            forall|query: usize| query < num_queries ==> #[trigger] search.requires((query,)),
            forall|query: usize, found: (Vec<(S, u64)>, u128)| #[trigger]
                search.ensures((query,), found) ==> found.1 <= u64::MAX,
            searches.len() == run * num_queries,
            are_searches(*search, num_queries as nat, searches),
            results@ == joined(results_of(searches)),
            total == time_of(searches),
            total <= searches.len() * u64::MAX,
    {
        for query in 0..num_queries
            invariant
                run < num_runs,
                num_queries * num_runs <= usize::MAX,
                forall|query: usize| query < num_queries ==> #[trigger] search.requires((query,)),
                forall|query: usize, found: (Vec<(S, u64)>, u128)| #[trigger]
                    search.ensures((query,), found) ==> found.1 <= u64::MAX,
                searches.len() == run * num_queries + query,
                are_searches(*search, num_queries as nat, searches),
                results@ == joined(results_of(searches)),
                total == time_of(searches),
                total <= searches.len() * u64::MAX,
        {
            let found = search(query);
            let ghost made = searches.push(found);
            proof {
                let i = searches.len() as int;
                assert(i < usize::MAX) by (nonlinear_arith)
                    requires
                        i == run * num_queries + query,
                        run < num_runs,
                        query < num_queries,
                        num_queries * num_runs <= usize::MAX,
                ;
                vstd::arithmetic::div_mod::lemma_fundamental_div_mod_converse(
                    i,
                    num_queries as int,
                    run as int,
                    query as int,
                );
                assert(i % num_queries as int == query);
                assert(made.drop_last() =~= searches);
                assert(results_of(made).drop_last() =~= results_of(searches));
                assert forall|k: int| 0 <= k < made.len() implies search.ensures(
                    ((k % num_queries as int) as usize,),
                    #[trigger] made[k],
                ) by {
                    if k < i {
                        assert(made[k] == searches[k]);
                    }
                }
                searches = made;
            }
            let (mut part, time) = found;
            results.append(&mut part);
            total = total + time;
        }
        assert((run + 1) * num_queries == run * num_queries + num_queries) by (nonlinear_arith);
    }
    assert(num_runs * num_queries == num_queries * num_runs) by (nonlinear_arith);
    (results, total)
}

/// The time that a query took on average.
pub fn average_query_time(total: u128, num_queries: usize, num_runs: usize) -> (average: u128)
    requires
        0 < num_queries * num_runs <= usize::MAX,
    ensures
        average == total as int / (num_queries * num_runs),
{
    let searches: usize = num_queries * num_runs;
    total / searches as u128
}

/// The first line of a file of space usages.
pub open spec fn space_header() -> Seq<char> {
    "dataset\tcomponent_type\tn_vectors\tn_dimensions\tavg_nnz\tspace_usage_bytes"@
}

/// The first line of a file of space usages.
pub fn space_usage_header() -> (line: &'static str)
    ensures
        line@ == space_header(),
{
    "dataset\tcomponent_type\tn_vectors\tn_dimensions\tavg_nnz\tspace_usage_bytes"
}

/// A line of a file of space usages, where the average is given in text.
pub fn space_usage_line(
    dataset: &str,
    component_type: &str,
    n_vectors: usize,
    n_dimensions: usize,
    avg_nnz: &str,
    space_bytes: usize,
) -> (line: String)
    ensures
        line@ == dataset@ + "\t"@ + component_type@ + "\t"@ + text::decimal(n_vectors as nat)
            + "\t"@ + text::decimal(n_dimensions as nat) + "\t"@ + avg_nnz@ + "\t"@ + text::decimal(
            space_bytes as nat,
        ),
{
    let mut line = String::from_str(dataset);
    line.append("\t");
    line.append(component_type);
    line.append("\t");
    line.append(text::decimal_text(n_vectors as u64).as_str());
    line.append("\t");
    line.append(text::decimal_text(n_dimensions as u64).as_str());
    line.append("\t");
    line.append(avg_nnz);
    line.append("\t");
    line.append(text::decimal_text(space_bytes as u64).as_str());
    line
}

/// What is listed of each query stands behind what is listed of the queries before it.
///
/// The result at rank `r` of query `q` comes `r` places behind the results of the earlier queries,
/// and its row says so; and there are no other rows.
pub proof fn law_nested_row_of_query<S>(results: Seq<Vec<(S, u64)>>, q: int, r: int)
    requires
        0 <= q < results.len() <= usize::MAX,
        1 <= r <= results[q]@.len() <= usize::MAX,
    ensures
        ({
            let at = joined(results.take(q)).len() + r - 1;
            let row = nested_rows(results)[at];
            &&& nested_rows(results).len() == joined(results).len()
            &&& joined(results.take(q + 1)).len() == joined(results.take(q)).len()
                + results[q]@.len()
            &&& at < joined(results).len()
            &&& joined(results)[at] == results[q]@[r - 1]
            &&& row.query_id == q
            &&& row.rank == r
            &&& row.doc_id == results[q]@[r - 1].1
            &&& row.score == results[q]@[r - 1].0
        }),
    decreases results.len(),
{
    let rest = results.drop_last();
    let last = results.len() - 1;
    lemma_rows_are_joined(results);
    lemma_rows_are_joined(rest);
    assert(results.take(q + 1).drop_last() =~= results.take(q));
    if q < last {
        assert(rest[q] == results[q]);
        law_nested_row_of_query(rest, q, r);
        assert(rest.take(q) =~= results.take(q));
    } else {
        assert(results.take(q) =~= rest);
    }
}

/// There are as many rows as results.
proof fn lemma_rows_are_joined<S>(results: Seq<Vec<(S, u64)>>)
    ensures
        nested_rows(results).len() == joined(results).len(),
    decreases results.len(),
{
    if results.len() > 0 {
        lemma_rows_are_joined(results.drop_last());
    }
}

/// The time of some searches and of some more is the time of all of them, and the time of one is
/// its own.
pub proof fn law_times_add_up<S>(
    a: Seq<(Vec<(S, u64)>, u128)>,
    b: Seq<(Vec<(S, u64)>, u128)>,
    one: (Vec<(S, u64)>, u128),
)
    ensures
        time_of(a + b) == time_of(a) + time_of(b),
        time_of(seq![one]) == one.1,
    decreases b.len(),
{
    assert(seq![one].drop_last() =~= Seq::<(Vec<(S, u64)>, u128)>::empty());
    assert(time_of(Seq::<(Vec<(S, u64)>, u128)>::empty()) == 0);
    if b.len() == 0 {
        assert(a + b =~= a);
    } else {
        law_times_add_up(a, b.drop_last(), one);
        assert((a + b).drop_last() =~= a + b.drop_last());
    }
}

/// All queries are run in their order, then all once more: search `q` of run `r` is for query `q`.
pub proof fn law_queries_come_round<S, F: Fn(usize) -> (Vec<(S, u64)>, u128)>(
    search: F,
    num_queries: usize,
    searches: Seq<(Vec<(S, u64)>, u128)>,
    r: int,
    q: usize,
)
    requires
        are_searches(search, num_queries as nat, searches),
        0 <= r,
        q < num_queries,
        r * num_queries + q < searches.len(),
    ensures
        search.ensures((q,), searches[r * num_queries + q]),
{
    let i = r * num_queries + q;
    assert(0 <= i) by (nonlinear_arith)
        requires
            i == r * num_queries + q,
            0 <= r,
    ;
    vstd::arithmetic::div_mod::lemma_fundamental_div_mod_converse(
        i,
        num_queries as int,
        r,
        q as int,
    );
    assert(search.ensures(((i % num_queries as int) as usize,), searches[i]));
}

} // verus!

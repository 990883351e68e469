//! Rendering of structured query results.  A result carries either one
//! sample (an instant query) or a series of samples (a range query); the
//! tabular renderings are instant-oriented and skip series results.

use vstd::prelude::*;
use vstd::string::StringExecFns;
use crate::strutil::push_char;
use crate::expo::labels_view;

verus! {

/// One labelled series with either a single sample or a series of
/// samples; exactly one of the two is populated by the wire decoder.
/// A sample is a pair of timestamp text and value text.
#[derive(Debug, Clone, PartialEq, Eq)]
pub struct QueryResult {
    pub metric: Vec<(String, String)>,
    pub value: Option<(String, String)>,
    pub values: Option<Vec<(String, String)>>,
}

/// The mathematical model of one result.
pub ghost struct ResultModel {
    pub metric: Seq<(Seq<char>, Seq<char>)>,
    pub value: Option<(Seq<char>, Seq<char>)>,
    pub values: Option<Seq<(Seq<char>, Seq<char>)>>,
}

impl View for QueryResult {
    type V = ResultModel;

    open spec fn view(&self) -> ResultModel {
        ResultModel {
            metric: labels_view(self.metric@),
            value: match self.value {
                Some(ref p) => Some((p.0@, p.1@)),
                None => None,
            },
            values: match self.values {
                Some(ref v) => Some(labels_view(v@)),
                None => None,
            },
        }
    }
}

#[derive(Debug, Clone, PartialEq, Eq)]
pub struct QueryData {
    pub result_type: Option<String>,
    pub result: Vec<QueryResult>,
}

#[derive(Debug, Clone, PartialEq, Eq)]
pub struct QueryResponse {
    pub status: String,
    pub data: QueryData,
}

/// The models of a result list.
pub open spec fn results_view(rs: Seq<QueryResult>) -> Seq<ResultModel> {
    rs.map_values(|q: QueryResult| q@)
}

/// `key=value` as the table's label cell writes one pair.
pub open spec fn label_kv(p: (Seq<char>, Seq<char>)) -> Seq<char> {
    p.0 + seq!['='] + p.1
}

pub open spec fn rest_labels(ls: Seq<(Seq<char>, Seq<char>)>) -> Seq<char>
    decreases ls.len(),
{
    if ls.len() == 0 {
        Seq::<char>::empty()
    } else {
        seq![',', ' '] + label_kv(ls[0]) + rest_labels(ls.skip(1))
    }
}

/// The label pairs joined with `, `, each as `key=value`, in their own
/// order.
pub open spec fn labels_text(ls: Seq<(Seq<char>, Seq<char>)>) -> Seq<char> {
    if ls.len() == 0 {
        Seq::<char>::empty()
    } else {
        label_kv(ls[0]) + rest_labels(ls.skip(1))
    }
}

/// The flattened `key=value, key=value` rendering of a label list.
#[verifier::loop_isolation(false)]
pub fn format_labels(labels: &Vec<(String, String)>) -> (r: String)
    ensures
        r@ == labels_text(labels_view(labels@)),
{
    let ghost lv = labels_view(labels@);
    let mut out = String::new();
    let n = labels.len();
    if n == 0 {
        return out;
    }
    let mut i: usize = 0;
    while i < n
        invariant
            0 <= i <= n,
            n == labels@.len(),
            i == 0 ==> out@ == Seq::<char>::empty(),
            i > 0 ==> out@ + rest_labels(lv.skip(i as int)) == labels_text(lv),
        decreases n - i,
    {
        let ghost snap = out@;
        if i > 0 {
            push_char(&mut out, ',');
            push_char(&mut out, ' ');
        }
        let pair = &labels[i];
        out.append(pair.0.as_str());
        push_char(&mut out, '=');
        out.append(pair.1.as_str());
        proof {
            assert(lv[i as int] == (labels@[i as int].0@, labels@[i as int].1@));
            assert(lv.skip(i as int)[0] == lv[i as int]);
            assert(lv.skip(i as int).skip(1) =~= lv.skip(i + 1));
            if i == 0 {
                assert(out@ =~= label_kv(lv[0]));
                assert(out@ + rest_labels(lv.skip(1)) =~= labels_text(lv));
            } else {
                assert(out@ =~= snap + (seq![',', ' '] + label_kv(lv[i as int])));
                assert(out@ + rest_labels(lv.skip(i + 1)) =~= snap + rest_labels(
                    lv.skip(i as int),
                ));
            }
        }
        i += 1;
    }
    proof {
        assert(rest_labels(lv.skip(n as int)) =~= Seq::<char>::empty());
        assert(out@ =~= out@ + rest_labels(lv.skip(n as int)));
    }
    out
}

/// The table rows of a result list: one `(timestamp, value, labels)` row
/// per single-sample result, in input order; series results yield none.
pub open spec fn table_rows(results: Seq<ResultModel>) -> Seq<(Seq<char>, Seq<char>, Seq<char>)>
    decreases results.len(),
{
    if results.len() == 0 {
        Seq::<(Seq<char>, Seq<char>, Seq<char>)>::empty()
    } else {
        let rest = table_rows(results.skip(1));
        match results[0].value {
            Some(p) => seq![(p.0, p.1, labels_text(results[0].metric))] + rest,
            None => rest,
        }
    }
}

/// The views of rendered table rows.
pub open spec fn rows_view(rs: Seq<(String, String, String)>) -> Seq<
    (Seq<char>, Seq<char>, Seq<char>),
> {
    rs.map_values(|t: (String, String, String)| (t.0@, t.1@, t.2@))
}

/// What the table layout engine prints for these rows, under the header
/// `timestamp`, `value`, `labels`.  A name only: the ruled layout depends
/// on the rows alone.
pub uninterp spec fn table_text(rows: Seq<(Seq<char>, Seq<char>, Seq<char>)>) -> Seq<char>;

/// Relies on tabled's `Builder` and `Table`: lays the header row
/// (`timestamp`, `value`, `labels`) and the given rows out as a ruled
/// table, depending on the rows alone.
#[verifier::external_body]
fn render_table(rows: &Vec<(String, String, String)>) -> (r: String)
    ensures
        r@ == table_text(rows_view(rows@)),
{
    let mut builder = tabled::builder::Builder::new();
    builder.push_record(["timestamp", "value", "labels"]);
    for row in rows.iter() {
        builder.push_record([row.0.as_str(), row.1.as_str(), row.2.as_str()]);
    }
    builder.build().to_string()
}

/// The placeholder an empty table renders instead of an empty grid.
pub open spec fn no_data_msg() -> Seq<char> {
    "no data to display"@
}

/// Renders the single-sample results as a table, in input order; series
/// results are skipped, and an empty table becomes a placeholder line.
#[verifier::loop_isolation(false)]
pub fn format_table(data: &QueryResponse) -> (r: String)
    ensures
        ({
            let rows = table_rows(results_view(data.data.result@));
            if rows.len() == 0 {
                r@ == no_data_msg()
            } else {
                r@ == table_text(rows)
            }
        }),
{
    let ghost rv = results_view(data.data.result@);
    let results = &data.data.result;
    let n = results.len();
    let mut rows: Vec<(String, String, String)> = Vec::new();
    let mut i: usize = 0;
    proof {
        assert(rv.skip(0) =~= rv);
        assert(rows_view(rows@) =~= Seq::<(Seq<char>, Seq<char>, Seq<char>)>::empty());
    }
    while i < n
        invariant
            0 <= i <= n,
            n == results@.len(),
            rows_view(rows@) + table_rows(rv.skip(i as int)) == table_rows(rv),
        decreases n - i,
    {
        let ghost before = rows_view(rows@);
        proof {
            assert(rv[i as int] == results@[i as int]@);
            assert(rv.skip(i as int)[0] == rv[i as int]);
            assert(rv.skip(i as int).skip(1) =~= rv.skip(i + 1));
        }
        let res = &results[i];
        match res.value {
            Some(ref p) => {
                let labels = format_labels(&res.metric);
                let ts = p.0.clone();
                let val = p.1.clone();
                rows.push((ts, val, labels));
                proof {
                    assert(rows_view(rows@) =~= before.push(
                        (p.0@, p.1@, labels_text(rv[i as int].metric)),
                    ));
                    assert(rows_view(rows@) + table_rows(rv.skip(i + 1)) =~= before + table_rows(
                        rv.skip(i as int),
                    ));
                }
            },
            None => {},
        }
        i += 1;
    }
    proof {
        assert(table_rows(rv.skip(n as int)) =~= Seq::<(Seq<char>, Seq<char>, Seq<char>)>::empty());
        assert(rows_view(rows@) =~= rows_view(rows@) + table_rows(rv.skip(n as int)));
    }
    if rows.len() == 0 {
        return String::from_str("no data to display");
    }
    render_table(&rows)
}

/// Law: a series result contributes nothing to the table; removing it
/// leaves the rows unchanged.
pub proof fn lemma_table_ignores_series(results: Seq<ResultModel>, i: int)
    requires
        0 <= i < results.len(),
        results[i].value is None,
    ensures
        table_rows(results.remove(i)) == table_rows(results),
    decreases results.len(),
{
    if i == 0 {
        assert(results.remove(0) =~= results.skip(1));
    } else {
        lemma_table_ignores_series(results.skip(1), i - 1);
        assert(results.remove(i).skip(1) =~= results.skip(1).remove(i - 1));
        assert(results.remove(i)[0] == results[0]);
        assert(results.remove(i).len() > 0);
    }
}

/// Law: when every result carries a single sample, the table holds one
/// row per result, in the same order.
pub proof fn lemma_table_includes_instant(results: Seq<ResultModel>)
    requires
        forall|i: int| 0 <= i < results.len() ==> (#[trigger] results[i]).value is Some,
    ensures
        table_rows(results) == results.map_values(
            |r: ResultModel| ((r.value->0).0, (r.value->0).1, labels_text(r.metric)),
        ),
    decreases results.len(),
{
    let f = |r: ResultModel| ((r.value->0).0, (r.value->0).1, labels_text(r.metric));
    if results.len() == 0 {
        assert(table_rows(results) =~= results.map_values(f));
    } else {
        assert forall|i: int|
            0 <= i < results.skip(1).len() implies (#[trigger] results.skip(1)[i]).value
            is Some by {
            assert(results.skip(1)[i] == results[i + 1]);
        }
        lemma_table_includes_instant(results.skip(1));
        assert(results.skip(1).map_values(f) =~= results.map_values(f).skip(1));
        assert(table_rows(results) =~= results.map_values(f));
    }
}

/// The label keys of a metric, in their own order.
pub open spec fn csv_keys(metric: Seq<(Seq<char>, Seq<char>)>) -> Seq<Seq<char>> {
    metric.map_values(|p: (Seq<char>, Seq<char>)| p.0)
}

/// The views of a key list.
pub open spec fn keys_view(ks: Seq<String>) -> Seq<Seq<char>> {
    ks.map_values(|s: String| s@)
}

pub open spec fn keys_text(keys: Seq<Seq<char>>) -> Seq<char>
    decreases keys.len(),
{
    if keys.len() == 0 {
        Seq::<char>::empty()
    } else {
        seq![','] + keys[0] + keys_text(keys.skip(1))
    }
}

/// The header row: the two fixed columns, then every label key of the
/// first result.  That the header follows the first result alone is the
/// documented shape of this rendering.
pub open spec fn header_text(keys: Seq<Seq<char>>) -> Seq<char> {
    "timestamp,value"@ + keys_text(keys)
}

/// The value under the first occurrence of `k`; empty when absent.
pub open spec fn assoc_get(ls: Seq<(Seq<char>, Seq<char>)>, k: Seq<char>) -> Seq<char>
    decreases ls.len(),
{
    if ls.len() == 0 {
        Seq::<char>::empty()
    } else if ls[0].0 == k {
        ls[0].1
    } else {
        assoc_get(ls.skip(1), k)
    }
}

pub open spec fn row_cells(metric: Seq<(Seq<char>, Seq<char>)>, keys: Seq<Seq<char>>) -> Seq<char>
    decreases keys.len(),
{
    if keys.len() == 0 {
        Seq::<char>::empty()
    } else {
        seq![','] + assoc_get(metric, keys[0]) + row_cells(metric, keys.skip(1))
    }
}

/// One result's row under the first result's keys: nothing for a series
/// result, else timestamp, value, and one cell per header key, empty
/// where the result lacks that key.
pub open spec fn q_csv_row(r: ResultModel, keys: Seq<Seq<char>>) -> Seq<char> {
    match r.value {
        Some(p) => p.0 + seq![','] + p.1 + row_cells(r.metric, keys) + seq!['\n'],
        None => Seq::<char>::empty(),
    }
}

pub open spec fn q_csv_rows(results: Seq<ResultModel>, keys: Seq<Seq<char>>) -> Seq<char>
    decreases results.len(),
{
    if results.len() == 0 {
        Seq::<char>::empty()
    } else {
        q_csv_row(results[0], keys) + q_csv_rows(results.skip(1), keys)
    }
}

/// What the CSV rendering of a result list yields: with no results, the
/// bare two-column header; else the header drawn from the first result's
/// keys, then one row per single-sample result.
pub open spec fn format_csv_spec(results: Seq<ResultModel>) -> Seq<char> {
    if results.len() == 0 {
        "timestamp,value"@ + seq!['\n']
    } else {
        header_text(csv_keys(results[0].metric)) + seq!['\n'] + q_csv_rows(
            results,
            csv_keys(results[0].metric),
        )
    }
}

#[verifier::loop_isolation(false)]
fn assoc_get_exec(metric: &Vec<(String, String)>, key: &String) -> (r: String)
    ensures
        r@ == assoc_get(labels_view(metric@), key@),
{
    let ghost mv = labels_view(metric@);
    let n = metric.len();
    let mut i: usize = 0;
    proof {
        assert(mv.skip(0) =~= mv);
    }
    while i < n
        invariant
            0 <= i <= n,
            n == metric@.len(),
            assoc_get(mv, key@) == assoc_get(mv.skip(i as int), key@),
        decreases n - i,
    {
        proof {
            assert(mv[i as int] == (metric@[i as int].0@, metric@[i as int].1@));
            assert(mv.skip(i as int)[0] == mv[i as int]);
            assert(mv.skip(i as int).skip(1) =~= mv.skip(i + 1));
        }
        let pair = &metric[i];
        if pair.0 == *key {
            proof {
                assert(assoc_get(mv.skip(i as int), key@) == mv[i as int].1);
            }
            return pair.1.clone();
        }
        i += 1;
    }
    proof {
        assert(mv.skip(n as int) =~= Seq::<(Seq<char>, Seq<char>)>::empty());
    }
    String::new()
}

/// Renders the single-sample results as comma-separated rows under a
/// header drawn from the first result's label keys.
#[verifier::loop_isolation(false)]
#[verifier::rlimit(100)]
pub fn format_csv(data: &QueryResponse) -> (r: String)
    ensures
        r@ == format_csv_spec(results_view(data.data.result@)),
{
    let ghost rv = results_view(data.data.result@);
    let results = &data.data.result;
    let mut out = String::from_str("timestamp,value");
    let n = results.len();
    if n == 0 {
        push_char(&mut out, '\n');
        return out;
    }
    // the header keys, taken from the first result
    let ghost kv = csv_keys(rv[0].metric);
    let first = &results[0];
    let kn = first.metric.len();
    let mut keys: Vec<String> = Vec::new();
    let mut j: usize = 0;
    proof {
        assert(rv[0] == results@[0]@);
        assert(kv.skip(0) =~= kv);
        assert(keys_view(keys@) =~= Seq::<Seq<char>>::empty());
    }
    while j < kn
        invariant
            0 <= j <= kn,
            kn == first.metric@.len(),
            kv == csv_keys(rv[0].metric),
            rv[0] == results@[0]@,
            kn == kv.len(),
            keys_view(keys@) =~= kv.take(j as int),
            out@ + keys_text(kv.skip(j as int)) == "timestamp,value"@ + keys_text(kv),
        decreases kn - j,
    {
        let ghost snap = out@;
        let ghost keys_snap = keys@;
        proof {
            assert(kv[j as int] == first.metric@[j as int].0@);
            assert(kv.skip(j as int)[0] == kv[j as int]);
            assert(kv.skip(j as int).skip(1) =~= kv.skip(j + 1));
        }
        push_char(&mut out, ',');
        out.append(first.metric[j].0.as_str());
        keys.push(first.metric[j].0.clone());
        proof {
            assert(keys_view(keys@) =~= keys_view(keys_snap).push(kv[j as int]));
            assert(keys_view(keys@) =~= kv.take(j + 1));
            assert(out@ =~= snap + (seq![','] + kv[j as int]));
            assert(out@ + keys_text(kv.skip(j + 1)) =~= snap + keys_text(kv.skip(j as int)));
        }
        j += 1;
    }
    push_char(&mut out, '\n');
    proof {
        assert(keys_text(kv.skip(kn as int)) =~= Seq::<char>::empty());
        assert(kv.take(kn as int) =~= kv);
        assert(out@ =~= header_text(kv) + seq!['\n']);
        assert(rv.skip(0) =~= rv);
    }
    // one row per single-sample result
    let mut i: usize = 0;
    while i < n
        invariant
            0 <= i <= n,
            n == results@.len(),
            n == rv.len(),
            kv == csv_keys(rv[0].metric),
            keys_view(keys@) == kv,
            out@ + q_csv_rows(rv.skip(i as int), kv) == format_csv_spec(rv),
        decreases n - i,
    {
        let ghost snap = out@;
        proof {
            assert(rv[i as int] == results@[i as int]@);
            assert(rv.skip(i as int)[0] == rv[i as int]);
            assert(rv.skip(i as int).skip(1) =~= rv.skip(i + 1));
        }
        let res = &results[i];
        match res.value {
            Some(ref p) => {
                out.append(p.0.as_str());
                push_char(&mut out, ',');
                out.append(p.1.as_str());
                let ghost row_start = out@;
                let ghost mv = rv[i as int].metric;
                let km = keys.len();
                let mut c: usize = 0;
                while c < km
                    invariant
                        0 <= c <= km,
                        km == keys@.len(),
                        km == kv.len(),
                        keys_view(keys@) == kv,
                        mv == rv[i as int].metric,
                        mv == labels_view(res.metric@),
                        out@ + row_cells(mv, kv.skip(c as int)) == row_start + row_cells(mv, kv),
                    decreases km - c,
                {
                    let ghost cell_snap = out@;
                    proof {
                        assert(kv[c as int] == keys@[c as int]@);
                        assert(kv.skip(c as int)[0] == kv[c as int]);
                        assert(kv.skip(c as int).skip(1) =~= kv.skip(c + 1));
                    }
                    push_char(&mut out, ',');
                    let cell = assoc_get_exec(&res.metric, &keys[c]);
                    out.append(cell.as_str());
                    proof {
                        assert(out@ =~= cell_snap + (seq![','] + assoc_get(mv, kv[c as int])));
                        assert(out@ + row_cells(mv, kv.skip(c + 1)) =~= cell_snap + row_cells(
                            mv,
                            kv.skip(c as int),
                        ));
                    }
                    c += 1;
                }
                push_char(&mut out, '\n');
                proof {
                    assert(row_cells(mv, kv.skip(km as int)) =~= Seq::<char>::empty());
                    assert(out@ =~= snap + q_csv_row(rv[i as int], kv));
                    assert(out@ + q_csv_rows(rv.skip(i + 1), kv) =~= snap + q_csv_rows(
                        rv.skip(i as int),
                        kv,
                    ));
                }
            },
            None => {
                proof {
                    assert(q_csv_row(rv[i as int], kv) =~= Seq::<char>::empty());
                    assert(out@ + q_csv_rows(rv.skip(i + 1), kv) =~= snap + q_csv_rows(
                        rv.skip(i as int),
                        kv,
                    ));
                }
            },
        }
        i += 1;
    }
    proof {
        assert(q_csv_rows(rv.skip(n as int), kv) =~= Seq::<char>::empty());
        assert(out@ =~= out@ + q_csv_rows(rv.skip(n as int), kv));
    }
    out
}


/// The answer of a health probe.
#[derive(Debug, Clone, PartialEq, Eq)]
pub struct HealthResponse {
    pub status: String,
    pub version: Option<String>,
    pub uptime: Option<String>,
}

/// The answer of a metric-name listing.
#[derive(Debug, Clone, PartialEq, Eq)]
pub struct MetricsList {
    pub status: String,
    pub data: Vec<String>,
}

/// One snapshot as the backend lists it.
#[derive(Debug, Clone, PartialEq, Eq)]
pub struct SnapshotInfo {
    pub name: String,
    pub created_at: String,
    pub size: String,
    pub status: String,
}

/// The backend's retention summary.
#[derive(Debug, Clone, PartialEq, Eq)]
pub struct RetentionInfo {
    pub current_retention: String,
    pub used_space: String,
    pub total_space: String,
    pub metrics_older_than_30d: Option<String>,
    pub metrics_older_than_60d: Option<String>,
    pub metrics_older_than_90d: Option<String>,
}


} // verus!

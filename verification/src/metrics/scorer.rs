//! Several metrics of the same plans, side by side.
use crate::district::{
    ascending_districts, district_set_changed_text, sorted_district_ids,
    validate_district_set_unchanged,
};
use crate::error::{invalid_data, Error};
use crate::metrics::PreparedMetricOutput;
use crate::output::run_directory::{agrees, RunMetricLayout};
use crate::text::{decimal, push_decimal, same_text};
use vstd::prelude::*;

verus! {

/// A metric that was set up for scoring.
#[derive(Clone, Copy, PartialEq, Eq, Structural, Debug)]
pub enum MetricKind {
    /// Tallies, one table per column.
    Tally { tables: usize },
    Reock,
    PolsbyPopper,
}

impl MetricKind {
    /// What fixes the length of a plan.
    pub fn node_count_label(&self) -> (r: &'static str)
        ensures
            r@ == (match self {
                MetricKind::Reock => "geometry row count"@,
                _ => "graph node count"@,
            }),
    {
        match self {
            MetricKind::Reock => "geometry row count",
            MetricKind::Tally { tables: _ } => "graph node count",
            MetricKind::PolsbyPopper => "graph node count",
        }
    }

    /// The name of the metric in a manifest.
    pub open spec fn key_text(&self) -> Seq<char> {
        match self {
            MetricKind::Tally { .. } => "tally"@,
            MetricKind::Reock => "reock"@,
            MetricKind::PolsbyPopper => "polsby_popper"@,
        }
    }

    /// The name of the metric in a manifest.
    pub fn metric_key(&self) -> (r: &'static str)
        ensures
            r@ == self.key_text(),
    {
        match self {
            MetricKind::Tally { tables: _ } => "tally",
            MetricKind::Reock => "reock",
            MetricKind::PolsbyPopper => "polsby_popper",
        }
    }

    /// How many tables the metric has.
    pub open spec fn table_count(&self) -> nat {
        match self {
            MetricKind::Tally { tables } => *tables as nat,
            _ => 1,
        }
    }

    /// Where table `index` goes.
    pub open spec fn table_path_text(&self, index: nat) -> Seq<char> {
        match self {
            MetricKind::Tally { .. } => "tally/"@ + padded(index) + ".parquet"@,
            MetricKind::Reock => "reock/scores.parquet"@,
            MetricKind::PolsbyPopper => "polsby_popper/scores.parquet"@,
        }
    }

    /// Where the tables go.
    pub fn layout(&self) -> (r: RunMetricLayout)
        ensures
            r.table_paths@.len() == self.table_count(),
            forall|i: int|
                0 <= i < r.table_paths@.len() ==> (#[trigger] r.table_paths@[i])@
                    == self.table_path_text(i as nat),
    {
        let mut table_paths: Vec<String> = Vec::new();
        match self {
            MetricKind::Tally { tables } => {
                let mut i: usize = 0;
                while i < *tables
                    invariant
                        *self == (MetricKind::Tally { tables: *tables }),
                        i <= *tables,
                        table_paths@.len() == i,
                        forall|k: int|
                            0 <= k < i ==> (#[trigger] table_paths@[k])@ == self.table_path_text(
                                k as nat,
                            ),
                    decreases *tables - i,
                {
                    let mut path = "tally/".to_owned();
                    push_padded(&mut path, i as u64);
                    path.append(".parquet");
                    table_paths.push(path);
                    i += 1;
                }
            },
            MetricKind::Reock => {
                table_paths.push("reock/scores.parquet".to_owned());
            },
            MetricKind::PolsbyPopper => {
                table_paths.push("polsby_popper/scores.parquet".to_owned());
            },
        }
        RunMetricLayout { table_paths }
    }
}

/// A number with zeros in front, to at least four digits.
pub open spec fn padded(n: nat) -> Seq<char> {
    if n < 10 {
        "000"@ + decimal(n)
    } else if n < 100 {
        "00"@ + decimal(n)
    } else if n < 1000 {
        "0"@ + decimal(n)
    } else {
        decimal(n)
    }
}

fn push_padded(out: &mut String, n: u64)
    ensures
        final(out)@ == old(out)@ + padded(n as nat),
{
    let ghost start = out@;
    if n < 10 {
        out.append("000");
    } else if n < 100 {
        out.append("00");
    } else if n < 1000 {
        out.append("0");
    }
    push_decimal(out, n);
    proof {
        assert(out@ =~= start + padded(n as nat));
    }
}

/// Check that metrics saw one label set. Gives it.
pub fn validate_observed(observed: &[u128]) -> (r: Result<u128, Error>)
    ensures
        r is Ok <==> observed@.len() > 0 && forall|i: int|
            0 <= i < observed@.len() ==> #[trigger] observed@[i] == observed@[0],
        r matches Ok(mask) ==> mask == observed@[0],
        r matches Err(e) ==> e.is_invalid_data(
            if observed@.len() == 0 {
                "cannot score without a prepared metric"@
            } else {
                "prepared metrics observed different district sets"@
            },
        ),
{
    if observed.len() == 0 {
        return Err(invalid_data("cannot score without a prepared metric".to_owned()));
    }
    let mask: u128 = observed[0];
    let mut i: usize = 0;
    while i < observed.len()
        invariant
            0 < observed@.len(),
            i <= observed@.len(),
            mask == observed@[0],
            forall|k: int| 0 <= k < i ==> #[trigger] observed@[k] == mask,
        decreases observed.len() - i,
    {
        if observed[i] != mask {
            assert(observed@[i as int] != observed@[0]);
            return Err(
                invalid_data("prepared metrics observed different district sets".to_owned()),
            );
        }
        i += 1;
    }
    Ok(mask)
}

/// Check that the outputs of metrics have one label set. Gives it.
pub fn validate_matching_observed<V>(outputs: &[PreparedMetricOutput<V>]) -> (r: Result<
    u128,
    Error,
>)
    ensures
        r is Ok <==> outputs@.len() > 0 && agrees(outputs@),
        r matches Ok(observed) ==> observed == outputs@[0].observed,
        r matches Err(e) ==> e.is_invalid_data(
            if outputs@.len() == 0 {
                "cannot score without a prepared metric"@
            } else {
                "prepared metrics observed different district sets"@
            },
        ),
{
    let mut observed: Vec<u128> = Vec::new();
    let mut i: usize = 0;
    while i < outputs.len()
        invariant
            i <= outputs@.len(),
            observed@.len() == i,
            forall|k: int| 0 <= k < i ==> #[trigger] observed@[k] == outputs@[k].observed,
        decreases outputs.len() - i,
    {
        observed.push(outputs[i].observed);
        i += 1;
    }
    proof {
        assert(agrees(outputs@) <==> forall|k: int|
            0 <= k < observed@.len() ==> #[trigger] observed@[k] == observed@[0]) by {
            if agrees(outputs@) && outputs@.len() > 0 {
                assert forall|k: int| 0 <= k < observed@.len() implies #[trigger] observed@[k]
                    == observed@[0] by {
                    assert(outputs@[k].observed == outputs@[0].observed);
                }
            }
            if forall|k: int| 0 <= k < observed@.len() ==> #[trigger] observed@[k] == observed@[0] {
                assert forall|k: int| 0 <= k < outputs@.len() implies (
                #[trigger] outputs@[k]).observed == outputs@[0].observed by {
                    assert(observed@[k] == observed@[0]);
                }
            }
        }
    }
    validate_observed(observed.as_slice())
}

// ---------------------------------------------------------------------------------------------
// Rows of scores
// ---------------------------------------------------------------------------------------------

/// The values of a table at some districts.
pub open spec fn at_districts<V>(table: Seq<V>, districts: Seq<u16>) -> Seq<V> {
    Seq::new(districts.len(), |c: int| table[districts[c] as int])
}

/// The values of the first `t` tables of an output at some districts, table by table.
pub open spec fn output_row<V>(
    output: PreparedMetricOutput<V>,
    districts: Seq<u16>,
    t: int,
) -> Seq<V>
    decreases t,
{
    if t <= 0 {
        Seq::empty()
    } else {
        output_row(output, districts, t - 1) + at_districts(output.table_values(t - 1), districts)
    }
}

/// The values of the first `m` outputs at some districts, output by output.
pub open spec fn score_row<V>(
    outputs: Seq<PreparedMetricOutput<V>>,
    districts: Seq<u16>,
    m: int,
) -> Seq<V>
    decreases m,
{
    if m <= 0 {
        Seq::empty()
    } else {
        score_row(outputs, districts, m - 1) + output_row(
            outputs[m - 1],
            districts,
            outputs[m - 1].table_count as int,
        )
    }
}

/// Whether all tables of an output are there.
pub open spec fn complete<V>(output: PreparedMetricOutput<V>) -> bool {
    forall|t: int| 0 <= t < output.table_count ==> #[trigger] output.has_table(t)
}

/// Whether an output has a slot for each of its districts.
pub open spec fn covers<V>(output: PreparedMetricOutput<V>, districts: Seq<u16>) -> bool {
    forall|c: int| 0 <= c < districts.len() ==> #[trigger] districts[c] < output.district_slots
}

/// Append the values of a table at some districts.
fn push_table<V: Copy>(
    row: &mut Vec<V>,
    output: &PreparedMetricOutput<V>,
    table: &[V],
    districts: &[u16],
    Ghost(t): Ghost<int>,
)
    requires
        table@ == output.table_values(t),
        0 <= t,
        output.has_table(t),
        covers(*output, districts@),
    ensures
        final(row)@ == old(row)@ + at_districts(output.table_values(t), districts@),
{
    let ghost start = row@;
    proof {
        let n = output.district_slots as int;
        assert((t + 1) * n == t * n + n) by (nonlinear_arith);
        assert(0 <= t * n) by (nonlinear_arith)
            requires
                0 <= t,
                0 <= n,
        ;
        assert(table@.len() == n);
    }
    let mut c: usize = 0;
    while c < districts.len()
        invariant
            c <= districts@.len(),
            table@.len() == output.district_slots,
            covers(*output, districts@),
            row@ == start + at_districts(table@, districts@).take(c as int),
        decreases districts.len() - c,
    {
        let district: usize = districts[c] as usize;
        assert(districts@[c as int] < output.district_slots);
        row.push(table[district]);
        proof {
            let all = at_districts(table@, districts@);
            assert(row@ =~= start + all.take(c + 1));
        }
        c += 1;
    }
    proof {
        let all = at_districts(table@, districts@);
        assert(all.take(c as int) =~= all);
    }
}

/// Put the values of all metrics for one plan in a row: for every metric, table and district.
pub fn assemble_row<V: Copy>(outputs: &[PreparedMetricOutput<V>], districts: &[u16]) -> (r: Result<
    Vec<V>,
    Error,
>)
    requires
        forall|m: int| 0 <= m < outputs@.len() ==> covers(#[trigger] outputs@[m], districts@),
    ensures
        r is Ok <==> forall|m: int| 0 <= m < outputs@.len() ==> complete(#[trigger] outputs@[m]),
        r matches Ok(row) ==> row@ == score_row(outputs@, districts@, outputs@.len() as int),
        r matches Err(e) ==> e.is_invalid_data("prepared metric returned a malformed table"@),
{
    let mut row: Vec<V> = Vec::new();
    let mut m: usize = 0;
    while m < outputs.len()
        invariant
            m <= outputs@.len(),
            forall|k: int| 0 <= k < outputs@.len() ==> covers(#[trigger] outputs@[k], districts@),
            forall|k: int| 0 <= k < m ==> complete(#[trigger] outputs@[k]),
            row@ == score_row(outputs@, districts@, m as int),
        decreases outputs.len() - m,
    {
        let output = &outputs[m];
        let mut t: usize = 0;
        proof {
            assert(score_row(outputs@, districts@, m as int) + output_row(
                *output,
                districts@,
                0,
            ) =~= score_row(outputs@, districts@, m as int));
        }
        while t < output.table_count
            invariant
                m < outputs@.len(),
                *output == outputs@[m as int],
                t <= output.table_count,
                covers(*output, districts@),
                forall|k: int| 0 <= k < t ==> #[trigger] output.has_table(k),
                row@ == score_row(outputs@, districts@, m as int) + output_row(
                    *output,
                    districts@,
                    t as int,
                ),
            decreases output.table_count - t,
        {
            match output.table(t) {
                Some(table) => {
                    push_table(&mut row, output, table, districts, Ghost(t as int));
                    proof {
                        assert(row@ =~= score_row(outputs@, districts@, m as int) + output_row(
                            *output,
                            districts@,
                            t + 1,
                        ));
                    }
                },
                None => {
                    proof {
                        assert(!output.has_table(t as int));
                        assert(!complete(outputs@[m as int]));
                    }
                    return Err(
                        invalid_data("prepared metric returned a malformed table".to_owned()),
                    );
                },
            }
            t += 1;
        }
        m += 1;
    }
    Ok(row)
}

/// Scores of many plans, row by row. The first plan fixes the districts.
#[derive(Debug)]
pub struct ScoreTable<V> {
    pub expected: Option<u128>,
    pub district_ids: Vec<u16>,
    pub rows: Vec<Vec<V>>,
}

impl<V: Copy> ScoreTable<V> {
    /// The districts are those of the first plan.
    pub open spec fn wf(&self) -> bool {
        match self.expected {
            Some(mask) => self.district_ids@ == ascending_districts(mask),
            None => self.rows@.len() == 0 && self.district_ids@.len() == 0,
        }
    }

    /// No plan yet.
    pub fn new() -> (r: Self)
        ensures
            r.wf(),
            r.expected is None,
            r.rows@.len() == 0,
    {
        ScoreTable { expected: None, district_ids: Vec::new(), rows: Vec::new() }
    }

    /// Add a plan.
    pub fn push(&mut self, outputs: &[PreparedMetricOutput<V>]) -> (r: Result<(), Error>)
        requires
            old(self).wf(),
            forall|m: int|
                0 <= m < outputs@.len() ==> covers(
                    #[trigger] outputs@[m],
                    ascending_districts(outputs@[0].observed),
                ),
        ensures
            final(self).wf(),
            r is Ok <==> outputs@.len() > 0 && agrees(outputs@) && (
            old(self).expected matches Some(mask) ==> mask == outputs@[0].observed) && forall|
                m: int,
            |
                0 <= m < outputs@.len() ==> complete(#[trigger] outputs@[m]),
            r is Ok ==> {
                &&& final(self).expected == Some(outputs@[0].observed)
                &&& final(self).rows@.len() == old(self).rows@.len() + 1
                &&& final(self).rows@.take(old(self).rows@.len() as int) == old(self).rows@
                &&& final(self).rows@.last()@ == score_row(
                    outputs@,
                    ascending_districts(outputs@[0].observed),
                    outputs@.len() as int,
                )
            },
            r matches Err(e) ==> if outputs@.len() == 0 {
                e.is_invalid_data("cannot score without a prepared metric"@)
            } else if !agrees(outputs@) {
                e.is_invalid_data("prepared metrics observed different district sets"@)
            } else if old(self).expected matches Some(mask) && mask != outputs@[0].observed {
                e matches Error::DistrictSetChanged(message) && message@
                    == district_set_changed_text(
                    outputs@[0].observed,
                    old(self).expected->0,
                    "score"@,
                )
            } else {
                e.is_invalid_data("prepared metric returned a malformed table"@)
            },
    {
        let observed: u128 = match validate_matching_observed(outputs) {
            Ok(observed) => observed,
            Err(e) => {
                return Err(e);
            },
        };
        match self.expected {
            Some(expected) => {
                match validate_district_set_unchanged(observed, expected, "score") {
                    Ok(()) => {},
                    Err(e) => {
                        return Err(e);
                    },
                }
            },
            None => {
                self.district_ids = sorted_district_ids(observed);
                self.expected = Some(observed);
            },
        }
        match assemble_row(outputs, self.district_ids.as_slice()) {
            Ok(row) => {
                self.rows.push(row);
                proof {
                    assert(self.rows@.take(old(self).rows@.len() as int) =~= old(self).rows@);
                }
                Ok(())
            },
            Err(e) => Err(e),
        }
    }
}

// ---------------------------------------------------------------------------------------------
// Manifest
// ---------------------------------------------------------------------------------------------

/// An entry of a manifest's metric list, as far as it is looked at: the metric's name and the paths
/// of its tables, where the entry gives them in the right form.
#[derive(Debug)]
pub struct ManifestEntry {
    pub metric_key: Option<String>,
    pub tables: Option<Vec<Option<String>>>,
}

/// Whether an entry names the metric.
pub open spec fn names_metric(entry: ManifestEntry, metric: MetricKind) -> bool {
    entry.metric_key matches Some(key) && key@ == metric.key_text()
}

/// Whether an entry lists exactly the tables of a layout.
pub open spec fn lists_tables(entry: ManifestEntry, layout: RunMetricLayout) -> bool {
    entry.tables matches Some(tables) && tables@.len() == layout.table_paths@.len() && forall|
        i: int,
    |
        0 <= i < tables@.len() ==> (#[trigger] tables@[i] matches Some(path) && path@
            == layout.table_paths@[i]@)
}

/// What is wrong with an entry: its name comes first, then the form of its table list.
pub open spec fn entry_problem(
    entry: ManifestEntry,
    metric: MetricKind,
    layout: RunMetricLayout,
) -> Option<Seq<char>> {
    if !names_metric(entry, metric) {
        Some("manifest metric order does not match prepared metric order"@)
    } else if entry.tables is None {
        Some("manifest metric tables must be an array"@)
    } else if !lists_tables(entry, layout) {
        Some("manifest table paths do not match the run-directory layout"@)
    } else {
        None
    }
}

fn same_tables(tables: &Vec<Option<String>>, paths: &Vec<String>) -> (r: bool)
    ensures
        r <==> tables@.len() == paths@.len() && forall|i: int|
            0 <= i < tables@.len() ==> (#[trigger] tables@[i] matches Some(path) && path@
                == paths@[i]@),
{
    if tables.len() != paths.len() {
        return false;
    }
    let mut i: usize = 0;
    while i < tables.len()
        invariant
            i <= tables@.len() == paths@.len(),
            forall|k: int|
                0 <= k < i ==> (#[trigger] tables@[k] matches Some(path) && path@ == paths@[k]@),
        decreases tables.len() - i,
    {
        match &tables[i] {
            Some(path) => {
                if !same_text(path.as_str(), paths[i].as_str()) {
                    assert(!(tables@[i as int] matches Some(p) && p@ == paths@[i as int]@));
                    return false;
                }
            },
            None => {
                assert(tables@[i as int] is None);
                return false;
            },
        }
        i += 1;
    }
    true
}

/// Check a manifest's metric list against the metrics that are scored. `entries` is `None` where the
/// list is no list.
pub fn validate_manifest_metrics(
    entries: Option<&[ManifestEntry]>,
    metrics: &[MetricKind],
    layouts: &[RunMetricLayout],
) -> (r: Result<(), Error>)
    requires
        layouts@.len() == metrics@.len(),
    ensures
        r is Ok <==> (entries matches Some(list) && list@.len() == metrics@.len() && forall|i: int|
            0 <= i < list@.len() ==> entry_problem(
                #[trigger] list@[i],
                metrics@[i],
                layouts@[i],
            ) is None),
        r matches Err(e) ==> match entries {
            None => e.is_invalid_data("manifest metrics must be a JSON array"@),
            Some(list) => if list@.len() != metrics@.len() {
                e.is_invalid_data("manifest metric count does not match prepared metric count"@)
            } else {
                exists|i: int|
                    0 <= i < list@.len() && (entry_problem(
                        #[trigger] list@[i],
                        metrics@[i],
                        layouts@[i],
                    ) matches Some(text) && e.is_invalid_data(text)) && forall|j: int|
                        0 <= j < i ==> entry_problem(
                            #[trigger] list@[j],
                            metrics@[j],
                            layouts@[j],
                        ) is None
            },
        },
{
    let list = match entries {
        Some(list) => list,
        None => {
            return Err(invalid_data("manifest metrics must be a JSON array".to_owned()));
        },
    };
    if list.len() != metrics.len() {
        return Err(
            invalid_data("manifest metric count does not match prepared metric count".to_owned()),
        );
    }
    let mut i: usize = 0;
    while i < list.len()
        invariant
            i <= list@.len() == metrics@.len(),
            layouts@.len() == metrics@.len(),
            entries matches Some(l) && l@ == list@,
            forall|k: int|
                0 <= k < i ==> entry_problem(#[trigger] list@[k], metrics@[k], layouts@[k]) is None,
        decreases list.len() - i,
    {
        let named = match &list[i].metric_key {
            Some(key) => same_text(key.as_str(), metrics[i].metric_key()),
            None => false,
        };
        if !named {
            assert(entry_problem(list@[i as int], metrics@[i as int], layouts@[i as int]) is Some);
            return Err(
                invalid_data(
                    "manifest metric order does not match prepared metric order".to_owned(),
                ),
            );
        }
        match &list[i].tables {
            None => {
                assert(entry_problem(
                    list@[i as int],
                    metrics@[i as int],
                    layouts@[i as int],
                ) is Some);
                return Err(invalid_data("manifest metric tables must be an array".to_owned()));
            },
            Some(tables) => {
                if !same_tables(tables, &layouts[i].table_paths) {
                    assert(!lists_tables(list@[i as int], layouts@[i as int]));
                    assert(entry_problem(
                        list@[i as int],
                        metrics@[i as int],
                        layouts@[i as int],
                    ) is Some);
                    return Err(
                        invalid_data(
                            "manifest table paths do not match the run-directory layout".to_owned(),
                        ),
                    );
                }
                assert(lists_tables(list@[i as int], layouts@[i as int]));
            },
        }
        i += 1;
    }
    Ok(())
}

/// The values of an output stand table by table, and within a table district by district.
pub proof fn law_output_row<V>(
    output: PreparedMetricOutput<V>,
    districts: Seq<u16>,
    tables: int,
    t: int,
    c: int,
)
    requires
        0 <= t < tables,
        0 <= c < districts.len(),
        districts[c] < output.district_slots,
        (t + 1) * output.district_slots <= output.values@.len(),
    ensures
        output_row(output, districts, tables).len() == tables * districts.len(),
        0 <= t * districts.len() + c < tables * districts.len(),
        output_row(output, districts, tables)[t * districts.len() + c]
            == output.values@[t * output.district_slots + districts[c]],
    decreases tables,
{
    let k = districts.len() as int;
    let row = output_row(output, districts, tables);
    let before = output_row(output, districts, tables - 1);
    if tables == 1 {
        lemma_output_row_len(output, districts, 0);
    } else {
        lemma_output_row_len(output, districts, tables - 1);
    }
    lemma_output_row_len(output, districts, tables);
    assert(0 <= t * k + c < tables * k) by (nonlinear_arith)
        requires
            0 <= t < tables,
            0 <= c < k,
    ;
    if t < tables - 1 {
        law_output_row(output, districts, tables - 1, t, c);
        assert(row[t * k + c] == before[t * k + c]);
    } else {
        assert(row[t * k + c] == at_districts(output.table_values(t), districts)[c]);
        lemma_table_value(output, t, districts[c] as int);
    }
}

proof fn lemma_table_value<V>(output: PreparedMetricOutput<V>, t: int, d: int)
    requires
        0 <= t,
        0 <= d < output.district_slots,
        (t + 1) * output.district_slots <= output.values@.len(),
    ensures
        output.table_values(t)[d] == output.values@[t * output.district_slots + d],
{
    let n = output.district_slots as int;
    assert((t + 1) * n == t * n + n) by (nonlinear_arith);
    assert(0 <= t * n) by (nonlinear_arith)
        requires
            0 <= t,
            0 <= n,
    ;
}

proof fn lemma_output_row_len<V>(output: PreparedMetricOutput<V>, districts: Seq<u16>, tables: int)
    requires
        0 <= tables,
    ensures
        output_row(output, districts, tables).len() == tables * districts.len(),
    decreases tables,
{
    let k = districts.len() as int;
    if tables > 0 {
        lemma_output_row_len(output, districts, tables - 1);
        assert((tables - 1) * k + k == tables * k) by (nonlinear_arith);
    } else {
        assert(tables * k == 0) by (nonlinear_arith)
            requires
                tables == 0,
        ;
    }
}

/// The row of a plan is made of its outputs, one behind the other.
pub proof fn law_score_row<V>(
    outputs: Seq<PreparedMetricOutput<V>>,
    districts: Seq<u16>,
    m: int,
)
    requires
        0 <= m < outputs.len(),
    ensures
        score_row(outputs, districts, 0).len() == 0,
        score_row(outputs, districts, m + 1) == score_row(outputs, districts, m) + output_row(
            outputs[m],
            districts,
            outputs[m].table_count as int,
        ),
{
}

/// A padded number is its decimal notation with zeros in front, as many as it takes to four digits.
pub proof fn law_padded(n: nat)
    ensures
        padded(n).len() == (if decimal(n).len() < 4 {
            4
        } else {
            decimal(n).len()
        }),
        padded(n).skip(padded(n).len() - decimal(n).len()) == decimal(n),
        forall|i: int|
            0 <= i < padded(n).len() - decimal(n).len() ==> #[trigger] padded(n)[i] == '0',
{
    reveal_strlit("000");
    reveal_strlit("00");
    reveal_strlit("0");
    reveal_with_fuel(decimal, 5);
    assert(padded(n).skip(padded(n).len() - decimal(n).len()) =~= decimal(n));
}

/// An entry is without fault exactly when it names the metric and lists the paths of its tables, all
/// of them and in order.
pub proof fn law_entry_problem(entry: ManifestEntry, metric: MetricKind, layout: RunMetricLayout)
    ensures
        entry_problem(entry, metric, layout) is None <==> {
            &&& (entry.metric_key matches Some(key) && key@ == metric.key_text())
            &&& (entry.tables matches Some(tables) && tables@.len() == layout.table_paths@.len()
                && forall|i: int|
                0 <= i < tables@.len() ==> (#[trigger] tables@[i] matches Some(path) && path@
                    == layout.table_paths@[i]@))
        },
{
}

} // verus!

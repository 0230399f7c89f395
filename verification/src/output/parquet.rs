//! Rows on their way into a table file.
//!
//! Rows are collected and handed out batch by batch, as columns. A file is wanted only once there is
//! a row for it, or once a run without rows has ended well; a run that fails before its first row
//! leaves no file.
use crate::district::{ascending_districts, sorted_district_ids};
use crate::text::{decimal, push_decimal};
use vstd::prelude::*;

verus! {

/// A row of a table: the number of its first sample, how many samples it stands for, the number of
/// its plan, and its cells.
pub ghost struct TableRow<C> {
    pub step: u64,
    pub n_reps: u32,
    pub accepted_count: u64,
    pub cells: C,
}

/// What a new row asks of the file: whether to create it first, and which batch to write.
#[derive(Debug)]
pub struct Flush<B> {
    pub create: bool,
    pub batch: Option<B>,
}

/// Whether rows are enough for a batch.
pub open spec fn fills_batch(rows: nat, batch_rows: usize) -> bool {
    rows > 0 && rows >= batch_rows
}

// ---------------------------------------------------------------------------------------------
// One value per row
// ---------------------------------------------------------------------------------------------

/// A batch of rows with one value each, as columns.
#[derive(Debug)]
pub struct MetricBatch<V> {
    pub sample_numbers: Vec<u64>,
    pub n_reps_numbers: Vec<u32>,
    pub accepted_numbers: Vec<u64>,
    pub metric_values: Vec<V>,
}

impl<V> MetricBatch<V> {
    /// Columns of one length.
    pub open spec fn wf(&self) -> bool {
        &&& self.n_reps_numbers@.len() == self.sample_numbers@.len()
        &&& self.accepted_numbers@.len() == self.sample_numbers@.len()
        &&& self.metric_values@.len() == self.sample_numbers@.len()
    }

    /// The rows.
    pub open spec fn rows(&self) -> Seq<TableRow<V>> {
        Seq::new(
            self.sample_numbers@.len(),
            |i: int|
                TableRow {
                    step: self.sample_numbers@[i],
                    n_reps: self.n_reps_numbers@[i],
                    accepted_count: self.accepted_numbers@[i],
                    cells: self.metric_values@[i],
                },
        )
    }

    fn new() -> (r: Self)
        ensures
            r.wf(),
            r.rows() == Seq::<TableRow<V>>::empty(),
    {
        let r = MetricBatch {
            sample_numbers: Vec::new(),
            n_reps_numbers: Vec::new(),
            accepted_numbers: Vec::new(),
            metric_values: Vec::new(),
        };
        proof {
            assert(r.rows() =~= Seq::<TableRow<V>>::empty());
        }
        r
    }
}

/// Collects rows with one value each.
#[derive(Debug)]
pub struct MetricWriter<V> {
    pub batch_rows: usize,
    /// Whether the file is there.
    pub created: bool,
    pub pending: MetricBatch<V>,
}

impl<V> MetricWriter<V> {
    /// Fewer rows wait than a batch needs.
    pub open spec fn wf(&self) -> bool {
        self.pending.wf() && !fills_batch(self.pending.rows().len(), self.batch_rows)
    }

    /// No rows yet, and no file.
    pub fn new(batch_rows: usize) -> (r: Self)
        ensures
            r.wf(),
            r.batch_rows == batch_rows,
            !r.created,
            r.pending.rows() == Seq::<TableRow<V>>::empty(),
    {
        MetricWriter { batch_rows, created: false, pending: MetricBatch::new() }
    }

    /// Take a row.
    pub fn push(&mut self, step: u64, n_reps: u32, accepted_count: u64, value: V) -> (r: Flush<
        MetricBatch<V>,
    >)
        requires
            old(self).wf(),
        ensures
            final(self).wf(),
            final(self).batch_rows == old(self).batch_rows,
            final(self).created,
            r.create == !old(self).created,
            ({
                let rows = old(self).pending.rows().push(
                    TableRow { step, n_reps, accepted_count, cells: value },
                );
                if fills_batch(rows.len(), old(self).batch_rows) {
                    &&& r.batch matches Some(batch)
                    &&& batch.wf()
                    &&& batch.rows() == rows
                    &&& final(self).pending.rows() == Seq::<TableRow<V>>::empty()
                } else {
                    r.batch is None && final(self).pending.rows() == rows
                }
            }),
            forall|rows: Seq<TableRow<V>>|
                old(self).pending.rows() == (#[trigger] batches(rows, old(self).batch_rows)).1
                    ==> goes_on(
                    rows,
                    TableRow { step, n_reps, accepted_count, cells: value },
                    old(self).batch_rows,
                    match r.batch {
                        Some(batch) => Some(batch.rows()),
                        None => None,
                    },
                    final(self).pending.rows(),
                ),
    {
        proof {
            assert forall|rows: Seq<TableRow<V>>|
                self.pending.rows() == (#[trigger] batches(rows, self.batch_rows)).1 implies {
                let row = TableRow { step, n_reps, accepted_count, cells: value };
                let grown = self.pending.rows().push(row);
                &&& fills_batch(grown.len(), self.batch_rows) ==> goes_on(
                    rows,
                    row,
                    self.batch_rows,
                    Some(grown),
                    Seq::empty(),
                )
                &&& !fills_batch(grown.len(), self.batch_rows) ==> goes_on(
                    rows,
                    row,
                    self.batch_rows,
                    None,
                    grown,
                )
            } by {
                lemma_goes_on(
                    rows,
                    TableRow { step, n_reps, accepted_count, cells: value },
                    self.batch_rows,
                    self.pending.rows(),
                );
            }
        }
        let create = !self.created;
        self.created = true;
        let ghost rows = self.pending.rows().push(
            TableRow { step, n_reps, accepted_count, cells: value },
        );
        self.pending.sample_numbers.push(step);
        self.pending.n_reps_numbers.push(n_reps);
        self.pending.accepted_numbers.push(accepted_count);
        self.pending.metric_values.push(value);
        proof {
            assert(self.pending.rows() =~= rows);
        }
        if self.pending.sample_numbers.len() >= self.batch_rows {
            let mut batch = MetricBatch::new();
            std::mem::swap(&mut batch, &mut self.pending);
            Flush { create, batch: Some(batch) }
        } else {
            Flush { create, batch: None }
        }
    }

    /// End the table: a table without rows gets its file now.
    pub fn finish(self) -> (r: Flush<MetricBatch<V>>)
        requires
            self.wf(),
        ensures
            r.create == !self.created,
            match r.batch {
                Some(batch) => batch == self.pending && batch.rows().len() > 0,
                None => self.pending.rows() == Seq::<TableRow<V>>::empty(),
            },
    {
        let create = !self.created;
        if self.pending.sample_numbers.len() == 0 {
            proof {
                assert(self.pending.rows() =~= Seq::<TableRow<V>>::empty());
            }
            Flush { create, batch: None }
        } else {
            Flush { create, batch: Some(self.pending) }
        }
    }
}

/// The batches of some rows, in order, and the rows that are left.
pub open spec fn batches<C>(rows: Seq<TableRow<C>>, batch_rows: usize) -> (
    Seq<Seq<TableRow<C>>>,
    Seq<TableRow<C>>,
)
    decreases rows.len(),
{
    if rows.len() == 0 {
        (Seq::empty(), Seq::empty())
    } else {
        let (done, left) = batches(rows.drop_last(), batch_rows);
        let grown = left.push(rows.last());
        if fills_batch(grown.len(), batch_rows) {
            (done.push(grown), Seq::empty())
        } else {
            (done, grown)
        }
    }
}

/// Whether a writer that was given `rows`, and wrote their batches, goes on with `row`: it writes the
/// batch that `row` fills, if it fills one, and keeps what is left.
pub open spec fn goes_on<C>(
    rows: Seq<TableRow<C>>,
    row: TableRow<C>,
    batch_rows: usize,
    written: Option<Seq<TableRow<C>>>,
    pending: Seq<TableRow<C>>,
) -> bool {
    &&& pending == batches(rows.push(row), batch_rows).1
    &&& batches(rows.push(row), batch_rows).0 == match written {
        Some(batch) => batches(rows, batch_rows).0.push(batch),
        None => batches(rows, batch_rows).0,
    }
}

proof fn lemma_goes_on<C>(
    rows: Seq<TableRow<C>>,
    row: TableRow<C>,
    batch_rows: usize,
    before: Seq<TableRow<C>>,
)
    requires
        before == batches(rows, batch_rows).1,
    ensures
        fills_batch(before.push(row).len(), batch_rows) ==> goes_on(
            rows,
            row,
            batch_rows,
            Some(before.push(row)),
            Seq::empty(),
        ),
        !fills_batch(before.push(row).len(), batch_rows) ==> goes_on(
            rows,
            row,
            batch_rows,
            None,
            before.push(row),
        ),
{
    assert(rows.push(row).drop_last() =~= rows);
}

/// Batches one after another.
pub open spec fn flattened<C>(parts: Seq<Seq<TableRow<C>>>) -> Seq<TableRow<C>>
    decreases parts.len(),
{
    if parts.len() == 0 {
        Seq::empty()
    } else {
        flattened(parts.drop_last()) + parts.last()
    }
}

/// Nothing is lost and nothing changes place: the batches and what is left are the rows. Every batch
/// is as large as asked for, and what is left is smaller.
pub proof fn law_batches_are_the_rows<C>(rows: Seq<TableRow<C>>, batch_rows: usize)
    ensures
        flattened(batches(rows, batch_rows).0) + batches(rows, batch_rows).1 == rows,
        !fills_batch(batches(rows, batch_rows).1.len(), batch_rows),
        forall|i: int|
            0 <= i < batches(rows, batch_rows).0.len() ==> (#[trigger] batches(
                rows,
                batch_rows,
            ).0[i]).len() == if batch_rows == 0 {
                1
            } else {
                batch_rows as int
            },
    decreases rows.len(),
{
    if rows.len() == 0 {
        assert(flattened(batches(rows, batch_rows).0) + batches(rows, batch_rows).1 =~= rows);
    } else {
        let shorter = rows.drop_last();
        law_batches_are_the_rows(shorter, batch_rows);
        let (done, left) = batches(shorter, batch_rows);
        let grown = left.push(rows.last());
        assert(flattened(done) + left == shorter);
        assert(flattened(done) + grown =~= shorter.push(rows.last()));
        assert(shorter.push(rows.last()) =~= rows);
        if fills_batch(grown.len(), batch_rows) {
            assert(done.push(grown).drop_last() =~= done);
            assert(flattened(done.push(grown)) + Seq::<TableRow<C>>::empty() =~= rows);
        }
    }
}

/// Rows go into batches in turn: batch `b` holds the rows from `b` times the batch size on, one
/// batch size of them, and what is left are the rows behind the last full batch. A batch size of
/// zero counts as one.
pub proof fn law_batch_of_a_row<C>(rows: Seq<TableRow<C>>, batch_rows: usize, b: int)
    requires
        0 <= b,
    ensures
        ({
            let size = if batch_rows == 0 {
                1int
            } else {
                batch_rows as int
            };
            let (done, left) = batches(rows, batch_rows);
            &&& done.len() * size + left.len() == rows.len()
            &&& left.len() < size
            &&& left == rows.skip(done.len() * size)
            &&& b < done.len() ==> b * size + size <= rows.len() && done[b] == rows.subrange(
                b * size,
                b * size + size,
            )
        }),
    decreases rows.len(),
{
    let size = if batch_rows == 0 {
        1int
    } else {
        batch_rows as int
    };
    let (done, left) = batches(rows, batch_rows);
    if rows.len() == 0 {
        assert(done.len() * size == 0);
        assert(left =~= rows.skip(0));
    } else {
        let before = rows.drop_last();
        law_batch_of_a_row(before, batch_rows, b);
        let (full, rest) = batches(before, batch_rows);
        let start = full.len() * size;
        let grown = rest.push(rows.last());
        assert(0 <= start) by (nonlinear_arith)
            requires
                start == full.len() * size,
                size >= 1,
        ;
        assert(grown =~= rows.skip(start));
        if b < full.len() {
            assert(0 <= b * size) by (nonlinear_arith)
                requires
                    0 <= b,
                    size >= 1,
            ;
            assert(before.subrange(b * size, b * size + size) =~= rows.subrange(
                b * size,
                b * size + size,
            ));
        }
        if fills_batch(grown.len(), batch_rows) {
            assert(grown.len() == size);
            assert((full.len() + 1) * size == start + size) by (nonlinear_arith)
                requires
                    start == full.len() * size,
            ;
            assert(done.len() == full.len() + 1);
            assert(rows.skip(start) =~= rows.subrange(start, start + size));
            assert(left =~= rows.skip(start + size));
        }
    }
}

// ---------------------------------------------------------------------------------------------
// One column per district
// ---------------------------------------------------------------------------------------------

/// A batch of rows with one cell per district, as columns.
#[derive(Debug)]
pub struct DistrictBatch<V> {
    pub sample_numbers: Vec<u64>,
    pub n_reps_numbers: Vec<u32>,
    pub accepted_numbers: Vec<u64>,
    pub district_columns: Vec<Vec<Option<V>>>,
}

impl<V> DistrictBatch<V> {
    /// Columns of one length, one for each of `districts`.
    pub open spec fn wf(&self, districts: nat) -> bool {
        &&& self.n_reps_numbers@.len() == self.sample_numbers@.len()
        &&& self.accepted_numbers@.len() == self.sample_numbers@.len()
        &&& self.district_columns@.len() == districts
        &&& forall|c: int|
            0 <= c < districts ==> (#[trigger] self.district_columns@[c])@.len()
                == self.sample_numbers@.len()
    }

    /// The rows.
    pub open spec fn rows(&self) -> Seq<TableRow<Seq<Option<V>>>> {
        Seq::new(
            self.sample_numbers@.len(),
            |i: int|
                TableRow {
                    step: self.sample_numbers@[i],
                    n_reps: self.n_reps_numbers@[i],
                    accepted_count: self.accepted_numbers@[i],
                    cells: Seq::new(
                        self.district_columns@.len(),
                        |c: int| self.district_columns@[c]@[i],
                    ),
                },
        )
    }

    fn new(districts: usize) -> (r: Self)
        ensures
            r.wf(districts as nat),
            r.rows() == Seq::<TableRow<Seq<Option<V>>>>::empty(),
    {
        let mut district_columns: Vec<Vec<Option<V>>> = Vec::new();
        let mut c: usize = 0;
        while c < districts
            invariant
                c <= districts,
                district_columns@.len() == c,
                forall|k: int| 0 <= k < c ==> (#[trigger] district_columns@[k])@.len() == 0,
            decreases districts - c,
        {
            district_columns.push(Vec::new());
            c += 1;
        }
        let r = DistrictBatch {
            sample_numbers: Vec::new(),
            n_reps_numbers: Vec::new(),
            accepted_numbers: Vec::new(),
            district_columns,
        };
        proof {
            assert(r.rows() =~= Seq::<TableRow<Seq<Option<V>>>>::empty());
        }
        r
    }
}

/// Collects rows with one cell per district. The first row fixes which districts have a column.
#[derive(Debug)]
pub struct DistrictMetricWriter<V> {
    pub batch_rows: usize,
    /// Whether the file is there.
    pub created: bool,
    pub district_ids: Vec<u16>,
    pub pending: DistrictBatch<V>,
}

/// The cells of a row: for each district its value, where there is one.
pub open spec fn picked<V>(districts: Seq<u16>, values: Seq<V>) -> Seq<Option<V>> {
    Seq::new(
        districts.len(),
        |c: int|
            if districts[c] < values.len() {
                Some(values[districts[c] as int])
            } else {
                None
            },
    )
}

impl<V: Copy> DistrictMetricWriter<V> {
    /// Fewer rows wait than a batch needs. Without a file there are no rows and no districts.
    pub open spec fn wf(&self) -> bool {
        &&& self.pending.wf(self.district_ids@.len())
        &&& !fills_batch(self.pending.rows().len(), self.batch_rows)
        &&& !self.created ==> self.district_ids@.len() == 0 && self.pending.rows().len() == 0
    }

    /// No rows yet, and no file.
    pub fn new(batch_rows: usize) -> (r: Self)
        ensures
            r.wf(),
            r.batch_rows == batch_rows,
            !r.created,
    {
        DistrictMetricWriter {
            batch_rows,
            created: false,
            district_ids: Vec::new(),
            pending: DistrictBatch::new(0),
        }
    }

    /// The districts that have a column once a row with the given labels is in.
    pub open spec fn districts_with(&self, observed: u128) -> Seq<u16> {
        if self.created {
            self.district_ids@
        } else {
            ascending_districts(observed)
        }
    }

    /// Take a row. `values` is indexed by district.
    pub fn push_row(
        &mut self,
        step: u64,
        n_reps: u32,
        accepted_count: u64,
        observed: u128,
        values: &[V],
    ) -> (r: Flush<DistrictBatch<V>>)
        requires
            old(self).wf(),
        ensures
            final(self).wf(),
            final(self).batch_rows == old(self).batch_rows,
            final(self).created,
            final(self).district_ids@ == old(self).districts_with(observed),
            r.create == !old(self).created,
            ({
                let rows = old(self).pending.rows().push(
                    TableRow {
                        step,
                        n_reps,
                        accepted_count,
                        cells: picked(old(self).districts_with(observed), values@),
                    },
                );
                if fills_batch(rows.len(), old(self).batch_rows) {
                    &&& r.batch matches Some(batch)
                    &&& batch.wf(final(self).district_ids@.len())
                    &&& batch.rows() == rows
                    &&& final(self).pending.rows() == Seq::<TableRow<Seq<Option<V>>>>::empty()
                } else {
                    r.batch is None && final(self).pending.rows() == rows
                }
            }),
            forall|rows: Seq<TableRow<Seq<Option<V>>>>|
                old(self).pending.rows() == (#[trigger] batches(rows, old(self).batch_rows)).1
                    ==> goes_on(
                    rows,
                    TableRow {
                        step,
                        n_reps,
                        accepted_count,
                        cells: picked(old(self).districts_with(observed), values@),
                    },
                    old(self).batch_rows,
                    match r.batch {
                        Some(batch) => Some(batch.rows()),
                        None => None,
                    },
                    final(self).pending.rows(),
                ),
    {
        let ghost row = TableRow {
            step,
            n_reps,
            accepted_count,
            cells: picked(self.districts_with(observed), values@),
        };
        proof {
            assert forall|rows: Seq<TableRow<Seq<Option<V>>>>|
                self.pending.rows() == (#[trigger] batches(rows, self.batch_rows)).1 implies {
                let grown = self.pending.rows().push(row);
                &&& fills_batch(grown.len(), self.batch_rows) ==> goes_on(
                    rows,
                    row,
                    self.batch_rows,
                    Some(grown),
                    Seq::empty(),
                )
                &&& !fills_batch(grown.len(), self.batch_rows) ==> goes_on(
                    rows,
                    row,
                    self.batch_rows,
                    None,
                    grown,
                )
            } by {
                lemma_goes_on(rows, row, self.batch_rows, self.pending.rows());
            }
        }
        let ghost before = self.pending.rows();
        let create = !self.created;
        if create {
            self.district_ids = sorted_district_ids(observed);
            self.pending = DistrictBatch::new(self.district_ids.len());
            self.created = true;
            proof {
                assert(before =~= Seq::<TableRow<Seq<Option<V>>>>::empty());
            }
        }
        let ghost earlier = self.pending;
        let ghost count = self.pending.sample_numbers@.len();
        self.pending.sample_numbers.push(step);
        self.pending.n_reps_numbers.push(n_reps);
        self.pending.accepted_numbers.push(accepted_count);
        let mut c: usize = 0;
        while c < self.district_ids.len()
            invariant
                c <= self.district_ids@.len(),
                self.district_ids@ == old(self).districts_with(observed),
                self.created,
                self.batch_rows == old(self).batch_rows,
                self.pending.sample_numbers@ == earlier.sample_numbers@.push(step),
                self.pending.n_reps_numbers@ == earlier.n_reps_numbers@.push(n_reps),
                self.pending.accepted_numbers@ == earlier.accepted_numbers@.push(accepted_count),
                self.pending.district_columns@.len() == self.district_ids@.len(),
                earlier.wf(self.district_ids@.len()),
                count == earlier.sample_numbers@.len(),
                forall|k: int|
                    0 <= k < c ==> (#[trigger] self.pending.district_columns@[k])@
                        == earlier.district_columns@[k]@.push(
                        picked(self.district_ids@, values@)[k],
                    ),
                forall|k: int|
                    c <= k < self.district_ids@.len() ==> #[trigger] self.pending.district_columns@[k]
                        == earlier.district_columns@[k],
            decreases self.district_ids.len() - c,
        {
            let district: usize = self.district_ids[c] as usize;
            let cell: Option<V> = if district < values.len() {
                Some(values[district])
            } else {
                None
            };
            self.pending.district_columns[c].push(cell);
            c += 1;
        }
        proof {
            let rows = before.push(
                TableRow {
                    step,
                    n_reps,
                    accepted_count,
                    cells: picked(old(self).districts_with(observed), values@),
                },
            );
            assert forall|i: int| 0 <= i < rows.len() implies #[trigger] self.pending.rows()[i]
                == rows[i] by {
                if i < count {
                    assert(self.pending.rows()[i].cells =~= earlier.rows()[i].cells);
                } else {
                    assert(self.pending.rows()[i].cells =~= picked(self.district_ids@, values@));
                }
            }
            assert(self.pending.rows() =~= rows);
        }
        if self.pending.sample_numbers.len() >= self.batch_rows {
            let mut batch = DistrictBatch::new(self.district_ids.len());
            std::mem::swap(&mut batch, &mut self.pending);
            Flush { create, batch: Some(batch) }
        } else {
            Flush { create, batch: None }
        }
    }

    /// End the table: a table without rows gets its file now, without district columns.
    pub fn finish(self) -> (r: Flush<DistrictBatch<V>>)
        requires
            self.wf(),
        ensures
            r.create == !self.created,
            match r.batch {
                Some(batch) => batch == self.pending && batch.rows().len() > 0,
                None => self.pending.rows() == Seq::<TableRow<Seq<Option<V>>>>::empty(),
            },
    {
        let create = !self.created;
        if self.pending.sample_numbers.len() == 0 {
            proof {
                assert(self.pending.rows() =~= Seq::<TableRow<Seq<Option<V>>>>::empty());
            }
            Flush { create, batch: None }
        } else {
            Flush { create, batch: Some(self.pending) }
        }
    }
}

// ---------------------------------------------------------------------------------------------
// Columns
// ---------------------------------------------------------------------------------------------

/// The name of a district's column.
pub open spec fn district_column_text(id: nat) -> Seq<char> {
    "district_"@ + decimal(id)
}

/// The name of a district's column.
pub fn district_column_name(id: u16) -> (r: String)
    ensures
        r@ == district_column_text(id as nat),
{
    let mut name = "district_".to_owned();
    push_decimal(&mut name, id as u64);
    name
}

/// The names of the columns of a table with one column per district.
pub fn district_table_columns(district_ids: &[u16]) -> (r: Vec<String>)
    ensures
        r@.len() == 3 + district_ids@.len(),
        r@[0]@ == "step"@,
        r@[1]@ == "n_reps"@,
        r@[2]@ == "accepted_count"@,
        forall|c: int|
            0 <= c < district_ids@.len() ==> (#[trigger] r@[3 + c])@ == district_column_text(
                district_ids@[c] as nat,
            ),
{
    let mut names: Vec<String> = Vec::new();
    names.push("step".to_owned());
    names.push("n_reps".to_owned());
    names.push("accepted_count".to_owned());
    let mut c: usize = 0;
    while c < district_ids.len()
        invariant
            c <= district_ids@.len(),
            names@.len() == 3 + c,
            names@[0]@ == "step"@,
            names@[1]@ == "n_reps"@,
            names@[2]@ == "accepted_count"@,
            forall|k: int|
                0 <= k < c ==> (#[trigger] names@[3 + k])@ == district_column_text(
                    district_ids@[k] as nat,
                ),
        decreases district_ids.len() - c,
    {
        names.push(district_column_name(district_ids[c]));
        c += 1;
    }
    names
}

/// The node column of a table with one row per node.
pub fn node_column(nodes: usize) -> (r: Vec<u32>)
    requires
        nodes <= u32::MAX,
    ensures
        r@ == Seq::new(nodes as nat, |i: int| i as u32),
{
    let mut column: Vec<u32> = Vec::new();
    let mut node: usize = 0;
    while node < nodes
        invariant
            node <= nodes <= u32::MAX,
            column@ == Seq::new(node as nat, |i: int| i as u32),
        decreases nodes - node,
    {
        column.push(node as u32);
        proof {
            assert(column@ =~= Seq::new((node + 1) as nat, |i: int| i as u32));
        }
        node += 1;
    }
    column
}

/// The cells of a row are the values of the districts with a column, in column order; a district
/// beyond the values has none.
pub proof fn law_picked<V>(districts: Seq<u16>, values: Seq<V>, c: int)
    requires
        0 <= c < districts.len(),
    ensures
        picked(districts, values).len() == districts.len(),
        districts[c] < values.len() ==> picked(districts, values)[c] == Some(
            values[districts[c] as int],
        ),
        districts[c] >= values.len() ==> picked(districts, values)[c] is None,
{
}

/// The rows of a batch, read off its columns.
pub proof fn law_metric_rows<V>(batch: MetricBatch<V>, i: int)
    requires
        0 <= i < batch.sample_numbers@.len(),
    ensures
        batch.rows().len() == batch.sample_numbers@.len(),
        batch.rows()[i].step == batch.sample_numbers@[i],
        batch.rows()[i].n_reps == batch.n_reps_numbers@[i],
        batch.rows()[i].accepted_count == batch.accepted_numbers@[i],
        batch.rows()[i].cells == batch.metric_values@[i],
{
}

/// The rows of a batch with a column per district, read off its columns.
pub proof fn law_district_rows<V>(batch: DistrictBatch<V>, i: int, c: int)
    requires
        0 <= i < batch.sample_numbers@.len(),
        0 <= c < batch.district_columns@.len(),
    ensures
        batch.rows().len() == batch.sample_numbers@.len(),
        batch.rows()[i].step == batch.sample_numbers@[i],
        batch.rows()[i].n_reps == batch.n_reps_numbers@[i],
        batch.rows()[i].accepted_count == batch.accepted_numbers@[i],
        batch.rows()[i].cells.len() == batch.district_columns@.len(),
        batch.rows()[i].cells[c] == batch.district_columns@[c]@[i],
{
}

} // verus!

//! Run directories: the tables of several metrics, and a manifest that describes them.
//!
//! A run directory is filled under a temporary name and gets its own name once it is complete.
use crate::district::{ascending_districts, sorted_district_ids};
use crate::error::{invalid_data, Error, IoErrorKind};
use crate::metrics::PreparedMetricOutput;
use crate::output::parquet::{district_column_name, district_column_text};
use crate::path::{file_name, file_name_text, join, join_text, parent, parent_text};
use crate::text::{
    chars_of, decimal, push_decimal, quoted, quoted_path, quoted_path_text, quoted_text,
};
use vstd::prelude::*;

verus! {

/// The tables of one metric, by their paths within the run directory.
#[derive(Debug)]
pub struct RunMetricLayout {
    pub table_paths: Vec<String>,
}

/// The message for a destination that is there already.
pub open spec fn already_there_text(output_dir: Seq<char>) -> Seq<char> {
    "output path "@ + quoted_path_text(output_dir) + " already exists"@
}

/// Where a run directory is filled: under which directory, and the name that it gets.
#[derive(Debug)]
pub struct RunDirectoryPlace {
    pub parent: String,
    pub name: String,
}

/// Check a destination. `exists` tells whether something is there.
///
/// A destination that is there already is never touched.
pub fn place_run_directory(output_dir: &str, exists: bool) -> (r: Result<RunDirectoryPlace, Error>)
    ensures
        match r {
            Ok(place) => {
                &&& !exists
                &&& file_name_text(output_dir@) == Some(place.name@)
                &&& match parent_text(output_dir@) {
                    Some(dir) => place.parent@ == dir,
                    None => place.parent@ == "."@,
                }
            },
            Err(e) => if output_dir@.len() == 0 {
                e.is_invalid_data("output directory must not be empty"@)
            } else if exists {
                e matches Error::Io { kind, message } && kind == IoErrorKind::AlreadyExists
                    && message@ == already_there_text(output_dir@)
            } else {
                file_name_text(output_dir@) is None && e.is_invalid_data(
                    "output directory must name a directory"@,
                )
            },
        },
{
    if output_dir.unicode_len() == 0 {
        proof {
            assert(output_dir@ =~= Seq::<char>::empty());
        }
        return Err(invalid_data("output directory must not be empty".to_owned()));
    }
    if exists {
        let mut message = "output path ".to_owned();
        message.append(quoted_path(output_dir).as_str());
        message.append(" already exists");
        return Err(Error::Io { kind: IoErrorKind::AlreadyExists, message });
    }
    let dir = match parent(output_dir) {
        Some(dir) => dir,
        None => ".".to_owned(),
    };
    match file_name(output_dir) {
        Some(name) => Ok(RunDirectoryPlace { parent: dir, name }),
        None => Err(invalid_data("output directory must name a directory".to_owned())),
    }
}

/// The lower-case hexadecimal digit of `d`, for `d < 16`.
pub open spec fn small_hex_digit(d: nat) -> char {
    if d < 10 {
        (48 + d) as char
    } else {
        (87 + d) as char
    }
}

/// The last `width` hexadecimal digits of `n`.
pub open spec fn hex_digits(n: nat, width: nat) -> Seq<char>
    decreases width,
{
    if width == 0 {
        Seq::empty()
    } else {
        hex_digits(n / 16, (width - 1) as nat).push(small_hex_digit(n % 16))
    }
}

fn small_hex_text(d: u64) -> (r: &'static str)
    requires
        d < 16,
    ensures
        r@ == seq![small_hex_digit(d as nat)],
{
    proof {
        reveal_strlit("0");
        reveal_strlit("1");
        reveal_strlit("2");
        reveal_strlit("3");
        reveal_strlit("4");
        reveal_strlit("5");
        reveal_strlit("6");
        reveal_strlit("7");
        reveal_strlit("8");
        reveal_strlit("9");
        reveal_strlit("a");
        reveal_strlit("b");
        reveal_strlit("c");
        reveal_strlit("d");
        reveal_strlit("e");
        reveal_strlit("f");
    }
    match d {
        0 => "0",
        1 => "1",
        2 => "2",
        3 => "3",
        4 => "4",
        5 => "5",
        6 => "6",
        7 => "7",
        8 => "8",
        9 => "9",
        10 => "a",
        11 => "b",
        12 => "c",
        13 => "d",
        14 => "e",
        _ => "f",
    }
}

fn push_hex_digits(out: &mut String, n: u64, width: u32)
    ensures
        final(out)@ == old(out)@ + hex_digits(n as nat, width as nat),
    decreases width,
{
    if width > 0 {
        push_hex_digits(out, n / 16, width - 1);
        out.append(small_hex_text(n % 16));
        proof {
            assert(out@ =~= old(out)@ + hex_digits(n as nat, width as nat));
        }
    } else {
        proof {
            assert(out@ =~= old(out)@ + hex_digits(n as nat, 0));
        }
    }
}

/// `u64` of `fastrand` over its whole range. Nothing is claimed of the number.
#[verifier::external_body]
fn random_number() -> u64 {
    fastrand::u64(..)
}

/// The temporary path of a run directory, told apart by a process and a number.
pub open spec fn temporary_path_text(
    place: RunDirectoryPlace,
    process: u32,
    number: u64,
) -> Seq<char> {
    join_text(
        place.parent@,
        "."@ + place.name@ + ".tmp-"@ + decimal(process as nat) + "-"@ + hex_digits(
            number as nat,
            16,
        ),
    )
}

/// The temporary path of a run directory for a process and a number.
pub fn temporary_path(place: &RunDirectoryPlace, process: u32, number: u64) -> (r: String)
    ensures
        r@ == temporary_path_text(*place, process, number),
{
    let mut name = ".".to_owned();
    name.append(place.name.as_str());
    name.append(".tmp-");
    push_decimal(&mut name, process as u64);
    name.append("-");
    push_hex_digits(&mut name, number, 16);
    join(place.parent.as_str(), name.as_str())
}

/// A temporary path for a process and a random number.
pub fn random_temporary_path(place: &RunDirectoryPlace, process: u32) -> (r: String)
    ensures
        exists|number: u64| r@ == #[trigger] temporary_path_text(*place, process, number),
{
    let number: u64 = random_number();
    let path = temporary_path(place, process, number);
    assert(path@ == temporary_path_text(*place, process, number));
    path
}

/// How often a temporary path is tried before a run gives up.
pub const MAX_ATTEMPTS: usize = 100;

/// After `attempts` temporary paths that were all taken: whether to try another.
pub fn try_again(attempts: usize) -> (r: Result<(), Error>)
    ensures
        r is Ok <==> attempts < MAX_ATTEMPTS,
        r matches Err(e) ==> e matches Error::Io { kind, message } && kind
            == IoErrorKind::AlreadyExists && message@ == "temporary path collision"@,
{
    if attempts < MAX_ATTEMPTS {
        Ok(())
    } else {
        Err(
            Error::Io {
                kind: IoErrorKind::AlreadyExists,
                message: "temporary path collision".to_owned(),
            },
        )
    }
}

/// Whether a component of a path is `..`.
pub open spec fn climbs(path: Seq<char>) -> bool {
    exists|i: int|
        0 <= i && i + 2 <= path.len() && #[trigger] path[i] == '.' && path[i + 1] == '.' && (i == 0
            || path[i - 1] == '/') && (i + 2 == path.len() || path[i + 2] == '/')
}

/// Whether a path stays below the directory that it is joined to: not absolute, not started by `.`,
/// and never going up.
pub open spec fn stays_below(path: Seq<char>) -> bool {
    &&& path.len() > 0 ==> path[0] != '/'
    &&& !(path.len() > 0 && path[0] == '.' && (path.len() == 1 || path[1] == '/'))
    &&& !climbs(path)
}

/// The message for a table path that leaves the run directory.
pub open spec fn bad_table_path_text(path: Seq<char>) -> Seq<char> {
    "invalid run-directory table path "@ + quoted_text(path)
}

/// Check the path of a table.
pub fn validate_table_path(relative: &str) -> (r: Result<(), Error>)
    ensures
        r is Ok <==> stays_below(relative@),
        r matches Err(e) ==> e.is_invalid_data(bad_table_path_text(relative@)),
{
    let path = chars_of(relative);
    let n: usize = path.len();
    let mut bad = n > 0 && (path[0] == '/' || (path[0] == '.' && (n == 1 || path[1] == '/')));
    let mut i: usize = 0;
    while i < n && !bad
        invariant
            i <= n,
            n == path@.len(),
            path@ == relative@,
            !bad ==> forall|k: int|
                0 <= k < i ==> !(k + 2 <= path@.len() && #[trigger] path@[k] == '.' && path@[k + 1]
                    == '.' && (k == 0 || path@[k - 1] == '/') && (k + 2 == path@.len() || path@[k
                    + 2] == '/')),
            bad ==> !stays_below(path@),
            !bad ==> (path@.len() > 0 ==> path@[0] != '/') && !(path@.len() > 0 && path@[0] == '.'
                && (path@.len() == 1 || path@[1] == '/')),
        decreases n - i,
    {
        if i + 1 < n && path[i] == '.' && path[i + 1] == '.' && (i == 0 || path[i - 1] == '/') && (i
            + 2 == n || path[i + 2] == '/') {
            proof {
                assert(path@[i as int] == '.');
                assert(climbs(path@));
            }
            bad = true;
        }
        i += 1;
    }
    if bad {
        let mut message = "invalid run-directory table path ".to_owned();
        message.append(quoted(relative).as_str());
        return Err(invalid_data(message));
    }
    Ok(())
}

/// The label sets of outputs.
pub open spec fn agrees<V>(outputs: Seq<PreparedMetricOutput<V>>) -> bool {
    forall|i: int|
        0 <= i < outputs.len() ==> (#[trigger] outputs[i]).observed == outputs[0].observed
}

/// Whether an output has exactly `tables` tables that are all there.
pub open spec fn output_fits<V>(output: PreparedMetricOutput<V>, tables: usize) -> bool {
    output.table_count == tables && forall|t: int|
        0 <= t < tables ==> #[trigger] output.has_table(t)
}

/// Check the outputs of one plan against the tables of a run directory: one output per metric, one
/// label set, and all tables there. Gives the label set.
pub fn check_outputs<V>(outputs: &[PreparedMetricOutput<V>], layouts: &[RunMetricLayout]) -> (r:
    Result<u128, Error>)
    ensures
        r is Ok <==> outputs@.len() > 0 && outputs@.len() == layouts@.len() && agrees(outputs@)
            && forall|i: int|
            0 <= i < outputs@.len() ==> output_fits(
                #[trigger] outputs@[i],
                layouts@[i].table_paths@.len() as usize,
            ),
        r matches Ok(observed) ==> observed == outputs@[0].observed,
        r matches Err(e) ==> if outputs@.len() != layouts@.len() {
            e.is_invalid_data("prepared metric output count changed"@)
        } else if outputs@.len() == 0 {
            e.is_invalid_data("cannot write a row without prepared metrics"@)
        } else if !agrees(outputs@) {
            e.is_invalid_data("prepared metrics observed different district sets"@)
        } else {
            exists|i: int|
                0 <= i < outputs@.len() && !output_fits(
                    #[trigger] outputs@[i],
                    layouts@[i].table_paths@.len() as usize,
                ) && (forall|j: int|
                    0 <= j < i ==> output_fits(
                        #[trigger] outputs@[j],
                        layouts@[j].table_paths@.len() as usize,
                    )) && e.is_invalid_data(
                    if outputs@[i].table_count != layouts@[i].table_paths@.len() {
                        "prepared metric returned an unexpected table count"@
                    } else {
                        "prepared metric returned a malformed table"@
                    },
                )
        },
{
    if outputs.len() != layouts.len() {
        return Err(invalid_data("prepared metric output count changed".to_owned()));
    }
    if outputs.len() == 0 {
        return Err(invalid_data("cannot write a row without prepared metrics".to_owned()));
    }
    let observed: u128 = outputs[0].observed;
    let mut i: usize = 0;
    while i < outputs.len()
        invariant
            i <= outputs@.len(),
            0 < outputs@.len() == layouts@.len(),
            observed == outputs@[0].observed,
            forall|k: int| 0 <= k < i ==> (#[trigger] outputs@[k]).observed == observed,
        decreases outputs.len() - i,
    {
        if outputs[i].observed != observed {
            assert(outputs@[i as int].observed != outputs@[0].observed);
            return Err(
                invalid_data("prepared metrics observed different district sets".to_owned()),
            );
        }
        i += 1;
    }
    let mut i: usize = 0;
    while i < outputs.len()
        invariant
            i <= outputs@.len(),
            0 < outputs@.len() == layouts@.len(),
            agrees(outputs@),
            forall|k: int|
                0 <= k < i ==> output_fits(
                    #[trigger] outputs@[k],
                    layouts@[k].table_paths@.len() as usize,
                ),
        decreases outputs.len() - i,
    {
        let tables: usize = layouts[i].table_paths.len();
        if outputs[i].table_count != tables {
            assert(!output_fits(outputs@[i as int], tables));
            return Err(
                invalid_data("prepared metric returned an unexpected table count".to_owned()),
            );
        }
        let mut t: usize = 0;
        while t < tables
            invariant
                t <= tables,
                i < outputs@.len() == layouts@.len(),
                tables == layouts@[i as int].table_paths@.len(),
                outputs@[i as int].table_count == tables,
                agrees(outputs@),
                forall|k: int|
                    0 <= k < i ==> output_fits(
                        #[trigger] outputs@[k],
                        layouts@[k].table_paths@.len() as usize,
                    ),
                forall|k: int| 0 <= k < t ==> #[trigger] outputs@[i as int].has_table(k),
            decreases tables - t,
        {
            if outputs[i].table(t).is_none() {
                assert(!outputs@[i as int].has_table(t as int));
                assert(!output_fits(outputs@[i as int], tables));
                return Err(
                    invalid_data("prepared metric returned a malformed table".to_owned()),
                );
            }
            t += 1;
        }
        i += 1;
    }
    Ok(observed)
}

/// A column as the manifest describes it.
#[derive(Debug)]
pub struct SchemaColumn {
    pub name: String,
    pub dtype: &'static str,
    pub district_id: Option<u16>,
}

/// The districts of a run: those of its first plan.
pub open spec fn run_districts(observed: Option<u128>) -> Seq<u16> {
    match observed {
        Some(mask) => ascending_districts(mask),
        None => Seq::empty(),
    }
}

/// What the manifest says of the tables: the districts, and the columns.
pub fn manifest_schema(observed: Option<u128>) -> (r: (Vec<u16>, Vec<SchemaColumn>))
    ensures
        r.0@ == run_districts(observed),
        r.1@.len() == 3 + r.0@.len(),
        r.1@[0].name@ == "step"@ && r.1@[0].dtype@ == "uint64"@ && r.1@[0].district_id is None,
        r.1@[1].name@ == "n_reps"@ && r.1@[1].dtype@ == "uint32"@ && r.1@[1].district_id is None,
        r.1@[2].name@ == "accepted_count"@ && r.1@[2].dtype@ == "uint64"@
            && r.1@[2].district_id is None,
        forall|c: int|
            0 <= c < r.0@.len() ==> {
                &&& (#[trigger] r.1@[3 + c]).name@ == district_column_text(r.0@[c] as nat)
                &&& r.1@[3 + c].dtype@ == "float64"@
                &&& r.1@[3 + c].district_id == Some(r.0@[c])
            },
{
    let district_ids = match observed {
        Some(mask) => sorted_district_ids(mask),
        None => Vec::new(),
    };
    let mut columns: Vec<SchemaColumn> = Vec::new();
    columns.push(SchemaColumn { name: "step".to_owned(), dtype: "uint64", district_id: None });
    columns.push(SchemaColumn { name: "n_reps".to_owned(), dtype: "uint32", district_id: None });
    columns.push(
        SchemaColumn { name: "accepted_count".to_owned(), dtype: "uint64", district_id: None },
    );
    let mut c: usize = 0;
    while c < district_ids.len()
        invariant
            c <= district_ids@.len(),
            columns@.len() == 3 + c,
            columns@[0].name@ == "step"@ && columns@[0].dtype@ == "uint64"@
                && columns@[0].district_id is None,
            columns@[1].name@ == "n_reps"@ && columns@[1].dtype@ == "uint32"@
                && columns@[1].district_id is None,
            columns@[2].name@ == "accepted_count"@ && columns@[2].dtype@ == "uint64"@
                && columns@[2].district_id is None,
            forall|k: int|
                0 <= k < c ==> {
                    &&& (#[trigger] columns@[3 + k]).name@ == district_column_text(
                        district_ids@[k] as nat,
                    )
                    &&& columns@[3 + k].dtype@ == "float64"@
                    &&& columns@[3 + k].district_id == Some(district_ids@[k])
                },
        decreases district_ids.len() - c,
    {
        columns.push(
            SchemaColumn {
                name: district_column_name(district_ids[c]),
                dtype: "float64",
                district_id: Some(district_ids[c]),
            },
        );
        c += 1;
    }
    (district_ids, columns)
}

/// Hexadecimal notation has as many digits as asked for and reads as the number, up to what so many
/// digits can hold.
pub proof fn law_hex_digits(n: nat, width: nat)
    ensures
        hex_digits(n, width).len() == width,
        width > 0 ==> hex_digits(n, width) == hex_digits(n / 16, (width - 1) as nat).push(
            if n % 16 < 10 {
                (48 + n % 16) as char
            } else {
                (97 + (n % 16 - 10)) as char
            },
        ),
    decreases width,
{
    if width > 0 {
        law_hex_digits(n / 16, (width - 1) as nat);
    }
}

/// A path stays below a directory exactly when it is not absolute, does not start with a `.`
/// component, and has no `..` component.
pub proof fn law_stays_below(path: Seq<char>)
    ensures
        stays_below(path) <==> !(path.len() > 0 && path[0] == '/') && !(path.len() == 1 && path[0]
            == '.') && !(path.len() > 1 && path[0] == '.' && path[1] == '/') && !(exists|i: int|
            0 <= i && i + 2 <= path.len() && #[trigger] path[i] == '.' && path[i + 1] == '.' && (i
                == 0 || path[i - 1] == '/') && (i + 2 == path.len() || path[i + 2] == '/')),
{
}

/// An output fits exactly when it has as many tables as asked for and values for all of them; outputs
/// agree exactly when they have one label set.
pub proof fn law_outputs_fit<V>(outputs: Seq<PreparedMetricOutput<V>>, i: int, tables: usize)
    requires
        0 <= i < outputs.len(),
    ensures
        output_fits(outputs[i], tables) <==> outputs[i].table_count == tables && (tables == 0
            || tables * outputs[i].district_slots <= outputs[i].values@.len()),
        agrees(outputs) <==> forall|j: int, k: int|
            0 <= j < outputs.len() && 0 <= k < outputs.len() ==> (#[trigger] outputs[j]).observed
                == (#[trigger] outputs[k]).observed,
{
    let output = outputs[i];
    let n = output.district_slots as int;
    if output_fits(output, tables) && tables > 0 {
        assert(output.has_table(tables - 1));
    }
    if output.table_count == tables && tables * n <= output.values@.len() {
        assert forall|t: int| 0 <= t < tables implies #[trigger] output.has_table(t) by {
            assert((t + 1) * n <= tables * n) by (nonlinear_arith)
                requires
                    t + 1 <= tables,
                    0 <= n,
            ;
        }
    }
}

} // verus!

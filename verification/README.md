# ben-process

Scores for ensembles of districting plans, stored as BEN files: per-key district tallies, cut edges,
Polsby-Popper and Reock scores, changed assignments, region splits and pieces, and unique plans.

- `src/` is the library. It decides what a run asks for, loads graphs, follows plans and chains of
  plans, and says for every plan what is counted and what is to be added up, in which order. All of
  it is verified with Verus: contracts stand at the functions, and what holds across functions is
  stated by the proof functions named `law_*`.
- `app/` is the program around it: the command line, files, progress bars, Parquet tables, and
  everything that computes in floating point.
- `tests/` runs the library.

## How numbers are handled

The library moves numeric values of an abstract type `W` and never computes on them. Where a metric
sums values, the library gives the addends in order, or `Posting`s: which value is added to or
subtracted from which district's total. The program adds them up in that order. The laws on
postings say that totals patched from plan to plan are those that the plan alone would give.

## Modules

- `cli`, `commands`: command lines and the jobs that they ask for; `path`: the paths of outputs.
- `input`, `frames`: what a file holds, and the plans of stored frames.
- `graph`, `graph_check`: dual graphs from JSON records, and what is wrong with them.
- `geometry`: what is asked of files with shapes.
- `district`: district labels and their sets.
- `pipeline`: runs over plans: lengths, labels, sample numbers, batches.
- `metrics`: the metrics. `twodelta` and `chain` follow chains of plans; `ledger` is about postings.
- `output`: rows on their way into tables, and run directories.
- `coin`: random reassignments. `text`, `error`: messages.

What is taken from other crates without proof stands behind small functions, each with a comment
that says what is claimed of the call: `coin`, `input`, `frames`, `text`, `graph`,
`metrics::canonical` and `output::run_directory` hold them.

# zoio

A process resource monitor: pick running processes from a list or match them
with regex patterns, watch their CPU, memory, disk and network use over time,
and export the capture as CSV.

The library under `src/` is verified with [Verus](https://github.com/verus-lang/verus).
It works on plain values: process tables and clock readings come in as
arguments, tables of text and points of plots go out. `app/` is the program
around it, which reads the machine, draws the window and writes the files.

| module | what it holds |
| --- | --- |
| `metrics` | metric kinds, identities, samples, bounded histories |
| `process_filter` | regex filters and sets of them |
| `process_monitor` | which processes are selected, and what is recorded of them |
| `aggregate` | combined lines over several processes |
| `tree` | the process list as a forest |
| `csv_format`, `csv_export` | the CSV format, and the exported table |
| `app` | the state of the application and what its window shows |
| `order`, `pids`, `text` | sorting, sets of pids, and text, for the modules above |

Quantities are exact: times in nanoseconds, rates as bytes over a span of
time, CPU percentages by their bit pattern. Only `app/` turns them into
floating point.

Functions state their behaviour in `requires` and `ensures`. What holds of
several of them together is stated by public `proof fn`s at the end of each
module.

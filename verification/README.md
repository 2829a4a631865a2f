# forst_rs

The core of a log-structured merge engine for stream-processing state, written
and proved in Verus.

`src/` is the library. Its functions state in `ensures` what they return or
change; Verus checks them. Files, threads, clocks of the caller, settings from
the environment and floating point stay outside: the library takes and gives
plain values, and where work alternates with decisions it is a state machine
that the caller drives.

| Modules | Contents |
| --- | --- |
| `types`, `error`, `config`, `coding`, `checksum`, `arena`, `metrics` | basic types, options and their validation, encodings, CRC-32C, memory |
| `row`, `merge_operator`, `key_versions`, `mvcc` | versions of a key: reads at a snapshot, what compaction keeps of them, live snapshots |
| `merge_order`, `merge_runs`, `compaction`, `compaction_filter`, `compaction_policy`, `compaction_executor` | merging sorted runs, choosing what to merge, filters, jobs as bytes |
| `flush`, `list_merge`, `column_family`, `version`, `paths` | from memtables to table files |
| `checkpoint`, `file_deletion_guard` | copies of live files, blobs with trailers, pins on files |
| `memory_manager`, `mem_pressure`, `flags`, `bg_pool` | memory budgets, shedding under pressure, settings as text, scheduling of jobs |

Properties that relate several functions are the public proof functions whose
names begin with `law_`. The most important ones:

- `mvcc::reader::law_compaction_preserves_reads`: compaction does not change
  what a live snapshot reads.
- `compaction::law_streaming_equals_sorting`: the streaming merge writes what
  sorting all entries would write.
- `compaction_executor::law_descriptor_round_trip`: a job survives its encoding.
- `flush::law_collapse_preserves_reads`: folding merge chains at flush time does
  not change what is read.
- `compaction_policy::law_cut_is_clean`: files left out of a compaction share no
  key with those taken.

`tests/` runs the library on concrete values. `app/` is the ordinary Rust around
it: file systems, worker threads, environment variables, histograms and log
messages.

# backup_deduplicator

A tool to deduplicate backups: it builds a hash tree of all files and folders of a
directory, finds duplicated files and folders in it, plans which duplicates to remove, and
carries the plan out. This crate holds the tool's data model and decisions, verified with
Verus; `app/` holds what surrounds them: files, the file system, threads and JSON.

Layout of `src/`:

* `hash`, `path`, `order` — hash values and their order, paths that may lead into archives,
  sorting.
* `stages/build` — the jobs of the build, the planner that schedules them over a tree of
  jobs, what workers make of files, directories, symlinks and archives, and the in-memory
  index of a hash tree file.
* `stages/analyze` — marking the duplicated files with their ancestors and grouping them into
  minimal sets of duplicates.
* `stages/dedup` — planning which duplicates to remove, keeping at least one of each set and
  never removing a duplicate that another action of the plan leaves behind.
* `stages/execute`, `stages/clean` — which planned actions may be carried out, and which
  entries of a hash tree file still describe files that exist.
* `utils` — hex decoding, lexical absolute paths and other helpers.

The functions whose names start with `law_` state properties that hold across calls, such as
that every planned removal leaves a duplicate behind and that no action of a plan removes
a duplicate that another one counts on.

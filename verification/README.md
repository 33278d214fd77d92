# elfshaker

The repository logic of a store for snapshots of build outputs, verified with
Verus.

A repository keeps its data in the directory `elfshaker_data` below its root. A
snapshot is a list of files; the contents of a file are an object, named by a
checksum. Objects live in packs or, unpacked, in files of their own.

- `src/` is the library. It decides which files an extraction checks, deletes
  and writes, what a new snapshot has to store, how the index of the packs is
  rebuilt, and what the files of the data directory mean. It reads and writes
  no files: an operation is a list of steps, and the outcome of each step is
  handed back.
- `app/` carries the steps out on disk.
- `tests/` runs the library on concrete values.

Paths are byte strings with `/` between their components, as on Unix.

## The library

| Module | What it holds |
| --- | --- |
| `order`, `byteset` | the order of byte strings, sets of them |
| `path`, `layout`, `constants` | paths, and where the files of a repository are |
| `pack`, `packidx` | names of packs and snapshots, the index of a pack |
| `index`, `rebuild` | the index of a repository, and how it is rebuilt |
| `repository`, `error`, `options` | a repository, how it is opened, its head |
| `diff` | the difference between the files of two snapshots |
| `extract`, `extract_laws` | what an extraction does |
| `file_list`, `snapshot`, `store` | what a new snapshot is made of, and what it stores |
| `run`, `round_trip` | carrying out the steps, and what comes back of a snapshot |
| `read_only`, `disk` | which files end read-only, and what is read back of written files |

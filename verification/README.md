# starfish_core

The core of a node of a DAG-based consensus: what it knows of the DAG, how it
catches up with others, and what it tells them.

- `src/` is the library. It is written in Verus, and each function is proved to
  do what its contract says.
  - `refs`, `header`, `commit`, `committee`, `error`: the vocabulary.
  - `sorted`, `unordered`: maps and sets, ordered ones and hash tables.
  - `dag_state`: the headers, transactions, shards and commits in memory; what
    goes to storage, what is dropped, and what is loaded again. `model` says what
    each operation does to the state, and `laws` what follows.
  - `commit_syncer`: catching up on commits, with all of their headers
    (`regular`) or with their transactions alone (`fast`).
  - `header_synchronizer`: fetching headers that are missing.
  - `cordial_knowledge`: who knows which headers and shards, and what goes along
    with a block.
  - `dag_visualizer`: what is shown of the DAG.
  - `fault_injection`: faults on purpose, for trials.
- `tests/` runs the library on examples.
- `app/` holds the tasks around it: timers, channels, requests and storage.

Where the library hands work to another crate, the function that does so is
marked `external_body`, and its comment says what is taken for granted of the
call.

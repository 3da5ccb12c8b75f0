# avidhd

A desktop to-do list that mirrors the user's open GitHub pull requests and
Linear notifications and assigned issues into one list, next to the user's own
tasks.

- `src/` is the verified library (Verus): what the list decides. It reads
  search results and API answers into one entry per pull request or issue,
  plans how the stored items follow what GitHub and Linear list, plans how an
  item is closed or reopened, and decides where tokens come from. Every
  function carries a contract; the laws that span functions are proof
  functions beside them (`lemma_*`). `src/stored.rs` models the stored items
  as rows and what the writes the app makes for a plan do to them, and states
  the laws of whole commands there: a second Linear sync with the same
  answers changes no row, and closing then reopening a task restores it
  without a word to Linear. It also states which items the list's queries
  show and in what order, and where new items go. `src/stored_prs.rs` does
  the same for the pull-request sync: what an insert and an update write, and
  that a second sync with the same pull requests changes no row.
- `app/` is the Tauri program around it: HTTP requests, the SQLite-compatible
  store, the OS keyring, and the commands the web view calls. It hands the
  library plain values and carries out the steps the library plans.
- `tests/` runs the library on concrete values.

# y4_clipboard

A clipboard history for Wayland, with its rules proved in Verus.

- `src/` is the verified library: the history of records (deduplication by
  content hash, newest first, at most `MAX_HISTORY` records), content hashes
  and previews, MIME rules, the IPC protocol between the tool and the daemon,
  the decisions of the Wayland session, and the command-line checks.
- `app/` is the program around it: SQLite storage, the Wayland connection,
  the daemon loop and the command line. It loads the table into the verified
  history inside a transaction and writes back what the history decided.
- `tests/` exercises the library on concrete values.

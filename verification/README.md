# cc-ledger

A status line for a coding assistant, backed by a ledger of every request it
made, and reports over that ledger. The library is written in Verus: what each
function returns is stated in its contract and proved.

The assistant writes each API response to its transcript as one line per content
block, and every line repeats the complete usage. The ledger keeps a request once,
under the id of its message, so that a repeated, a concurrent and an abandoned
pass over a transcript are all harmless. It also keeps every transcript that a
request was seen in, so that a session that copied its history can be reported.

## Layout

| Where | What |
| --- | --- |
| `src/transcript.rs` | lines of a transcript, the requests they record, and how far it was read |
| `src/store.rs` | the statements on the SQLite database, and what they do to its rows |
| `src/ledger.rs` | the ledger |
| `src/ingest.rs` | from transcripts into the ledger, in batches or in one pass |
| `src/bucket.rs` | days, weeks and months of a time zone |
| `src/payload.rs` | what the assistant tells the status line |
| `src/render.rs` | the status line |
| `src/statusline.rs` | its arguments, and the branch of a repository |
| `src/pricing.rs` | what recorded usage costs at list prices |
| `src/usage.rs` | the reports |
| `src/double.rs` | floating-point numbers by their bits, rounded and written out exactly |
| `src/text.rs` | strings as sequences of characters |
| `app/` | the two programs, `statusline` and `cc-usage`: files, JSON, arguments |

Two limits of what is stated:

* The database may be written by other processes. Contracts say what a statement
  does to the rows of the moment; only in a transaction, or where nobody else can
  reach the database, is that the moment before the call.
* Of the time zone that the machine is set to, only what holds of every zone is
  known. For UTC, fixed offsets and zones of the IANA database, the contracts give
  the instant.

Money is counted exactly, in billionths of a dollar.

## Running

`statusline` reads the payload on standard input, prints one line, and then reads
new requests from the session's transcript for at most 150 ms. `cc-usage` has the
commands `summary`, `daily`, `weekly`, `monthly`, `sessions`, `backfill` and
`export`. Transcripts are looked for where `--root` or `CC_LEDGER_TRANSCRIPTS` says.
The database is `$CC_LEDGER_DB`, else `$XDG_DATA_HOME/cc-ledger/ledger.db`, else
`~/.local/share/cc-ledger/ledger.db`.

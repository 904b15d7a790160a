# ccc

A desktop companion for coding agents: it receives their hooks, keeps an archive of their sessions
and memory files, looks after the ssh connections they run over, and browses their files.

`src/` is the library, written and proved in Verus. It decides and computes; it reads no file,
starts no program and opens no connection.

| Module | What it holds |
|--------|---------------|
| `archive` | transcripts taken in row by row, memory versions and their differences, compression with shared dictionaries, listing and searching, pulling from hosts |
| `sshkit` | ssh's configuration, forwarded ports and their ledger, the life of a shared connection, the agent's socket |
| `explorer` | files listed, previewed, searched and copied, here and on a host |
| `hook_receiver`, `hook_setup` | hook events from sender to server, and the settings that send them |
| `desktop` | the service that keeps the archive, and what its windows ask for |
| `cli` | what the command line tools read and print |
| `json`, `text`, `split`, `number`, `calendar`, `pathname`, `shell`, `order`, `bytes`, `digest` | what the others stand on |

Each function says in its contract what it returns for every input. Public proof functions state
what holds across functions: that a transcript read again adds nothing, that a restored file
stays below its profile, that a signal goes only to a process seen to be ssh, and the like.

What outside crates compute (`serde_json`, `zstd`, `sha2`, `lindera` with its `lindera-dictionary`,
`dashmap`, `rand`) is called through a few trusted wrappers, each with the claim it makes in its doc
comment.

`app/` holds the programs: argument handling, files, processes, SQLite, HTTP. The word by which
the agent in use names its files comes from `CCC_AGENT`. The full-text index needs lindera's IPADIC
dictionary, built into a directory: that of `CCC_DICTIONARY` or else `~/.ccc/dictionary/ipadic`.

`tests/` runs the library with the real crates.

# PIVX Bridge

A shield sync server for the PIVX network. It connects to a PIVX full node, finds
the Sapling transactions of every block, and serves them to light wallets over
HTTP as a binary stream, in one of three formats. Calls that a wallet needs
besides are forwarded to the node, with an optional jq filter.

## Layout

- `src/` is the library, written in Verus. Everything the bridge decides or
  computes stands there, with contracts that Verus proves.
- `app/` is the program around it: arguments, sockets, files and tasks.
- `tests/` runs the library on concrete values.

## The library

| Module | What it holds |
|--------|---------------|
| `scanner` | The parser of raw transactions and what a block yields |
| `stream` | The wire format: encoders, and what a stream means when read |
| `store` | What holds of the stream and the index together |
| `index` | Which block stands where in the stream |
| `cache` | What is appended to the stream file, and its recovery after a crash |
| `api` | The queries and answers of the HTTP interface |
| `block_cache` | Cached `getblock` responses |
| `scan` | Scanning one block or a range, step by step |
| `fork` | Where two chains part |
| `indexer` | An indexing pass, step by step |
| `network` | Bringing a network up, step by step |
| `notify` | Learning of new blocks |
| `rpc` | Requests to the node and the meaning of its responses |
| `proxy`, `jq` | Forwarded calls and their filters |
| `json`, `text`, `hex`, `bytes`, `config` | The ground they stand on |

Wherever the bridge talks to the node or to a file, the library is a state machine:
a step takes what came of the last request and says what to request next. The
program performs the requests.

## What is trusted

Two things are believed without proof: that `String::push` appends a character, and
that jaq yields the same outputs for the same input and filter. The second is claimed
of plain filters alone, those made of paths, pipes, arrays, objects with fixed keys,
numbers, texts, comparisons, assignments and a few harmless names, and of JSON texts
with strings as keys. The library tests both before it calls jaq. Every other filter
is run by the program.

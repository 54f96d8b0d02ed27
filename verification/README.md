# pocket_apps

Seven small tools whose logic is verified with Verus:

| module        | what it does                                                         |
|---------------|----------------------------------------------------------------------|
| `calculator`  | add, subtract, multiply and divide `i32` numbers chosen from a menu  |
| `todo`        | a to-do list: add, complete, list                                    |
| `word_count`  | words of a text in lower case, their counts, ranked, as a table      |
| `wordle`      | five-letter word guessing with per-letter feedback                   |
| `kv`          | a Redis-like store (`PING`, `ECHO`, `SET .. [EX n]`, `GET`) and its save file |
| `address`     | Bitcoin keys and Base58Check addresses                               |
| `handshake`   | Bitcoin `version`/`verack`/`ping` messages: building, reading, answering |

`text`, `buffer` and `crypto` hold what the tools share: words and decimal
numbers, integer byte encodings with the `bytes` buffer, and SHA-256 /
RIPEMD-160.

`src/` is the verified library. Each public function states its result in
its contract; calls into `sha2`, `ripemd`, `base58`, `k256`, `rand`, `bytes`
and the few std string functions that vstd does not specify go through small
trusted wrappers whose contracts name or describe what those functions return.

`app/` is the command-line program (`address`, `handshake`, `kv`, `calc`,
`todo`, `words <file>`, `wordle`): terminal, file and network I/O, threads and
the async runtime around the library.

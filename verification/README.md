# stryke-mssql

A client of Microsoft SQL Server and Azure SQL for stryke. Every `mssql__*` export takes a JSON
document and returns one. The library under `src/` is written in Verus and verified; the C
interface, the runtime and the talk with the server, over `tiberius`, are under `app/`.

## Layout

| Module     | What it holds                                                                |
| ---------- | ---------------------------------------------------------------------------- |
| `call`     | what each call asks for, what it answers, arguments and replies              |
| `failure`  | why a call failed, and the message                                           |
| `conn`     | the options that tell connections apart                                      |
| `config`   | the configuration of a connection                                            |
| `cache`    | the open connections; one that failed is dropped                             |
| `query`    | SQL text with parameters `@P1`, `@P2`, …                                     |
| `batch`    | transactions: commit when everything succeeds, roll back when anything fails |
| `cell`     | rows as JSON objects                                                         |
| `temporal` | dates and times as the server sends them                                     |
| `render`   | the texts of decimals, identifiers, dates, times and bytes                   |
| `readback` | proofs that those texts lose nothing                                         |
| `ado`      | connection strings: reading, building, masking the password                  |
| `quoting`  | quoted values of connection strings                                          |
| `lexing`   | how the driver divides a connection string                                   |
| `tsql`     | quoted identifiers and scripts with `GO` lines                               |
| `json`     | JSON values, to and from `serde_json`                                        |
| `text`     | text as sequences of characters                                              |

## What is trusted

The library calls `serde_json`, `tiberius`, `chrono`, `rust_decimal`, `uuid`, `base64` and a few
functions of std through declarations whose contracts are believed. Each has a doc comment that
names the outside function and says what is claimed of it.

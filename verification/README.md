# webscout

A command-line research agent. It searches the web, reads what it finds, lets a
verification service judge every passage, and writes an answer from what passed. The
same runs are offered over HTTP and as tools for other agents.

A report can also hold records, each value with its source, and the library renders,
checks and serves such reports; the research loop in `app/scout.rs` writes answers only.

The decisions are in `src/`, as a library that Verus proves against the contracts
written beside the code. The processes, sockets and files around it are in `app/`.

| Modules | What they settle |
| --- | --- |
| `text`, `scan`, `numeral`, `order`, `json` | characters, searching and splitting, numbers, sorting, JSON values |
| `html`, `entities`, `links`, `chunk`, `urls`, `entity`, `candidates`, `spelling` | markup to text, links, pieces of a page, addresses and their identity, names as keys, contact values and how they are spelled out |
| `hits`, `fetch`, `search_cache` | merging search results, routing a response, what is kept of a search |
| `llm`, `repair`, `typesafe`, `usage` | requests to the model and what to make of its replies, the judge, what was spent |
| `types`, `config`, `options`, `cli`, `clock` | missions, records and reports, credentials, settings, the calendar |
| `output`, `runs`, `stats`, `dashboard` | rendering a report, the event stream, the run log and the page on it |
| `auth`, `mcp`, `tools`, `replies` | logging in, the tools endpoint and what it answers |

Proof functions named `law_*` state what holds across functions: that a kept response is
served until it is too old and to no other question, that chunk boundaries of a stream
do not change what it says, that an option name nobody offers is refused, and so on.

Calls into `regex`, `url`, `csv`, `serde_json` and a few functions of the standard library are behind
small functions or declarations whose comments say what is taken on trust. Floating
point numbers are carried by their bit patterns and texts; arithmetic on them stays in
`app/`.

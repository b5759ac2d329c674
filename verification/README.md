# mcp_typesafe

Typed judgments over the TypeSafe System One API: a library that decides what to ask and
what to make of the answers, and an MCP server around it.

- `src/` is the library, verified with Verus. Each tool is a run: it refuses inputs that
  are out of bounds before anything is asked, gives the body of each call (`next_call`),
  takes in each response (`accept`), and reports (`report`). The contracts say for every
  input which calls are made, what each asks, and what is reported.
- `app/` is the program: command line, logging, transports, HTTP, and what is floating
  point.
- `tests/` runs the library.

| Module | What it holds |
| --- | --- |
| `systemone` | any typed questions about one state |
| `filter`, `rank`, `classify` | long lists, cut into calls by `chunk` and put together by `bulk` |
| `dedupe` | all pairs of a list, clustered by `cluster` |
| `selection` | one candidate out of many, or none |
| `stability` | the same questions several times over |
| `verify_output`, `verify_tool_calls` | batteries of checks, judged by `checks` |
| `claims`, `extract` | statuses of claims, values of fields |
| `question`, `answer` | what is sent, what is read |
| `json`, `document`, `table`, `text`, `reals`, `ranking` | documents, maps in the order of their keys, texts, reals and their order |
| `server`, `config`, `error` | how the service is reached, how the server is run, why there is no result |

Reals are held by their bits, whose order is the order of the reals; sums and quotients of
them are taken in `app/`.

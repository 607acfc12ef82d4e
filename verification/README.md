# fern

Shared shell sessions. You and a collaborator attach to one daemon, submit command lines, and watch
the same output land in the same tree. Every command is a *cell* with structured output; a cell's
children start in the state that it left; named *branches* point at the tips of lines of work; and
each finished cell is content-addressed by its lineage, its recipe, its output and its end state.

The rules are a library verified with Verus (`src/`). A thin program around it (`app/`) does what
touches the world: the socket, processes and terminals, the log file, the screen.

## Layout

| Module | What it owns |
|---|---|
| `text`, `names` | Texts, numbers, paths; maps ordered by name |
| `parse`, `grammar`, `splice`, `joins` | The lexer and parser of command lines; the laws of the grammar, and of lines that are put together |
| `eval`, `evaluator`, `eval_laws` | What a line does: an evaluator that asks for one action at a time, and takes the reply |
| `tree`, `hash`, `merkle`, `forest` | States, cells, the tree and its branches; content hashes; what they and the tree promise |
| `store`, `persist` | The log's records and their replay; what survives a restart |
| `wire`, `snapshot`, `daemon` | Requests and answers; what the daemon shows, decides and records |
| `session_laws` | What holds of a session as a whole |
| `client`, `render`, `cockpit`, `helm` | What a client asks and prints; the prompt and the session around it |
| `history`, `layout`, `keys`, `mux`, `lines`, `screen` | The multiplexer: panes, keys, terminals and what is painted |

## How to read the contracts

A type `T` has a mathematical view `TV`, and each operation on it is a spec function over views.
The executable function's `ensures` says that it computes that spec function. What relates several
operations is a proof function whose name starts with `law_`.

What talks to the world is written as a machine: the library says what it needs next, the program
gets it and hands the outcome back. So the evaluator asks for processes (`Action`) and takes what
came of them (`Reply`), a cockpit session asks for branches, events and input (`Need`, `News`), and
the multiplexer takes input and messages and says what to submit, send, resize and paint.

## What is trusted

The contracts of a few outside functions are believed: `Sha256::digest` (a digest of 32 bytes that
depends on the data alone), `Uuid::new_v4` (32 lower-case hexadecimal digits), and
`String::from_utf8_lossy`, `str::from_utf8` and `String::push` of the standard library. Each is
stated where it is declared.

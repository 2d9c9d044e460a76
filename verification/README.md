# llm-harmony

Memory accounting across local inference providers: LM Studio, llama.cpp, vLLM
and Ollama on one machine. It says what every provider has loaded and what that
costs, decides what may be loaded and what would have to make way, keeps pins
and leases, and looks after the models on disk.

The decisions are a library, written in Verus: every function in `src/` states
in its contract what it returns, and Verus proves it.

| Where | What |
|---|---|
| `src/provider`, `config`, `ledger`, `memory`, `record`, `budget` | who serves what, what it costs, and what its ceiling is |
| `src/adapters` | reading what each provider reports, and writing what it is asked |
| `src/estimate` | what a model will cost: measured, computed from its geometry, or declared |
| `src/pins` | pins and leases: what may not be evicted |
| `src/actuate`, `src/resolve`, `src/verbs` | what a load does, step by step, and where a request goes |
| `src/fit` | whether a set of models fits together, and on which providers |
| `src/intake` | finding a build, judging it, and moving its bytes |
| `src/inventory` | what is on disk, what is the same, and what can go |
| `src/launch` | agents that start the providers |
| `src/render*` | tables and documents |
| `src/text`, `seqs`, `paths`, `decimals`, `rounding`, `json`, `yaml`, `document` | the ground the rest stands on |
| `app/` | the program: arguments, files, sockets, processes and clocks |
| `tests/` | the library on concrete values |

Outside the proofs stand `serde_json` and `serde_yaml`, which read and write
documents for the library, and two functions of `String`. Each is declared where
it is called, with what is taken of it on trust.

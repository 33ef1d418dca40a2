# Hyverk

A network in which contributors train and serve an open coding model together: a coordinator
that hands out work, and nodes that train layers, run inference and generate training data.

The library holds what the network decides and computes, and Verus proves it. The program
around it does the input and output.

## Library (`src/`)

| Module | What it holds |
|---|---|
| `coordinator`, `registry`, `router`, `task_store` | nodes, tasks and the answers to their requests |
| `ws_handler`, `serving_clusters`, `layers`, `messages`, `comms` | inference through chains of nodes, and the clusters that serve it |
| `layer_training`, `training_store`, `training` | training rounds and jobs, batches, and the steps of the optimizer |
| `dataset_store`, `metrics`, `node_stats`, `http_api` | the dataset, what is counted, and what comes in over HTTP |
| `rag` | chunks of documents, their index and what is found in it |
| `sandbox`, `synthesis` | judging generated code, and generating it |
| `node`, `infer_server` | what a node does, and the server of one shard of the model |
| `config`, `cli`, `model_paths` | configuration, modes and paths |
| `text`, `offsets`, `json`, `frames`, `codec`, `chatml`, `table`, `seqs`, `ids` | what the others are built from |

Contracts speak of mathematical models: sequences of characters, maps from ids to records, sums
over lists. Functions named `law_..` state what holds of several operations together.

Numbers that are not integers never enter the library's arithmetic. Where a record carries one,
its type is a parameter.

What other crates compute (JSON, base64, gzip, regular expressions, Unicode, tokenizers, random
ids) is called through small functions marked `external_body`; the doc comment of each says what
is believed of it.

## Program (`app/`)

Servers and clients, SQLite, processes, tensors and scores. `hyverk` runs a node, a coordinator
or both, and the tools beside them. The pages of the dashboard are read from
`HYVERK_PAGES_DIR`.

## Tests (`tests/`)

Ordinary Rust tests of the library through its public functions.

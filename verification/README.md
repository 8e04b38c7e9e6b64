# transaction-labeller

Labels bank transactions with category names from a local language model served
by Ollama. What the service decides is a library verified with Verus; what it
reads and sends is ordinary Rust around it.

## Layout

- `src/` is the verified library. It does no input or output.
  - `config`: the settings and how they follow from environment variables.
  - `model`: requests, responses and errors.
  - `taxonomy`: categories with localized names.
  - `prompt`: the prompts and the schema of the answer.
  - `llm`: what a reply of the model means, and when to ask again.
  - `pipeline`: micro-batches, label cleanup, retries and fallback labels.
  - `library`: the labels in use, their counts, and the text of their file.
  - `api`, `router`: what each endpoint accepts, refuses and answers.
  - `json`: JSON values, read and written through `serde_json`.
  - `text`: string operations stated over sequences of characters.
- `tests/` runs the library on concrete values.
- `app/` is the service: HTTP server and client, files, environment, signals.

Amounts are floating-point numbers on the wire only: the library takes the sign
of an amount and the text that is shown to the model.

Public proof functions whose names begin with `law_` state what holds of several
functions together.

## What is taken on trust

The library calls `serde_json`, `rand` and a few functions of `std` whose
contracts are stated and not proved. Each of them has a doc comment that names
the function and says what is claimed of it: they are in `json`, `text`, and
`jitter` in `llm`.

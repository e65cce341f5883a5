# datarunner_core

The logic of a desktop program that turns screenshots of trade terminals into price
reports, written in Rust and verified with Verus.

- `src/` is the verified library. `extract` turns recognised words into a terminal, its
  type and its rows; `merge` unites two readings of one screenshot; `reference` finds
  commodities and terminals by noisy names; `api` builds requests and reads replies;
  `store` and `trade` keep what was sent; `session` says what every event does to the
  state of the program. Functions named `law_…` state what holds across functions.
- `tests/` runs the library, with the outside crates linked.
- `app/` is the program around it: windows, files, the network, images and the
  recognition engine. It reads `commodities.json` and `terminals.json` from
  `assets/reference`, beside the language model in `assets/tessdata`.

Calls into outside crates stand behind small functions marked
`#[verifier::external_body]`, whose contracts are not proved: `matching` (strsim),
`pattern` (regex), `pipeline` and `clock` (chrono), `preprocess` (base64), `json`
(serde_json) and `labels` (formatting by the standard library).

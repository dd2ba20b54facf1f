# dynamo_parsers

Reads tool calls out of what language models write, and writes the formats that
make models write them. The library is verified with Verus: every function states
what it returns, and proofs hold it to that.

## What it reads

- `kimi_k2`, `qwen3_coder`: streamed output, chunk by chunk. `scan` is the scanner
  that both share; `chunking` proves that it does not matter how a stream is cut,
  `scan_laws` what reaches the reader and what is dropped, and `handover` what the
  readers of calls are given.
- `kimi_k3`: whole messages in a channel grammar, with `kimi_k3_laws` on what is
  read back of what was written.
- `pythonic`: lists of Python calls, on top of `python`.
- `families`: the stream parsers by name.

How one call of Kimi K2 or Qwen3-Coder is read, which markers Kimi K2 has, which tools
a choice leaves and what the JSON form of a format looks like are defined here, and
not taken from another crate.

## What it writes

- `structural_tag`: which messages a Kimi K3 model may write when tools are offered,
  as a `format` with a JSON form.

## What the rest is for

- `text`, `decimal`, `json`, `compact`, `attributes`, `arguments`: texts, numerals,
  JSON values, tag attributes and the order of arguments.
- `tools`, `response`, `error`: what goes in and what comes out.

Positions and lengths count characters inside the library; where a caller needs a
position in a string it is given in bytes.

## What is not proved

Calls into serde_json, regex and ruff stand behind functions whose contracts are
stated and not proved; their doc comments say what is claimed. The same holds of
three functions of the standard library, in `text` and `attributes`.

`app/` puts the stream parsers behind a trait object for a host.

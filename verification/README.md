# llmctl

An inventory of the local LLMs on a machine: the models that Ollama, LM Studio
and llama.cpp have installed or loaded, the processes that run them, and the
shell command that would remove one (nothing is ever removed).

`src/` is the library, verified with Verus:

- `text`: characters, lines (as `str::lines`), words (as `split_whitespace`),
  searching and trimming.
- `numbers`: decimal digits and `str::parse` for unsigned integers.
- `units`: byte counts for people, with the exact rounding of the
  floating-point formula they are usually written with.
- `model`: the rows of the inventory and their columns.
- `sorting`: the order of strings and a stable sort, with its laws.
- `ollama`, `lmstudio`, `llamacpp`, `process`: reading what each provider and
  `ps` report.
- `inventory`: taking running models in, storage totals, removal commands and
  the table.

`app/` is the command-line program: it runs `ollama` and `ps`, walks the
model directories, and prints what the library computes. The CPU share is
carried through the library as `ps` wrote it; `app/` reads it as an `f32` and
writes it with one decimal, since floating point stays out of the library.

# Tonel Smalltalk Language Server

A server of the Language Server Protocol for Tonel Smalltalk, with a core that is verified
with Verus.

## What it does

- Goes to the definition of a class name.
- Finds all references to a class name, in each of the forms `ClassName`, `#ClassName`,
  `#'ClassName'` and `'ClassName'`.
- Shows, on hovering, what a class or trait is (its kind, its superclass, its variables) and
  which classes own a variable, as seen from the side of the method around it.
- Reports syntax errors: text that the parser did not expect, and tokens that are absent.

## Layout

- `src/` is the library. Each function states in its contract what it returns; the public
  proof functions state what holds across functions.
  - `text`, `position`: names as they are written, texts in order, ranges within ranges.
  - `grammar`: the calls into tree-sitter, and what is taken from them on trust.
  - `syntax`: trees as lists of plain nodes, and the ways up and down in them.
  - `src_tree`, `class_info`, `references`, `scopes`, `diagnostics`: what a file says.
  - `index`: values by name, found through a `dashmap::DashMap`.
  - `owners`, `workspace`: what all files say together, and how it changes with one of them.
  - `session`, `hover`: the open documents, and the answers to an editor's requests.
- `app/` is the program: the protocol's messages, the walk over the files of a workspace,
  and the Tonel grammar, which comes from the crate `tree-sitter-tonel-smalltalk`.
- `tests/` runs the library, on trees made by hand for Tonel sources and on sources that
  tree-sitter parses with two other grammars.

## Limits

A source that takes more than 4 GiB cannot be parsed: tree-sitter counts offsets in 32 bits.
A class that a file no longer defines stays known until the server ends.

## License

MIT

# ly-lsp

The core of a language server for [LilyPond](https://lilypond.org), written in Verus: what the
server decides is stated in contracts and proved; reading files and talking to the editor stay
outside.

## Layout

- `src/` is the library.
  - `text`, `line_struct`, `protocol`, `finding`: text by byte offsets, positions as editors count
    them, and searching.
  - `syntax`, `grammar`: syntax trees as plain values, and how the tree-sitter parser fills them.
  - `lexer`, `symbols`, `assignment`, `context`: reading definitions, references, included files and
    contexts out of a tree.
  - `command`: what commands there are, how a call's arguments are read, and what a call means for
    the music inside it.
  - `vocabulary`, `scope`, `install`: layers of definitions, stacked into what a document can see.
  - `document`, `diagnostics`, `lookup`: one document, what is wrong with it, and what stands at a
    position.
  - `typing`, `command_assist`: completion, signature help and hover.
  - `code_action`: the refactorings.
  - `walk`, `open_documents`, `document_graph`, `queries`: many documents, connected by `\include`.
- `tests/` exercises the library from outside.
- `app/` is the server itself: the LSP loop, files, and conversions to the protocol's types.

## What is proved

The functions of the library say what they return, over the characters of the source and the nodes of
its tree. Proof functions named `law_…` state what holds of several of them together, among them:

- offsets and positions undo one another, and positions keep the order of offsets;
- a half-typed call reads a prefix of the arguments of the complete one;
- inlining everywhere what bare music was extracted to writes that music back, with the duration and
  the octave marks that its first note needs in its place;
- explicit music unfolds into its own text, time by time, each followed by its ending;
- unfolding a repeat, extracting music and inlining it keep the duration and the octave that each
  event is heard with, as far as the events that the document is analysed into go;
- a note whose octave marks were re-spelled needs no second re-spelling;
- a walk over finitely many files meets every file that can be reached, once, and ends.

What the outside crates do is taken on trust, function by function: `grammar` holds those of
tree-sitter, `open_documents` those of dashmap, and `typing` and `install` one each of the standard
library.

# rst4tex

Two tools that tidy LaTeX sources, as a verified library with a thin
command-line front end.

- **fixbib** reads a LaTeX document, the files it includes (`\include`,
  `\input`, `\subfile`) and the bibliography files it names
  (`\bibliography`, `\addbibresource`). It merges duplicate entries, drops
  entries that are never cited (unless `--no-delete` is given or `*` is
  cited), gives every kept entry a key `[author][title][year]` (such as
  `einsteinelectrodynamics1905`), rewrites the
  citations to the new keys sorted by year, and writes the files back with
  `.bak` backups.
- **fixtex** reformats a LaTeX document so that every sentence of a paragraph
  or of a `\caption{}`/`\subcaption{}` stands on a line of its own, the
  body of every environment except `document` is indented by two spaces per
  level, whitespace inside paragraphs is collapsed, trailing whitespace is
  removed and runs of blank lines become one. The contents of mathematics,
  tables, pictures and code environments (such as `equation`, `tabular` or
  `verbatim`) and of display math are left as they are. The floats
  `figure` and `table` are formatted on purpose, like any other environment,
  so that the captions inside them are split too.

## Layout

- `src/` is the library, verified with Verus. Text is modelled as `Seq<char>`;
  every public function states its result over spec functions of that model.
  - `chars`, `text`, `scan`: character classes, whitespace, trimming,
    splitting, bracket matching and command arguments.
  - `bib`, `fold`, `keys`, `cite`, `fixbib`: parsing bibliography files,
    signatures and unified keys, citations, and the whole bibliography fix.
  - `sentences`, `fixtex`: sentence splitting and the formatter.
  - `files`: the file names a document refers to, backup names, arguments.
  - `laws`: properties that span several functions, proved once for all
    inputs (duplicates removed, cited keys renamed to kept entries, new keys
    distinct and of the form `[author][title][year]`, citations sorted by
    year, whitespace collapsing, sentences keeping the text, tidy formatter
    output, formatting twice changing nothing more).
- `app/` is the program: argument handling, reading and writing files.
- `tests/` runs the library on concrete inputs.

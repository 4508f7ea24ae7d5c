# confluence2md

Converts Confluence pages to clean, portable Markdown, with images, draw.io
diagrams and PlantUML included. The library is verified with
[Verus](https://github.com/verus-lang/verus): what each function returns is
stated in its contract and proved.

## Layout

- `src/` is the verified library.
  - `text`, `lookup`, `pattern`, `percent`, `json`, `web`: text, maps, regular
    expressions, percent-encoding, JSON and URLs.
  - `utils`, `names`, `page`: entities, file names, and the final document.
  - `macros`, `jira`: storage-format macros and Jira issues.
  - `grid`, `cells`, `tables`, `headings`, `dom`, `export_html`: the conversion
    of export-view HTML to Markdown.
  - `confluence`, `drawio`, `mxfile`, `png`, `plantuml`, `logger`: requests and
    answers, diagrams, and log levels.
- `app/` is the command-line program: arguments, HTTP requests, files, logging.
- `tests/` holds the tests.

Facts about the whole library are proof functions whose names start with
`law_`. Calls into other crates go through a few functions whose contracts are
trusted; their doc comments say what is claimed.

## Positions

Texts are modelled as sequences of characters, and positions count characters.
Searches of the `regex` crate report byte positions, which `pattern` turns into
character positions.

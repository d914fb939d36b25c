# mdrender

A Markdown-to-HTML documentation generator with a small web dashboard,
written as a Verus library with a thin program around it.

- `src/` is the verified library: text primitives (`text`), Unix-style
  paths (`paths`), JSON and URL handling and request paths (`server`), the
  dashboard's HTTP API (`api`), page assembly and links (`html`), front
  matter, slugs, the pulldown-cmark rendering plan and callouts (`markdown`),
  site discovery, navigation and assets (`builder`), archive numbering and
  planning (`archive`), and the command line (`config`). Every function
  carries a contract over mathematical models, and the `law_*` proof
  functions state properties that hold across functions (escaping round
  trips, links that resolve, sanitized paths that stay inside their folder,
  archive numbering, navigation order).
- `app/` is the program: command-line parsing with clap, the file system,
  the TCP server and the file watcher. It hands plain values to the library
  and carries out what the library decides.
- `tests/` runs the library on concrete inputs.

The program reads `style.css`, `theme.js` and `dashboard.html` from a
`templates/` folder in its working directory.

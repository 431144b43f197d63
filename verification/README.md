# commit_clock

A desktop clock drawn in a 5x7 pixel font that also lists the signed-in
GitHub user's open pull requests, with Jira keys in their titles turned into
links.

- `src/` is the library, verified with Verus: text scanning (`text`), Jira
  keys (`jira`), the pixel font and text layout in grid columns (`glyph`),
  clock texts (`clock`), icon corner masking (`icon`), the board's speckles
  and decoration hashes (`speckle`, `pattern`),
  the token lookup and configuration file (`token`), the JSON model and
  reading reply text as JSON (`json`), the GitHub fetch protocol
  (`github`), word wrapping (`wrap`) and the frame-to-frame decisions
  (`controls`).
- `app/` is the program around it: the macroquad window and drawing in
  floating point, the HTTP requests on a thread, reading the environment and
  files, and opening links.
- `tests/` runs the library on concrete values.

# nixcon-quiz

A live quiz with one clock for everyone, played in the browser: everyone gets
the same question at the same time, answers count until the time runs out, and
faster right answers score more. There is a spectator screen for the
livestream, and a second, fast room that closes each question as soon as
everyone online has answered.

- `src/` is the library, verified with Verus: the game and its rules, reading
  questions, rendering pages, the rotation of break slides, the replies of the
  server and the command line. It reads no file, clock or socket.
- `app/` is the server around it: HTTP, files, poppler and the clock. It serves
  the stylesheet and scripts from a directory `static`.
- `tests/` runs the library.

Questions are TOML files, one per question:

```toml
question = "Which language are Nix expressions written in?"
choices = ["Nix", "Guile", "YAML", "HCL"]
answer = "Nix"
explanation = "The language is called Nix, like the package manager."
```

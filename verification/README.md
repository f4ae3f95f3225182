# zero_shell

A small Unix-like shell with builtin commands only (`echo`, `pwd`, `cd`, `ls`,
`cat`, `cp`, `mv`, `rm`, `mkdir`, `help`, `history`, `exit [code]`), command
chaining with `;`, pipelines with `|`, redirections with `<` and `>`, `$VAR`
and `~` expansion, and quoting with `'...'`, `"..."` and backslashes.

- `src/` is the library, verified with Verus: splitting lines into commands,
  stages and words, expansion, choosing the builtin, what each builtin is asked
  to do, running the commands of a line and the stages of a pipeline step by
  step (which input each stage reads, what is written, where a run stops), the
  prompt, the history listing, path names, `ls` output and the order of
  directory entries. Each public function states its result in `ensures`;
  the `law_*` proof functions state properties that span several calls.
- `app/main.rs` is the interactive program: it reads lines with `rustyline`,
  asks the library what to do, and performs the file-system and terminal work.
- `tests/` exercises the library on concrete values, including comparisons with
  the standard library's own `char::is_whitespace`, `str::split_whitespace`,
  `str::parse`, `Path::file_name`, `Path::join` and sorting.

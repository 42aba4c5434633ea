# git-ignore

A command-line tool that generates and patches `.gitignore` files from
template repositories (by default github/gitignore), indexed locally in a
`redb` database and an `fst` name index.

The library under `src/` is verified with Verus:

- `patch`: parsing a `.gitignore` into custom text and managed sections
  (between `# git-ignore-start: NAME` and `# git-ignore-end: NAME`),
  patching the sections with templates, and serializing the result with
  exactly one blank line between blocks. `patch_laws` proves what patching
  keeps and changes and that it is idempotent; `roundtrip` proves what
  reading back a written file gives, and that running the tool again leaves
  its output unchanged (where, in the first output, section names hold no
  newline and do not end with a carriage return, no section holds its own
  end line, and no custom text or section left alone by the templates holds
  a carriage return right before a newline, which reading drops).
- `action`: what a run does, decided from its arguments; the keys a template
  is looked up under; merging the parts found; what generating a file does.
- `config`: the list of template sources.
- `sync`, `state`: the decisions of a synchronization (how each source is
  brought up to date, which templates a change touches, their names).
- `index`: building the name index, and the names listed from its keys.
- `hash`, `order`, `text`: hexadecimal digests, byte order, and the text
  operations the rest is built on.

`app/` holds the program around it: argument parsing, the environment, the
git repositories (gix), the database (redb) and the files.

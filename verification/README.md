# todo_plan

The plan layer of a minimalist, file-based task manager: a plan is a markdown
list of issues, optionally grouped under headings, kept in a whole file or in a
` ```md todo ` block of a manifest file. This crate reads such a plan into
issues and sets, remembers where each issue sits in the source, and edits a
file in place by patching only the bytes that change.

The library under `src/` is written in Verus, and its functions carry
contracts that Verus proves:

- `reader`, `parse`: the CommonMark events of a source (from `pulldown-cmark`)
  drive a reader whose every step is specified; `parse` returns exactly the
  plan that the specification describes, or the error it describes.
- `assignment`, `plan_shape`, `descriptions`: what holds of every parsed plan:
  ids spelled out in the source are kept and never handed to another issue, a
  repeated id is an error, each kept item is the issue filed under its id with
  its spans, parents and subissues agree, spans stay inside the source, and a
  description is the dedented text of its span.
- `nesting`, `closing`, `spans`: name and description spans lie inside their
  item's span; when the events close every list item they open (as
  `pulldown-cmark` documents), every issue has a name span, filed in the
  issues' order.
- `source`, `patch`, `rename`: the plan block of a file, byte-exact patching,
  and renaming an issue so that only its name changes.
- `plan`, `issue`, `collections`: issues and sets in insertion order, over the
  maps and sets of `indexmap`.
- `options`, `config`: command-line options and the settings they override;
  `locate`: which configured or found project a lookup by id or name picks.

`app/` holds the file-system side (reading, metadata snapshots, guarded
writes) and the `clap`/`thiserror` forms of the library's types.

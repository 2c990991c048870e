# artifact

Artifact is a design documentation tool: artifacts (`REQ-`, `SPC-`, `TST-`
names) are written in markdown, TOML or JSON files, linked to each other
with `partof`, and linked to source code with `#SPC-name` references.

This crate is the verified core of the tool, written in Verus:

- `name`, `family`, `expand`, `collapse`: artifact names, their families
  (parent and automatic `partof`), and collapsed name lists such as
  `REQ-[foo, bar-[baz, bom]]`, with the law that collapsing and expanding
  gives the names back.
- `raw`, `md_roundtrip`: the markdown file format, with the law that
  markdown written by the tool reads back, section by section, as the
  names, attribute text and text written (the attributes are YAML, parsed
  in `app/`); `artifacts_from_sections` turns the sections into artifacts.
- `implemented`: scanning source code for artifact references and joining
  them per artifact.
- `artifact`, `loaded`, `graph`, `project`: loading artifacts, the family
  graph (built from the artifacts' full `partof`), with the law that each
  artifact's `parts` are the inverse of the full `partof`, by name; the
  lints of a project, and
  `build_project`, which builds a project from what was read of its files.
- `reformat`: the law that the editable part read back from a loaded
  artifact is the artifact as it was read, so formatting a freshly loaded
  project writes it back unchanged.
- `modify`, `expected`: operations on a project (`modify_loaded` checks
  and performs them on a loaded project), the files to save, and expected
  values for checking a loaded project.
- `lint`, `sort`, `text`, `path`, `ser`, `markdown`: lints (sorting them
  twice is sorting them once), stable sorting, text cleaning, paths,
  settings types and the text form of hash ids.

Sets and maps that keep insertion order are `Vec`s whose keys are unique,
with insertion, swap-removal and lookup by key written and verified here.
The hash id of an artifact is SipHash-128 of this library's own byte
encoding of its editable part (see `ArtifactIm::hash_input`).

`app/` is the `art` command line (`init`, `check`, `fmt`, `ls`): it reads
and writes the files, parses TOML, JSON and YAML with serde, and computes
the completion ratios, which are floating point.

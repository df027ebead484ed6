# yaml_filter

Prints the parts of YAML documents selected by dotted key paths, such as
`main.nested-key`, `main.*` or `key-with-list.1`.

- `src/` is the library, verified with Verus:
  - `branch_selection`: whether a key path matches include patterns (`*` matches any
    segment; only the segment positions both have are compared);
  - `yaml_parsing`: the library's YAML tree (`YamlNode`, modelled by `YamlValue`) and
    filtering it by a predicate on paths, with the laws that filtering with an
    accept-all predicate changes nothing, with a reject-all predicate empties every
    container, and never produces a mapping with two equal keys; the traced variants
    also report each path asked about and each sequence entered, in order;
    it also loads and emits documents through yaml-rust;
  - `filter_laws`: how filterings by different predicates and paths relate;
  - `numerals`, `output`: decimal numerals, the numbered echo of the input, the
    line-number labels of highlighted output (highlighted through syntect), and
    joining emitted documents;
  - `config`: the run's settings and whether output is coloured.
- `app/` is the command-line program around it: argument parsing (clap), reading the
  input, and printing (coloured line numbers through termcolor).
- `tests/` exercises the library on concrete values.

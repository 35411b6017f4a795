# edikt

Format-preserving editing of configuration files: a jq-flavoured expression
language, and edits that carry its results into JSON with comments, TOML, INI,
KDL, flat key-value files and metadata blocks without disturbing the rest of the
file.

- `src/` is the library, verified with Verus. Every public function states what
  it returns over a mathematical model of its arguments; the `*_laws` modules and
  the public proof functions state what holds across functions.
- `app/` runs the library on real doubles, and gives its failures and syntax
  trees the traits of `std` and `rowan`.
- `tests/` runs the library.

| Part | Modules |
| --- | --- |
| Values and expressions | `model`, `value`, `float`, `arith`, `seqs`, `strs`, `strings`, `regexes` |
| The language | `lexer`, `grammar`, `parser`, `ast`, `semantics`, `builtins`, `eval`, `paths`, `mutate` |
| Comments | `comment`, `comment_edit`, `comment_query`, `line_comment`, `wrap` |
| Text | `text`, `lines`, `index`, `convert` |
| Flat files and INI | `rows`, `env`, `ini`, `row_syntax`, `env_syntax`, `ini_syntax` |
| JSON with comments | `json_*`, `jsonc`, `jsonc_comments` |
| TOML | `toml_*`, `toml` |
| KDL | `kdl_*` |
| Metadata blocks | `frontmatter` |
| Laws | the modules whose names end in `_laws`, and `json_relex` |

Doubles are opaque to the library: it orders and prints them by their bits, and
asks its caller for what a literal denotes and for the results of arithmetic
(`float::FloatFacts`). What `regex`, `toml_edit`, `kdl` and `rowan` do is stated
beside the calls, in `regexes`, `toml_items`, `kdl_items` and `syntax`.

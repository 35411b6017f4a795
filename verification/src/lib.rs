//! Format-preserving editing of configuration files: a jq-flavoured
//! expression language over a value model, and the text-level edits that
//! carry its results back into a file without disturbing anything else.
pub mod arith;
pub mod ast;
pub mod builtin_laws;
pub mod builtins;
pub mod comment;
pub mod comment_edit;
pub mod comment_edit_laws;
pub mod comment_laws;
pub mod comment_query;
pub mod comment_read_laws;
pub mod compare_laws;
pub mod convert;
pub mod document;
pub mod env;
pub mod env_emit_laws;
pub mod env_syntax;
pub mod error;
pub mod eval;
pub mod eval_laws;
pub mod feature;
pub mod flat_laws;
pub mod float;
pub mod frontmatter;
pub mod grammar;
pub mod index;
pub mod ini;
pub mod ini_emit_laws;
pub mod ini_syntax;
pub mod json_delete_laws;
pub mod json_edit;
pub mod json_emit_laws;
pub mod json_good_laws;
pub mod json_grow_laws;
pub mod json_keep_laws;
pub mod json_laws;
pub mod json_lexer;
pub mod json_nodes;
pub mod json_parser;
pub mod json_relex;
pub mod json_set_laws;
pub mod json_spell;
pub mod json_syntax;
pub mod json_text_laws;
pub mod json_tree;
pub mod jsonc;
pub mod jsonc_comments;
pub mod jsonc_emit_laws;
pub mod kdl_change;
pub mod kdl_comments;
pub mod kdl_doc;
pub mod kdl_edit;
pub mod kdl_emit_laws;
pub mod kdl_items;
pub mod kdl_laws;
pub mod kdl_nodes;
pub mod kdl_notes;
pub mod kdl_set_laws;
pub mod kdl_spell;
pub mod kdl_tree;
pub mod kdl_value_laws;
pub mod lexer;
pub mod line_comment;
pub mod line_note_laws;
pub mod lines;
pub mod model;
pub mod mutate;
pub mod mutate_laws;
pub mod order_laws;
pub mod parser;
pub mod note_laws;
pub mod path_laws;
pub mod paths;
pub mod place_laws;
pub mod presence_laws;
pub mod regexes;
pub mod render_laws;
pub mod row_syntax;
pub mod rows;
pub mod semantics;
pub mod seqs;
pub mod slice_laws;
pub mod stream_laws;
pub mod strings;
pub mod strs;
pub mod syntax;
pub mod text;
pub mod toml;
pub mod toml_change;
pub mod toml_comments;
pub mod toml_edit_laws;
pub mod toml_emit;
pub mod toml_emit_laws;
pub mod toml_items;
pub mod toml_keep_laws;
pub mod toml_laws;
pub mod toml_nodes;
pub mod toml_notes;
pub mod toml_spell;
pub mod toml_tree;
pub mod value;
pub mod wrap;

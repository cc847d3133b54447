use vstd::prelude::*;

pub mod ast_creator;
pub mod ast_resolver;
pub mod builtin_functions;
pub mod cell_names;
pub mod common_types;
pub mod dependancy_graph;
pub mod editor;
pub mod parser;
pub mod sheet_file;
pub mod spreadsheet;
pub mod text;
pub mod tokenizer;

verus! {

} // verus!

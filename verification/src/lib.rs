//! Core logic for a LilyPond language server: everything the server decides, without the input and
//! output around it.
pub mod assignment;
pub mod code_action;
pub mod command;
pub mod command_assist;
pub mod context;
pub mod diagnostics;
pub mod document;
pub mod document_graph;
pub mod finding;
pub mod grammar;
pub mod install;
pub mod laws;
pub mod lexer;
pub mod line_struct;
pub mod lookup;
pub mod note_names;
pub mod notes;
pub mod open_documents;
pub mod protocol;
pub mod queries;
pub mod scope;
pub mod symbols;
pub mod syntax;
pub mod text;
pub mod typing;
pub mod vocabulary;
pub mod walk;

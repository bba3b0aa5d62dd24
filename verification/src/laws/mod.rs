//! What the library is for, operation by operation: what an edit leaves in the text, what an answer
//! holds of the document it was asked of, and how the answers to two questions relate.
pub mod arguments;
pub mod assisting;
pub mod calling;
pub mod commands;
pub mod complaints;
pub mod defining;
pub mod documents;
pub mod endings;
pub mod explicit;
pub mod extraction;
pub mod inlining;
pub mod lexing;
pub mod markup;
pub mod navigation;
pub mod offers;
pub mod pitches;
pub mod placing;
pub mod sources;
pub mod unfolding;

//! A minimal markup parser: a tokenizer that classifies runs of input into
//! open-tag, close-tag, self-closing-tag, and text tokens, a stack-based tree
//! builder that assembles those tokens into a rooted document tree, and a
//! printer that renders the tree back out as indented lines.

pub mod scan;
pub mod dom;
pub mod errors;
pub mod attr;
pub mod lexer;
pub mod parser;
pub mod printer;

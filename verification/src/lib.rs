//! Shape grammars: a tokenizer and parser for rule files that describe how
//! boxes are split and transformed into a derivation tree, and the decisions
//! of the modeler and of the viewer that do not depend on geometry.
pub mod events;
pub mod grammar;
pub mod modeler;
pub mod parser;
pub mod token_laws;
pub mod tokenizer;

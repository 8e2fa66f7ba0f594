//! A parser for INI-formatted configuration text.
//!
//! The library turns the full contents of an INI file into a document model:
//! named sections holding key/value entries and, through indented headers,
//! nested sections.  Parsing happens in two stages: the grammar recognizer
//! (`grammar`) matches the text against the INI syntax and produces a
//! rule-tagged parse tree, and the tree reducer (`parser`) folds that tree
//! into the document model (`ini_file`), classifying structural violations
//! the grammar alone cannot reject.

pub mod text;

pub mod ini_file;

pub mod grammar;

pub mod parser;

pub mod printer;

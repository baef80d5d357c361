//! Symbol dictionary and rule model for a triple-based knowledge base.
//!
//! Terms (subjects, predicates, objects) are text. The [`dictionary`] turns
//! them into compact numeric codes and back, so that facts can be kept as
//! [`triple::Triple`]s of codes. Inference rules over patterns of such
//! triples are plain data, described in [`rule`] and [`terms`].
//!
//! Every contract of the dictionary is stated over [`symbols::Symbols`], its
//! mathematical content: two maps and a counter. What holds of one encoding
//! or one merge is proved in [`symbols`], what holds after a whole sequence
//! of encodings in [`history`].

pub mod triple;
pub mod terms;
pub mod rule;
pub mod symbols;
pub mod history;
pub mod entries;
pub mod dictionary;
pub mod equality;

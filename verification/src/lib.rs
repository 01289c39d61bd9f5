//! Builds styled display lines from raw text and a queue of style
//! annotations produced by an external syntax highlighter.
//!
//! The entry point is [`builder::build_styled_content`]: one forward scan
//! over the characters of the text that splits it on line breaks and groups
//! it into contiguously styled runs, following the annotation queue. Its
//! meaning is the decision table modelled in [`scan`], and the laws of the
//! output — reconstruction of the text, no run crossing a line break, style
//! fidelity, continuity of multi-line annotations — are proved in
//! [`properties`].

pub mod builder;
pub mod properties;
pub mod scan;
pub mod screen;
pub mod styled_text;

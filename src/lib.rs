//! The matching core of an interactive regular-expression tester: a pattern
//! compiler that never fails outward, a match annotator that turns the
//! matches of a subject text into alternating character-offset spans, and
//! the placeholder substitution used to build localized status messages.

pub mod i18n;
pub mod pattern;
pub mod annotate;

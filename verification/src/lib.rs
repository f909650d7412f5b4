//! Reconstruction of natural-language sentences from timestamped subtitle
//! captions. A sentence may be split across several captions; the library
//! normalizes each caption's text, classifies its sentence shape, and stitches
//! fragments across captions into complete sentences indexed by the second in
//! which they began.

pub mod chars;
pub mod flashcard;
pub mod normalize;
pub mod scan;
pub mod segment;
pub mod stitch;
pub mod subtitle;
pub mod toolbox;

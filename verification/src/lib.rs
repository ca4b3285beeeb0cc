//! Patterns over module requests: their shape, their normal form and how they match paths.

pub mod barrier;
pub mod barrier_laws;
pub mod compose;
pub mod compose_laws;
pub mod constants;
pub mod display;
pub mod language;
pub mod listing_laws;
pub mod lookup;
pub mod matching;
pub mod matching_laws;
pub mod model_laws;
pub mod normalize;
pub mod normalize_laws;
pub mod order;
pub mod pattern;
pub mod prefix_laws;
pub mod readings;
pub mod search;
pub mod search_laws;
pub mod text;

//! Lookup of Han characters: by their components, with their pinyin, radicals and phrases.
//!
//! A [`Dictionary`] is loaded from the texts of its data files. [`api`] makes the replies of the
//! service from it, [`http`] what goes with them, and [`telemetry`] what is reported of them.
//!
//! What holds of all this is stated by proof functions whose names begin with `law_`: in
//! [`text_laws`] of texts, in [`data_laws`] of loading, in [`laws`] and [`search_laws`] of searching,
//! and in [`reply_laws`] of what is replied.

pub mod api;
pub mod character;
pub mod codepoint;
pub mod data_laws;
pub mod dictionary;
pub mod distinct;
pub mod grades;
pub mod han;
pub mod http;
pub mod key;
pub mod laws;
pub mod number;
pub mod rank;
pub mod reading;
pub mod reply_laws;
pub mod search;
pub mod search_laws;
pub mod structure;
pub mod telemetry;
pub mod text;
pub mod text_laws;
pub mod variants;
pub mod words;

pub use character::CharacterWord;
pub use codepoint::parse_codepoint;
pub use dictionary::{Dictionary, Entry, Sources};
pub use grades::{grade_map, GradeTexts};
pub use han::{han_characters, is_han};
pub use key::component_key;
pub use structure::{structure_map, Structure};
pub use variants::{add_variant, variant_map};
pub use words::Word;

//! Kana-kanji conversion engine: an SKK-style lexicon, greedy longest-match
//! segmentation, candidate resolution and interactive boundary adjustment.

pub mod text;
pub mod dictionary;
pub mod converter;
pub mod zenzai;
pub mod message;
pub mod protocol;

//! Codecs of Bacon's cipher.

pub mod char_codec;

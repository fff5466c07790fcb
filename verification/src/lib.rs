//! Extraction of the text behind the pointer tables of a binary image into an
//! editable sidecar, and reinjection of edited text into the image's free
//! region with the pointers rewritten.

pub mod capacity;
pub mod codec;
pub mod effect;
pub mod error;
pub mod extract;
pub mod image;
pub mod layout;
pub mod patch;
pub mod record;
pub mod roundtrip;
pub mod sidecar;
pub mod text;

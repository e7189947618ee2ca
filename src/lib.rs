pub mod codec;
pub mod langid;
pub mod error;
pub mod likely;
pub mod layout;
pub mod text;

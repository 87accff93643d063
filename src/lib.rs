pub mod buf;
pub mod error;
pub mod gf;
pub mod lrc;

pub use buf::LrcBuf;
pub use error::LrcError;
pub use lrc::Lrc;

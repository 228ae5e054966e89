//! Speech timing for sprite animation: duration estimates for spoken text,
//! voice names, and millisecond timestamps.

pub mod clock;
pub mod error;
pub mod estimate;
pub mod rate;
pub mod single;
pub mod speech;
pub mod words;

pub use clock::get_precise_time;
pub use error::SpeechError;
pub use rate::Rate;
pub use speech::{
    get_voices, speak_macos, speak_text, speak_windows, Platform, TTSRequest, TTSResponse,
    WordBoundary,
};

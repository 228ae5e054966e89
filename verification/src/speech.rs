//! The command surface: speak a text, list the voices of a language.

use vstd::prelude::*;
use vstd::string::StringExecFns;
use crate::error::SpeechError;
use crate::estimate::{
    covers_rate,
    estimate_duration_ms,
    estimate_ms,
    lemma_estimate_falls_as_rate_grows,
    lemma_estimate_positive,
    lemma_no_words_no_time,
    rate_at_most,
};
use crate::rate::Rate;
use crate::words::{count_words, word_count};

verus! {

/// A request to speak `text` in the language `lang` at `rate` times the
/// normal speed.
#[derive(Debug)]
pub struct TTSRequest {
    pub text: String,
    pub lang: String,
    pub rate: Rate,
}

/// The span of one spoken word within the audio.
#[derive(Debug)]
pub struct WordBoundary {
    pub word: String,
    pub start_ms: u64,
    pub end_ms: u64,
}

/// What became of a request: whether anything was spoken, for how long, and
/// where each word fell.
#[derive(Debug)]
pub struct TTSResponse {
    pub success: bool,
    pub duration_ms: u64,
    pub word_boundaries: Vec<WordBoundary>,
}

/// The host systems that the library tells apart.
#[derive(Clone, Copy, Debug, PartialEq, Eq, Structural)]
pub enum Platform {
    Windows,
    MacOs,
    Other,
}

impl Platform {
    /// Whether the platform has a speech engine.
    pub open spec fn has_speech(self) -> bool {
        self != Platform::Other
    }

    /// The platform that goes by the operating system name `name`, as
    /// `std::env::consts::OS` spells it.
    pub open spec fn of_os_name(name: Seq<char>) -> Platform {
        if name == "windows"@ {
            Platform::Windows
        } else if name == "macos"@ {
            Platform::MacOs
        } else {
            Platform::Other
        }
    }

    /// Computes `of_os_name`.
    pub fn from_os_name(name: &str) -> (platform: Platform)
        ensures
            platform == Platform::of_os_name(name@),
    {
        let name = name.to_owned();
        if name == String::from_str("windows") {
            Platform::Windows
        } else if name == String::from_str("macos") {
            Platform::MacOs
        } else {
            Platform::Other
        }
    }

    /// Decides `has_speech`.
    pub fn supports_speech(&self) -> (supported: bool)
        ensures
            supported == self.has_speech(),
    {
        match self {
            Platform::Windows => true,
            Platform::MacOs => true,
            Platform::Other => false,
        }
    }
}

impl TTSResponse {
    /// Every word ends no earlier than it starts and no later than the audio.
    pub open spec fn well_formed(&self) -> bool {
        forall|i: int|
            0 <= i < self.word_boundaries@.len() ==> (#[trigger] self.word_boundaries@[i]).start_ms
                <= self.word_boundaries@[i].end_ms <= self.duration_ms
    }

    /// The response of a platform without speech: nothing spoken, no duration,
    /// no boundaries.
    pub open spec fn is_unavailable(&self) -> bool {
        !self.success && self.duration_ms == 0 && self.word_boundaries@.len() == 0
    }

    /// The response to a request that was spoken for `duration_ms`
    /// milliseconds with no word boundaries reported.
    pub open spec fn is_spoken_for(&self, duration_ms: nat) -> bool {
        self.success && self.duration_ms == duration_ms && self.word_boundaries@.len() == 0
    }

    /// The response of a platform without speech.
    pub fn unavailable() -> (response: TTSResponse)
        ensures
            response.is_unavailable(),
            response.well_formed(),
    {
        TTSResponse { success: false, duration_ms: 0, word_boundaries: Vec::new() }
    }

    /// The response to a request spoken for `duration_ms` milliseconds.
    pub fn spoken_for(duration_ms: u64) -> (response: TTSResponse)
        ensures
            response.is_spoken_for(duration_ms as nat),
            response.well_formed(),
    {
        TTSResponse { success: true, duration_ms, word_boundaries: Vec::new() }
    }
}

/// What a platform with speech answers to `request`: the estimate for the
/// words of its text at its rate, or the error of a rate that is not valid.
pub open spec fn is_estimate_for(
    request: &TTSRequest,
    outcome: Result<TTSResponse, SpeechError>,
) -> bool {
    if !request.rate.is_finite() {
        outcome matches Err(error) && error == SpeechError::NonFiniteRate
    } else if !request.rate.is_valid() {
        outcome matches Err(error) && error == SpeechError::NonPositiveRate
    } else {
        outcome matches Ok(response) && response.well_formed() && response.is_spoken_for(
            estimate_ms(
                word_count(request.text@),
                request.rate.significand(),
                request.rate.exponent(),
            ),
        )
    }
}

/// Estimates the speech for `request` from its word count.
fn speak_estimated(request: &TTSRequest) -> (outcome: Result<TTSResponse, SpeechError>)
    ensures
        is_estimate_for(request, outcome),
{
    let words = count_words(request.text.as_str());
    match estimate_duration_ms(words, request.rate) {
        Ok(duration_ms) => Ok(TTSResponse::spoken_for(duration_ms)),
        Err(error) => Err(error),
    }
}

/// Speaks `request` on Windows.
pub fn speak_windows(request: &TTSRequest) -> (outcome: Result<TTSResponse, SpeechError>)
    ensures
        is_estimate_for(request, outcome),
{
    speak_estimated(request)
}

/// Speaks `request` on macOS.
pub fn speak_macos(request: &TTSRequest) -> (outcome: Result<TTSResponse, SpeechError>)
    ensures
        is_estimate_for(request, outcome),
{
    speak_estimated(request)
}

/// Speaks `request` with the engine of `platform`. A platform without speech
/// answers every request, whatever its rate, with the unavailable response.
/// An empty text takes no time. With speech and a valid rate the request
/// succeeds, and takes time just when the milliseconds of its words at rate 1
/// are no fewer than the rate.
pub fn speak_text(request: TTSRequest, platform: Platform) -> (outcome: Result<
    TTSResponse,
    SpeechError,
>)
    ensures
        platform.has_speech() ==> is_estimate_for(&request, outcome),
        !platform.has_speech() ==> (outcome matches Ok(response) && response.is_unavailable()
            && response.well_formed()),
        request.text@.len() == 0 ==> (outcome matches Ok(response) ==> response.duration_ms
            == 0),
        platform.has_speech() && request.rate.is_valid() ==> (outcome matches Ok(response)
            && response.success && (response.duration_ms > 0 <==> covers_rate(
            word_count(request.text@),
            request.rate.significand(),
            request.rate.exponent(),
        ))),
{
    proof {
        lemma_no_words_no_time(request.rate.significand(), request.rate.exponent());
        if request.rate.is_valid() {
            request.rate.lemma_valid_parts();
            lemma_estimate_positive(
                word_count(request.text@),
                request.rate.significand(),
                request.rate.exponent(),
            );
        }
    }
    match platform {
        Platform::Windows => speak_windows(&request),
        Platform::MacOs => speak_macos(&request),
        Platform::Other => Ok(TTSResponse::unavailable()),
    }
}

/// The names of the voices for the language `lang`: one, the default voice.
pub fn get_voices(lang: String) -> (voices: Vec<String>)
    ensures
        voices@.len() == 1,
        voices@[0]@ == "Default "@ + lang@,
{
    let mut name = String::from_str("Default ");
    name.append(lang.as_str());
    let mut voices: Vec<String> = Vec::new();
    voices.push(name);
    voices
}

/// Of two requests with the same text and valid rates, answered by a
/// platform with speech, the one with the faster rate takes no longer.
pub proof fn lemma_faster_speech_is_no_longer(
    slow: &TTSRequest,
    fast: &TTSRequest,
    slow_outcome: Result<TTSResponse, SpeechError>,
    fast_outcome: Result<TTSResponse, SpeechError>,
)
    requires
        slow.text@ == fast.text@,
        slow.rate.is_valid(),
        fast.rate.is_valid(),
        rate_at_most(
            slow.rate.significand(),
            slow.rate.exponent(),
            fast.rate.significand(),
            fast.rate.exponent(),
        ),
        is_estimate_for(slow, slow_outcome),
        is_estimate_for(fast, fast_outcome),
    ensures
        slow_outcome matches Ok(slow_response) && fast_outcome matches Ok(fast_response)
            && slow_response.duration_ms >= fast_response.duration_ms,
{
    slow.rate.lemma_valid_parts();
    fast.rate.lemma_valid_parts();
    lemma_estimate_falls_as_rate_grows(
        word_count(slow.text@),
        slow.rate.significand(),
        slow.rate.exponent(),
        fast.rate.significand(),
        fast.rate.exponent(),
    );
}

} // verus!

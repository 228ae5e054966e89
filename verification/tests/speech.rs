use soundmirror::{
    get_voices, speak_macos, speak_text, speak_windows, Platform, Rate, SpeechError, TTSRequest,
    TTSResponse,
};

fn request(text: &str, rate: f32) -> TTSRequest {
    TTSRequest { text: text.to_string(), lang: "en".to_string(), rate: Rate::from_bits(rate.to_bits()) }
}

#[test]
fn unsupported_platform_reports_unavailable() {
    let response = speak_text(request("hello world", 1.0), Platform::Other).unwrap();
    assert!(!response.success);
    assert_eq!(response.duration_ms, 0);
    assert!(response.word_boundaries.is_empty());
}

#[test]
fn unsupported_platform_ignores_the_rate() {
    for rate in [0.0f32, -1.0, f32::NAN, f32::INFINITY, f32::NEG_INFINITY, 1.0e-40, 2.5] {
        let response = speak_text(request("hello world", rate), Platform::Other).unwrap();
        assert!(!response.success);
        assert_eq!(response.duration_ms, 0);
        assert!(response.word_boundaries.is_empty());
    }
}

#[test]
fn three_words_at_normal_rate_take_900_ms() {
    for platform in [Platform::Windows, Platform::MacOs] {
        let response = speak_text(request("one two three", 1.0), platform).unwrap();
        assert!(response.success);
        assert_eq!(response.duration_ms, 900);
        assert!(response.word_boundaries.is_empty());
    }
}

#[test]
fn three_words_at_double_rate_take_450_ms() {
    for platform in [Platform::Windows, Platform::MacOs] {
        let response = speak_text(request("one two three", 2.0), platform).unwrap();
        assert!(response.success);
        assert_eq!(response.duration_ms, 450);
    }
}

#[test]
fn three_words_at_half_rate_take_1800_ms() {
    let response = speak_windows(&request("one two three", 0.5)).unwrap();
    assert_eq!(response.duration_ms, 1800);
    let response = speak_macos(&request("one two three", 0.5)).unwrap();
    assert_eq!(response.duration_ms, 1800);
}

#[test]
fn empty_text_takes_no_time() {
    for platform in [Platform::Windows, Platform::MacOs, Platform::Other] {
        let response = speak_text(request("", 1.0), platform).unwrap();
        assert_eq!(response.duration_ms, 0);
        assert!(response.word_boundaries.is_empty());
    }
    assert!(speak_text(request("", 1.0), Platform::Windows).unwrap().success);
}

#[test]
fn blank_text_takes_no_time() {
    let response = speak_text(request(" \t\n ", 1.0), Platform::MacOs).unwrap();
    assert!(response.success);
    assert_eq!(response.duration_ms, 0);
}

#[test]
fn one_word_at_a_high_rate_takes_no_time() {
    let response = speak_text(request("hi", 1000.0), Platform::Windows).unwrap();
    assert!(response.success);
    assert_eq!(response.duration_ms, 0);
}

#[test]
fn quotient_is_truncated() {
    // 300 / 7 = 42.857...
    let response = speak_text(request("word", 7.0), Platform::Windows).unwrap();
    assert_eq!(response.duration_ms, 42);
    // 600 / 0.9 = 666.66...
    let response = speak_text(request("two words", 0.9), Platform::Windows).unwrap();
    assert_eq!(response.duration_ms, 666);
}

#[test]
fn tiny_rate_saturates_the_duration() {
    let response = speak_text(request("word", 1.0e-40), Platform::Windows).unwrap();
    assert_eq!(response.duration_ms, u64::MAX);
    let response = speak_text(request("word", f32::MIN_POSITIVE), Platform::MacOs).unwrap();
    assert_eq!(response.duration_ms, u64::MAX);
}

#[test]
fn non_finite_rate_is_refused() {
    for rate in [f32::NAN, -f32::NAN, f32::INFINITY, f32::NEG_INFINITY] {
        for platform in [Platform::Windows, Platform::MacOs] {
            let error = speak_text(request("one two three", rate), platform).unwrap_err();
            assert_eq!(error, SpeechError::NonFiniteRate);
        }
    }
}

#[test]
fn non_positive_rate_is_refused() {
    for rate in [0.0f32, -0.0, -1.0, -1.0e-40, f32::MIN] {
        for platform in [Platform::Windows, Platform::MacOs] {
            let error = speak_text(request("one two three", rate), platform).unwrap_err();
            assert_eq!(error, SpeechError::NonPositiveRate);
        }
    }
}

#[test]
fn errors_have_messages() {
    assert_eq!(SpeechError::NonFiniteRate.message(), "speech rate must be a finite number");
    assert_eq!(SpeechError::NonPositiveRate.message(), "speech rate must be greater than zero");
}

#[test]
fn platforms_with_speech() {
    assert!(Platform::Windows.supports_speech());
    assert!(Platform::MacOs.supports_speech());
    assert!(!Platform::Other.supports_speech());
}

#[test]
fn voices_for_a_language() {
    assert_eq!(get_voices("en-US".to_string()), vec!["Default en-US".to_string()]);
    assert_eq!(get_voices("zh".to_string()), vec!["Default zh".to_string()]);
}

#[test]
fn voices_for_the_empty_language() {
    assert_eq!(get_voices(String::new()), vec!["Default ".to_string()]);
}

#[test]
fn platform_by_operating_system_name() {
    assert_eq!(Platform::from_os_name("windows"), Platform::Windows);
    assert_eq!(Platform::from_os_name("macos"), Platform::MacOs);
    for name in ["linux", "android", "ios", "freebsd", "", "Windows", "macOS", "windows ", "mac"] {
        assert_eq!(Platform::from_os_name(name), Platform::Other);
    }
}

#[test]
fn responses_by_constructor() {
    let response = TTSResponse::unavailable();
    assert!(!response.success);
    assert_eq!(response.duration_ms, 0);
    assert!(response.word_boundaries.is_empty());
    let response = TTSResponse::spoken_for(900);
    assert!(response.success);
    assert_eq!(response.duration_ms, 900);
    assert!(response.word_boundaries.is_empty());
}

#[test]
fn speech_takes_time_when_the_words_cover_the_rate() {
    for words in 0..40usize {
        let text = vec!["word"; words].join(" ");
        for rate in [0.5f32, 1.0, 299.0, 300.0, 301.0, 599.0, 600.0, 601.0, 2999.9, 3000.0, 3000.1, 11_700.0, 1.0e6] {
            let response = speak_text(request(&text, rate), Platform::Windows).unwrap();
            assert!(response.success);
            assert_eq!(response.duration_ms > 0, words as f32 * 300.0 >= rate, "{} words at {}", words, rate);
        }
    }
}

//! Merge options and the integer parts of analysis-configuration validation.
use vstd::prelude::*;
use crate::text::str_eq;

verus! {

/// How non-voice segments are combined.
#[derive(Debug, Clone, Copy, PartialEq, Eq, Structural)]
pub enum MergeStrategy {
    All,
    Longest,
    Sparse,
}

pub open spec fn strategy_text(s: MergeStrategy) -> Seq<char> {
    match s {
        MergeStrategy::All => "all"@,
        MergeStrategy::Longest => "longest"@,
        MergeStrategy::Sparse => "sparse"@,
    }
}

impl MergeStrategy {
    /// The strategy's name as written in configuration files.
    pub fn to_text(&self) -> (s: String)
        ensures
            s@ == strategy_text(*self),
    {
        let s = match self {
            MergeStrategy::All => "all",
            MergeStrategy::Longest => "longest",
            MergeStrategy::Sparse => "sparse",
        };
        s.to_string()
    }

    /// The strategy named `name`, if any.
    pub fn from_name(name: &str) -> (r: Option<MergeStrategy>)
        ensures
            r == Self::from_name_spec(name@),
    {
        if str_eq(name, "all") {
            Some(MergeStrategy::All)
        } else if str_eq(name, "longest") {
            Some(MergeStrategy::Longest)
        } else if str_eq(name, "sparse") {
            Some(MergeStrategy::Sparse)
        } else {
            None
        }
    }
}

#[derive(Debug, Clone, Copy)]
pub struct MergeOptions {
    pub min_gap_to_merge: u32,
    pub merge_strategy: MergeStrategy,
    pub min_speech_duration: u32,
    pub min_silence_duration: u32,
    pub silence_threshold_db: i32,
}

impl Default for MergeOptions {
    fn default() -> (r: Self)
        ensures
            r.min_gap_to_merge == 400,
            r.merge_strategy == MergeStrategy::All,
            r.min_speech_duration == 250,
            r.min_silence_duration == 300,
            r.silence_threshold_db == -42,
    {
        MergeOptions {
            min_gap_to_merge: 400,
            merge_strategy: MergeStrategy::All,
            min_speech_duration: 250,
            min_silence_duration: 300,
            silence_threshold_db: -42,
        }
    }
}

/// Why merge options were refused.
#[derive(Debug, Clone, Copy, PartialEq, Eq, Structural)]
pub enum MergeOptionsError {
    MinGapBelowFrame,
    MinSpeechBelowFrame,
    MinSilenceBelowFrame,
    SilenceThresholdOutOfRange,
    UnknownStrategy,
    ZeroMinGap,
}

pub open spec fn merge_options_message(e: MergeOptionsError) -> Seq<char> {
    match e {
        MergeOptionsError::MinGapBelowFrame => "invalid merge_options: min_gap_to_merge must be >= frame_ms"@,
        MergeOptionsError::MinSpeechBelowFrame => "invalid merge_options: min_speech_duration must be >= frame_ms"@,
        MergeOptionsError::MinSilenceBelowFrame => "invalid merge_options: min_silence_duration must be >= frame_ms"@,
        MergeOptionsError::SilenceThresholdOutOfRange => "invalid merge_options: silence_threshold_db must be in [-80, -20]"@,
        MergeOptionsError::UnknownStrategy => "invalid merge_strategy: must be one of all, longest, sparse"@,
        MergeOptionsError::ZeroMinGap => "invalid min_gap_to_merge: must be > 0"@,
    }
}

impl MergeOptionsError {
    /// The text the error is reported with.
    pub fn message(&self) -> (s: String)
        ensures
            s@ == merge_options_message(*self),
    {
        let s = match self {
            MergeOptionsError::MinGapBelowFrame => "invalid merge_options: min_gap_to_merge must be >= frame_ms",
            MergeOptionsError::MinSpeechBelowFrame => "invalid merge_options: min_speech_duration must be >= frame_ms",
            MergeOptionsError::MinSilenceBelowFrame => "invalid merge_options: min_silence_duration must be >= frame_ms",
            MergeOptionsError::SilenceThresholdOutOfRange => "invalid merge_options: silence_threshold_db must be in [-80, -20]",
            MergeOptionsError::UnknownStrategy => "invalid merge_strategy: must be one of all, longest, sparse",
            MergeOptionsError::ZeroMinGap => "invalid min_gap_to_merge: must be > 0",
        };
        s.to_string()
    }
}

/// The first check that `opts` fails for frames of `frame_ms`, if any.
pub open spec fn merge_options_fault(opts: MergeOptions, frame_ms: u32) -> Option<MergeOptionsError> {
    if opts.min_gap_to_merge < frame_ms {
        Some(MergeOptionsError::MinGapBelowFrame)
    } else if opts.min_speech_duration < frame_ms {
        Some(MergeOptionsError::MinSpeechBelowFrame)
    } else if opts.min_silence_duration < frame_ms {
        Some(MergeOptionsError::MinSilenceBelowFrame)
    } else if !(-80 <= opts.silence_threshold_db <= -20) {
        Some(MergeOptionsError::SilenceThresholdOutOfRange)
    } else {
        None
    }
}

/// Checks merge options against the frame length: every duration at least one
/// frame, and the silence threshold in [-80, -20] dB.
pub fn validate_merge_options(opts: &MergeOptions, frame_ms: u32) -> (r: Result<(), MergeOptionsError>)
    ensures
        match merge_options_fault(*opts, frame_ms) {
            Some(e) => r == Err::<(), MergeOptionsError>(e),
            None => r is Ok,
        },
{
    if opts.min_gap_to_merge < frame_ms {
        return Err(MergeOptionsError::MinGapBelowFrame);
    }
    if opts.min_speech_duration < frame_ms {
        return Err(MergeOptionsError::MinSpeechBelowFrame);
    }
    if opts.min_silence_duration < frame_ms {
        return Err(MergeOptionsError::MinSilenceBelowFrame);
    }
    if !(opts.silence_threshold_db >= -80 && opts.silence_threshold_db <= -20) {
        return Err(MergeOptionsError::SilenceThresholdOutOfRange);
    }
    Ok(())
}

/// Applies command-line overrides to merge options read from a configuration
/// (or the defaults): a minimum gap replaces the configured one, a strategy name
/// must be `all`, `longest` or `sparse`, and the resulting minimum gap must be
/// positive.
pub fn resolve_merge_options(base: MergeOptions, min_gap_override: Option<u32>, strategy_override: Option<&str>) -> (r: Result<MergeOptions, MergeOptionsError>)
    ensures
        strategy_override matches Some(name) && MergeStrategy::from_name_spec(name@) is None
            ==> r == Err::<MergeOptions, MergeOptionsError>(MergeOptionsError::UnknownStrategy),
        !(strategy_override matches Some(name) && MergeStrategy::from_name_spec(name@) is None) ==> {
            let gap = match min_gap_override { Some(g) => g, None => base.min_gap_to_merge };
            let strategy = match strategy_override {
                Some(name) => MergeStrategy::from_name_spec(name@)->Some_0,
                None => base.merge_strategy,
            };
            if gap == 0 {
                r == Err::<MergeOptions, MergeOptionsError>(MergeOptionsError::ZeroMinGap)
            } else {
                r matches Ok(o) && o.min_gap_to_merge == gap && o.merge_strategy == strategy
                    && o.min_speech_duration == base.min_speech_duration
                    && o.min_silence_duration == base.min_silence_duration
                    && o.silence_threshold_db == base.silence_threshold_db
            }
        },
{
    let mut opts = base;
    match min_gap_override {
        Some(g) => {
            opts.min_gap_to_merge = g;
        },
        None => {},
    }
    match strategy_override {
        Some(name) => match MergeStrategy::from_name(name) {
            Some(st) => {
                opts.merge_strategy = st;
            },
            None => {
                return Err(MergeOptionsError::UnknownStrategy);
            },
        },
        None => {},
    }
    if opts.min_gap_to_merge == 0 {
        return Err(MergeOptionsError::ZeroMinGap);
    }
    Ok(opts)
}

impl MergeStrategy {
    pub open spec fn from_name_spec(name: Seq<char>) -> Option<MergeStrategy> {
        if name == "all"@ {
            Some(MergeStrategy::All)
        } else if name == "longest"@ {
            Some(MergeStrategy::Longest)
        } else if name == "sparse"@ {
            Some(MergeStrategy::Sparse)
        } else {
            None
        }
    }
}

/// Why the frame settings of an analysis configuration were refused.
#[derive(Debug, Clone, Copy, PartialEq, Eq, Structural)]
pub enum FrameSettingsError {
    ZeroSampleRate,
    ZeroFrame,
    HangoverBelowFrame,
    MinSpeechBelowFrame,
    MinNonVoiceBelowFrame,
    MaxNonVoiceBelowFrame,
    MinNonVoiceAboveMax,
}

pub open spec fn frame_settings_message(e: FrameSettingsError) -> Seq<char> {
    match e {
        FrameSettingsError::ZeroSampleRate => "invalid config: sample_rate_hz must be > 0"@,
        FrameSettingsError::ZeroFrame => "invalid config: frame_ms must be > 0"@,
        FrameSettingsError::HangoverBelowFrame => "invalid config: speech_hangover_ms must be >= frame_ms"@,
        FrameSettingsError::MinSpeechBelowFrame => "invalid config: min_speech_ms must be >= frame_ms"@,
        FrameSettingsError::MinNonVoiceBelowFrame => "invalid config: min_non_voice_ms must be >= frame_ms"@,
        FrameSettingsError::MaxNonVoiceBelowFrame => "invalid config: max_non_voice_ms must be >= frame_ms"@,
        FrameSettingsError::MinNonVoiceAboveMax => "invalid config: min_non_voice_ms must be <= max_non_voice_ms"@,
    }
}

impl FrameSettingsError {
    /// The text the error is reported with.
    pub fn message(&self) -> (s: String)
        ensures
            s@ == frame_settings_message(*self),
    {
        let s = match self {
            FrameSettingsError::ZeroSampleRate => "invalid config: sample_rate_hz must be > 0",
            FrameSettingsError::ZeroFrame => "invalid config: frame_ms must be > 0",
            FrameSettingsError::HangoverBelowFrame => "invalid config: speech_hangover_ms must be >= frame_ms",
            FrameSettingsError::MinSpeechBelowFrame => "invalid config: min_speech_ms must be >= frame_ms",
            FrameSettingsError::MinNonVoiceBelowFrame => "invalid config: min_non_voice_ms must be >= frame_ms",
            FrameSettingsError::MaxNonVoiceBelowFrame => "invalid config: max_non_voice_ms must be >= frame_ms",
            FrameSettingsError::MinNonVoiceAboveMax => "invalid config: min_non_voice_ms must be <= max_non_voice_ms",
        };
        s.to_string()
    }
}

/// The integer settings of an analysis configuration that are checked together.
#[derive(Debug, Clone, Copy)]
pub struct FrameSettings {
    pub sample_rate_hz: u32,
    pub frame_ms: u32,
    pub speech_hangover_ms: u32,
    pub min_speech_ms: u32,
    pub min_non_voice_ms: u32,
    pub max_non_voice_ms: Option<u32>,
}

pub open spec fn frame_settings_fault(c: FrameSettings) -> Option<FrameSettingsError> {
    if c.sample_rate_hz == 0 {
        Some(FrameSettingsError::ZeroSampleRate)
    } else if c.frame_ms == 0 {
        Some(FrameSettingsError::ZeroFrame)
    } else if c.speech_hangover_ms < c.frame_ms {
        Some(FrameSettingsError::HangoverBelowFrame)
    } else if c.min_speech_ms < c.frame_ms {
        Some(FrameSettingsError::MinSpeechBelowFrame)
    } else if c.min_non_voice_ms < c.frame_ms {
        Some(FrameSettingsError::MinNonVoiceBelowFrame)
    } else if c.max_non_voice_ms matches Some(max) && max < c.frame_ms {
        Some(FrameSettingsError::MaxNonVoiceBelowFrame)
    } else if c.max_non_voice_ms matches Some(max) && c.min_non_voice_ms > max {
        Some(FrameSettingsError::MinNonVoiceAboveMax)
    } else {
        None
    }
}

/// The checks of an analysis configuration that come before its thresholds:
/// positive sample rate and frame, and every duration at least one frame, with
/// the minimum non-voice length not above the maximum.
pub fn validate_frame_settings(c: &FrameSettings) -> (r: Result<(), FrameSettingsError>)
    ensures
        match frame_settings_fault(*c) {
            Some(e) => r == Err::<(), FrameSettingsError>(e),
            None => r is Ok,
        },
{
    if c.sample_rate_hz == 0 {
        return Err(FrameSettingsError::ZeroSampleRate);
    }
    if c.frame_ms == 0 {
        return Err(FrameSettingsError::ZeroFrame);
    }
    if c.speech_hangover_ms < c.frame_ms {
        return Err(FrameSettingsError::HangoverBelowFrame);
    }
    if c.min_speech_ms < c.frame_ms {
        return Err(FrameSettingsError::MinSpeechBelowFrame);
    }
    if c.min_non_voice_ms < c.frame_ms {
        return Err(FrameSettingsError::MinNonVoiceBelowFrame);
    }
    match c.max_non_voice_ms {
        Some(max) => {
            if max < c.frame_ms {
                return Err(FrameSettingsError::MaxNonVoiceBelowFrame);
            }
            if c.min_non_voice_ms > max {
                return Err(FrameSettingsError::MinNonVoiceAboveMax);
            }
        },
        None => {},
    }
    Ok(())
}

/// The VAD engines a configuration may name.
pub open spec fn known_vad_engine(name: Seq<char>) -> bool {
    name == "energy"@ || name == "spectral"@ || name == "hybrid"@
}

/// Whether `name` is one of `energy`, `spectral`, `hybrid`.
pub fn is_known_vad_engine(name: &str) -> (r: bool)
    ensures
        r == known_vad_engine(name@),
{
    str_eq(name, "energy") || str_eq(name, "spectral") || str_eq(name, "hybrid")
}

/// A strategy's name reads back as the strategy.
pub proof fn lemma_strategy_name_round_trip(s: MergeStrategy)
    ensures
        MergeStrategy::from_name_spec(strategy_text(s)) == Some(s),
{
    reveal_strlit("all");
    reveal_strlit("longest");
    reveal_strlit("sparse");
    assert("all"@.len() == 3);
    assert("longest"@.len() == 7);
    assert("sparse"@.len() == 6);
}

/// Default of a switch that is on unless configured off.
pub fn default_true() -> (b: bool)
    ensures
        b,
{
    true
}

} // verus!


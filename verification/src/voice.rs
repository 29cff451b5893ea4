//! Voice providers for narration: what each one offers and how an emotion is
//! put into its input text.
use vstd::prelude::*;
use crate::segment::text_seq;
use crate::text::concat_str;

verus! {

broadcast use vstd::string::group_string_axioms;

#[derive(Debug, Clone, PartialEq, Eq)]
pub enum Emotion {
    Neutral,
    Excited,
    Sad,
    Tense,
    Mysterious,
    Joyful,
    Whisper,
    Angry,
    Custom(String),
}

/// What a provider can do.
#[derive(Debug)]
pub struct ProviderCapabilities {
    pub supports_emotion: bool,
    pub supports_voice_cloning: bool,
    pub supports_streaming: bool,
    pub max_text_length: usize,
    pub languages: Vec<String>,
    pub requires_gpu: bool,
}

/// Settings of a local Kokoro model.
#[derive(Debug, Clone)]
pub struct KokoroConfig {
    pub model_path: String,
    pub device: String,
}

/// Settings of a local PocketTTS model.
#[derive(Debug, Clone)]
pub struct PocketTtsConfig {
    pub model_path: String,
    pub device: String,
}

/// Settings of a local Qwen3-TTS model.
#[derive(Debug, Clone)]
pub struct Qwen3Config {
    pub model_path: String,
    pub vocoder_path: String,
    pub device: String,
    pub voice_description: String,
}

/// Settings of a local Orpheus model.
#[derive(Debug, Clone)]
pub struct OrpheusConfig {
    pub model_path: String,
    pub device: String,
}

/// The language a request is spoken in when it names none.
pub fn default_language() -> (s: String)
    ensures
        s@ == "de"@,
{
    "de".to_string()
}

/// Builds a list of language codes.
fn languages(codes: &[&str]) -> (r: Vec<String>)
    ensures
        r@.len() == codes@.len(),
        forall|k: int| 0 <= k < codes@.len() ==> (#[trigger] r@[k])@ == codes@[k]@,
{
    let mut r: Vec<String> = Vec::new();
    let mut i: usize = 0;
    while i < codes.len()
        invariant
            i <= codes.len(),
            r@.len() == i,
            forall|k: int| 0 <= k < i ==> (#[trigger] r@[k])@ == codes@[k]@,
        decreases codes.len() - i,
    {
        r.push(codes[i].to_string());
        i += 1;
    }
    r
}

pub open spec fn caps(
    c: ProviderCapabilities,
    emotion: bool,
    cloning: bool,
    streaming: bool,
    max_len: usize,
    langs: Seq<Seq<char>>,
    gpu: bool,
) -> bool {
    &&& c.supports_emotion == emotion
    &&& c.supports_voice_cloning == cloning
    &&& c.supports_streaming == streaming
    &&& c.max_text_length == max_len
    &&& text_seq(c.languages@) == langs
    &&& c.requires_gpu == gpu
}

pub struct KokoroProvider {
    pub config: KokoroConfig,
}

impl KokoroProvider {
    pub fn new(config: KokoroConfig) -> (p: Self)
        ensures
            p.config.model_path@ == config.model_path@ && p.config.device@ == config.device@,
    {
        KokoroProvider { config }
    }

    /// Local, emotion-aware, English and German.
    pub fn capabilities(&self) -> (c: ProviderCapabilities)
        ensures
            caps(c, true, false, false, 1000, seq!["en"@, "de"@], false),
    {
        let languages = languages(&["en", "de"]);
        let c = ProviderCapabilities {
            supports_emotion: true,
            supports_voice_cloning: false,
            supports_streaming: false,
            max_text_length: 1000,
            languages,
            requires_gpu: false,
        };
        assert(text_seq(c.languages@) =~= seq!["en"@, "de"@]);
        c
    }
}

pub struct PocketTtsProvider {
    pub config: PocketTtsConfig,
}

impl PocketTtsProvider {
    pub fn new(config: PocketTtsConfig) -> (p: Self)
        ensures
            p.config.model_path@ == config.model_path@ && p.config.device@ == config.device@,
    {
        PocketTtsProvider { config }
    }

    /// CPU-first with voice cloning and streaming, four languages, no emotion.
    pub fn capabilities(&self) -> (c: ProviderCapabilities)
        ensures
            caps(c, false, true, true, 5000, seq!["de"@, "en"@, "es"@, "fr"@], false),
    {
        let languages = languages(&["de", "en", "es", "fr"]);
        let c = ProviderCapabilities {
            supports_emotion: false,
            supports_voice_cloning: true,
            supports_streaming: true,
            max_text_length: 5000,
            languages,
            requires_gpu: false,
        };
        assert(text_seq(c.languages@) =~= seq!["de"@, "en"@, "es"@, "fr"@]);
        c
    }
}

/// The German instruction that asks Qwen3-TTS for an emotion; a custom
/// emotion is its own instruction.
pub open spec fn emotion_prompt(e: Emotion) -> Seq<char> {
    match e {
        Emotion::Neutral => "Sprich in einem neutralen Ton."@,
        Emotion::Excited => "Sprich mit Begeisterung und Energie."@,
        Emotion::Sad => "Sprich traurig und langsam."@,
        Emotion::Tense => "Sprich angespannt und flüsternd."@,
        Emotion::Mysterious => "Sprich geheimnisvoll und dunkel."@,
        Emotion::Joyful => "Sprich fröhlich und hell."@,
        Emotion::Whisper => "Sprich sehr leise, flüsternd."@,
        Emotion::Angry => "Sprich wütend und bestimmt."@,
        Emotion::Custom(p) => p@,
    }
}

pub struct Qwen3Provider {
    pub config: Qwen3Config,
}

impl Qwen3Provider {
    pub fn new(config: Qwen3Config) -> (p: Self)
        ensures
            p.config.model_path@ == config.model_path@,
            p.config.vocoder_path@ == config.vocoder_path@,
            p.config.device@ == config.device@,
            p.config.voice_description@ == config.voice_description@,
    {
        Qwen3Provider { config }
    }

    pub fn get_emotion_prompt(&self, emotion: &Emotion) -> (s: String)
        ensures
            s@ == emotion_prompt(*emotion),
    {
        match emotion {
            Emotion::Neutral => "Sprich in einem neutralen Ton.".to_string(),
            Emotion::Excited => "Sprich mit Begeisterung und Energie.".to_string(),
            Emotion::Sad => "Sprich traurig und langsam.".to_string(),
            Emotion::Tense => "Sprich angespannt und flüsternd.".to_string(),
            Emotion::Mysterious => "Sprich geheimnisvoll und dunkel.".to_string(),
            Emotion::Joyful => "Sprich fröhlich und hell.".to_string(),
            Emotion::Whisper => "Sprich sehr leise, flüsternd.".to_string(),
            Emotion::Angry => "Sprich wütend und bestimmt.".to_string(),
            Emotion::Custom(p) => p.clone(),
        }
    }

    /// GPU model with emotion and voice cloning: German, English, Chinese.
    pub fn capabilities(&self) -> (c: ProviderCapabilities)
        ensures
            caps(c, true, true, false, 2000, seq!["de"@, "en"@, "zh"@], true),
    {
        let languages = languages(&["de", "en", "zh"]);
        let c = ProviderCapabilities {
            supports_emotion: true,
            supports_voice_cloning: true,
            supports_streaming: false,
            max_text_length: 2000,
            languages,
            requires_gpu: true,
        };
        assert(text_seq(c.languages@) =~= seq!["de"@, "en"@, "zh"@]);
        c
    }
}

/// The inline tag Orpheus reads for an emotion (none for a neutral voice).
pub open spec fn emotion_tag(e: Emotion) -> Option<Seq<char>> {
    match e {
        Emotion::Neutral => None,
        Emotion::Excited => Some("[excited]"@),
        Emotion::Sad => Some("[sad]"@),
        Emotion::Tense => Some("[tense]"@),
        Emotion::Mysterious => Some("[mysterious]"@),
        Emotion::Joyful => Some("[joyful]"@),
        Emotion::Whisper => Some("[whispers]"@),
        Emotion::Angry => Some("[angry]"@),
        Emotion::Custom(t) => Some(t@),
    }
}

/// The text with the emotion's tag and a space in front of it.
pub open spec fn tagged_text(text: Seq<char>, e: Emotion) -> Seq<char> {
    match emotion_tag(e) {
        Some(t) => t + " "@ + text,
        None => text,
    }
}

pub struct OrpheusProvider {
    pub config: OrpheusConfig,
}

impl OrpheusProvider {
    pub fn new(config: OrpheusConfig) -> (p: Self)
        ensures
            p.config.model_path@ == config.model_path@ && p.config.device@ == config.device@,
    {
        OrpheusProvider { config }
    }

    pub fn wrap_with_emotion_tags(&self, text: &str, emotion: &Emotion) -> (s: String)
        ensures
            s@ == tagged_text(text@, *emotion),
    {
        let tag: Option<&str> = match emotion {
            Emotion::Neutral => None,
            Emotion::Excited => Some("[excited]"),
            Emotion::Sad => Some("[sad]"),
            Emotion::Tense => Some("[tense]"),
            Emotion::Mysterious => Some("[mysterious]"),
            Emotion::Joyful => Some("[joyful]"),
            Emotion::Whisper => Some("[whispers]"),
            Emotion::Angry => Some("[angry]"),
            Emotion::Custom(t) => Some(t.as_str()),
        };
        match tag {
            Some(t) => {
                let head = concat_str(t, " ");
                concat_str(head.as_str(), text)
            },
            None => text.to_string(),
        }
    }

    /// GPU model with emotion tags: German and English.
    pub fn capabilities(&self) -> (c: ProviderCapabilities)
        ensures
            caps(c, true, false, false, 4000, seq!["de"@, "en"@], true),
    {
        let languages = languages(&["de", "en"]);
        let c = ProviderCapabilities {
            supports_emotion: true,
            supports_voice_cloning: false,
            supports_streaming: false,
            max_text_length: 4000,
            languages,
            requires_gpu: true,
        };
        assert(text_seq(c.languages@) =~= seq!["de"@, "en"@]);
        c
    }
}

/// What the ElevenLabs cloud service offers.
pub fn elevenlabs_capabilities() -> (c: ProviderCapabilities)
    ensures
        caps(c, true, true, true, 10000, seq!["de"@, "en"@, "multilingual"@], false),
{
    let languages = languages(&["de", "en", "multilingual"]);
    let c = ProviderCapabilities {
        supports_emotion: true,
        supports_voice_cloning: true,
        supports_streaming: true,
        max_text_length: 10000,
        languages,
        requires_gpu: false,
    };
    assert(text_seq(c.languages@) =~= seq!["de"@, "en"@, "multilingual"@]);
    c
}

/// What the serverless Modal endpoint offers.
pub fn modal_capabilities() -> (c: ProviderCapabilities)
    ensures
        caps(c, true, true, false, 5000, seq!["de"@, "en"@], true),
{
    let languages = languages(&["de", "en"]);
    let c = ProviderCapabilities {
        supports_emotion: true,
        supports_voice_cloning: true,
        supports_streaming: false,
        max_text_length: 5000,
        languages,
        requires_gpu: true,
    };
    assert(text_seq(c.languages@) =~= seq!["de"@, "en"@]);
    c
}

} // verus!

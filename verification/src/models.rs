//! Rows of the database as the library sees them.
//!
//! A recording-relative time is kept as the bits of the double that the
//! database holds: it is handed on, never computed with.
use vstd::prelude::*;
use crate::json;

verus! {

/// What a transcript row holds.
#[derive(Debug)]
pub struct Transcript {
    pub id: String,
    pub meeting_id: String,
    pub transcript: String,
    pub timestamp: String,
    pub summary: Option<String>,
    pub action_items: Option<String>,
    pub key_points: Option<String>,
    pub audio_start_time: Option<u64>,
    pub audio_end_time: Option<u64>,
    pub duration: Option<u64>,
    pub speaker: Option<String>,
}

/// The settings of the summary models.
#[derive(Debug)]
pub struct Setting {
    pub id: String,
    pub provider: String,
    pub model: String,
    pub whisper_model: String,
    pub groq_api_key: Option<String>,
    pub openai_api_key: Option<String>,
    pub anthropic_api_key: Option<String>,
    pub ollama_api_key: Option<String>,
    pub open_router_api_key: Option<String>,
    pub ollama_endpoint: Option<String>,
    /// Configuration of a custom endpoint, as JSON.
    pub custom_openai_config: Option<String>,
}

impl Setting {
    /// The configuration of the custom endpoint; nothing where there is none, or
    /// it is no JSON. Which fields it has is not looked at here.
    pub fn get_custom_openai_config(&self) -> (r: Option<serde_json::Value>)
        ensures
            r == match self.custom_openai_config {
                Some(t) => json::json_of(t@),
                None => None,
            },
    {
        match &self.custom_openai_config {
            Some(t) => match json::parse(t.as_str()) {
                Ok(v) => Some(v),
                Err(_) => None,
            },
            None => None,
        }
    }
}

/// The settings of transcription.
#[derive(Debug)]
pub struct TranscriptSetting {
    pub id: String,
    pub provider: String,
    pub model: String,
    pub whisper_api_key: Option<String>,
    pub deepgram_api_key: Option<String>,
    pub eleven_labs_api_key: Option<String>,
    pub groq_api_key: Option<String>,
    pub openai_api_key: Option<String>,
    pub diarization_enabled: bool,
    pub diarization_num_speakers: Option<i64>,
    pub diarization_sensitivity: String,
    pub diarization_embedding_model: String,
}

} // verus!

//! Goal-oriented planning state for the radio-play workflow: which steps are
//! done and which resources are at hand.  A goal names what must be true; an
//! action's effects only ever make things true.
use vstd::prelude::*;

verus! {

#[derive(Debug, Clone, Copy, PartialEq, Eq, Hash, Structural)]
pub struct WorldState {
    pub movie_decoded: bool,
    pub audio_timeline_extracted: bool,
    pub visual_gaps_identified: bool,
    pub narration_scripts_generated: bool,
    pub narrator_voice_synthesized: bool,
    pub radio_play_assembled: bool,
    pub quality_verified: bool,
    pub learnings_applied: bool,
    pub gpu_available: bool,
    pub api_keys_configured: bool,
    pub local_models_loaded: bool,
}

/// Every fact that `goal` asks for holds in `s`.
pub open spec fn meets_spec(s: WorldState, goal: WorldState) -> bool {
    &&& goal.movie_decoded ==> s.movie_decoded
    &&& goal.audio_timeline_extracted ==> s.audio_timeline_extracted
    &&& goal.visual_gaps_identified ==> s.visual_gaps_identified
    &&& goal.narration_scripts_generated ==> s.narration_scripts_generated
    &&& goal.narrator_voice_synthesized ==> s.narrator_voice_synthesized
    &&& goal.radio_play_assembled ==> s.radio_play_assembled
    &&& goal.quality_verified ==> s.quality_verified
    &&& goal.learnings_applied ==> s.learnings_applied
    &&& goal.gpu_available ==> s.gpu_available
    &&& goal.api_keys_configured ==> s.api_keys_configured
    &&& goal.local_models_loaded ==> s.local_models_loaded
}

/// `s` with every fact of `effects` made true.
pub open spec fn apply_spec(s: WorldState, effects: WorldState) -> WorldState {
    WorldState {
        movie_decoded: s.movie_decoded || effects.movie_decoded,
        audio_timeline_extracted: s.audio_timeline_extracted || effects.audio_timeline_extracted,
        visual_gaps_identified: s.visual_gaps_identified || effects.visual_gaps_identified,
        narration_scripts_generated: s.narration_scripts_generated || effects.narration_scripts_generated,
        narrator_voice_synthesized: s.narrator_voice_synthesized || effects.narrator_voice_synthesized,
        radio_play_assembled: s.radio_play_assembled || effects.radio_play_assembled,
        quality_verified: s.quality_verified || effects.quality_verified,
        learnings_applied: s.learnings_applied || effects.learnings_applied,
        gpu_available: s.gpu_available || effects.gpu_available,
        api_keys_configured: s.api_keys_configured || effects.api_keys_configured,
        local_models_loaded: s.local_models_loaded || effects.local_models_loaded,
    }
}

pub open spec fn empty_state() -> WorldState {
    WorldState {
        movie_decoded: false,
        audio_timeline_extracted: false,
        visual_gaps_identified: false,
        narration_scripts_generated: false,
        narrator_voice_synthesized: false,
        radio_play_assembled: false,
        quality_verified: false,
        learnings_applied: false,
        gpu_available: false,
        api_keys_configured: false,
        local_models_loaded: false,
    }
}

impl Default for WorldState {
    fn default() -> (r: Self)
        ensures
            r == empty_state(),
    {
        WorldState {
            movie_decoded: false,
            audio_timeline_extracted: false,
            visual_gaps_identified: false,
            narration_scripts_generated: false,
            narrator_voice_synthesized: false,
            radio_play_assembled: false,
            quality_verified: false,
            learnings_applied: false,
            gpu_available: false,
            api_keys_configured: false,
            local_models_loaded: false,
        }
    }
}

impl WorldState {
    /// Whether every fact the goal asks for holds here.
    pub fn meets(&self, goal: &WorldState) -> (r: bool)
        ensures
            r == meets_spec(*self, *goal),
    {
        (!goal.movie_decoded || self.movie_decoded) && (!goal.audio_timeline_extracted
            || self.audio_timeline_extracted) && (!goal.visual_gaps_identified
            || self.visual_gaps_identified) && (!goal.narration_scripts_generated
            || self.narration_scripts_generated) && (!goal.narrator_voice_synthesized
            || self.narrator_voice_synthesized) && (!goal.radio_play_assembled
            || self.radio_play_assembled) && (!goal.quality_verified || self.quality_verified) && (
        !goal.learnings_applied || self.learnings_applied) && (!goal.gpu_available
            || self.gpu_available) && (!goal.api_keys_configured || self.api_keys_configured) && (
        !goal.local_models_loaded || self.local_models_loaded)
    }

    /// The state after an action with these effects: each fact the effects
    /// make true is set, the others stay as they were.
    pub fn apply_effects(&self, effects: &WorldState) -> (r: WorldState)
        ensures
            r == apply_spec(*self, *effects),
    {
        WorldState {
            movie_decoded: self.movie_decoded || effects.movie_decoded,
            audio_timeline_extracted: self.audio_timeline_extracted || effects.audio_timeline_extracted,
            visual_gaps_identified: self.visual_gaps_identified || effects.visual_gaps_identified,
            narration_scripts_generated: self.narration_scripts_generated || effects.narration_scripts_generated,
            narrator_voice_synthesized: self.narrator_voice_synthesized || effects.narrator_voice_synthesized,
            radio_play_assembled: self.radio_play_assembled || effects.radio_play_assembled,
            quality_verified: self.quality_verified || effects.quality_verified,
            learnings_applied: self.learnings_applied || effects.learnings_applied,
            gpu_available: self.gpu_available || effects.gpu_available,
            api_keys_configured: self.api_keys_configured || effects.api_keys_configured,
            local_models_loaded: self.local_models_loaded || effects.local_models_loaded,
        }
    }

    /// An action can run in this state when its preconditions are met.
    pub fn allows(&self, preconditions: &WorldState) -> (r: bool)
        ensures
            r == meets_spec(*self, *preconditions),
    {
        self.meets(preconditions)
    }
}

/// Every state meets itself.
pub proof fn lemma_meets_reflexive(s: WorldState)
    ensures
        meets_spec(s, s),
{
}

/// Meeting goals chains: a state that meets `b`, where `b` meets `c`, meets `c`.
pub proof fn lemma_meets_transitive(a: WorldState, b: WorldState, c: WorldState)
    requires
        meets_spec(a, b),
        meets_spec(b, c),
    ensures
        meets_spec(a, c),
{
}

/// The empty goal is met by every state.
pub proof fn lemma_empty_goal_met(s: WorldState)
    ensures
        meets_spec(s, empty_state()),
{
}

/// After an action, its effects hold and everything that held before still holds.
pub proof fn lemma_apply_meets_effects_and_keeps(s: WorldState, effects: WorldState)
    ensures
        meets_spec(apply_spec(s, effects), effects),
        meets_spec(apply_spec(s, effects), s),
{
}

/// Applying the same effects twice is the same as once.
pub proof fn lemma_apply_idempotent(s: WorldState, effects: WorldState)
    ensures
        apply_spec(apply_spec(s, effects), effects) == apply_spec(s, effects),
{
}

/// A state that already meets the effects is left unchanged.
pub proof fn lemma_apply_met_is_identity(s: WorldState, effects: WorldState)
    requires
        meets_spec(s, effects),
    ensures
        apply_spec(s, effects) == s,
{
}

/// Preconditions that held stay met after any action.
pub proof fn lemma_apply_keeps_goals(s: WorldState, effects: WorldState, goal: WorldState)
    requires
        meets_spec(s, goal),
    ensures
        meets_spec(apply_spec(s, effects), goal),
{
}

} // verus!

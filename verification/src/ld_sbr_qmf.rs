//! The integer side of spectral band replication in the subband domain: which
//! bands are copied where, how gains are limited and grouped, where noise and
//! tones go in each slot, and the fixed-point analysis bank of 64 bands.
pub mod alias;
pub mod analysis;
pub mod channel;
pub mod error;
pub mod layout;
pub mod limiter;
pub mod patches;
pub mod schedule;
pub mod slots;
pub mod tones;

pub use alias::{alias_degrees, alias_groups, alias_usable, AliasDegree};
pub use analysis::{cldfb64_fixed_slot, cldfb64_fixed_time};
pub use channel::{
    channel_settings, frame_channel, pvc_control, restart_ratio, shaped_segments, ChannelSettings, FrameChannel, ShapedSegment,
};
pub use error::{LdSbrProcessingError, QmfError};
pub use layout::{
    analysis_layout, attack_carries_over, check_subbands, pvc_borders, pvc_rate, scale_control, slot_count, synthesis_layout,
    usac_analysis_channels, AnalysisLayout, SynthesisLayout,
};
pub use limiter::derive_limiter_borders;
pub use patches::{
    closest_master, derive_patches, inverse_filter_target, patch_routes, PatchRoute, SbrPatch,
};
pub use schedule::{border_index, envelope_band, envelope_segments, slot_plan, EnvelopeSegment, SlotPlan};
pub use slots::{apply_patches, QmfSlot};
pub use tones::{
    harmonic_plan, next_noise_index, next_tone_phase, tone_leak, tone_rotation, HarmonicPlan, ToneLeak, ToneRotation,
};

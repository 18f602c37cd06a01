//! The synthesis filterbank: inverse transform, block switching windows and
//! overlap-add.
pub mod bank;
pub mod error;
pub mod laws;
pub mod plan;
pub mod route;
pub mod window;

pub use bank::{synthesize_aac_lc_frame_from_fixed_inverse_q31, synthesize_aac_lc_frame_q31, FixedLongBlockFilterbank};
pub use error::FilterbankError;
pub use plan::{imdct_planned_q31, FixedImdctPlan};
pub use route::{
    check_long_spectrum, check_short_spectra, frame_route, long_sine_frame_route, sine_frame_route, FrameRoute,
};
pub use window::{
    apply_sine_window_q31, block_switching_window, block_switching_window_q31, low_overlap_window, window_for_shape,
    window_for_shape_q31, Levels, ShapeWindows, WindowSet,
};

//! The trees of the difference codebooks.

pub mod env_level_10_t;
pub mod env_level_10_f;
pub mod env_balance_10_t;
pub mod env_balance_10_f;
pub mod env_level_11_t;
pub mod env_level_11_f;
pub mod env_balance_11_t;
pub mod env_balance_11_f;
pub mod noise_level_11_t;
pub mod noise_balance_11_t;

pub use env_level_10_t::ENV_LEVEL_10_T;
pub use env_level_10_f::ENV_LEVEL_10_F;
pub use env_balance_10_t::ENV_BALANCE_10_T;
pub use env_balance_10_f::ENV_BALANCE_10_F;
pub use env_level_11_t::ENV_LEVEL_11_T;
pub use env_level_11_f::ENV_LEVEL_11_F;
pub use env_balance_11_t::ENV_BALANCE_11_T;
pub use env_balance_11_f::ENV_BALANCE_11_F;
pub use noise_level_11_t::NOISE_LEVEL_11_T;
pub use noise_balance_11_t::NOISE_BALANCE_11_T;

//! Skill checks of a game, detected in frames of the screen and clicked in time.
//!
//! A frame is cropped around the widget ([`capture`]). Its pixels are looked up
//! in patterns ([`pixels`]), told apart by color ([`color`]) and swept for the
//! success zone and the needle ([`scan`]). The reading of a frame ([`reading`])
//! moves a state on ([`state`], [`skillcheck_logic`]), which follows the
//! needle's angle and speed ([`motion`]) and decides when to press the key
//! ([`input`]).
//!
//! Angles, ratios and speeds are IEEE 754 numbers, computed bit by bit
//! ([`rounding`], [`binary32`], [`binary64`]); how far roundings can take a
//! result is in [`accuracy`] and [`estimates`]. What holds of the whole is
//! stated in [`laws`].

pub mod accuracy;
pub mod angles;
pub mod binary32;
pub mod binary64;
pub mod bounds;
pub mod capture;
pub mod color;
pub mod config;
pub mod estimates;
pub mod input;
pub mod laws;
pub mod motion;
pub mod order;
pub mod params;
pub mod pixels;
pub mod reading;
pub mod rounding;
pub mod scan;
pub mod session;
pub mod skillcheck_logic;
pub mod state;
pub mod vulkan;

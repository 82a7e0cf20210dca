//! What holds of the whole, proved from the definitions that the contracts use.

pub mod accuracy;
pub mod answers;
pub mod colors;
pub mod crops;
pub mod devices;
pub mod edges;
pub mod fit;
pub mod frames;
pub mod motions;
pub mod numbers;
pub mod patterns;
pub mod runs;
pub mod searching;
pub mod sessions;
pub mod settings;
pub mod speed;
pub mod sweeps;
pub mod swinging;
pub mod tracking;
pub mod visibility;

//! Short-time Fourier analysis and synthesis over an editable spectral matrix.
//!
//! The crate verifies everything about the engine that is a matter of
//! integers: how a signal is padded and cut into overlapping windows, how
//! windows and columns are shared out among workers, where every cell and
//! every byte of a picture lies, how padded frames are laid out and undone,
//! and which samples every inverse-transformed window is added to.
//!
//! Real numbers never appear as such. A sample is the IEEE-754 binary32 bit
//! pattern of its value, held in a `u32`, and a matrix cell is a pair of such
//! patterns. Whatever has to be computed on the values themselves (tapering a
//! window, a Fourier transform, an addition, a logarithm) is handed in by the
//! caller as a function, and every contract says which arguments that
//! function was given and where its result went.

pub mod arith;
pub mod bits;
pub mod error;
pub mod settings;
pub mod matrix;
pub mod encoding;
pub mod import;
pub mod phase;
pub mod partition;
pub mod frame;
pub mod kernel;
pub mod forward;
pub mod inverse;
pub mod render;

pub use crate::bits::ComplexBits;
pub use crate::error::ConfigurationFault;
pub use crate::error::SpectrogramError;
pub use crate::matrix::SpectrogramImage;
pub use crate::settings::SpectrogramIntensityPlotSettings;
pub use crate::settings::SpectrogramPhasePlotSettings;
pub use crate::settings::SpectrogramSettings;

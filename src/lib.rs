//! Reading and writing the binary property-tree format in which mod settings
//! are stored, and the projection of that tree onto a flat, editable view.
//!
//! - [`types`]: the format version carried in the file header.
//! - [`codec`]: the recursive property tree and its byte encoding.
//! - [`simple`]: the three named sections of settings, as flat ordered maps.
//! - [`args`]: the command line, and how a missing mode or format is inferred.

pub mod args;
pub mod codec;
pub mod simple;
pub mod types;

pub use args::{
    extension_is, infer_args_format, infer_args_mode, parse_args, resolve_mode_and_format, Args,
    ArgsError, Format, Mode,
};
pub use codec::{
    dict_insert_entry, dict_lookup, loose_bool, loose_bool_byte, DecodeError, Property,
    PropertyValue, Settings,
};
pub use simple::{ColorChannel, ModSettings, ModSettingsValue, ProjectionError, SettingError};
pub use types::FactorioVersion;

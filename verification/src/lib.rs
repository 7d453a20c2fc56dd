//! JSON read straight into typed values and written straight out of them,
//! with every step of the byte-level work stated and proved.

pub mod error;
pub mod json;
pub mod keymap;
pub mod num;
pub mod options;
pub mod swar;
pub mod text;

pub use error::{Error, ErrorCode};
pub use json::{
    from_slice, from_slice_with, from_str, from_str_with, minify, minify_into, minify_into_with,
    minify_with, prettify, prettify_into, prettify_into_with, prettify_with, read_into,
    read_into_with, to_string, to_string_with, to_vec, to_vec_with, write_into, write_into_with,
};
pub use json::{Documents, Elements, Keys, Mode, ReadWrite, Same, Variants};
pub use keymap::KeyMap;
pub use options::{
    AllowComments, Options, Pretty, PrettyInlineArrays, RequireKeys, Settings, SkipNull,
    SkipUnknown, Standard,
};

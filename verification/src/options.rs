//! Read and write policies.
//!
//! A policy is a type whose settings decide how JSON is laid out and how
//! strictly it is read. The settings themselves are a plain value,
//! [`Settings`], which the reader and writer carry.
use vstd::prelude::*;

verus! {

/// The settings a policy chooses.
#[derive(Clone, Copy, Debug, PartialEq, Eq, Structural)]
pub struct Settings {
    /// Indent the output, one member or element per line.
    pub pretty: bool,
    /// Spaces per level of indentation.
    pub indent: usize,
    /// Under `pretty`, put each array element on a line of its own.
    pub new_lines_in_arrays: bool,
    /// Leave out object members whose value is null.
    pub skip_null: bool,
    /// Refuse an object key that no field claims.
    pub error_on_unknown_keys: bool,
    /// Refuse an object that leaves out a declared field.
    pub error_on_missing_keys: bool,
    /// Read `//` and `/* */` comments as whitespace.
    pub allow_comments: bool,
}

/// The defaults every policy starts from.
pub open spec fn default_settings() -> Settings {
    Settings {
        pretty: false,
        indent: 2,
        new_lines_in_arrays: true,
        skip_null: false,
        error_on_unknown_keys: true,
        error_on_missing_keys: false,
        allow_comments: false,
    }
}

/// A policy: a type naming one [`Settings`] value.
pub trait Options {
    spec fn spec_settings() -> Settings;

    fn settings() -> (s: Settings)
        ensures
            s == Self::spec_settings(),
    ;
}

/// Compact output, unknown keys refused.
#[derive(Clone, Copy, Debug, Default, PartialEq, Eq)]
pub struct Standard;

/// Indented output.
#[derive(Clone, Copy, Debug, Default, PartialEq, Eq)]
pub struct Pretty;

/// Indented output with each array kept on the line it began on.
#[derive(Clone, Copy, Debug, Default, PartialEq, Eq)]
pub struct PrettyInlineArrays;

/// Null members left out of objects.
#[derive(Clone, Copy, Debug, Default, PartialEq, Eq)]
pub struct SkipNull;

/// Unknown keys stepped over rather than refused.
#[derive(Clone, Copy, Debug, Default, PartialEq, Eq)]
pub struct SkipUnknown;

/// Every declared key required.
#[derive(Clone, Copy, Debug, Default, PartialEq, Eq)]
pub struct RequireKeys;

/// Comments read as whitespace.
#[derive(Clone, Copy, Debug, Default, PartialEq, Eq)]
pub struct AllowComments;

pub fn standard_settings() -> (s: Settings)
    ensures
        s == default_settings(),
{
    Settings {
        pretty: false,
        indent: 2,
        new_lines_in_arrays: true,
        skip_null: false,
        error_on_unknown_keys: true,
        error_on_missing_keys: false,
        allow_comments: false,
    }
}

impl Options for Standard {
    open spec fn spec_settings() -> Settings {
        default_settings()
    }

    fn settings() -> (s: Settings) {
        standard_settings()
    }
}

impl Options for Pretty {
    open spec fn spec_settings() -> Settings {
        Settings { pretty: true, ..default_settings() }
    }

    fn settings() -> (s: Settings) {
        let mut s = standard_settings();
        s.pretty = true;
        s
    }
}

impl Options for PrettyInlineArrays {
    open spec fn spec_settings() -> Settings {
        Settings { pretty: true, new_lines_in_arrays: false, ..default_settings() }
    }

    fn settings() -> (s: Settings) {
        let mut s = standard_settings();
        s.pretty = true;
        s.new_lines_in_arrays = false;
        s
    }
}

impl Options for SkipNull {
    open spec fn spec_settings() -> Settings {
        Settings { skip_null: true, ..default_settings() }
    }

    fn settings() -> (s: Settings) {
        let mut s = standard_settings();
        s.skip_null = true;
        s
    }
}

impl Options for SkipUnknown {
    open spec fn spec_settings() -> Settings {
        Settings { error_on_unknown_keys: false, ..default_settings() }
    }

    fn settings() -> (s: Settings) {
        let mut s = standard_settings();
        s.error_on_unknown_keys = false;
        s
    }
}

impl Options for RequireKeys {
    open spec fn spec_settings() -> Settings {
        Settings { error_on_missing_keys: true, ..default_settings() }
    }

    fn settings() -> (s: Settings) {
        let mut s = standard_settings();
        s.error_on_missing_keys = true;
        s
    }
}

impl Options for AllowComments {
    open spec fn spec_settings() -> Settings {
        Settings { allow_comments: true, ..default_settings() }
    }

    fn settings() -> (s: Settings) {
        let mut s = standard_settings();
        s.allow_comments = true;
        s
    }
}

} // verus!

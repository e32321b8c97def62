//! Sample configurations for trying the library out.
//!
//! Each function gives the text of a configuration file. Writing it into a
//! repository is left to the caller.

use vstd::prelude::*;
use vstd::string::StringExecFns;

verus! {

/// A configuration that names one commit type.
pub const TYPES_ONLY_CONFIG: &'static str = r#"
                [types]
                foo = "bar"
                "#;

/// A configuration that names one commit scope.
pub const SCOPES_ONLY_CONFIG: &'static str = r#"
                [scopes]
                foz = "baz"
                "#;

/// The text of a configuration with commit types only.
pub fn mk_config_with_types_only() -> (r: String)
    ensures
        r@ == TYPES_ONLY_CONFIG@,
{
    TYPES_ONLY_CONFIG.to_owned()
}

/// The text of a configuration with commit scopes only.
pub fn mk_config_with_scopes_only() -> (r: String)
    ensures
        r@ == SCOPES_ONLY_CONFIG@,
{
    SCOPES_ONLY_CONFIG.to_owned()
}

/// The text of a configuration with commit types and commit scopes: the
/// types first, the scopes after them.
pub fn mk_config_full() -> (r: String)
    ensures
        r@ == TYPES_ONLY_CONFIG@ + SCOPES_ONLY_CONFIG@,
{
    TYPES_ONLY_CONFIG.to_owned().concat(SCOPES_ONLY_CONFIG)
}

} // verus!

//! When to color the output: the policy from the command line or the configuration, and
//! for `auto` the environment and whether standard output is a terminal.
use vstd::prelude::*;

use std::collections::HashMap;

use crate::text::{chars_eq, chars_of};

verus! {

broadcast use vstd::string::group_string_axioms;

/// `auto` decides from the environment; `always` and `never` decide alone.
#[derive(Clone, Copy, Debug, PartialEq, Eq, Structural)]
pub enum ColorPolicy {
    Auto,
    Always,
    Never,
}

/// The value of the environment variable named `key`, if it is set.
pub open spec fn env_lookup(env: Map<String, String>, key: Seq<char>) -> Option<Seq<char>> {
    if exists|k: String| env.contains_key(k) && k@ == key {
        Some(env[choose|k: String| env.contains_key(k) && k@ == key]@)
    } else {
        None
    }
}

/// Whether output is colored: `always` and `never` decide alone; under `auto`, `NO_COLOR`
/// set, `CLICOLOR=0` or `TERM=dumb` turn color off, then `CLICOLOR_FORCE=1` or
/// `FORCE_COLOR=1` turn it on, and otherwise a terminal on standard output does.
pub open spec fn color_enabled(policy: ColorPolicy, stdout_is_tty: bool, env: Map<String, String>) -> bool {
    match policy {
        ColorPolicy::Always => true,
        ColorPolicy::Never => false,
        ColorPolicy::Auto => {
            if env_lookup(env, "NO_COLOR"@) is Some {
                false
            } else if env_lookup(env, "CLICOLOR"@) == Some("0"@) {
                false
            } else if env_lookup(env, "TERM"@) == Some("dumb"@) {
                false
            } else if env_lookup(env, "CLICOLOR_FORCE"@) == Some("1"@) {
                true
            } else if env_lookup(env, "FORCE_COLOR"@) == Some("1"@) {
                true
            } else {
                stdout_is_tty
            }
        },
    }
}

/// `HashMap::get` with a string key, the value copied out. The key's string decides which
/// entry is found, as `Eq` and `Hash` of `String` go by its characters.
#[verifier::external_body]
fn env_get(env: &HashMap<String, String>, key: &str) -> (r: Option<String>)
    ensures
        match r {
            Some(v) => env_lookup(env@, key@) == Some(v@),
            None => env_lookup(env@, key@) is None,
        },
{
    env.get(key).cloned()
}

/// Whether the variable `key` is set to exactly `value`.
fn env_is(env: &HashMap<String, String>, key: &str, value: &str) -> (r: bool)
    ensures
        r == (env_lookup(env@, key@) == Some(value@)),
{
    match env_get(env, key) {
        Some(v) => chars_eq(&chars_of(v.as_str()), &chars_of(value)),
        None => false,
    }
}

impl ColorPolicy {
    /// Whether output is colored, given whether standard output is a terminal and the
    /// environment.
    pub fn enabled_with(self, stdout_is_tty: bool, env: &HashMap<String, String>) -> (r: bool)
        ensures
            r == color_enabled(self, stdout_is_tty, env@),
    {
        match self {
            ColorPolicy::Always => {
                return true;
            },
            ColorPolicy::Never => {
                return false;
            },
            ColorPolicy::Auto => {},
        }
        if env_get(env, "NO_COLOR").is_some() {
            return false;
        }
        if env_is(env, "CLICOLOR", "0") {
            return false;
        }
        if env_is(env, "TERM", "dumb") {
            return false;
        }
        if env_is(env, "CLICOLOR_FORCE", "1") {
            return true;
        }
        if env_is(env, "FORCE_COLOR", "1") {
            return true;
        }
        stdout_is_tty
    }
}

} // verus!

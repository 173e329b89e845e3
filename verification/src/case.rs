//! `case`: converts a text to upper or lower case.
use vstd::prelude::*;

use crate::text::eq_lit;

verus! {

/// The uppercase equivalent of a text, as std's `str::to_uppercase`
/// computes it from the text alone (by Unicode's case mappings).
pub uninterp spec fn upper_case(s: Seq<char>) -> Seq<char>;

/// The lowercase equivalent of a text, as std's `str::to_lowercase`
/// computes it from the text alone (by Unicode's case mappings).
pub uninterp spec fn lower_case(s: Seq<char>) -> Seq<char>;

/// Calls std's `str::to_uppercase`; its result is named `upper_case` (the
/// Unicode case tables are not restated here).
#[verifier::external_body]
fn to_upper(s: &str) -> (r: String)
    ensures
        r@ == upper_case(s@),
{
    s.to_uppercase()
}

/// Calls std's `str::to_lowercase`; its result is named `lower_case` (the
/// Unicode case tables are not restated here).
#[verifier::external_body]
fn to_lower(s: &str) -> (r: String)
    ensures
        r@ == lower_case(s@),
{
    s.to_lowercase()
}

/// The text in upper case for mode 0, and in lower case for any other
/// mode.
pub fn change_case(text: String, mode: u8) -> (r: String)
    ensures
        r@ == if mode == 0 {
            upper_case(text@)
        } else {
            lower_case(text@)
        },
{
    if mode == 0 {
        to_upper(text.as_str())
    } else {
        to_lower(text.as_str())
    }
}

// ------------------------------------------------------------------------
// Command line
// ------------------------------------------------------------------------

/// Why the command line is refused.
#[derive(Debug, Clone, Copy, PartialEq, Eq)]
pub enum CaseArgError {
    /// More than one switch was given.
    TooManySwitches,
    /// The switch is not one of the tool's.
    UnknownSwitch,
    /// The switch was given a value.
    ValueNotAccepted,
    /// There is neither a file name nor piped input.
    NoInput,
}

/// Switches that ask for lower case.
pub open spec fn asks_lower(s: Seq<char>) -> bool {
    s == "l"@ || s == "lr"@ || s == "low"@ || s == "lower"@ || s == "lowercase"@
}

/// Switches that ask for upper case.
pub open spec fn asks_upper(s: Seq<char>) -> bool {
    s == "u"@ || s == "up"@ || s == "upper"@ || s == "uppercase"@
}

/// What the command line amounts to: the mode, 0 for upper case and 1 for lower
/// case.
pub open spec fn case_args(
    swcs: Seq<String>,
    vals: Seq<String>,
    n_opts: nat,
    stdin_is_terminal: bool,
) -> Result<u8, CaseArgError> {
    if swcs.len() > 1 {
        Err(CaseArgError::TooManySwitches)
    } else {
        let s = swcs[0]@;
        if !(asks_lower(s) || asks_upper(s)) {
            Err(CaseArgError::UnknownSwitch)
        } else if vals[0]@.len() != 0 {
            Err(CaseArgError::ValueNotAccepted)
        } else if n_opts == 0 && stdin_is_terminal {
            Err(CaseArgError::NoInput)
        } else if asks_lower(s) {
            Ok(1)
        } else {
            Ok(0)
        }
    }
}

/// Checks the switch, its value and the input sources; on success, gives
/// the mode.  Exactly one switch is read; without one there is nothing to
/// read.
pub fn parse_case_args(
    swcs: &Vec<String>,
    vals: &Vec<String>,
    n_opts: usize,
    stdin_is_terminal: bool,
) -> (r: Result<u8, CaseArgError>)
    requires
        swcs.len() > 1 || (swcs.len() == 1 && vals.len() >= 1),
    ensures
        r == case_args(swcs@, vals@, n_opts as nat, stdin_is_terminal),
{
    if swcs.len() > 1 {
        return Err(CaseArgError::TooManySwitches);
    }
    let s = &swcs[0];
    let v = &vals[0];
    let lower = eq_lit(s, "l") || eq_lit(s, "lr") || eq_lit(s, "low") || eq_lit(s, "lower")
        || eq_lit(s, "lowercase");
    let upper = eq_lit(s, "u") || eq_lit(s, "up") || eq_lit(s, "upper") || eq_lit(
        s,
        "uppercase",
    );
    if !(lower || upper) {
        return Err(CaseArgError::UnknownSwitch);
    }
    if !v.as_str().is_empty() {
        return Err(CaseArgError::ValueNotAccepted);
    }
    if n_opts == 0 && stdin_is_terminal {
        return Err(CaseArgError::NoInput);
    }
    if lower {
        Ok(1)
    } else {
        Ok(0)
    }
}

} // verus!

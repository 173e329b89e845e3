//! `cut`: reads how a text is to be cut, and reports the text it was given.
use vstd::prelude::*;

use crate::text::{eq_lit, parse_uint, parse_unsigned, IntErrorKind};

verus! {

/// The report printed for each text: a fixed sentence followed by the text.
pub fn do_the_magic(
    text: &str,
    separator: &String,
    replace: &Option<String>,
    step: Option<usize>,
) -> (r: String)
    ensures
        r@ == "Doing the magic for the text: "@ + text@,
{
    let mut r = String::from_str("Doing the magic for the text: ");
    r.append(text);
    r
}

// ------------------------------------------------------------------------
// Command line
// ------------------------------------------------------------------------

/// How the text is to be cut.
pub struct CutOptions {
    /// The separator (a single space unless a switch sets it).
    pub separator: String,
    /// The replacement, if one is given.
    pub replace: Option<String>,
    /// The step, if one is given.
    pub step: Option<usize>,
}

/// Why the command line is refused.
#[derive(Debug, Clone, Copy, PartialEq, Eq)]
pub enum CutArgError {
    /// The switch at this position is not one of the tool's.
    UnknownSwitch(usize),
    /// The switch at this position has no value.
    ValueRequired(usize),
    /// The step at this position is not a number.
    BadStep(usize, IntErrorKind),
    /// Neither a replacement nor a step was given.
    NothingToDo,
    /// There is neither a file name nor piped input.
    NoInput,
}

pub open spec fn is_separator(s: Seq<char>) -> bool {
    s == "s"@ || s == "sep"@ || s == "separator"@
}

pub open spec fn is_replace(s: Seq<char>) -> bool {
    s == "r"@ || s == "rep"@ || s == "replace"@
}

pub open spec fn is_step(s: Seq<char>) -> bool {
    s == "x"@ || s == "step"@
}

/// The view of an optional string.
pub open spec fn opt_view(o: Option<String>) -> Option<Seq<char>> {
    match o {
        Some(s) => Some(s@),
        None => None,
    }
}

/// The settings read so far: separator, replacement and step.
pub type CutSettings = (Seq<char>, Option<Seq<char>>, Option<nat>);

/// Reads the switches from the `k`-th on over the settings read so far;
/// a later switch overrides an earlier one of its kind.
pub open spec fn cut_scan(swcs: Seq<String>, vals: Seq<String>, k: nat, acc: CutSettings) -> Result<
    CutSettings,
    CutArgError,
>
    decreases swcs.len() - k,
{
    if k >= swcs.len() {
        Ok(acc)
    } else {
        let s = swcs[k as int]@;
        let v = vals[k as int]@;
        if !(is_separator(s) || is_replace(s) || is_step(s)) {
            Err(CutArgError::UnknownSwitch(k as usize))
        } else if v.len() == 0 {
            Err(CutArgError::ValueRequired(k as usize))
        } else if is_separator(s) {
            cut_scan(swcs, vals, k + 1, (v, acc.1, acc.2))
        } else if is_replace(s) {
            cut_scan(swcs, vals, k + 1, (acc.0, Some(v), acc.2))
        } else {
            match parse_uint(v, usize::MAX as nat) {
                Err(e) => Err(CutArgError::BadStep(k as usize, e)),
                Ok(n) => cut_scan(swcs, vals, k + 1, (acc.0, acc.1, Some(n))),
            }
        }
    }
}

/// What the command line amounts to.
pub open spec fn cut_args(
    swcs: Seq<String>,
    vals: Seq<String>,
    n_opts: nat,
    stdin_is_terminal: bool,
) -> Result<CutSettings, CutArgError> {
    match cut_scan(swcs, vals, 0, (seq![' '], None, None)) {
        Err(e) => Err(e),
        Ok(a) => if a.2 is None && a.1 is None {
            Err(CutArgError::NothingToDo)
        } else if n_opts == 0 && stdin_is_terminal {
            Err(CutArgError::NoInput)
        } else {
            Ok(a)
        },
    }
}

pub open spec fn step_view(o: Option<usize>) -> Option<nat> {
    match o {
        Some(n) => Some(n as nat),
        None => None,
    }
}

/// Checks the switches, their values and the input sources; on success,
/// gives how the text is to be cut.
pub fn parse_cut_args(
    swcs: &Vec<String>,
    vals: &Vec<String>,
    n_opts: usize,
    stdin_is_terminal: bool,
) -> (r: Result<CutOptions, CutArgError>)
    requires
        vals.len() >= swcs.len(),
    ensures
        match cut_args(swcs@, vals@, n_opts as nat, stdin_is_terminal) {
            Ok(a) => r matches Ok(o) && (o.separator@, opt_view(o.replace), step_view(o.step))
                == a,
            Err(e) => r matches Err(e2) && e2 == e,
        },
{
    let mut separator = String::from_str(" ");
    let mut replace: Option<String> = None;
    let mut step: Option<usize> = None;
    proof {
        reveal_strlit(" ");
    }
    assert(separator@ =~= seq![' ']);
    let mut k: usize = 0;
    while k < swcs.len()
        invariant
            k <= swcs.len(),
            vals.len() >= swcs.len(),
            cut_scan(swcs@, vals@, 0, (seq![' '], None, None)) == cut_scan(
                swcs@,
                vals@,
                k as nat,
                (separator@, opt_view(replace), step_view(step)),
            ),
        decreases swcs.len() - k,
    {
        let s = &swcs[k];
        let v = &vals[k];
        let sep = eq_lit(s, "s") || eq_lit(s, "sep") || eq_lit(s, "separator");
        let rep = eq_lit(s, "r") || eq_lit(s, "rep") || eq_lit(s, "replace");
        let stp = eq_lit(s, "x") || eq_lit(s, "step");
        if !(sep || rep || stp) {
            return Err(CutArgError::UnknownSwitch(k));
        }
        if v.as_str().is_empty() {
            return Err(CutArgError::ValueRequired(k));
        }
        if sep {
            separator = v.clone();
        } else if rep {
            replace = Some(v.clone());
        } else {
            match parse_unsigned(v.as_str(), usize::MAX) {
                Err(e) => {
                    return Err(CutArgError::BadStep(k, e));
                },
                Ok(n) => {
                    step = Some(n);
                },
            }
        }
        k += 1;
    }
    if step.is_none() && replace.is_none() {
        return Err(CutArgError::NothingToDo);
    }
    if n_opts == 0 && stdin_is_terminal {
        return Err(CutArgError::NoInput);
    }
    Ok(CutOptions { separator, replace, step })
}

} // verus!

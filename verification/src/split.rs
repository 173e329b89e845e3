//! `split`: copies piped input to the terminal and to files.
use vstd::prelude::*;

use crate::text::eq_lit;

verus! {

/// How the files are written.
#[derive(Debug, Clone, Copy, PartialEq, Eq)]
pub struct TeeOptions {
    /// Append to existing files (otherwise they are emptied first).
    pub update_if_exists: bool,
    /// Ask before changing a file that exists.
    pub ask: bool,
}

/// Why the command line is refused.
#[derive(Debug, Clone, Copy, PartialEq, Eq)]
pub enum TeeArgError {
    /// No file name was given.
    NoFiles,
    /// A switch was given a value.
    ValueNotAccepted,
    /// The switch at this position is not one of the tool's.
    UnknownSwitch(usize),
    /// Nothing is piped in.
    NoPipe,
}

pub open spec fn is_ask(s: Seq<char>) -> bool {
    s == "a"@ || s == "ask"@
}

pub open spec fn is_update(s: Seq<char>) -> bool {
    s == "u"@ || s == "update"@
}

pub open spec fn is_overwrite(s: Seq<char>) -> bool {
    s == "o"@ || s == "overwrite"@
}

/// Reads the switches from the `k`-th on over the options read so far; a
/// later `update` or `overwrite` overrides an earlier one.
pub open spec fn tee_scan(swcs: Seq<String>, k: nat, acc: TeeOptions) -> Result<
    TeeOptions,
    TeeArgError,
>
    decreases swcs.len() - k,
{
    if k >= swcs.len() {
        Ok(acc)
    } else {
        let s = swcs[k as int]@;
        if !(is_ask(s) || is_update(s) || is_overwrite(s)) {
            Err(TeeArgError::UnknownSwitch(k as usize))
        } else if is_ask(s) {
            tee_scan(swcs, k + 1, TeeOptions { ask: true, ..acc })
        } else if is_update(s) {
            tee_scan(swcs, k + 1, TeeOptions { update_if_exists: true, ..acc })
        } else {
            tee_scan(swcs, k + 1, TeeOptions { update_if_exists: false, ..acc })
        }
    }
}

/// What the command line amounts to: file names are needed, values are refused,
/// then unknown switches, then input that is not piped.
pub open spec fn tee_args(
    swcs: Seq<String>,
    vals: Seq<String>,
    n_opts: nat,
    stdin_is_terminal: bool,
) -> Result<TeeOptions, TeeArgError> {
    if n_opts == 0 {
        Err(TeeArgError::NoFiles)
    } else if exists|i: int| 0 <= i < vals.len() && #[trigger] vals[i]@.len() != 0 {
        Err(TeeArgError::ValueNotAccepted)
    } else {
        match tee_scan(swcs, 0, TeeOptions { update_if_exists: true, ask: false }) {
            Err(e) => Err(e),
            Ok(o) => if stdin_is_terminal {
                Err(TeeArgError::NoPipe)
            } else {
                Ok(o)
            },
        }
    }
}

/// Checks the file names, the switches and their values, and the input.
pub fn parse_tee_args(
    swcs: &Vec<String>,
    vals: &Vec<String>,
    n_opts: usize,
    stdin_is_terminal: bool,
) -> (r: Result<TeeOptions, TeeArgError>)
    ensures
        r == tee_args(swcs@, vals@, n_opts as nat, stdin_is_terminal),
{
    if n_opts == 0 {
        return Err(TeeArgError::NoFiles);
    }
    let mut i: usize = 0;
    while i < vals.len()
        invariant
            i <= vals.len(),
            n_opts > 0,
            forall|j: int| 0 <= j < i ==> #[trigger] vals@[j]@.len() == 0,
        decreases vals.len() - i,
    {
        if !vals[i].as_str().is_empty() {
            return Err(TeeArgError::ValueNotAccepted);
        }
        i += 1;
    }
    let mut acc = TeeOptions { update_if_exists: true, ask: false };
    let mut k: usize = 0;
    while k < swcs.len()
        invariant
            k <= swcs.len(),
            n_opts > 0,
            forall|j: int| 0 <= j < vals.len() ==> #[trigger] vals@[j]@.len() == 0,
            tee_scan(swcs@, 0, TeeOptions { update_if_exists: true, ask: false }) == tee_scan(
                swcs@,
                k as nat,
                acc,
            ),
        decreases swcs.len() - k,
    {
        let s = &swcs[k];
        let ask = eq_lit(s, "a") || eq_lit(s, "ask");
        let update = eq_lit(s, "u") || eq_lit(s, "update");
        let overwrite = eq_lit(s, "o") || eq_lit(s, "overwrite");
        if !(ask || update || overwrite) {
            return Err(TeeArgError::UnknownSwitch(k));
        }
        if ask {
            acc = TeeOptions { ask: true, ..acc };
        } else if update {
            acc = TeeOptions { update_if_exists: true, ..acc };
        } else {
            acc = TeeOptions { update_if_exists: false, ..acc };
        }
        k += 1;
    }
    if stdin_is_terminal {
        return Err(TeeArgError::NoPipe);
    }
    Ok(acc)
}

/// Whether the user is asked before a file is changed: only for a file
/// that exists, and only when asking is on.
pub fn needs_confirmation(file_exists: bool, options: TeeOptions) -> (b: bool)
    ensures
        b == (file_exists && options.ask),
{
    file_exists && options.ask
}

/// Whether a file is emptied before the copy starts: when it may be
/// changed and existing contents are not kept.
pub fn empties_first(may_change: bool, options: TeeOptions) -> (b: bool)
    ensures
        b == (may_change && !options.update_if_exists),
{
    may_change && !options.update_if_exists
}

} // verus!

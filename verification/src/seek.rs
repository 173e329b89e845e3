//! `seek`: follows a file as it grows and prints each line that is added.
use vstd::prelude::*;

use crate::text::{char_seqs, eq_lit, lines, lines_of, string_of};

verus! {

/// One look at the file: `seen` is the number of lines known so far and
/// `text` the file's contents now.  When the file has more lines, they
/// become the number known, and the last line is printed unless none were
/// known before.
pub open spec fn seek_next(seen: nat, text: Seq<char>) -> (nat, Option<Seq<char>>) {
    let ls = lines_of(text);
    if seen < ls.len() {
        (
            ls.len(),
            if seen != 0 {
                Some(ls.last())
            } else {
                None
            },
        )
    } else {
        (seen, None)
    }
}

/// The number of known lines never goes down: after a look it is the
/// larger of the number known before and the number the file has.
pub proof fn lemma_seek_count_grows(seen: nat, text: Seq<char>)
    ensures
        seek_next(seen, text).0 >= seen,
        seek_next(seen, text).0 >= lines_of(text).len(),
        seek_next(seen, text).0 == seen || seek_next(seen, text).0 == lines_of(text).len(),
{
}

/// A look at contents that have no more lines than already known prints
/// nothing and changes nothing.
pub proof fn lemma_seek_quiet_without_growth(seen: nat, text: Seq<char>)
    requires
        lines_of(text).len() <= seen,
    ensures
        seek_next(seen, text) == (seen, None::<Seq<char>>),
{
}

/// When the file has gained lines and some were known before, the line
/// printed is the file's last line; when none were known, nothing is
/// printed.
pub proof fn lemma_seek_prints_last_line(seen: nat, text: Seq<char>)
    requires
        seen < lines_of(text).len(),
    ensures
        seek_next(seen, text).0 == lines_of(text).len(),
        seen > 0 ==> seek_next(seen, text).1 == Some(
            lines_of(text)[lines_of(text).len() - 1],
        ),
        seen == 0 ==> seek_next(seen, text).1 is None,
{
}

/// Takes one look at the file's contents: gives the number of lines now
/// known and the line to print, if any.
pub fn seek_step(seen: usize, text: &str) -> (r: (usize, Option<String>))
    ensures
        r.0 == seek_next(seen as nat, text@).0,
        match seek_next(seen as nat, text@).1 {
            Some(l) => r.1 matches Some(s) && s@ == l,
            None => r.1 is None,
        },
{
    let ls = lines(text);
    let n = ls.len();
    assert(char_seqs(ls@).len() == n);
    if seen < n {
        if seen != 0 {
            let last = string_of(&ls[n - 1]);
            assert(char_seqs(ls@).last() == ls@[n - 1]@);
            (n, Some(last))
        } else {
            (n, None)
        }
    } else {
        (seen, None)
    }
}

// ------------------------------------------------------------------------
// Command line
// ------------------------------------------------------------------------

/// How the file is followed.
#[derive(Debug, Clone, Copy, PartialEq, Eq)]
pub struct SeekOptions {
    /// Print the whole file before following it.
    pub show_all: bool,
    /// The position of the switch whose value is the pause between looks,
    /// if one is given.
    pub sleep_at: Option<usize>,
}

/// Why the command line is refused.
#[derive(Debug, Clone, Copy, PartialEq, Eq)]
pub enum SeekArgError {
    /// The switch at this position is not one of the tool's.
    UnknownSwitch(usize),
    /// The switch at this position was given a value it does not take.
    ValueNotAccepted(usize),
    /// The pause at this position is not a number.
    BadSleep(usize),
    /// There is neither a file name nor piped input.
    NoSource,
    /// There is more than one source.
    TooManySources,
}

pub open spec fn is_full(s: Seq<char>) -> bool {
    s == "f"@ || s == "full"@
}

pub open spec fn is_last(s: Seq<char>) -> bool {
    s == "l"@ || s == "last"@
}

pub open spec fn is_sleep(s: Seq<char>) -> bool {
    s == "s"@ || s == "sleep"@
}

/// Reads the switches from the `k`-th on over the options read so far;
/// `number_ok[k]` tells whether the `k`-th value reads as a number.
pub open spec fn seek_scan(
    swcs: Seq<String>,
    vals: Seq<String>,
    number_ok: Seq<bool>,
    k: nat,
    acc: SeekOptions,
) -> Result<SeekOptions, SeekArgError>
    decreases swcs.len() - k,
{
    if k >= swcs.len() {
        Ok(acc)
    } else {
        let s = swcs[k as int]@;
        let v = vals[k as int]@;
        if !(is_full(s) || is_last(s) || is_sleep(s)) {
            if v.len() != 0 {
                Err(SeekArgError::ValueNotAccepted(k as usize))
            } else {
                Err(SeekArgError::UnknownSwitch(k as usize))
            }
        } else if is_full(s) {
            if v.len() != 0 {
                Err(SeekArgError::ValueNotAccepted(k as usize))
            } else {
                seek_scan(swcs, vals, number_ok, k + 1, SeekOptions { show_all: true, ..acc })
            }
        } else if is_last(s) {
            seek_scan(swcs, vals, number_ok, k + 1, SeekOptions { show_all: false, ..acc })
        } else if !number_ok[k as int] {
            Err(SeekArgError::BadSleep(k as usize))
        } else {
            seek_scan(
                swcs,
                vals,
                number_ok,
                k + 1,
                SeekOptions { sleep_at: Some(k as usize), ..acc },
            )
        }
    }
}

/// Checks the switches and their values; `number_ok[k]` tells whether the
/// `k`-th value reads as a number of seconds.
pub fn parse_seek_args(swcs: &Vec<String>, vals: &Vec<String>, number_ok: &Vec<bool>) -> (r:
    Result<SeekOptions, SeekArgError>)
    requires
        vals.len() >= swcs.len(),
        number_ok.len() >= swcs.len(),
    ensures
        r == seek_scan(
            swcs@,
            vals@,
            number_ok@,
            0,
            SeekOptions { show_all: true, sleep_at: None },
        ),
{
    let mut acc = SeekOptions { show_all: true, sleep_at: None };
    let mut k: usize = 0;
    while k < swcs.len()
        invariant
            k <= swcs.len(),
            vals.len() >= swcs.len(),
            number_ok.len() >= swcs.len(),
            seek_scan(swcs@, vals@, number_ok@, 0, SeekOptions { show_all: true, sleep_at: None })
                == seek_scan(swcs@, vals@, number_ok@, k as nat, acc),
        decreases swcs.len() - k,
    {
        let s = &swcs[k];
        let has_value = !vals[k].as_str().is_empty();
        let full = eq_lit(s, "f") || eq_lit(s, "full");
        let last = eq_lit(s, "l") || eq_lit(s, "last");
        let sleep = eq_lit(s, "s") || eq_lit(s, "sleep");
        if !(full || last || sleep) {
            if has_value {
                return Err(SeekArgError::ValueNotAccepted(k));
            }
            return Err(SeekArgError::UnknownSwitch(k));
        }
        if full {
            if has_value {
                return Err(SeekArgError::ValueNotAccepted(k));
            }
            acc = SeekOptions { show_all: true, ..acc };
        } else if last {
            acc = SeekOptions { show_all: false, ..acc };
        } else {
            if !number_ok[k] {
                return Err(SeekArgError::BadSleep(k));
            }
            acc = SeekOptions { sleep_at: Some(k), ..acc };
        }
        k += 1;
    }
    Ok(acc)
}

/// Where the tool reads from.
#[derive(Debug, Clone, Copy, PartialEq, Eq)]
pub enum SeekSource {
    /// Piped input.
    Pipe,
    /// The one file named on the command line.
    File,
}

/// Which source is read: exactly one of a file name and piped input.
pub open spec fn seek_source_of(n_opts: nat, stdin_is_terminal: bool) -> Result<
    SeekSource,
    SeekArgError,
> {
    if n_opts == 0 && stdin_is_terminal {
        Err(SeekArgError::NoSource)
    } else if (n_opts != 0 && !stdin_is_terminal) || n_opts > 1 {
        Err(SeekArgError::TooManySources)
    } else if !stdin_is_terminal {
        Ok(SeekSource::Pipe)
    } else {
        Ok(SeekSource::File)
    }
}

/// Picks the one source to follow.
pub fn seek_source(n_opts: usize, stdin_is_terminal: bool) -> (r: Result<SeekSource, SeekArgError>)
    ensures
        r == seek_source_of(n_opts as nat, stdin_is_terminal),
{
    if n_opts == 0 && stdin_is_terminal {
        Err(SeekArgError::NoSource)
    } else if (n_opts != 0 && !stdin_is_terminal) || n_opts > 1 {
        Err(SeekArgError::TooManySources)
    } else if !stdin_is_terminal {
        Ok(SeekSource::Pipe)
    } else {
        Ok(SeekSource::File)
    }
}

} // verus!

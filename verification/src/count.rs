//! `count`: numbers the lines of a text, and counts its lines and its
//! characters.
use vstd::prelude::*;

use crate::text::{
    is_digit, lemma_decimal_parses, lemma_decimal_shape, parse_uint, IntErrorKind,
    chars_of, char_seqs, decimal, eq_lit, lemma_decimal_no_newline, lemma_lines_no_newline,
    lemma_occurrences_add, lemma_occurrences_single, lines, lines_of, occurrences, push_char, push_chars, push_decimal,
};

verus! {

/// Each line preceded by its number (from 1), a colon and a space, and
/// followed by a newline.
pub open spec fn numbered(ls: Seq<Seq<char>>) -> Seq<char>
    decreases ls.len(),
{
    if ls.len() == 0 {
        Seq::<char>::empty()
    } else {
        numbered(ls.drop_last()) + decimal(ls.len()) + seq![':', ' '] + ls.last() + seq!['\n']
    }
}

proof fn lemma_numbered_newlines(ls: Seq<Seq<char>>)
    requires
        forall|j: int| 0 <= j < ls.len() ==> occurrences(#[trigger] ls[j], '\n') == 0,
    ensures
        occurrences(numbered(ls), '\n') == ls.len(),
    decreases ls.len(),
{
    if ls.len() > 0 {
        let init = ls.drop_last();
        assert forall|j: int| 0 <= j < init.len() implies occurrences(#[trigger] init[j], '\n')
            == 0 by {
            assert(init[j] == ls[j]);
        }
        lemma_numbered_newlines(init);
        let a = numbered(init);
        let b = decimal(ls.len());
        let c: Seq<char> = seq![':', ' '];
        let d = ls.last();
        let e: Seq<char> = seq!['\n'];
        lemma_decimal_no_newline(ls.len());
        lemma_occurrences_add(a, b, '\n');
        lemma_occurrences_add(a + b, c, '\n');
        lemma_occurrences_add(a + b + c, d, '\n');
        lemma_occurrences_add(a + b + c + d, e, '\n');
        lemma_occurrences_single(':', '\n');
        lemma_occurrences_single(' ', '\n');
        lemma_occurrences_single('\n', '\n');
        assert(c =~= seq![':'] + seq![' ']);
        lemma_occurrences_add(seq![':'], seq![' '], '\n');
        assert(occurrences(d, '\n') == 0);
    }
}

/// The numbered listing holds exactly one line per line that
/// `index_lines` counts: it has as many newlines as the text has lines.
pub proof fn lemma_printline_line_count(text: Seq<char>)
    ensures
        occurrences(numbered(lines_of(text)), '\n') == lines_of(text).len(),
{
    lemma_lines_no_newline(text);
    lemma_numbered_newlines(lines_of(text));
}

/// The `k`-th line of the listing (from 1) is the number `k` in decimal
/// (digits only, no leading zero, reading back as `k`), a colon and a
/// space, the `k`-th line of the text, and a newline; it follows the
/// listing of the lines before it.
pub proof fn lemma_listing_line(ls: Seq<Seq<char>>, k: nat)
    requires
        1 <= k <= ls.len(),
    ensures
        numbered(ls.take(k as int)) == numbered(ls.take(k - 1)) + decimal(k) + seq![':', ' ']
            + ls[k - 1] + seq!['\n'],
        parse_uint(decimal(k), k) == Ok::<nat, IntErrorKind>(k),
        forall|i: int| 0 <= i < decimal(k).len() ==> is_digit(#[trigger] decimal(k)[i]),
        decimal(k)[0] != '0',
{
    let t = ls.take(k as int);
    assert(t.drop_last() =~= ls.take(k - 1));
    assert(t.last() == ls[k - 1]);
    assert(t.len() == k);
    lemma_decimal_parses(k, k);
    lemma_decimal_shape(k);
}

/// The lines of `text`, numbered from 1.
pub fn printline(text: &str) -> (out: String)
    ensures
        out@ == numbered(lines_of(text@)),
{
    let ls = lines(text);
    let ghost lss = lines_of(text@);
    let mut out = String::new();
    let mut i: usize = 0;
    assert(lss.take(0) =~= Seq::<Seq<char>>::empty());
    while i < ls.len()
        invariant
            i <= ls.len(),
            lss == char_seqs(ls@),
            out@ == numbered(lss.take(i as int)),
        decreases ls.len() - i,
    {
        let ghost before = out@;
        push_decimal(&mut out, i + 1);
        push_char(&mut out, ':');
        push_char(&mut out, ' ');
        push_chars(&mut out, &ls[i]);
        push_char(&mut out, '\n');
        proof {
            let t = lss.take(i + 1);
            assert(t.drop_last() =~= lss.take(i as int));
            assert(t.last() == ls@[i as int]@);
            assert(out@ =~= numbered(t));
        }
        i += 1;
    }
    assert(lss.take(i as int) =~= lss);
    out
}

/// The number of lines of `text`.
pub fn index_lines(text: &str) -> (n: usize)
    ensures
        n == lines_of(text@).len(),
{
    let ls = lines(text);
    assert(char_seqs(ls@).len() == ls@.len());
    ls.len()
}

/// The number of characters of `text`.
pub fn index_chars(text: &str) -> (n: usize)
    ensures
        n == text@.len(),
{
    let cs = chars_of(text);
    cs.len()
}

// ------------------------------------------------------------------------
// Command line
// ------------------------------------------------------------------------

/// What the tool is asked to do with each text.
#[derive(Debug, Clone, Copy, PartialEq, Eq)]
pub struct CountActions {
    /// Print the numbered lines.
    pub print: bool,
    /// Print the number of lines.
    pub lines: bool,
    /// Print the number of characters.
    pub chars: bool,
}

/// Why the command line is refused.
#[derive(Debug, Clone, Copy, PartialEq, Eq)]
pub enum CountArgError {
    /// A switch was given a value.
    ValueNotAccepted,
    /// The switch at this position is not one of the tool's.
    UnknownSwitch(usize),
    /// No action was asked for.
    NoAction,
    /// There is neither a file name nor piped input.
    NoInput,
}

pub open spec fn is_print(s: Seq<char>) -> bool {
    s == "p"@ || s == "print"@
}

pub open spec fn is_lines(s: Seq<char>) -> bool {
    s == "l"@ || s == "lines"@
}

pub open spec fn is_chars(s: Seq<char>) -> bool {
    s == "c"@ || s == "chars"@
}

/// The actions that the switches from the `k`-th on ask for.
pub open spec fn count_scan(swcs: Seq<String>, k: nat) -> Result<CountActions, CountArgError>
    decreases swcs.len() - k,
{
    if k >= swcs.len() {
        Ok(CountActions { print: false, lines: false, chars: false })
    } else {
        let s = swcs[k as int]@;
        if !(is_print(s) || is_lines(s) || is_chars(s)) {
            Err(CountArgError::UnknownSwitch(k as usize))
        } else {
            match count_scan(swcs, k + 1) {
                Ok(a) => Ok(
                    CountActions {
                        print: a.print || is_print(s),
                        lines: a.lines || is_lines(s),
                        chars: a.chars || is_chars(s),
                    },
                ),
                Err(e) => Err(e),
            }
        }
    }
}

/// What the command line amounts to: values are refused first, then unknown
/// switches, then a command line without action, then missing input.
pub open spec fn count_args(
    swcs: Seq<String>,
    vals: Seq<String>,
    n_opts: nat,
    stdin_is_terminal: bool,
) -> Result<CountActions, CountArgError> {
    if exists|i: int| 0 <= i < vals.len() && #[trigger] vals[i]@.len() != 0 {
        Err(CountArgError::ValueNotAccepted)
    } else {
        match count_scan(swcs, 0) {
            Err(e) => Err(e),
            Ok(a) => if !a.print && !a.lines && !a.chars {
                Err(CountArgError::NoAction)
            } else if n_opts == 0 && stdin_is_terminal {
                Err(CountArgError::NoInput)
            } else {
                Ok(a)
            },
        }
    }
}

/// Checks the switches, their values and the input sources; on success,
/// gives the actions asked for.
pub fn parse_count_args(
    swcs: &Vec<String>,
    vals: &Vec<String>,
    n_opts: usize,
    stdin_is_terminal: bool,
) -> (r: Result<CountActions, CountArgError>)
    ensures
        r == count_args(swcs@, vals@, n_opts as nat, stdin_is_terminal),
{
    let mut i: usize = 0;
    while i < vals.len()
        invariant
            i <= vals.len(),
            forall|j: int| 0 <= j < i ==> #[trigger] vals@[j]@.len() == 0,
        decreases vals.len() - i,
    {
        if !vals[i].as_str().is_empty() {
            return Err(CountArgError::ValueNotAccepted);
        }
        i += 1;
    }
    let mut print = false;
    let mut line_counter = false;
    let mut char_counter = false;
    let mut k: usize = 0;
    while k < swcs.len()
        invariant
            k <= swcs.len(),
            forall|j: int| 0 <= j < vals.len() ==> #[trigger] vals@[j]@.len() == 0,
            count_scan(swcs@, 0) == match count_scan(swcs@, k as nat) {
                Ok(a) => Ok(
                    CountActions {
                        print: print || a.print,
                        lines: line_counter || a.lines,
                        chars: char_counter || a.chars,
                    },
                ),
                Err(e) => Err(e),
            },
        decreases swcs.len() - k,
    {
        let s = &swcs[k];
        let p = eq_lit(s, "p") || eq_lit(s, "print");
        let l = eq_lit(s, "l") || eq_lit(s, "lines");
        let c = eq_lit(s, "c") || eq_lit(s, "chars");
        if !(p || l || c) {
            return Err(CountArgError::UnknownSwitch(k));
        }
        print = print || p;
        line_counter = line_counter || l;
        char_counter = char_counter || c;
        k += 1;
    }
    if !print && !line_counter && !char_counter {
        return Err(CountArgError::NoAction);
    }
    if n_opts == 0 && stdin_is_terminal {
        return Err(CountArgError::NoInput);
    }
    Ok(CountActions { print, lines: line_counter, chars: char_counter })
}

} // verus!

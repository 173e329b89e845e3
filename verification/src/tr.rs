//! `tr`: prints lines or characters of a text from its start or its end.
//!
//! The text is indexed into maps from position to line and from position
//! to character; each switch then picks what to print from one of them.
use std::collections::HashMap;
use vstd::prelude::*;

use crate::text::{
    chars_of, decimal, eq_lit, lines, lines_of, parse_uint, parse_unsigned, push_char,
    push_decimal, string_of,
};

verus! {

broadcast use vstd::std_specs::hash::group_hash_axioms;

// ------------------------------------------------------------------------
// Indexing
// ------------------------------------------------------------------------

/// A map that holds `items[i]` under the key `i`, for each position `i`.
pub open spec fn indexes(m: Map<usize, String>, items: Seq<Seq<char>>) -> bool {
    &&& forall|k: usize| #[trigger] m.contains_key(k) <==> k < items.len()
    &&& forall|k: usize| #[trigger] m.contains_key(k) ==> m[k]@ == items[k as int]
}

/// Maps each line number (from 0) to its line.
pub fn index_lines(text: &str) -> (m: HashMap<usize, String>)
    ensures
        indexes(m@, lines_of(text@)),
        m@.len() == lines_of(text@).len(),
        lines_of(text@).len() <= usize::MAX,
{
    let ls = lines(text);
    let ghost items = lines_of(text@);
    assert(ls@.len() == items.len());
    let mut m: HashMap<usize, String> = HashMap::new();
    let mut i: usize = 0;
    while i < ls.len()
        invariant
            0 <= i <= ls.len(),
            ls@.len() == items.len(),
            forall|j: int| 0 <= j < ls.len() ==> #[trigger] ls@[j]@ == items[j],
            m@.dom() == Set::new(|k: usize| k < i),
            forall|k: usize| #[trigger] m@.contains_key(k) ==> m@[k]@ == items[k as int],
        decreases ls.len() - i,
    {
        assert(ls@[i as int]@ == items[i as int]);
        let line = string_of(&ls[i]);
        m.insert(i, line);
        i += 1;
        assert(m@.dom() =~= Set::new(|k: usize| k < i));
    }
    proof {
        lemma_range_set_len(i);
    }
    m
}

/// Each character of `s` as a one-character sequence.
pub open spec fn char_items(s: Seq<char>) -> Seq<Seq<char>> {
    s.map_values(|c: char| seq![c])
}

/// Maps each character position (from 0) to that character, as a string.
pub fn index_chars(text: &str) -> (m: HashMap<usize, String>)
    ensures
        indexes(m@, char_items(text@)),
        m@.len() == text@.len(),
        text@.len() <= usize::MAX,
{
    let cs = chars_of(text);
    let ghost items = char_items(text@);
    let mut m: HashMap<usize, String> = HashMap::new();
    let mut i: usize = 0;
    while i < cs.len()
        invariant
            0 <= i <= cs.len(),
            cs@ == text@,
            items == char_items(text@),
            m@.dom() == Set::new(|k: usize| k < i),
            forall|k: usize| #[trigger] m@.contains_key(k) ==> m@[k]@ == items[k as int],
        decreases cs.len() - i,
    {
        let mut s = String::new();
        push_char(&mut s, cs[i]);
        assert(s@ =~= items[i as int]);
        m.insert(i, s);
        i += 1;
        assert(m@.dom() =~= Set::new(|k: usize| k < i));
    }
    proof {
        lemma_range_set_len(i);
    }
    m
}

proof fn lemma_range_set_len(n: usize)
    ensures
        Set::new(|k: usize| k < n).finite(),
        Set::new(|k: usize| k < n).len() == n,
    decreases n,
{
    if n == 0 {
        assert(Set::new(|k: usize| k < n) =~= Set::<usize>::empty());
    } else {
        lemma_range_set_len((n - 1) as usize);
        assert(Set::new(|k: usize| k < n) =~= Set::new(|k: usize| k < (n - 1) as usize).insert(
            (n - 1) as usize,
        ));
    }
}

// ------------------------------------------------------------------------
// The switches
// ------------------------------------------------------------------------

/// Switches that print lines.
pub open spec fn reads_lines(s: Seq<char>) -> bool {
    s == "reverse"@ || s == "top"@ || s == "bottom"@ || s == "r"@ || s == "t"@ || s == "b"@
}

/// Switches that print characters.
pub open spec fn reads_chars(s: Seq<char>) -> bool {
    s == "reverse-char"@ || s == "top-char"@ || s == "bottom-char"@ || s == "R"@ || s == "T"@
        || s == "B"@
}

/// Switches that count from the start of the text.
pub open spec fn from_start(s: Seq<char>) -> bool {
    s == "top"@ || s == "top-char"@ || s == "t"@ || s == "T"@
}

/// Switches that count from the end of the text.
pub open spec fn from_end(s: Seq<char>) -> bool {
    s == "reverse"@ || s == "reverse-char"@ || s == "bottom"@ || s == "bottom-char"@ || s == "r"@
        || s == "R"@ || s == "b"@ || s == "B"@
}

/// The number a switch's value gives: the value read as a number, or 1
/// where it is not one.
pub open spec fn count_value(v: Seq<char>) -> nat {
    match parse_uint(v, usize::MAX as nat) {
        Ok(n) => n,
        Err(_) => 1,
    }
}

/// Why printing stopped.
#[derive(Debug, Clone, Copy, PartialEq, Eq)]
pub enum ChtextError {
    /// A switch asked for zero lines or characters.
    ZeroValue,
    /// A switch asked for more lines than the text has.
    TooManyLines,
    /// A switch asked for more characters than the text has.
    TooManyChars,
    /// A position that was to be printed is missing from its map.
    MissingEntry,
}

/// How one entry is printed: a line on a line of its own, preceded by
/// `number` (its place among the lines the switch prints) when
/// `line_number` is set; a character as it is.
pub open spec fn entry_text(number: nat, text: Seq<char>, per_line: bool, line_number: bool) -> Seq<
    char,
> {
    if per_line {
        (if line_number {
            decimal(number) + seq![':', ' ']
        } else {
            Seq::<char>::empty()
        }) + text + seq!['\n']
    } else {
        text
    }
}

/// The entries at positions `i - 1` down to `stop`, in that order, of a run
/// that started at position `top - 1`: the entry at position `p` is the
/// `top - p`-th printed.  It stops at the first position missing from `t`.
pub open spec fn emit_down(
    t: Map<usize, String>,
    top: nat,
    i: nat,
    stop: nat,
    per_line: bool,
    line_number: bool,
) -> (Seq<char>, Option<ChtextError>)
    decreases i,
{
    if i <= stop {
        (Seq::<char>::empty(), None)
    } else if !t.contains_key((i - 1) as usize) {
        (Seq::<char>::empty(), Some(ChtextError::MissingEntry))
    } else {
        let rest = emit_down(t, top, (i - 1) as nat, stop, per_line, line_number);
        (
            entry_text((top - (i - 1)) as nat, t[(i - 1) as usize]@, per_line, line_number)
                + rest.0,
            rest.1,
        )
    }
}

/// The entries at positions `i` up to `n - 1`, in that order, of a run that
/// started at position 0: the entry at position `p` is the `p + 1`-th
/// printed.  It stops at the first position missing from `t`.
pub open spec fn emit_up(
    t: Map<usize, String>,
    i: nat,
    n: nat,
    per_line: bool,
    line_number: bool,
) -> (Seq<char>, Option<ChtextError>)
    decreases n - i,
{
    if i >= n {
        (Seq::<char>::empty(), None)
    } else if !t.contains_key(i as usize) {
        (Seq::<char>::empty(), Some(ChtextError::MissingEntry))
    } else {
        let rest = emit_up(t, i + 1, n, per_line, line_number);
        (entry_text(i + 1, t[i as usize]@, per_line, line_number) + rest.0, rest.1)
    }
}

/// What one switch prints, and the error that ends it, if any.
pub open spec fn switch_output(
    s: Seq<char>,
    v: Seq<char>,
    lines: Map<usize, String>,
    chars: Map<usize, String>,
    line_number: bool,
) -> (Seq<char>, Option<ChtextError>) {
    let nr = count_value(v);
    let pl = reads_lines(s);
    let pc = reads_chars(s);
    if nr == 0 {
        (Seq::<char>::empty(), Some(ChtextError::ZeroValue))
    } else if pl && nr > lines.len() {
        (Seq::<char>::empty(), Some(ChtextError::TooManyLines))
    } else if pc && nr > chars.len() {
        (Seq::<char>::empty(), Some(ChtextError::TooManyChars))
    } else {
        let t = if pl {
            lines
        } else {
            chars
        };
        if from_end(s) {
            let start: nat = if pl {
                lines.len()
            } else if pc {
                chars.len()
            } else {
                0
            };
            let stop: nat = if s == "r"@ || s == "reverse"@ {
                0
            } else {
                (nr - 1) as nat
            };
            emit_down(t, start, start, stop, pl, line_number)
        } else if from_start(s) {
            emit_up(t, 0, nr, pl, line_number)
        } else {
            (Seq::<char>::empty(), None)
        }
    }
}

/// What the switches from the `k`-th on print, and the error that ends
/// the run, if any.
pub open spec fn chtext_from(
    swcs: Seq<String>,
    vals: Seq<String>,
    k: nat,
    lines: Map<usize, String>,
    chars: Map<usize, String>,
    line_number: bool,
) -> (Seq<char>, Option<ChtextError>)
    decreases swcs.len() - k,
{
    if k >= swcs.len() {
        (Seq::<char>::empty(), None)
    } else {
        let r = switch_output(swcs[k as int]@, vals[k as int]@, lines, chars, line_number);
        if r.1 is Some {
            r
        } else {
            let rest = chtext_from(swcs, vals, k + 1, lines, chars, line_number);
            (r.0 + rest.0, rest.1)
        }
    }
}

proof fn lemma_down_complete(
    t: Map<usize, String>,
    top: nat,
    i: nat,
    stop: nat,
    pl: bool,
    ln: bool,
)
    requires
        i <= usize::MAX,
        forall|k: usize| (k as nat) < i ==> #[trigger] t.contains_key(k),
    ensures
        emit_down(t, top, i, stop, pl, ln).1 is None,
    decreases i,
{
    if i > stop {
        assert(t.contains_key((i - 1) as usize));
        lemma_down_complete(t, top, (i - 1) as nat, stop, pl, ln);
    }
}

proof fn lemma_up_complete(t: Map<usize, String>, i: nat, n: nat, pl: bool, ln: bool)
    requires
        n <= usize::MAX + 1,
        forall|k: usize| (k as nat) < n ==> #[trigger] t.contains_key(k),
    ensures
        emit_up(t, i, n, pl, ln).1 is None,
    decreases n - i,
{
    if i < n {
        assert(t.contains_key(i as usize));
        lemma_up_complete(t, i + 1, n, pl, ln);
    }
}

/// Over the maps that `index_lines` and `index_chars` build, no switch
/// ever finds a position missing: printing only stops for a zero count or
/// a count larger than the text.
pub proof fn lemma_indexed_maps_complete(
    s: Seq<char>,
    v: Seq<char>,
    lines: Map<usize, String>,
    chars: Map<usize, String>,
    ls: Seq<Seq<char>>,
    cs: Seq<Seq<char>>,
    line_number: bool,
)
    requires
        indexes(lines, ls),
        lines.len() == ls.len(),
        ls.len() <= usize::MAX,
        indexes(chars, cs),
        chars.len() == cs.len(),
        cs.len() <= usize::MAX,
    ensures
        switch_output(s, v, lines, chars, line_number).1 != Some(ChtextError::MissingEntry),
{
    let nr = count_value(v);
    let pl = reads_lines(s);
    let pc = reads_chars(s);
    if nr != 0 && !(pl && nr > lines.len()) && !(pc && nr > chars.len()) {
        let t = if pl {
            lines
        } else {
            chars
        };
        if from_end(s) {
            let start: nat = if pl {
                lines.len()
            } else if pc {
                chars.len()
            } else {
                0
            };
            let stop: nat = if s == "r"@ || s == "reverse"@ {
                0
            } else {
                (nr - 1) as nat
            };
            lemma_down_complete(t, start, start, stop, pl, line_number);
        } else if from_start(s) {
            lemma_up_complete(t, 0, nr, pl, line_number);
        }
    }
}

/// Items, each followed by a newline, the last item first.
pub open spec fn listed_down(items: Seq<Seq<char>>) -> Seq<char>
    decreases items.len(),
{
    if items.len() == 0 {
        Seq::<char>::empty()
    } else {
        items.last() + seq!['\n'] + listed_down(items.drop_last())
    }
}

/// Items, each followed by a newline, in order.
pub open spec fn listed(items: Seq<Seq<char>>) -> Seq<char>
    decreases items.len(),
{
    if items.len() == 0 {
        Seq::<char>::empty()
    } else {
        items[0] + seq!['\n'] + listed(items.drop_first())
    }
}

proof fn lemma_emit_down_lists(t: Map<usize, String>, ls: Seq<Seq<char>>, top: nat, i: nat)
    requires
        indexes(t, ls),
        i <= ls.len(),
        ls.len() <= usize::MAX,
    ensures
        emit_down(t, top, i, 0, true, false) == (
            listed_down(ls.take(i as int)),
            None::<ChtextError>,
        ),
    decreases i,
{
    if i == 0 {
        assert(ls.take(0) =~= Seq::<Seq<char>>::empty());
    } else {
        lemma_emit_down_lists(t, ls, top, (i - 1) as nat);
        let k = (i - 1) as usize;
        assert(t.contains_key(k));
        assert(ls.take(i as int).drop_last() =~= ls.take(i - 1));
        assert(ls.take(i as int).last() == ls[i - 1]);
        assert(entry_text((top - (i - 1)) as nat, t[k]@, true, false) =~= ls[i - 1] + seq!['\n']);
    }
}

proof fn lemma_emit_up_lists(t: Map<usize, String>, ls: Seq<Seq<char>>, i: nat, n: nat)
    requires
        indexes(t, ls),
        i <= n <= ls.len(),
        ls.len() <= usize::MAX,
    ensures
        emit_up(t, i, n, true, false) == (listed(ls.subrange(i as int, n as int)), None::<
            ChtextError,
        >),
    decreases n - i,
{
    if i == n {
        assert(ls.subrange(i as int, n as int) =~= Seq::<Seq<char>>::empty());
    } else {
        lemma_emit_up_lists(t, ls, i + 1, n);
        let k = i as usize;
        assert(t.contains_key(k));
        assert(ls.subrange(i as int, n as int).drop_first() =~= ls.subrange((i + 1) as int, n as int));
        assert(ls.subrange(i as int, n as int)[0] == ls[i as int]);
        assert(entry_text(i + 1, t[k]@, true, false) =~= ls[i as int] + seq!['\n']);
    }
}

proof fn lemma_r_and_t_switches()
    ensures
        reads_lines("r"@),
        !reads_chars("r"@),
        from_end("r"@),
        reads_lines("t"@),
        !reads_chars("t"@),
        !from_end("t"@),
        from_start("t"@),
{
    reveal_strlit("r");
    reveal_strlit("t");
    reveal_strlit("reverse");
    reveal_strlit("top");
    reveal_strlit("bottom");
    reveal_strlit("b");
    reveal_strlit("reverse-char");
    reveal_strlit("top-char");
    reveal_strlit("bottom-char");
    reveal_strlit("R");
    reveal_strlit("T");
    reveal_strlit("B");
    assert("r"@[0] != "R"@[0]);
    assert("r"@[0] != "T"@[0]);
    assert("r"@[0] != "B"@[0]);
    assert("t"@[0] != "R"@[0]);
    assert("t"@[0] != "T"@[0]);
    assert("t"@[0] != "B"@[0]);
    assert("r"@.len() != "reverse-char"@.len());
    assert("r"@.len() != "top-char"@.len());
    assert("r"@.len() != "bottom-char"@.len());
    assert("t"@[0] != "r"@[0]);
    assert("t"@[0] != "b"@[0]);
    assert("t"@.len() != "reverse"@.len());
    assert("t"@.len() != "bottom"@.len());
    assert("t"@.len() != "reverse-char"@.len());
    assert("t"@.len() != "bottom-char"@.len());
    assert("t"@.len() != "top-char"@.len());
}

/// The switch `r` prints every line of the text, the last one first, each
/// on a line of its own.
pub proof fn lemma_reverse_prints_all_lines(
    v: Seq<char>,
    lines: Map<usize, String>,
    chars: Map<usize, String>,
    ls: Seq<Seq<char>>,
)
    requires
        indexes(lines, ls),
        lines.len() == ls.len(),
        ls.len() <= usize::MAX,
        1 <= count_value(v) <= ls.len(),
    ensures
        switch_output("r"@, v, lines, chars, false) == (listed_down(ls), None::<ChtextError>),
{
    lemma_r_and_t_switches();
    lemma_emit_down_lists(lines, ls, ls.len(), ls.len());
    assert(ls.take(ls.len() as int) =~= ls);
}

/// The switch `t` with a count of `n` prints the first `n` lines of the
/// text in order, each on a line of its own.
pub proof fn lemma_top_prints_first_lines(
    v: Seq<char>,
    lines: Map<usize, String>,
    chars: Map<usize, String>,
    ls: Seq<Seq<char>>,
)
    requires
        indexes(lines, ls),
        lines.len() == ls.len(),
        ls.len() <= usize::MAX,
        1 <= count_value(v) <= ls.len(),
    ensures
        switch_output("t"@, v, lines, chars, false) == (
            listed(ls.take(count_value(v) as int)),
            None::<ChtextError>,
        ),
{
    lemma_r_and_t_switches();
    lemma_emit_up_lists(lines, ls, 0, count_value(v));
    assert(ls.subrange(0, count_value(v) as int) =~= ls.take(count_value(v) as int));
}

/// The long switch `reverse` prints exactly what `r` prints.
pub proof fn lemma_reverse_like_r(
    v: Seq<char>,
    lines: Map<usize, String>,
    chars: Map<usize, String>,
    line_number: bool,
)
    ensures
        switch_output("reverse"@, v, lines, chars, line_number) == switch_output(
            "r"@,
            v,
            lines,
            chars,
            line_number,
        ),
{
    lemma_r_and_t_switches();
    reveal_strlit("reverse");
    reveal_strlit("r");
    reveal_strlit("reverse-char");
    reveal_strlit("top-char");
    reveal_strlit("bottom-char");
    reveal_strlit("R");
    reveal_strlit("T");
    reveal_strlit("B");
    assert("reverse"@.len() != "reverse-char"@.len());
    assert("reverse"@.len() != "top-char"@.len());
    assert("reverse"@.len() != "bottom-char"@.len());
    assert("reverse"@.len() != "R"@.len());
    assert("reverse"@.len() != "T"@.len());
    assert("reverse"@.len() != "B"@.len());
    assert(!reads_chars("reverse"@));
}

/// The output and the error of a run, with `rest` run after it unless it
/// stopped on an error.
pub open spec fn then_run(
    first: (Seq<char>, Option<ChtextError>),
    rest: (Seq<char>, Option<ChtextError>),
) -> (Seq<char>, Option<ChtextError>) {
    if first.1 is Some {
        first
    } else {
        (first.0 + rest.0, rest.1)
    }
}

proof fn lemma_chtext_skip(
    a: Seq<String>,
    va: Seq<String>,
    b: Seq<String>,
    vb: Seq<String>,
    j: nat,
    lines: Map<usize, String>,
    chars: Map<usize, String>,
    ln: bool,
)
    requires
        va.len() == a.len(),
        vb.len() >= b.len(),
    ensures
        chtext_from(a + b, va + vb, a.len() + j, lines, chars, ln) == chtext_from(
            b,
            vb,
            j,
            lines,
            chars,
            ln,
        ),
    decreases b.len() - j,
{
    if j < b.len() {
        lemma_chtext_skip(a, va, b, vb, j + 1, lines, chars, ln);
        assert((a + b)[(a.len() + j) as int] == b[j as int]);
        assert((va + vb)[(a.len() + j) as int] == vb[j as int]);
        assert(a.len() + j + 1 == a.len() + (j + 1));
    }
}

proof fn lemma_chtext_split_from(
    a: Seq<String>,
    va: Seq<String>,
    b: Seq<String>,
    vb: Seq<String>,
    k: nat,
    lines: Map<usize, String>,
    chars: Map<usize, String>,
    ln: bool,
)
    requires
        va.len() == a.len(),
        vb.len() >= b.len(),
        k <= a.len(),
    ensures
        chtext_from(a + b, va + vb, k, lines, chars, ln) == then_run(
            chtext_from(a, va, k, lines, chars, ln),
            chtext_from(b, vb, 0, lines, chars, ln),
        ),
    decreases a.len() - k,
{
    if k == a.len() {
        lemma_chtext_skip(a, va, b, vb, 0, lines, chars, ln);
        assert(Seq::<char>::empty() + chtext_from(b, vb, 0, lines, chars, ln).0 =~= chtext_from(
            b,
            vb,
            0,
            lines,
            chars,
            ln,
        ).0);
    } else {
        lemma_chtext_split_from(a, va, b, vb, k + 1, lines, chars, ln);
        assert((a + b)[k as int] == a[k as int]);
        assert((va + vb)[k as int] == va[k as int]);
        let r = switch_output(a[k as int]@, va[k as int]@, lines, chars, ln);
        let x = chtext_from(a, va, k + 1, lines, chars, ln);
        let y = chtext_from(b, vb, 0, lines, chars, ln);
        assert(r.0 + (x.0 + y.0) =~= (r.0 + x.0) + y.0);
    }
}

/// Running a list of switches runs its first part, then, unless that part
/// stopped on an error, the rest: what each part prints is printed in turn.
pub proof fn lemma_chtext_runs_in_turn(
    a: Seq<String>,
    va: Seq<String>,
    b: Seq<String>,
    vb: Seq<String>,
    lines: Map<usize, String>,
    chars: Map<usize, String>,
    line_number: bool,
)
    requires
        va.len() == a.len(),
        vb.len() >= b.len(),
    ensures
        chtext_from(a + b, va + vb, 0, lines, chars, line_number) == then_run(
            chtext_from(a, va, 0, lines, chars, line_number),
            chtext_from(b, vb, 0, lines, chars, line_number),
        ),
{
    lemma_chtext_split_from(a, va, b, vb, 0, lines, chars, line_number);
}

/// A run of one switch prints what that switch prints.
pub proof fn lemma_chtext_one_switch(
    s: String,
    v: String,
    lines: Map<usize, String>,
    chars: Map<usize, String>,
    line_number: bool,
)
    ensures
        chtext_from(seq![s], seq![v], 0, lines, chars, line_number) == switch_output(
            s@,
            v@,
            lines,
            chars,
            line_number,
        ),
{
    let r = switch_output(s@, v@, lines, chars, line_number);
    assert(seq![s][0] == s);
    assert(seq![v][0] == v);
    assert(chtext_from(seq![s], seq![v], 1, lines, chars, line_number) == (
        Seq::<char>::empty(),
        None::<ChtextError>,
    ));
    assert(r.0 + Seq::<char>::empty() =~= r.0);
}

proof fn lemma_switch_classes()
    ensures
        reads_lines("r"@),
        !reads_chars("r"@),
        !from_start("r"@),
        from_end("r"@),
        reads_lines("reverse"@),
        !reads_chars("reverse"@),
        !from_start("reverse"@),
        from_end("reverse"@),
        !reads_lines("R"@),
        reads_chars("R"@),
        !from_start("R"@),
        from_end("R"@),
        "R"@ != "r"@,
        "R"@ != "reverse"@,
        !reads_lines("reverse-char"@),
        reads_chars("reverse-char"@),
        !from_start("reverse-char"@),
        from_end("reverse-char"@),
        "reverse-char"@ != "r"@,
        "reverse-char"@ != "reverse"@,
        reads_lines("t"@),
        !reads_chars("t"@),
        from_start("t"@),
        !from_end("t"@),
        "t"@ != "r"@,
        "t"@ != "reverse"@,
        reads_lines("top"@),
        !reads_chars("top"@),
        from_start("top"@),
        !from_end("top"@),
        "top"@ != "r"@,
        "top"@ != "reverse"@,
        !reads_lines("T"@),
        reads_chars("T"@),
        from_start("T"@),
        !from_end("T"@),
        "T"@ != "r"@,
        "T"@ != "reverse"@,
        !reads_lines("top-char"@),
        reads_chars("top-char"@),
        from_start("top-char"@),
        !from_end("top-char"@),
        "top-char"@ != "r"@,
        "top-char"@ != "reverse"@,
        reads_lines("b"@),
        !reads_chars("b"@),
        !from_start("b"@),
        from_end("b"@),
        "b"@ != "r"@,
        "b"@ != "reverse"@,
        reads_lines("bottom"@),
        !reads_chars("bottom"@),
        !from_start("bottom"@),
        from_end("bottom"@),
        "bottom"@ != "r"@,
        "bottom"@ != "reverse"@,
        !reads_lines("B"@),
        reads_chars("B"@),
        !from_start("B"@),
        from_end("B"@),
        "B"@ != "r"@,
        "B"@ != "reverse"@,
        !reads_lines("bottom-char"@),
        reads_chars("bottom-char"@),
        !from_start("bottom-char"@),
        from_end("bottom-char"@),
        "bottom-char"@ != "r"@,
        "bottom-char"@ != "reverse"@,
{
    reveal_strlit("r");
    reveal_strlit("reverse");
    reveal_strlit("R");
    reveal_strlit("reverse-char");
    reveal_strlit("t");
    reveal_strlit("top");
    reveal_strlit("T");
    reveal_strlit("top-char");
    reveal_strlit("b");
    reveal_strlit("bottom");
    reveal_strlit("B");
    reveal_strlit("bottom-char");
    assert("r"@.len() != "reverse"@.len());
    assert("r"@[0] != "R"@[0]);
    assert("r"@.len() != "reverse-char"@.len());
    assert("r"@[0] != "t"@[0]);
    assert("r"@.len() != "top"@.len());
    assert("r"@[0] != "T"@[0]);
    assert("r"@.len() != "top-char"@.len());
    assert("r"@[0] != "b"@[0]);
    assert("r"@.len() != "bottom"@.len());
    assert("r"@[0] != "B"@[0]);
    assert("r"@.len() != "bottom-char"@.len());
    assert("reverse"@.len() != "R"@.len());
    assert("reverse"@.len() != "reverse-char"@.len());
    assert("reverse"@.len() != "t"@.len());
    assert("reverse"@.len() != "top"@.len());
    assert("reverse"@.len() != "T"@.len());
    assert("reverse"@.len() != "top-char"@.len());
    assert("reverse"@.len() != "b"@.len());
    assert("reverse"@.len() != "bottom"@.len());
    assert("reverse"@.len() != "B"@.len());
    assert("reverse"@.len() != "bottom-char"@.len());
    assert("R"@.len() != "reverse-char"@.len());
    assert("R"@[0] != "t"@[0]);
    assert("R"@.len() != "top"@.len());
    assert("R"@[0] != "T"@[0]);
    assert("R"@.len() != "top-char"@.len());
    assert("R"@[0] != "b"@[0]);
    assert("R"@.len() != "bottom"@.len());
    assert("R"@[0] != "B"@[0]);
    assert("R"@.len() != "bottom-char"@.len());
    assert("reverse-char"@.len() != "t"@.len());
    assert("reverse-char"@.len() != "top"@.len());
    assert("reverse-char"@.len() != "T"@.len());
    assert("reverse-char"@.len() != "top-char"@.len());
    assert("reverse-char"@.len() != "b"@.len());
    assert("reverse-char"@.len() != "bottom"@.len());
    assert("reverse-char"@.len() != "B"@.len());
    assert("reverse-char"@.len() != "bottom-char"@.len());
    assert("t"@.len() != "top"@.len());
    assert("t"@[0] != "T"@[0]);
    assert("t"@.len() != "top-char"@.len());
    assert("t"@[0] != "b"@[0]);
    assert("t"@.len() != "bottom"@.len());
    assert("t"@[0] != "B"@[0]);
    assert("t"@.len() != "bottom-char"@.len());
    assert("top"@.len() != "T"@.len());
    assert("top"@.len() != "top-char"@.len());
    assert("top"@.len() != "b"@.len());
    assert("top"@.len() != "bottom"@.len());
    assert("top"@.len() != "B"@.len());
    assert("top"@.len() != "bottom-char"@.len());
    assert("T"@.len() != "top-char"@.len());
    assert("T"@[0] != "b"@[0]);
    assert("T"@.len() != "bottom"@.len());
    assert("T"@[0] != "B"@[0]);
    assert("T"@.len() != "bottom-char"@.len());
    assert("top-char"@.len() != "b"@.len());
    assert("top-char"@.len() != "bottom"@.len());
    assert("top-char"@.len() != "B"@.len());
    assert("top-char"@.len() != "bottom-char"@.len());
    assert("b"@.len() != "bottom"@.len());
    assert("b"@[0] != "B"@[0]);
    assert("b"@.len() != "bottom-char"@.len());
    assert("bottom"@.len() != "B"@.len());
    assert("bottom"@.len() != "bottom-char"@.len());
    assert("B"@.len() != "bottom-char"@.len());
}

/// Each long switch prints exactly what its short form prints: `top` as
/// `t`, `top-char` as `T`, `bottom` as `b`, `bottom-char` as `B`,
/// `reverse` as `r` and `reverse-char` as `R`.
pub proof fn lemma_long_switches_like_short(
    v: Seq<char>,
    lines: Map<usize, String>,
    chars: Map<usize, String>,
    line_number: bool,
)
    ensures
        switch_output("top"@, v, lines, chars, line_number) == switch_output(
            "t"@,
            v,
            lines,
            chars,
            line_number,
        ),
        switch_output("top-char"@, v, lines, chars, line_number) == switch_output(
            "T"@,
            v,
            lines,
            chars,
            line_number,
        ),
        switch_output("bottom"@, v, lines, chars, line_number) == switch_output(
            "b"@,
            v,
            lines,
            chars,
            line_number,
        ),
        switch_output("bottom-char"@, v, lines, chars, line_number) == switch_output(
            "B"@,
            v,
            lines,
            chars,
            line_number,
        ),
        switch_output("reverse"@, v, lines, chars, line_number) == switch_output(
            "r"@,
            v,
            lines,
            chars,
            line_number,
        ),
        switch_output("reverse-char"@, v, lines, chars, line_number) == switch_output(
            "R"@,
            v,
            lines,
            chars,
            line_number,
        ),
{
    lemma_switch_classes();
}

/// Items concatenated in order.
pub open spec fn joined(items: Seq<Seq<char>>) -> Seq<char>
    decreases items.len(),
{
    if items.len() == 0 {
        Seq::<char>::empty()
    } else {
        items[0] + joined(items.drop_first())
    }
}

/// Items concatenated, the last one first.
pub open spec fn joined_down(items: Seq<Seq<char>>) -> Seq<char>
    decreases items.len(),
{
    if items.len() == 0 {
        Seq::<char>::empty()
    } else {
        items.last() + joined_down(items.drop_last())
    }
}

proof fn lemma_joined_chars(s: Seq<char>)
    ensures
        joined(char_items(s)) == s,
        joined_down(char_items(s)) == s.reverse(),
    decreases s.len(),
{
    if s.len() > 0 {
        lemma_joined_chars(s.drop_first());
        lemma_joined_chars(s.drop_last());
        assert(char_items(s).drop_first() =~= char_items(s.drop_first()));
        assert(char_items(s).drop_last() =~= char_items(s.drop_last()));
        assert(seq![s[0]] + s.drop_first() =~= s);
        assert(seq![s.last()] + s.drop_last().reverse() =~= s.reverse());
    } else {
        assert(s.reverse() =~= s);
    }
}

proof fn lemma_emit_down_range(
    t: Map<usize, String>,
    items: Seq<Seq<char>>,
    top: nat,
    i: nat,
    stop: nat,
    pl: bool,
)
    requires
        indexes(t, items),
        stop <= i <= items.len(),
        items.len() <= usize::MAX,
    ensures
        emit_down(t, top, i, stop, pl, false) == (
            if pl {
                listed_down(items.subrange(stop as int, i as int))
            } else {
                joined_down(items.subrange(stop as int, i as int))
            },
            None::<ChtextError>,
        ),
    decreases i,
{
    let sub = items.subrange(stop as int, i as int);
    if i == stop {
        assert(sub =~= Seq::<Seq<char>>::empty());
    } else {
        lemma_emit_down_range(t, items, top, (i - 1) as nat, stop, pl);
        let k = (i - 1) as usize;
        assert(t.contains_key(k));
        assert(sub.drop_last() =~= items.subrange(stop as int, i - 1));
        assert(sub.last() == items[i - 1]);
        if pl {
            assert(entry_text((top - (i - 1)) as nat, t[k]@, pl, false) =~= items[i - 1] + seq![
                '\n',
            ]);
        }
    }
}

proof fn lemma_emit_up_range(t: Map<usize, String>, items: Seq<Seq<char>>, i: nat, n: nat, pl: bool)
    requires
        indexes(t, items),
        i <= n <= items.len(),
        items.len() <= usize::MAX,
    ensures
        emit_up(t, i, n, pl, false) == (
            if pl {
                listed(items.subrange(i as int, n as int))
            } else {
                joined(items.subrange(i as int, n as int))
            },
            None::<ChtextError>,
        ),
    decreases n - i,
{
    let sub = items.subrange(i as int, n as int);
    if i == n {
        assert(sub =~= Seq::<Seq<char>>::empty());
    } else {
        lemma_emit_up_range(t, items, i + 1, n, pl);
        let k = i as usize;
        assert(t.contains_key(k));
        assert(sub.drop_first() =~= items.subrange((i + 1) as int, n as int));
        assert(sub[0] == items[i as int]);
        if pl {
            assert(entry_text(i + 1, t[k]@, pl, false) =~= items[i as int] + seq!['\n']);
        }
    }
}

/// The switch `T` with a count of `n` prints the first `n` characters of
/// the text, in order.
pub proof fn lemma_top_chars_prints_first_chars(
    v: Seq<char>,
    lines: Map<usize, String>,
    chars: Map<usize, String>,
    text: Seq<char>,
)
    requires
        indexes(chars, char_items(text)),
        chars.len() == text.len(),
        text.len() <= usize::MAX,
        1 <= count_value(v) <= text.len(),
    ensures
        switch_output("T"@, v, lines, chars, false) == (
            text.take(count_value(v) as int),
            None::<ChtextError>,
        ),
{
    let n = count_value(v);
    lemma_switch_classes();
    lemma_emit_up_range(chars, char_items(text), 0, n, false);
    assert(char_items(text).subrange(0, n as int) =~= char_items(text.take(n as int)));
    lemma_joined_chars(text.take(n as int));
}

/// The switches `B` and `R` with a count of `n` print the characters from
/// the last one down to the `n`-th: the reverse of the text after its first
/// `n - 1` characters.
pub proof fn lemma_bottom_chars_print_reversed_tail(
    v: Seq<char>,
    lines: Map<usize, String>,
    chars: Map<usize, String>,
    text: Seq<char>,
)
    requires
        indexes(chars, char_items(text)),
        chars.len() == text.len(),
        text.len() <= usize::MAX,
        1 <= count_value(v) <= text.len(),
    ensures
        switch_output("B"@, v, lines, chars, false) == (
            text.skip(count_value(v) - 1).reverse(),
            None::<ChtextError>,
        ),
        switch_output("R"@, v, lines, chars, false) == (
            text.skip(count_value(v) - 1).reverse(),
            None::<ChtextError>,
        ),
{
    let n = count_value(v);
    lemma_switch_classes();
    lemma_emit_down_range(chars, char_items(text), text.len(), text.len(), (n - 1) as nat, false);
    assert(char_items(text).subrange(n - 1, text.len() as int) =~= char_items(
        text.skip(n - 1),
    ));
    lemma_joined_chars(text.skip(n - 1));
}

/// The switch `b` with a count of `n` prints the lines from the last one
/// down to the `n`-th, each on a line of its own.
pub proof fn lemma_bottom_prints_tail_lines(
    v: Seq<char>,
    lines: Map<usize, String>,
    chars: Map<usize, String>,
    ls: Seq<Seq<char>>,
)
    requires
        indexes(lines, ls),
        lines.len() == ls.len(),
        ls.len() <= usize::MAX,
        1 <= count_value(v) <= ls.len(),
    ensures
        switch_output("b"@, v, lines, chars, false) == (
            listed_down(ls.skip(count_value(v) - 1)),
            None::<ChtextError>,
        ),
{
    let n = count_value(v);
    lemma_switch_classes();
    lemma_emit_down_range(lines, ls, ls.len(), ls.len(), (n - 1) as nat, true);
    assert(ls.subrange(n - 1, ls.len() as int) =~= ls.skip(n - 1));
}

/// Items each preceded by its number, counting from `first`, a colon and a
/// space, and followed by a newline.
pub open spec fn numbered_from(items: Seq<Seq<char>>, first: nat) -> Seq<char>
    decreases items.len(),
{
    if items.len() == 0 {
        Seq::<char>::empty()
    } else {
        decimal(first) + seq![':', ' '] + items[0] + seq!['\n'] + numbered_from(
            items.drop_first(),
            first + 1,
        )
    }
}

proof fn lemma_emit_down_numbered(
    t: Map<usize, String>,
    items: Seq<Seq<char>>,
    top: nat,
    i: nat,
    stop: nat,
)
    requires
        indexes(t, items),
        stop <= i <= top,
        i <= items.len(),
        items.len() <= usize::MAX,
    ensures
        emit_down(t, top, i, stop, true, true) == (
            numbered_from(items.subrange(stop as int, i as int).reverse(), (top - i + 1) as nat),
            None::<ChtextError>,
        ),
    decreases i,
{
    let sub = items.subrange(stop as int, i as int);
    if i == stop {
        assert(sub.reverse() =~= Seq::<Seq<char>>::empty());
    } else {
        lemma_emit_down_numbered(t, items, top, (i - 1) as nat, stop);
        let k = (i - 1) as usize;
        assert(t.contains_key(k));
        let rev = sub.reverse();
        assert(rev[0] == items[i - 1]);
        assert(rev.drop_first() =~= items.subrange(stop as int, i - 1).reverse());
        assert((top - (i - 1)) as nat == (top - i + 1) as nat);
        assert(((top - i + 1) + 1) as nat == (top - (i - 1) + 1) as nat);
        let e = entry_text((top - (i - 1)) as nat, t[k]@, true, true);
        assert(e =~= decimal((top - i + 1) as nat) + seq![':', ' '] + items[i - 1] + seq!['\n']);
    }
}

proof fn lemma_emit_up_numbered(t: Map<usize, String>, items: Seq<Seq<char>>, i: nat, n: nat)
    requires
        indexes(t, items),
        i <= n <= items.len(),
        items.len() <= usize::MAX,
    ensures
        emit_up(t, i, n, true, true) == (
            numbered_from(items.subrange(i as int, n as int), i + 1),
            None::<ChtextError>,
        ),
    decreases n - i,
{
    let sub = items.subrange(i as int, n as int);
    if i == n {
        assert(sub =~= Seq::<Seq<char>>::empty());
    } else {
        lemma_emit_up_numbered(t, items, i + 1, n);
        let k = i as usize;
        assert(t.contains_key(k));
        assert(sub.drop_first() =~= items.subrange((i + 1) as int, n as int));
        assert(sub[0] == items[i as int]);
        let e = entry_text(i + 1, t[k]@, true, true);
        assert(e =~= decimal(i + 1) + seq![':', ' '] + items[i as int] + seq!['\n']);
    }
}

/// With numbering on, each line switch numbers the lines it prints 1, 2,
/// 3, ... in the order it prints them: `t n` the first `n` lines, `b n` the
/// lines from the last one down to the `n`-th, and `r` every line, the last
/// one first.
pub proof fn lemma_numbering_counts_printed_lines(
    v: Seq<char>,
    lines: Map<usize, String>,
    chars: Map<usize, String>,
    ls: Seq<Seq<char>>,
)
    requires
        indexes(lines, ls),
        lines.len() == ls.len(),
        ls.len() <= usize::MAX,
        1 <= count_value(v) <= ls.len(),
    ensures
        switch_output("t"@, v, lines, chars, true) == (
            numbered_from(ls.take(count_value(v) as int), 1),
            None::<ChtextError>,
        ),
        switch_output("b"@, v, lines, chars, true) == (
            numbered_from(ls.skip(count_value(v) - 1).reverse(), 1),
            None::<ChtextError>,
        ),
        switch_output("r"@, v, lines, chars, true) == (
            numbered_from(ls.reverse(), 1),
            None::<ChtextError>,
        ),
{
    let n = count_value(v);
    lemma_switch_classes();
    lemma_emit_up_numbered(lines, ls, 0, n);
    assert(ls.subrange(0, n as int) =~= ls.take(n as int));
    lemma_emit_down_numbered(lines, ls, ls.len(), ls.len(), (n - 1) as nat);
    assert(ls.subrange(n - 1, ls.len() as int) =~= ls.skip(n - 1));
    lemma_emit_down_numbered(lines, ls, ls.len(), ls.len(), 0);
    assert(ls.subrange(0, ls.len() as int) =~= ls);
}

fn is_reads_lines(s: &String) -> (b: bool)
    ensures
        b == reads_lines(s@),
{
    eq_lit(s, "reverse") || eq_lit(s, "top") || eq_lit(s, "bottom") || eq_lit(s, "r") || eq_lit(
        s,
        "t",
    ) || eq_lit(s, "b")
}

fn is_reads_chars(s: &String) -> (b: bool)
    ensures
        b == reads_chars(s@),
{
    eq_lit(s, "reverse-char") || eq_lit(s, "top-char") || eq_lit(s, "bottom-char") || eq_lit(
        s,
        "R",
    ) || eq_lit(s, "T") || eq_lit(s, "B")
}

fn is_from_start(s: &String) -> (b: bool)
    ensures
        b == from_start(s@),
{
    eq_lit(s, "top") || eq_lit(s, "top-char") || eq_lit(s, "t") || eq_lit(s, "T")
}

fn is_from_end(s: &String) -> (b: bool)
    ensures
        b == from_end(s@),
{
    eq_lit(s, "reverse") || eq_lit(s, "reverse-char") || eq_lit(s, "bottom") || eq_lit(
        s,
        "bottom-char",
    ) || eq_lit(s, "r") || eq_lit(s, "R") || eq_lit(s, "b") || eq_lit(s, "B")
}

/// The number that a switch's value gives (1 where it is not a number).
pub fn value_count(v: &String) -> (n: usize)
    ensures
        n == count_value(v@),
{
    match parse_unsigned(v.as_str(), usize::MAX) {
        Ok(n) => n,
        Err(_) => 1,
    }
}

/// Appends how the `number`-th printed entry, holding `text`, is printed.
fn push_entry(out: &mut String, number: usize, text: &String, per_line: bool, line_number: bool)
    ensures
        final(out)@ == old(out)@ + entry_text(number as nat, text@, per_line, line_number),
{
    if per_line {
        let ghost start = out@;
        if line_number {
            push_decimal(out, number);
            push_char(out, ':');
            push_char(out, ' ');
        }
        out.append(text.as_str());
        push_char(out, '\n');
        assert(out@ =~= start + entry_text(number as nat, text@, per_line, line_number));
    } else {
        out.append(text.as_str());
    }
}

/// Appends what one switch prints to `out`, and returns the error that
/// ends it, if any.
fn run_switch(
    s: &String,
    v: &String,
    lines: &HashMap<usize, String>,
    chars: &HashMap<usize, String>,
    line_number: bool,
    out: &mut String,
) -> (e: Option<ChtextError>)
    ensures
        final(out)@ == old(out)@ + switch_output(s@, v@, lines@, chars@, line_number).0,
        e == switch_output(s@, v@, lines@, chars@, line_number).1,
{
    let nr = value_count(v);
    let pl = is_reads_lines(s);
    let pc = is_reads_chars(s);
    let n_lines = lines.len();
    let n_chars = chars.len();
    if nr == 0 {
        return Some(ChtextError::ZeroValue);
    }
    if pl && nr > n_lines {
        return Some(ChtextError::TooManyLines);
    }
    if pc && nr > n_chars {
        return Some(ChtextError::TooManyChars);
    }
    let t = if pl {
        lines
    } else {
        chars
    };
    if is_from_end(s) {
        let mut i: usize = if pl {
            n_lines
        } else if pc {
            n_chars
        } else {
            0
        };
        let top: usize = i;
        let stop: usize = if eq_lit(s, "r") || eq_lit(s, "reverse") {
            0
        } else {
            nr - 1
        };
        let ghost start = i as nat;
        let ghost out0 = out@;
        assert(switch_output(s@, v@, lines@, chars@, line_number) == emit_down(
            t@,
            start,
            start,
            stop as nat,
            pl,
            line_number,
        ));
        while i > stop
            invariant
                switch_output(s@, v@, lines@, chars@, line_number) == emit_down(
                    t@,
                    start,
                    start,
                    stop as nat,
                    pl,
                    line_number,
                ),
                out0 == old(out)@,
                top as nat == start,
                i <= top,
                emit_down(t@, start, start, stop as nat, pl, line_number) == (
                    out@.skip(out0.len() as int) + emit_down(
                        t@,
                        start,
                        i as nat,
                        stop as nat,
                        pl,
                        line_number,
                    ).0,
                    emit_down(t@, start, i as nat, stop as nat, pl, line_number).1,
                ),
                out0.len() <= out@.len(),
                out@.take(out0.len() as int) == out0,
            decreases i,
        {
            let ghost before = out@;
            match t.get(&(i - 1)) {
                Some(x) => {
                    push_entry(out, top - (i - 1), x, pl, line_number);
                    assert(out@.skip(out0.len() as int) =~= before.skip(out0.len() as int)
                        + entry_text((top - (i - 1)) as nat, x@, pl, line_number));
                    assert(out@.take(out0.len() as int) =~= out0);
                },
                None => {
                    assert(out@ =~= out0 + out@.skip(out0.len() as int));
                    return Some(ChtextError::MissingEntry);
                },
            }
            i -= 1;
        }
        assert(out@ =~= out0 + out@.skip(out0.len() as int));
        None
    } else if is_from_start(s) {
        let mut i: usize = 0;
        let ghost out0 = out@;
        assert(switch_output(s@, v@, lines@, chars@, line_number) == emit_up(
            t@,
            0,
            nr as nat,
            pl,
            line_number,
        ));
        while i != nr
            invariant
                switch_output(s@, v@, lines@, chars@, line_number) == emit_up(
                    t@,
                    0,
                    nr as nat,
                    pl,
                    line_number,
                ),
                out0 == old(out)@,
                i <= nr,
                emit_up(t@, 0, nr as nat, pl, line_number) == (
                    out@.skip(out0.len() as int) + emit_up(t@, i as nat, nr as nat, pl, line_number).0,
                    emit_up(t@, i as nat, nr as nat, pl, line_number).1,
                ),
                out0.len() <= out@.len(),
                out@.take(out0.len() as int) == out0,
            decreases nr - i,
        {
            let ghost before = out@;
            match t.get(&i) {
                Some(x) => {
                    push_entry(out, i + 1, x, pl, line_number);
                    assert(out@.skip(out0.len() as int) =~= before.skip(out0.len() as int)
                        + entry_text((i + 1) as nat, x@, pl, line_number));
                    assert(out@.take(out0.len() as int) =~= out0);
                },
                None => {
                    assert(out@ =~= out0 + out@.skip(out0.len() as int));
                    return Some(ChtextError::MissingEntry);
                },
            }
            i += 1;
        }
        assert(out@ =~= out0 + out@.skip(out0.len() as int));
        None
    } else {
        assert(out@ =~= old(out)@ + Seq::<char>::empty());
        None
    }
}

/// What a run of the switches prints, and the error that ended it, if any.
pub struct ChtextOutcome {
    pub output: String,
    pub error: Option<ChtextError>,
}

/// Runs the switches in order, each with its value, over the line map and
/// the character map; printing stops at the first error.
pub fn chtext(
    lines: HashMap<usize, String>,
    chars: HashMap<usize, String>,
    line_number: bool,
    swcs: &Vec<String>,
    vals: &Vec<String>,
) -> (r: ChtextOutcome)
    requires
        vals.len() >= swcs.len(),
    ensures
        (r.output@, r.error) == chtext_from(swcs@, vals@, 0, lines@, chars@, line_number),
{
    let mut out = String::new();
    let mut k: usize = 0;
    while k < swcs.len()
        invariant
            k <= swcs.len(),
            vals.len() >= swcs.len(),
            chtext_from(swcs@, vals@, 0, lines@, chars@, line_number) == (
                out@ + chtext_from(swcs@, vals@, k as nat, lines@, chars@, line_number).0,
                chtext_from(swcs@, vals@, k as nat, lines@, chars@, line_number).1,
            ),
        decreases swcs.len() - k,
    {
        let ghost before = out@;
        let e = run_switch(&swcs[k], &vals[k], &lines, &chars, line_number, &mut out);
        if e.is_some() {
            return ChtextOutcome { output: out, error: e };
        }
        k += 1;
        assert(out@ + chtext_from(swcs@, vals@, k as nat, lines@, chars@, line_number).0
            =~= before + chtext_from(swcs@, vals@, (k - 1) as nat, lines@, chars@, line_number).0);
    }
    assert(out@ + Seq::<char>::empty() =~= out@);
    ChtextOutcome { output: out, error: None }
}

// ------------------------------------------------------------------------
// Command line
// ------------------------------------------------------------------------

/// Why the command line is refused.
#[derive(Debug, Clone, Copy, PartialEq, Eq)]
pub enum TrArgError {
    /// The switch at this position is not one of the tool's.
    UnknownSwitch(usize),
    /// The switch at this position takes no value but was given one.
    ValueNotAllowed(usize),
    /// The switch at this position needs a value but has none.
    ValueRequired(usize),
    /// There is neither a file name nor piped input.
    NoInput,
}

/// The switches the tool knows.
pub open spec fn tr_known(s: Seq<char>) -> bool {
    s == "r"@ || s == "reverse"@ || s == "R"@ || s == "reverse-char"@ || s == "t"@ || s == "top"@
        || s == "T"@ || s == "top-char"@ || s == "b"@ || s == "bottom"@ || s == "B"@
        || s == "bottom-char"@ || s == "l"@ || s == "line-number"@ || s == "w"@ || s == "width"@
}

/// Switches that take no value.
pub open spec fn tr_no_value(s: Seq<char>) -> bool {
    s == "r"@ || s == "reverse"@ || s == "R"@ || s == "reverse-char"@ || s == "l"@
        || s == "line-number"@
}

/// Switches that need a value.
pub open spec fn tr_needs_value(s: Seq<char>) -> bool {
    s == "t"@ || s == "top"@ || s == "b"@ || s == "bottom"@ || s == "T"@ || s == "top-char"@
        || s == "B"@ || s == "bottom-char"@
}

/// Switches that turn line numbers on (only the short form does).
pub open spec fn tr_sets_numbers(s: Seq<char>) -> bool {
    s == "l"@ || s == "line-counter"@
}

/// The problem with the `k`-th switch, if any.
pub open spec fn tr_switch_problem(s: Seq<char>, v: Seq<char>, k: usize) -> Option<TrArgError> {
    if !tr_known(s) {
        Some(TrArgError::UnknownSwitch(k))
    } else if tr_no_value(s) && v.len() != 0 {
        Some(TrArgError::ValueNotAllowed(k))
    } else if tr_needs_value(s) && v.len() == 0 {
        Some(TrArgError::ValueRequired(k))
    } else {
        None
    }
}

/// Checks the switches from the `k`-th on; `Ok` tells whether one of them
/// turns line numbers on.
pub open spec fn tr_scan(swcs: Seq<String>, vals: Seq<String>, k: nat) -> Result<bool, TrArgError>
    decreases swcs.len() - k,
{
    if k >= swcs.len() {
        Ok(false)
    } else {
        match tr_switch_problem(swcs[k as int]@, vals[k as int]@, k as usize) {
            Some(e) => Err(e),
            None => match tr_scan(swcs, vals, k + 1) {
                Ok(b) => Ok(b || tr_sets_numbers(swcs[k as int]@)),
                Err(e) => Err(e),
            },
        }
    }
}

/// What the command line amounts to: whether lines are numbered.
pub open spec fn tr_args(
    swcs: Seq<String>,
    vals: Seq<String>,
    n_opts: nat,
    stdin_is_terminal: bool,
) -> Result<bool, TrArgError> {
    match tr_scan(swcs, vals, 0) {
        Err(e) => Err(e),
        Ok(b) => if n_opts == 0 && stdin_is_terminal {
            Err(TrArgError::NoInput)
        } else {
            Ok(b)
        },
    }
}

/// Checks the switches, their values and the input sources; on success,
/// tells whether printed lines are numbered.
pub fn parse_tr_args(
    swcs: &Vec<String>,
    vals: &Vec<String>,
    n_opts: usize,
    stdin_is_terminal: bool,
) -> (r: Result<bool, TrArgError>)
    requires
        vals.len() >= swcs.len(),
    ensures
        r == tr_args(swcs@, vals@, n_opts as nat, stdin_is_terminal),
{
    let mut numbers = false;
    let mut k: usize = 0;
    while k < swcs.len()
        invariant
            k <= swcs.len(),
            vals.len() >= swcs.len(),
            tr_scan(swcs@, vals@, 0) == match tr_scan(swcs@, vals@, k as nat) {
                Ok(b) => Ok(numbers || b),
                Err(e) => Err(e),
            },
        decreases swcs.len() - k,
    {
        let s = &swcs[k];
        let v = &vals[k];
        let known = eq_lit(s, "r") || eq_lit(s, "reverse") || eq_lit(s, "R") || eq_lit(
            s,
            "reverse-char",
        ) || eq_lit(s, "t") || eq_lit(s, "top") || eq_lit(s, "T") || eq_lit(s, "top-char")
            || eq_lit(s, "b") || eq_lit(s, "bottom") || eq_lit(s, "B") || eq_lit(s, "bottom-char")
            || eq_lit(s, "l") || eq_lit(s, "line-number") || eq_lit(s, "w") || eq_lit(s, "width");
        if !known {
            return Err(TrArgError::UnknownSwitch(k));
        }
        let no_value = eq_lit(s, "r") || eq_lit(s, "reverse") || eq_lit(s, "R") || eq_lit(
            s,
            "reverse-char",
        ) || eq_lit(s, "l") || eq_lit(s, "line-number");
        if no_value && !v.as_str().is_empty() {
            return Err(TrArgError::ValueNotAllowed(k));
        }
        let needs_value = eq_lit(s, "t") || eq_lit(s, "top") || eq_lit(s, "b") || eq_lit(
            s,
            "bottom",
        ) || eq_lit(s, "T") || eq_lit(s, "top-char") || eq_lit(s, "B") || eq_lit(
            s,
            "bottom-char",
        );
        if needs_value && v.as_str().is_empty() {
            return Err(TrArgError::ValueRequired(k));
        }
        if eq_lit(s, "l") || eq_lit(s, "line-counter") {
            numbers = true;
        }
        k += 1;
    }
    if n_opts == 0 && stdin_is_terminal {
        return Err(TrArgError::NoInput);
    }
    Ok(numbers)
}

} // verus!

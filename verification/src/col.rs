//! `col`: lays the words of a text out in columns of equal width.
use vstd::prelude::*;

use crate::text::{
    all_blank, blank_pieces, byte_len, char_seqs, eq_lit, has_no_blank, lemma_blank_pieces_blank,
    lemma_blank_pieces_extend, lemma_blank_pieces_len, lemma_byte_len_add, lemma_byte_len_empty,
    lemma_line_pieces_extend, lemma_line_pieces_newline, lemma_non_empty_skips_empty,
    lemma_non_empty_split, lemma_occurrences_add, lemma_occurrences_single, lemma_spaces,
    lemma_words_are_words, lemma_words_no_newline, line_pieces, non_empty, occurrences, parse_uint,
    parse_unsigned, push_char, push_chars, spaces, white_space, words, words_of, IntErrorKind,
};

verus! {

/// The largest UTF-8 length of the words (0 when there are none).
pub open spec fn longest(ws: Seq<Seq<char>>) -> nat
    decreases ws.len(),
{
    if ws.len() == 0 {
        0
    } else {
        let m = longest(ws.drop_last());
        let b = byte_len(ws.last());
        if b > m {
            b
        } else {
            m
        }
    }
}

/// What follows the `k`-th word (counted from 1): the end of its row after
/// every `per_row` words, otherwise spaces up to the column width and one
/// more.
pub open spec fn word_gap(k: nat, word: Seq<char>, widest: nat, per_row: nat) -> Seq<char> {
    if k % per_row == 0 {
        seq!['\n']
    } else {
        spaces((widest - byte_len(word)) as nat) + seq![' ']
    }
}

/// The words laid out in rows of `per_row` columns, each the longest
/// word's length plus one space wide.
pub open spec fn layout(ws: Seq<Seq<char>>, widest: nat, per_row: nat) -> Seq<char>
    decreases ws.len(),
{
    if ws.len() == 0 {
        Seq::<char>::empty()
    } else {
        layout(ws.drop_last(), widest, per_row) + ws.last() + word_gap(
            ws.len(),
            ws.last(),
            widest,
            per_row,
        )
    }
}

/// Why the words cannot be laid out.
#[derive(Debug, Clone, Copy, PartialEq, Eq)]
pub enum ColumnizeError {
    /// The longest word and the space after it are wider than the width.
    TooNarrow,
}

/// How many columns a row of `width` bytes holds: each column is the
/// longest word's length plus one space.
pub open spec fn columns_per_row(ws: Seq<Seq<char>>, width: u16) -> nat {
    width as nat / (longest(ws) + 1)
}

/// The text laid out in columns for the given width, followed by a final
/// newline; an error when not even one column fits on a row.
pub open spec fn columns_of(text: Seq<char>, width: u16) -> Result<Seq<char>, ColumnizeError> {
    let ws = words_of(text);
    let per_row = columns_per_row(ws, width);
    if per_row == 0 {
        Err(ColumnizeError::TooNarrow)
    } else {
        Ok(layout(ws, longest(ws), per_row) + seq!['\n'])
    }
}

/// The words can be laid out exactly when the longest word and one space
/// fit in the width.
pub proof fn lemma_fits_iff_longest_fits(text: Seq<char>, width: u16)
    ensures
        columns_of(text, width) is Ok <==> longest(words_of(text)) + 1 <= width,
{
    let d = longest(words_of(text)) as int + 1;
    let w = width as int;
    if d <= w {
        assert(w / d >= 1) by (nonlinear_arith)
            requires
                0 < d <= w,
        ;
    } else {
        assert(w / d == 0) by (nonlinear_arith)
            requires
                0 <= w < d,
        ;
    }
}

proof fn lemma_longest_bounds(ws: Seq<Seq<char>>)
    ensures
        forall|j: int| 0 <= j < ws.len() ==> byte_len(#[trigger] ws[j]) <= longest(ws),
    decreases ws.len(),
{
    if ws.len() > 0 {
        lemma_longest_bounds(ws.drop_last());
        assert forall|j: int| 0 <= j < ws.len() implies byte_len(#[trigger] ws[j]) <= longest(
            ws,
        ) by {
            if j < ws.len() - 1 {
                assert(ws[j] == ws.drop_last()[j]);
            }
        }
    }
}

proof fn lemma_mod_succ(k: nat, p: nat)
    requires
        p > 0,
    ensures
        k % p < p,
        (k + 1) % p == 0 ==> k % p == p - 1,
        (k + 1) % p != 0 ==> (k + 1) % p == k % p + 1,
{
    let r = k % p;
    let q = k / p;
    vstd::arithmetic::div_mod::lemma_fundamental_div_mod(k as int, p as int);
    assert(0 <= r < p) by {
        vstd::arithmetic::div_mod::lemma_mod_pos_bound(k as int, p as int);
    }
    assert(k == q * p + r) by (nonlinear_arith)
        requires
            k == p * q + r,
    ;
    if r + 1 < p {
        vstd::arithmetic::div_mod::lemma_fundamental_div_mod_converse(
            (k + 1) as int,
            p as int,
            q as int,
            (r + 1) as int,
        );
    } else {
        assert(k + 1 == (q + 1) * p + 0) by (nonlinear_arith)
            requires
                k == q * p + r,
                r + 1 == p,
        ;
        vstd::arithmetic::div_mod::lemma_fundamental_div_mod_converse(
            (k + 1) as int,
            p as int,
            (q + 1) as int,
            0,
        );
    }
}

proof fn lemma_layout_rows(ws: Seq<Seq<char>>, widest: nat, per_row: nat, width: nat, k: nat)
    requires
        per_row > 0,
        per_row * (widest + 1) <= width,
        k <= ws.len(),
        forall|j: int| 0 <= j < ws.len() ==> byte_len(#[trigger] ws[j]) <= widest,
        forall|j: int| 0 <= j < ws.len() ==> occurrences(#[trigger] ws[j], '\n') == 0,
    ensures
        line_pieces(layout(ws.take(k as int), widest, per_row)).len() >= 1,
        forall|j: int|
            0 <= j < line_pieces(layout(ws.take(k as int), widest, per_row)).len() - 1
                ==> byte_len(#[trigger] line_pieces(layout(ws.take(k as int), widest, per_row))[j])
                <= width,
        byte_len(line_pieces(layout(ws.take(k as int), widest, per_row)).last()) == (k % per_row)
            * (widest + 1),
    decreases k,
{
    let m = widest + 1;
    if k == 0 {
        assert(ws.take(0) =~= Seq::<Seq<char>>::empty());
        lemma_byte_len_empty();
        assert(0nat % per_row == 0) by (nonlinear_arith)
            requires
                per_row > 0,
        ;
    } else {
        lemma_layout_rows(ws, widest, per_row, width, (k - 1) as nat);
        lemma_mod_succ((k - 1) as nat, per_row);
        let t = ws.take(k as int);
        assert(t.drop_last() =~= ws.take(k - 1));
        let w = ws[k - 1];
        assert(t.last() == w);
        assert(t.len() == k);
        let l = layout(ws.take(k - 1), widest, per_row);
        let p = line_pieces(l);
        let r0 = ((k - 1) as nat) % per_row;
        assert(byte_len(w) <= widest);
        assert(occurrences(w, '\n') == 0);
        assert(r0 * m + m <= per_row * m) by (nonlinear_arith)
            requires
                r0 < per_row,
        ;
        if k % per_row == 0 {
            assert(layout(t, widest, per_row) =~= (l + w).push('\n'));
            lemma_line_pieces_extend(l, w);
            lemma_line_pieces_newline(l + w);
            lemma_byte_len_add(p.last(), w);
            lemma_byte_len_empty();
            assert(0 * m == 0);
        } else {
            let gap = spaces((widest - byte_len(w)) as nat) + seq![' '];
            let b = w + gap;
            lemma_spaces((widest - byte_len(w)) as nat);
            lemma_occurrences_single(' ', '\n');
            lemma_occurrences_add(spaces((widest - byte_len(w)) as nat), seq![' '], '\n');
            lemma_occurrences_add(w, gap, '\n');
            assert(layout(t, widest, per_row) =~= l + b);
            lemma_line_pieces_extend(l, b);
            lemma_byte_len_add(p.last(), b);
            lemma_byte_len_add(w, gap);
            lemma_byte_len_add(spaces((widest - byte_len(w)) as nat), seq![' ']);
            assert(byte_len(seq![' ']) == 1) by {
                crate::text::lemma_byte_len_push(Seq::<char>::empty(), ' ');
                assert(Seq::<char>::empty().push(' ') =~= seq![' ']);
            }
            assert((r0 + 1) * m == r0 * m + m) by (nonlinear_arith);
        }
    }
}

/// No row is wider than the width: every line of the output has at most
/// `width` bytes.
pub proof fn lemma_rows_fit_width(text: Seq<char>, width: u16)
    ensures
        columns_of(text, width) matches Ok(out) ==> forall|j: int|
            0 <= j < line_pieces(out).len() ==> byte_len(#[trigger] line_pieces(out)[j]) <= width,
{
    let ws = words_of(text);
    let widest = longest(ws);
    let per_row = columns_per_row(ws, width);
    if per_row > 0 {
        let m = widest + 1;
        vstd::arithmetic::div_mod::lemma_fundamental_div_mod(width as int, m as int);
        vstd::arithmetic::div_mod::lemma_mod_pos_bound(width as int, m as int);
        assert(per_row * m <= width) by (nonlinear_arith)
            requires
                width == m * per_row + (width as int) % (m as int),
                (width as int) % (m as int) >= 0,
        ;
        lemma_longest_bounds(ws);
        lemma_words_no_newline(text);
        lemma_layout_rows(ws, widest, per_row, width as nat, ws.len());
        assert(ws.take(ws.len() as int) =~= ws);
        let l = layout(ws, widest, per_row);
        lemma_line_pieces_newline(l);
        assert(l + seq!['\n'] =~= l.push('\n'));
        lemma_mod_succ(ws.len(), per_row);
        let r = ws.len() % per_row;
        assert(r * m + m <= per_row * m) by (nonlinear_arith)
            requires
                r < per_row,
        ;
        lemma_byte_len_empty();
    }
}

proof fn lemma_layout_words(ws: Seq<Seq<char>>, widest: nat, per_row: nat, k: nat)
    requires
        per_row > 0,
        k <= ws.len(),
        forall|j: int| 0 <= j < ws.len() ==> has_no_blank(#[trigger] ws[j]) && ws[j].len() > 0,
    ensures
        blank_pieces(layout(ws.take(k as int), widest, per_row)).len() >= 1,
        blank_pieces(layout(ws.take(k as int), widest, per_row)).last().len() == 0,
        non_empty(blank_pieces(layout(ws.take(k as int), widest, per_row))) == ws.take(k as int),
    decreases k,
{
    if k == 0 {
        assert(ws.take(0) =~= Seq::<Seq<char>>::empty());
        assert(layout(ws.take(0), widest, per_row) =~= Seq::<char>::empty());
        let p = blank_pieces(Seq::<char>::empty());
        assert(p.drop_last() =~= Seq::<Seq<char>>::empty());
        lemma_non_empty_split(p);
        assert(non_empty(Seq::<Seq<char>>::empty()) =~= Seq::<Seq<char>>::empty()) by {
            reveal(Seq::filter);
        }
    } else {
        lemma_layout_words(ws, widest, per_row, (k - 1) as nat);
        let t = ws.take(k as int);
        assert(t.drop_last() =~= ws.take(k - 1));
        let w = ws[k - 1];
        assert(t.last() == w);
        assert(has_no_blank(w) && w.len() > 0);
        let l = layout(ws.take(k - 1), widest, per_row);
        let p = blank_pieces(l);
        let g = word_gap(k, w, widest, per_row);
        assert(layout(t, widest, per_row) =~= (l + w) + g);
        assert(all_blank(g) && g.len() >= 1) by {
            if k % per_row != 0 {
                let n = (widest - byte_len(w)) as nat;
                assert forall|i: int| 0 <= i < g.len() implies white_space(#[trigger] g[i]) by {
                    if i < n {
                        assert(g[i] == spaces(n)[i]);
                    }
                }
            }
        }
        lemma_blank_pieces_extend(l, w);
        lemma_blank_pieces_len(l);
        let q = blank_pieces(l + w);
        assert(p.last() + w =~= w);
        assert(q.drop_last() =~= p.drop_last());
        assert(q.last() == w);
        lemma_non_empty_split(q);
        lemma_non_empty_split(p);
        lemma_blank_pieces_blank(l + w, g);
        lemma_non_empty_skips_empty(q, g.len());
        assert(ws.take(k - 1).push(w) =~= t);
    }
}

/// The layout keeps the text's words: the output has exactly the words of
/// the text, in order.
pub proof fn lemma_columns_keep_words(text: Seq<char>, width: u16)
    ensures
        columns_of(text, width) matches Ok(out) ==> words_of(out) == words_of(text),
{
    let ws = words_of(text);
    let per_row = columns_per_row(ws, width);
    if per_row > 0 {
        let widest = longest(ws);
        lemma_words_are_words(text);
        lemma_layout_words(ws, widest, per_row, ws.len());
        assert(ws.take(ws.len() as int) =~= ws);
        let l = layout(ws, widest, per_row);
        let g: Seq<char> = seq!['\n'];
        assert(all_blank(g));
        lemma_blank_pieces_blank(l, g);
        lemma_non_empty_skips_empty(blank_pieces(l), 1);
    }
}

fn push_spaces(out: &mut String, n: usize)
    ensures
        final(out)@ == old(out)@ + spaces(n as nat),
{
    let mut i: usize = 0;
    while i < n
        invariant
            i <= n,
            out@ == old(out)@ + spaces(i as nat),
        decreases n - i,
    {
        push_char(out, ' ');
        i += 1;
        assert(spaces(i as nat) =~= spaces((i - 1) as nat).push(' '));
    }
}

/// The largest of the word lengths `widths` (0 when there are none).
fn widest_of(ws: &Vec<Vec<char>>, widths: &Vec<usize>) -> (widest: usize)
    requires
        widths.len() == ws.len(),
        forall|i: int| 0 <= i < widths.len() ==> #[trigger] widths@[i] == byte_len(ws@[i]@),
    ensures
        widest == longest(char_seqs(ws@)),
        forall|i: int| 0 <= i < widths.len() ==> #[trigger] widths@[i] <= widest,
{
    let ghost wss = char_seqs(ws@);
    let mut widest: usize = 0;
    let mut j: usize = 0;
    assert(wss.take(0) =~= Seq::<Seq<char>>::empty());
    while j < ws.len()
        invariant
            j <= ws.len(),
            widths.len() == ws.len(),
            wss == char_seqs(ws@),
            forall|i: int| 0 <= i < widths.len() ==> #[trigger] widths@[i] == byte_len(ws@[i]@),
            widest == longest(wss.take(j as int)),
            forall|i: int| 0 <= i < j ==> #[trigger] widths@[i] <= widest,
        decreases ws.len() - j,
    {
        assert(wss.take(j + 1).drop_last() =~= wss.take(j as int));
        assert(wss.take(j + 1).last() == ws@[j as int]@);
        if widths[j] > widest {
            widest = widths[j];
        }
        j += 1;
    }
    assert(wss.take(j as int) =~= wss);
    widest
}

/// Lays the words of `text` out in columns that fit `width` bytes: each
/// column is the longest word's length plus one space wide, and a row
/// holds as many columns as fit.
pub fn columnize(text: &str, width: u16) -> (r: Result<String, ColumnizeError>)
    requires
        byte_len(text@) <= usize::MAX,
    ensures
        match columns_of(text@, width) {
            Ok(s) => r matches Ok(o) && o@ == s,
            Err(e) => r == Err::<String, ColumnizeError>(e),
        },
{
    let (ws, widths) = words(text);
    let ghost wss = words_of(text@);
    assert(wss == char_seqs(ws@));
    let widest = widest_of(&ws, &widths);
    let w = width as usize;
    let per_row: usize = if widest >= w {
        assert(w as nat / (widest as nat + 1) == 0) by (nonlinear_arith)
            requires
                w < widest + 1,
        ;
        0
    } else {
        w / (widest + 1)
    };
    assert(per_row == columns_per_row(wss, width));
    if per_row == 0 {
        return Err(ColumnizeError::TooNarrow);
    }
    let mut out = String::new();
    let mut k: usize = 0;
    while k < ws.len()
        invariant
            k <= ws.len(),
            widths.len() == ws.len(),
            wss == char_seqs(ws@),
            per_row > 0,
            forall|i: int| 0 <= i < widths.len() ==> #[trigger] widths@[i] == byte_len(ws@[i]@),
            forall|i: int| 0 <= i < ws.len() ==> #[trigger] widths@[i] <= widest,
            widest == longest(wss),
            out@ == layout(wss.take(k as int), widest as nat, per_row as nat),
        decreases ws.len() - k,
    {
        push_chars(&mut out, &ws[k]);
        if (k + 1) % per_row == 0 {
            push_char(&mut out, '\n');
        } else {
            push_spaces(&mut out, widest - widths[k]);
            push_char(&mut out, ' ');
        }
        proof {
            let t = wss.take(k + 1);
            assert(t.drop_last() =~= wss.take(k as int));
            assert(t.last() == ws@[k as int]@);
            assert(out@ =~= layout(t, widest as nat, per_row as nat));
        }
        k += 1;
    }
    assert(wss.take(k as int) =~= wss);
    push_char(&mut out, '\n');
    Ok(out)
}

// ------------------------------------------------------------------------
// Command line
// ------------------------------------------------------------------------

/// Why the command line is refused.
#[derive(Debug, Clone, Copy, PartialEq, Eq)]
pub enum ColArgError {
    /// The switch at this position is not `w` or `width`.
    UnknownSwitch(usize),
    /// The switch at this position has no value.
    ValueRequired(usize),
    /// The value at this position is not a 16-bit number.
    BadWidth(usize, IntErrorKind),
    /// There is neither a file name nor piped input.
    NoInput,
}

/// Reads the switches from the `k`-th on, `width` being the width so far;
/// the last width given wins.
pub open spec fn col_scan(swcs: Seq<String>, vals: Seq<String>, k: nat, width: u16) -> Result<
    u16,
    ColArgError,
>
    decreases swcs.len() - k,
{
    if k >= swcs.len() {
        Ok(width)
    } else {
        let s = swcs[k as int]@;
        let v = vals[k as int]@;
        if !(s == "w"@ || s == "width"@) {
            Err(ColArgError::UnknownSwitch(k as usize))
        } else if v.len() == 0 {
            Err(ColArgError::ValueRequired(k as usize))
        } else {
            match parse_uint(v, 65535) {
                Err(e) => Err(ColArgError::BadWidth(k as usize, e)),
                Ok(n) => col_scan(swcs, vals, k + 1, n as u16),
            }
        }
    }
}

/// What the command line amounts to: the width to lay the words out in.
pub open spec fn col_args(
    swcs: Seq<String>,
    vals: Seq<String>,
    default_width: u16,
    n_opts: nat,
    stdin_is_terminal: bool,
) -> Result<u16, ColArgError> {
    match col_scan(swcs, vals, 0, default_width) {
        Err(e) => Err(e),
        Ok(w) => if n_opts == 0 && stdin_is_terminal {
            Err(ColArgError::NoInput)
        } else {
            Ok(w)
        },
    }
}

/// Checks the switches and the input sources; on success, gives the width
/// (`default_width` unless a switch sets it).
pub fn parse_col_args(
    swcs: &Vec<String>,
    vals: &Vec<String>,
    default_width: u16,
    n_opts: usize,
    stdin_is_terminal: bool,
) -> (r: Result<u16, ColArgError>)
    requires
        vals.len() >= swcs.len(),
    ensures
        r == col_args(swcs@, vals@, default_width, n_opts as nat, stdin_is_terminal),
{
    let mut width = default_width;
    let mut k: usize = 0;
    while k < swcs.len()
        invariant
            k <= swcs.len(),
            vals.len() >= swcs.len(),
            col_scan(swcs@, vals@, 0, default_width) == col_scan(swcs@, vals@, k as nat, width),
        decreases swcs.len() - k,
    {
        let s = &swcs[k];
        let v = &vals[k];
        if !(eq_lit(s, "w") || eq_lit(s, "width")) {
            return Err(ColArgError::UnknownSwitch(k));
        }
        if v.as_str().is_empty() {
            return Err(ColArgError::ValueRequired(k));
        }
        match parse_unsigned(v.as_str(), 65535) {
            Err(e) => {
                return Err(ColArgError::BadWidth(k, e));
            },
            Ok(n) => {
                width = n as u16;
            },
        }
        k += 1;
    }
    if n_opts == 0 && stdin_is_terminal {
        return Err(ColArgError::NoInput);
    }
    Ok(width)
}

} // verus!

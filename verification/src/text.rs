//! Character-level building blocks shared by the tools: splitting a text
//! into lines and into words, UTF-8 widths, decimal numbers, and the
//! parsing of unsigned integers.
use vstd::prelude::*;
use vstd::utf8::encode_utf8;

verus! {

// ------------------------------------------------------------------------
// Strings
// ------------------------------------------------------------------------

/// Appends one character to a string; calls std's `String::push`, which
/// the documentation says appends the given char to the end of the string.
#[verifier::external_body]
pub(crate) fn push_char(s: &mut String, c: char)
    ensures
        final(s)@ == old(s)@.push(c),
{
    s.push(c);
}

/// Whether a character has Unicode's `White_Space` property (the 25 code
/// points of the Unicode Character Database's PropList), which is what
/// std's `char::is_whitespace` tests.
pub open spec fn white_space(c: char) -> bool {
    let u = c as u32;
    ||| 0x09 <= u <= 0x0D
    ||| u == 0x20
    ||| u == 0x85
    ||| u == 0xA0
    ||| u == 0x1680
    ||| 0x2000 <= u <= 0x200A
    ||| u == 0x2028
    ||| u == 0x2029
    ||| u == 0x202F
    ||| u == 0x205F
    ||| u == 0x3000
}

/// Whether `c` is a whitespace character.
pub fn is_white_space(c: char) -> (b: bool)
    ensures
        b == white_space(c),
{
    let u = c as u32;
    (0x09 <= u && u <= 0x0D) || u == 0x20 || u == 0x85 || u == 0xA0 || u == 0x1680 || (0x2000
        <= u && u <= 0x200A) || u == 0x2028 || u == 0x2029 || u == 0x202F || u == 0x205F || u
        == 0x3000
}

/// The characters of a text, in order.
pub fn chars_of(text: &str) -> (v: Vec<char>)
    ensures
        v@ == text@,
{
    let mut v: Vec<char> = Vec::new();
    for c in it: text.chars()
        invariant
            v@ == it.seq().take(it.index() as int),
            it.seq() == text@,
    {
        v.push(c);
    }
    v
}

/// Appends every character of `v` to `out`.
pub fn push_chars(out: &mut String, v: &Vec<char>)
    ensures
        final(out)@ == old(out)@ + v@,
{
    let mut i: usize = 0;
    while i < v.len()
        invariant
            0 <= i <= v.len(),
            out@ == old(out)@ + v@.take(i as int),
        decreases v.len() - i,
    {
        push_char(out, v[i]);
        i += 1;
        assert(v@.take(i as int) =~= v@.take(i - 1).push(v@[i - 1]));
    }
    assert(v@.take(v.len() as int) =~= v@);
}

/// A new string holding the characters of `v`.
pub fn string_of(v: &Vec<char>) -> (s: String)
    ensures
        s@ == v@,
{
    let mut s = String::new();
    push_chars(&mut s, v);
    s
}

/// Whether the string `s` spells the literal `lit`.
pub fn eq_lit(s: &String, lit: &str) -> (b: bool)
    ensures
        b == (s@ == lit@),
{
    let l = String::from_str(lit);
    *s == l
}

/// The views of a sequence of character vectors.
pub open spec fn char_seqs(v: Seq<Vec<char>>) -> Seq<Seq<char>> {
    v.map_values(|w: Vec<char>| w@)
}

/// A run of `n` spaces.
pub open spec fn spaces(n: nat) -> Seq<char> {
    Seq::new(n, |i: int| ' ')
}

// ------------------------------------------------------------------------
// Lines, as std's `str::lines` yields them
// ------------------------------------------------------------------------

/// The pieces of `s` between its `'\n'` characters (there is always one
/// more piece than there are newlines).
pub open spec fn line_pieces(s: Seq<char>) -> Seq<Seq<char>>
    decreases s.len(),
{
    if s.len() == 0 {
        seq![Seq::<char>::empty()]
    } else {
        let p = line_pieces(s.drop_last());
        if s.last() == '\n' {
            p.push(Seq::<char>::empty())
        } else {
            p.update(p.len() - 1, p[p.len() - 1].push(s.last()))
        }
    }
}

/// A line without the `'\r'` that ended it, if any.
pub open spec fn strip_cr(l: Seq<char>) -> Seq<char> {
    if l.len() > 0 && l.last() == '\r' {
        l.drop_last()
    } else {
        l
    }
}

/// The lines of a text: it is split at each `'\n'`, a `'\r'` just before
/// a `'\n'` is dropped with it, and a final line ending yields no empty
/// last line.
pub open spec fn lines_of(s: Seq<char>) -> Seq<Seq<char>> {
    let p = line_pieces(s);
    let n: int = if p.last().len() == 0 { p.len() - 1 } else { p.len() as int };
    Seq::new(n as nat, |i: int| if i < p.len() - 1 { strip_cr(p[i]) } else { p[i] })
}

pub proof fn lemma_line_pieces_len(s: Seq<char>)
    ensures
        line_pieces(s).len() >= 1,
    decreases s.len(),
{
    if s.len() > 0 {
        lemma_line_pieces_len(s.drop_last());
    }
}

/// A final line ending adds no line: a text that is not empty and does not
/// end in `'\n'` or `'\r'` has the same lines once `"\n"` or `"\r\n"` is
/// appended to it.
pub proof fn lemma_final_line_ending(s: Seq<char>)
    requires
        s.len() > 0,
        s.last() != '\n',
        s.last() != '\r',
    ensures
        lines_of(s.push('\n')) == lines_of(s),
        lines_of(s.push('\r').push('\n')) == lines_of(s),
{
    lemma_line_pieces_len(s.drop_last());
    let p = line_pieces(s);
    let q = line_pieces(s.drop_last());
    assert(p == q.update(q.len() - 1, q[q.len() - 1].push(s.last())));
    assert(p.len() == q.len());
    assert(p.last() == q.last().push(s.last()));
    assert(s.push('\n').drop_last() =~= s);
    assert(line_pieces(s.push('\n')) == p.push(Seq::<char>::empty()));
    assert(lines_of(s.push('\n')) =~= lines_of(s));
    let s2 = s.push('\r');
    assert(s2.drop_last() =~= s);
    let p2 = line_pieces(s2);
    assert(p2 == p.update(p.len() - 1, p.last().push('\r')));
    assert(s2.push('\n').drop_last() =~= s2);
    assert(line_pieces(s2.push('\n')) == p2.push(Seq::<char>::empty()));
    assert(p.last().push('\r').drop_last() =~= p.last());
    assert(lines_of(s2.push('\n')) =~= lines_of(s));
}

/// How many times `c` occurs in `s`.
pub open spec fn occurrences(s: Seq<char>, c: char) -> nat
    decreases s.len(),
{
    if s.len() == 0 {
        0
    } else {
        occurrences(s.drop_last(), c) + if s.last() == c {
            1nat
        } else {
            0nat
        }
    }
}

pub proof fn lemma_occurrences_add(a: Seq<char>, b: Seq<char>, c: char)
    ensures
        occurrences(a + b, c) == occurrences(a, c) + occurrences(b, c),
    decreases b.len(),
{
    if b.len() == 0 {
        assert(a + b =~= a);
    } else {
        lemma_occurrences_add(a, b.drop_last(), c);
        assert((a + b).drop_last() =~= a + b.drop_last());
    }
}

pub proof fn lemma_occurrences_drop_last(s: Seq<char>, c: char)
    requires
        s.len() > 0,
    ensures
        occurrences(s.drop_last(), c) <= occurrences(s, c),
{
}

proof fn lemma_line_pieces_no_newline(s: Seq<char>)
    ensures
        forall|j: int|
            0 <= j < line_pieces(s).len() ==> occurrences(#[trigger] line_pieces(s)[j], '\n') == 0,
    decreases s.len(),
{
    if s.len() > 0 {
        lemma_line_pieces_no_newline(s.drop_last());
        lemma_line_pieces_len(s.drop_last());
        let p = line_pieces(s.drop_last());
        if s.last() != '\n' {
            let l = p[p.len() - 1].push(s.last());
            assert(l.drop_last() =~= p[p.len() - 1]);
            assert(occurrences(l, '\n') == 0);
        } else {
            assert(occurrences(Seq::<char>::empty(), '\n') == 0);
        }
    }
}

/// No line holds a newline.
pub proof fn lemma_lines_no_newline(s: Seq<char>)
    ensures
        forall|j: int|
            0 <= j < lines_of(s).len() ==> occurrences(#[trigger] lines_of(s)[j], '\n') == 0,
{
    lemma_line_pieces_no_newline(s);
    lemma_line_pieces_len(s);
    let p = line_pieces(s);
    assert forall|j: int| 0 <= j < lines_of(s).len() implies occurrences(
        #[trigger] lines_of(s)[j],
        '\n',
    ) == 0 by {
        assert(j < p.len());
        assert(occurrences(line_pieces(s)[j], '\n') == 0);
        if p[j].len() > 0 && p[j].last() == '\r' {
            lemma_occurrences_drop_last(p[j], '\n');
        }
    }
}

/// A decimal number holds no newline.
pub proof fn lemma_decimal_no_newline(n: nat)
    ensures
        occurrences(decimal(n), '\n') == 0,
    decreases n,
{
    lemma_digit_char(n % 10);
    assert(digit_char(n % 10) != '\n');
    if n < 10 {
        assert(decimal(n).drop_last() =~= Seq::<char>::empty());
        assert(decimal(n).last() == digit_char(n % 10));
        assert(occurrences(Seq::<char>::empty(), '\n') == 0);
    } else {
        lemma_decimal_no_newline(n / 10);
        assert(decimal(n).drop_last() =~= decimal(n / 10));
        assert(decimal(n).last() == digit_char(n % 10));
    }
}

/// Appending characters other than newlines extends the last piece.
pub proof fn lemma_line_pieces_extend(a: Seq<char>, b: Seq<char>)
    requires
        occurrences(b, '\n') == 0,
    ensures
        line_pieces(a + b).len() == line_pieces(a).len(),
        line_pieces(a + b) == line_pieces(a).update(
            line_pieces(a).len() - 1,
            line_pieces(a).last() + b,
        ),
    decreases b.len(),
{
    lemma_line_pieces_len(a);
    let p = line_pieces(a);
    if b.len() == 0 {
        assert(a + b =~= a);
        assert(p.last() + b =~= p.last());
        assert(p.update(p.len() - 1, p.last() + b) =~= p);
    } else {
        lemma_occurrences_drop_last(b, '\n');
        lemma_line_pieces_extend(a, b.drop_last());
        assert((a + b).drop_last() =~= a + b.drop_last());
        assert((a + b).last() == b.last());
        assert(b.last() != '\n');
        let q = line_pieces(a + b.drop_last());
        assert(q.len() == p.len());
        assert(q.last() == p.last() + b.drop_last());
        assert(line_pieces(a + b) == q.update(q.len() - 1, q[q.len() - 1].push(b.last())));
        assert(p.last() + b.drop_last() + seq![b.last()] =~= p.last() + b);
        assert(q[q.len() - 1].push(b.last()) =~= p.last() + b);
        assert forall|i: int| 0 <= i < p.len() - 1 implies q[i] == p[i] by {
            assert(q == p.update(p.len() - 1, p.last() + b.drop_last()));
        }
        assert(line_pieces(a + b) =~= p.update(p.len() - 1, p.last() + b));
    }
}

/// Appending a newline starts a new, empty piece.
pub proof fn lemma_line_pieces_newline(a: Seq<char>)
    ensures
        line_pieces(a.push('\n')) == line_pieces(a).push(Seq::<char>::empty()),
{
    assert(a.push('\n').drop_last() =~= a);
}

proof fn lemma_blank_pieces_no_newline(s: Seq<char>)
    ensures
        forall|j: int|
            0 <= j < blank_pieces(s).len() ==> occurrences(#[trigger] blank_pieces(s)[j], '\n')
                == 0,
    decreases s.len(),
{
    if s.len() > 0 {
        lemma_blank_pieces_no_newline(s.drop_last());
        lemma_blank_pieces_len(s.drop_last());
        let p = blank_pieces(s.drop_last());
        if !white_space(s.last()) {
            assert(s.last() != '\n');
            let l = p[p.len() - 1].push(s.last());
            assert(l.drop_last() =~= p[p.len() - 1]);
            assert(occurrences(l, '\n') == 0);
        } else {
            assert(occurrences(Seq::<char>::empty(), '\n') == 0);
        }
    }
}

proof fn lemma_non_empty_keeps(p: Seq<Seq<char>>)
    requires
        forall|j: int| 0 <= j < p.len() ==> occurrences(#[trigger] p[j], '\n') == 0,
    ensures
        forall|j: int|
            0 <= j < non_empty(p).len() ==> occurrences(#[trigger] non_empty(p)[j], '\n') == 0,
    decreases p.len(),
{
    if p.len() == 0 {
        assert(non_empty(p) =~= Seq::<Seq<char>>::empty()) by {
            reveal(Seq::filter);
        }
    } else {
        let init = p.drop_last();
        assert forall|j: int| 0 <= j < init.len() implies occurrences(#[trigger] init[j], '\n')
            == 0 by {
            assert(init[j] == p[j]);
        }
        lemma_non_empty_keeps(init);
        lemma_non_empty_split(p);
    }
}

/// No word holds a newline.
pub proof fn lemma_words_no_newline(s: Seq<char>)
    ensures
        forall|j: int|
            0 <= j < words_of(s).len() ==> occurrences(#[trigger] words_of(s)[j], '\n') == 0,
{
    lemma_blank_pieces_no_newline(s);
    lemma_non_empty_keeps(blank_pieces(s));
}

/// The lines of a text, each as its characters.
pub fn lines(text: &str) -> (r: Vec<Vec<char>>)
    ensures
        char_seqs(r@) == lines_of(text@),
{
    let cs = chars_of(text);
    let mut done: Vec<Vec<char>> = Vec::new();
    let mut cur: Vec<char> = Vec::new();
    let mut i: usize = 0;
    proof {
        assert(cs@.take(0) =~= Seq::<char>::empty());
    }
    while i < cs.len()
        invariant
            0 <= i <= cs.len(),
            cs@ == text@,
            line_pieces(cs@.take(i as int)).len() >= 1,
            done.len() == line_pieces(cs@.take(i as int)).len() - 1,
            forall|j: int|
                0 <= j < done.len() ==> #[trigger] done@[j]@ == strip_cr(
                    line_pieces(cs@.take(i as int))[j],
                ),
            cur@ == line_pieces(cs@.take(i as int)).last(),
        decreases cs.len() - i,
    {
        let c = cs[i];
        let ghost p = line_pieces(cs@.take(i as int));
        proof {
            assert(cs@.take(i + 1).drop_last() =~= cs@.take(i as int));
            assert(cs@.take(i + 1).last() == c);
        }
        if c == '\n' {
            let mut l = cur;
            if l.len() > 0 && l[l.len() - 1] == '\r' {
                l.pop();
                assert(l@ =~= strip_cr(p.last()));
            }
            done.push(l);
            cur = Vec::new();
        } else {
            cur.push(c);
        }
        i += 1;
        proof {
            lemma_line_pieces_len(cs@.take(i as int));
        }
    }
    proof {
        assert(cs@.take(i as int) =~= cs@);
    }
    if cur.len() > 0 {
        done.push(cur);
    }
    assert(char_seqs(done@) =~= lines_of(text@));
    done
}

// ------------------------------------------------------------------------
// Words, as std's `str::split_whitespace` yields them
// ------------------------------------------------------------------------

/// The pieces of `s` between its whitespace characters.
pub open spec fn blank_pieces(s: Seq<char>) -> Seq<Seq<char>>
    decreases s.len(),
{
    if s.len() == 0 {
        seq![Seq::<char>::empty()]
    } else {
        let p = blank_pieces(s.drop_last());
        if white_space(s.last()) {
            p.push(Seq::<char>::empty())
        } else {
            p.update(p.len() - 1, p[p.len() - 1].push(s.last()))
        }
    }
}

/// The non-empty members of a sequence of pieces.
pub open spec fn non_empty(p: Seq<Seq<char>>) -> Seq<Seq<char>> {
    p.filter(|w: Seq<char>| w.len() > 0)
}

/// The words of a text: its maximal runs of non-whitespace characters.
pub open spec fn words_of(s: Seq<char>) -> Seq<Seq<char>> {
    non_empty(blank_pieces(s))
}

pub proof fn lemma_blank_pieces_len(s: Seq<char>)
    ensures
        blank_pieces(s).len() >= 1,
    decreases s.len(),
{
    if s.len() > 0 {
        lemma_blank_pieces_len(s.drop_last());
    }
}

pub proof fn lemma_non_empty_split(p: Seq<Seq<char>>)
    requires
        p.len() >= 1,
    ensures
        non_empty(p) == if p.last().len() > 0 {
            non_empty(p.drop_last()).push(p.last())
        } else {
            non_empty(p.drop_last())
        },
{
    assert(p =~= p.drop_last().push(p.last()));
    p.drop_last().lemma_filter_push(p.last(), |w: Seq<char>| w.len() > 0);
}

/// Whether no character of `w` is whitespace.
pub open spec fn has_no_blank(w: Seq<char>) -> bool {
    forall|i: int| 0 <= i < w.len() ==> !white_space(#[trigger] w[i])
}

/// Whether every character of `g` is whitespace.
pub open spec fn all_blank(g: Seq<char>) -> bool {
    forall|i: int| 0 <= i < g.len() ==> white_space(#[trigger] g[i])
}

/// `n` empty pieces.
pub open spec fn empty_pieces(n: nat) -> Seq<Seq<char>> {
    Seq::new(n, |i: int| Seq::<char>::empty())
}

/// Appending characters that are not whitespace extends the last piece.
pub proof fn lemma_blank_pieces_extend(a: Seq<char>, b: Seq<char>)
    requires
        has_no_blank(b),
    ensures
        blank_pieces(a + b).len() == blank_pieces(a).len(),
        blank_pieces(a + b) == blank_pieces(a).update(
            blank_pieces(a).len() - 1,
            blank_pieces(a).last() + b,
        ),
    decreases b.len(),
{
    lemma_blank_pieces_len(a);
    let p = blank_pieces(a);
    if b.len() == 0 {
        assert(a + b =~= a);
        assert(p.last() + b =~= p.last());
        assert(p.update(p.len() - 1, p.last() + b) =~= p);
    } else {
        lemma_blank_pieces_extend(a, b.drop_last());
        assert((a + b).drop_last() =~= a + b.drop_last());
        assert((a + b).last() == b.last());
        assert(!white_space(b[b.len() - 1]));
        let q = blank_pieces(a + b.drop_last());
        assert(q.len() == p.len());
        assert(blank_pieces(a + b) == q.update(q.len() - 1, q[q.len() - 1].push(b.last())));
        assert(q[q.len() - 1].push(b.last()) =~= p.last() + b);
        assert forall|i: int| 0 <= i < p.len() - 1 implies q[i] == p[i] by {
            assert(q == p.update(p.len() - 1, p.last() + b.drop_last()));
        }
        assert(blank_pieces(a + b) =~= p.update(p.len() - 1, p.last() + b));
    }
}

/// Appending whitespace adds one empty piece per character.
pub proof fn lemma_blank_pieces_blank(a: Seq<char>, g: Seq<char>)
    requires
        all_blank(g),
    ensures
        blank_pieces(a + g) == blank_pieces(a) + empty_pieces(g.len()),
    decreases g.len(),
{
    if g.len() == 0 {
        assert(a + g =~= a);
        assert(blank_pieces(a) + empty_pieces(0) =~= blank_pieces(a));
    } else {
        lemma_blank_pieces_blank(a, g.drop_last());
        assert((a + g).drop_last() =~= a + g.drop_last());
        assert((a + g).last() == g.last());
        assert(white_space(g[g.len() - 1]));
        assert(blank_pieces(a) + empty_pieces(g.len()) =~= (blank_pieces(a) + empty_pieces(
            (g.len() - 1) as nat,
        )).push(Seq::<char>::empty()));
    }
}

/// Empty pieces add no word.
pub proof fn lemma_non_empty_skips_empty(p: Seq<Seq<char>>, n: nat)
    ensures
        non_empty(p + empty_pieces(n)) == non_empty(p),
    decreases n,
{
    if n == 0 {
        assert(p + empty_pieces(0) =~= p);
    } else {
        lemma_non_empty_skips_empty(p, (n - 1) as nat);
        let q = p + empty_pieces(n);
        assert(q.drop_last() =~= p + empty_pieces((n - 1) as nat));
        lemma_non_empty_split(q);
    }
}

proof fn lemma_blank_pieces_no_blank(s: Seq<char>)
    ensures
        forall|j: int|
            0 <= j < blank_pieces(s).len() ==> has_no_blank(#[trigger] blank_pieces(s)[j]),
    decreases s.len(),
{
    if s.len() > 0 {
        lemma_blank_pieces_no_blank(s.drop_last());
        lemma_blank_pieces_len(s.drop_last());
        let p = blank_pieces(s.drop_last());
        if !white_space(s.last()) {
            let l = p[p.len() - 1].push(s.last());
            assert(has_no_blank(p[p.len() - 1]));
            assert forall|i: int| 0 <= i < l.len() implies !white_space(#[trigger] l[i]) by {
                if i < l.len() - 1 {
                    assert(l[i] == p[p.len() - 1][i]);
                }
            }
        }
    }
}

proof fn lemma_non_empty_words(p: Seq<Seq<char>>)
    requires
        forall|j: int| 0 <= j < p.len() ==> has_no_blank(#[trigger] p[j]),
    ensures
        forall|j: int|
            0 <= j < non_empty(p).len() ==> has_no_blank(#[trigger] non_empty(p)[j])
                && non_empty(p)[j].len() > 0,
    decreases p.len(),
{
    if p.len() == 0 {
        assert(non_empty(p) =~= Seq::<Seq<char>>::empty()) by {
            reveal(Seq::filter);
        }
    } else {
        let init = p.drop_last();
        assert forall|j: int| 0 <= j < init.len() implies has_no_blank(#[trigger] init[j]) by {
            assert(init[j] == p[j]);
        }
        lemma_non_empty_words(init);
        lemma_non_empty_split(p);
    }
}

/// Every word is non-empty and holds no whitespace.
pub proof fn lemma_words_are_words(s: Seq<char>)
    ensures
        forall|j: int|
            0 <= j < words_of(s).len() ==> has_no_blank(#[trigger] words_of(s)[j])
                && words_of(s)[j].len() > 0,
{
    lemma_blank_pieces_no_blank(s);
    lemma_non_empty_words(blank_pieces(s));
}

// ------------------------------------------------------------------------
// UTF-8 widths
// ------------------------------------------------------------------------

/// The number of bytes of the UTF-8 encoding of a character sequence,
/// which is what std's `str::len` returns.
pub open spec fn byte_len(w: Seq<char>) -> nat {
    encode_utf8(w).len()
}

/// The number of bytes that encode one character in UTF-8.
pub open spec fn char_width(c: char) -> nat {
    if (c as u32) < 0x80 {
        1
    } else if (c as u32) < 0x800 {
        2
    } else if (c as u32) < 0x10000 {
        3
    } else {
        4
    }
}

pub proof fn lemma_byte_len_push(w: Seq<char>, c: char)
    ensures
        byte_len(w.push(c)) == byte_len(w) + char_width(c),
    decreases w.len(),
{
    broadcast use vstd::utf8::char_is_scalar;

    if w.len() == 0 {
        assert(w.push(c).drop_first() =~= Seq::<char>::empty());
        assert(encode_utf8(Seq::<char>::empty()) =~= Seq::<u8>::empty());
        let u = c as u32;
        assert(vstd::utf8::is_scalar(u));
    } else {
        lemma_byte_len_push(w.drop_first(), c);
        assert(w.push(c).drop_first() =~= w.drop_first().push(c));
        assert(w.push(c)[0] == w[0]);
    }
}

pub proof fn lemma_byte_len_empty()
    ensures
        byte_len(Seq::<char>::empty()) == 0,
{
}

/// The UTF-8 length of a concatenation is the sum of the lengths.
pub proof fn lemma_byte_len_add(a: Seq<char>, b: Seq<char>)
    ensures
        byte_len(a + b) == byte_len(a) + byte_len(b),
    decreases b.len(),
{
    if b.len() == 0 {
        assert(a + b =~= a);
        lemma_byte_len_empty();
    } else {
        lemma_byte_len_add(a, b.drop_last());
        assert(a + b =~= (a + b.drop_last()).push(b.last()));
        assert(b =~= b.drop_last().push(b.last()));
        lemma_byte_len_push(a + b.drop_last(), b.last());
        lemma_byte_len_push(b.drop_last(), b.last());
    }
}

/// A run of spaces is one byte per space, and holds no newline.
pub proof fn lemma_spaces(n: nat)
    ensures
        byte_len(spaces(n)) == n,
        occurrences(spaces(n), '\n') == 0,
    decreases n,
{
    if n == 0 {
        assert(spaces(0) =~= Seq::<char>::empty());
        lemma_byte_len_empty();
    } else {
        lemma_spaces((n - 1) as nat);
        assert(spaces(n) =~= spaces((n - 1) as nat).push(' '));
        assert(spaces(n).drop_last() =~= spaces((n - 1) as nat));
        lemma_byte_len_push(spaces((n - 1) as nat), ' ');
    }
}

/// The number of bytes that encode `c` in UTF-8.
pub fn utf8_width(c: char) -> (n: usize)
    ensures
        n == char_width(c),
{
    let u = c as u32;
    if u < 0x80 {
        1
    } else if u < 0x800 {
        2
    } else if u < 0x10000 {
        3
    } else {
        4
    }
}

pub proof fn lemma_byte_len_prefix(s: Seq<char>, i: int)
    requires
        0 <= i <= s.len(),
    ensures
        byte_len(s.take(i)) <= byte_len(s),
    decreases s.len() - i,
{
    if i < s.len() {
        lemma_byte_len_prefix(s, i + 1);
        assert(s.take(i + 1) =~= s.take(i).push(s[i]));
        lemma_byte_len_push(s.take(i), s[i]);
    } else {
        assert(s.take(i) =~= s);
    }
}

/// The words of a text, each with its length in UTF-8 bytes.
pub fn words(text: &str) -> (r: (Vec<Vec<char>>, Vec<usize>))
    requires
        byte_len(text@) <= usize::MAX,
    ensures
        char_seqs(r.0@) == words_of(text@),
        r.1.len() == r.0.len(),
        forall|j: int| 0 <= j < r.1.len() ==> #[trigger] r.1@[j] == byte_len(r.0@[j]@),
{
    let cs = chars_of(text);
    let mut done: Vec<Vec<char>> = Vec::new();
    let mut widths: Vec<usize> = Vec::new();
    let mut cur: Vec<char> = Vec::new();
    let mut cur_bytes: usize = 0;
    let mut i: usize = 0;
    proof {
        assert(cs@.take(0) =~= Seq::<char>::empty());
        assert(cur@ =~= Seq::<char>::empty());
        lemma_byte_len_empty();
    }
    while i < cs.len()
        invariant
            0 <= i <= cs.len(),
            cs@ == text@,
            byte_len(cs@) <= usize::MAX,
            blank_pieces(cs@.take(i as int)).len() >= 1,
            char_seqs(done@) == non_empty(blank_pieces(cs@.take(i as int)).drop_last()),
            widths.len() == done.len(),
            forall|j: int| 0 <= j < widths.len() ==> #[trigger] widths@[j] == byte_len(done@[j]@),
            cur@ == blank_pieces(cs@.take(i as int)).last(),
            cur_bytes == byte_len(cur@),
            cur_bytes <= byte_len(cs@.take(i as int)),
        decreases cs.len() - i,
    {
        let c = cs[i];
        let ghost p = blank_pieces(cs@.take(i as int));
        proof {
            assert(cs@.take(i + 1).drop_last() =~= cs@.take(i as int));
            assert(cs@.take(i + 1) =~= cs@.take(i as int).push(c));
            lemma_byte_len_push(cs@.take(i as int), c);
            lemma_byte_len_prefix(cs@, i + 1);
            lemma_non_empty_split(p);
        }
        if is_white_space(c) {
            if cur.len() > 0 {
                let ghost before = char_seqs(done@);
                let w = cur;
                done.push(w);
                widths.push(cur_bytes);
                assert(char_seqs(done@) =~= before.push(p.last()));
            }
            cur = Vec::new();
            cur_bytes = 0;
            proof {
                let p2 = blank_pieces(cs@.take(i + 1));
                assert(p2 == p.push(Seq::<char>::empty()));
                assert(p2.drop_last() =~= p);
                assert(cur@ =~= Seq::<char>::empty());
                lemma_byte_len_empty();
            }
        } else {
            proof {
                lemma_byte_len_push(cur@, c);
            }
            cur.push(c);
            cur_bytes = cur_bytes + utf8_width(c);
            proof {
                let p2 = blank_pieces(cs@.take(i + 1));
                assert(p2.drop_last() =~= p.drop_last());
            }
        }
        i += 1;
        proof {
            lemma_blank_pieces_len(cs@.take(i as int));
        }
    }
    proof {
        assert(cs@.take(i as int) =~= cs@);
        lemma_non_empty_split(blank_pieces(cs@));
    }
    let ghost before = char_seqs(done@);
    if cur.len() > 0 {
        done.push(cur);
        widths.push(cur_bytes);
        assert(char_seqs(done@) =~= before.push(blank_pieces(cs@).last()));
    }
    (done, widths)
}

// ------------------------------------------------------------------------
// Decimal numbers
// ------------------------------------------------------------------------

/// The character of a decimal digit.
pub open spec fn digit_char(d: nat) -> char {
    (d + 48) as char
}

/// The decimal representation of `n`, without leading zeros.
pub open spec fn decimal(n: nat) -> Seq<char>
    decreases n,
{
    if n < 10 {
        seq![digit_char(n)]
    } else {
        decimal(n / 10).push(digit_char(n % 10))
    }
}

/// Appends the decimal representation of `n` to `out`.
pub fn push_decimal(out: &mut String, n: usize)
    ensures
        final(out)@ == old(out)@ + decimal(n as nat),
    decreases n,
{
    if n >= 10 {
        push_decimal(out, n / 10);
    }
    let d: u8 = (n % 10) as u8;
    let c: char = (d + 48u8) as char;
    push_char(out, c);
}

// ------------------------------------------------------------------------
// Unsigned integers, as std's `str::parse` reads them
// ------------------------------------------------------------------------

/// Why a text is not an unsigned number; the names are those of std's
/// `IntErrorKind`.
#[derive(Debug, Clone, Copy, PartialEq, Eq)]
pub enum IntErrorKind {
    Empty,
    InvalidDigit,
    PosOverflow,
}

pub open spec fn is_digit(c: char) -> bool {
    '0' <= c <= '9'
}

pub open spec fn digit_value(c: char) -> nat {
    ((c as u32) - 48) as nat
}

/// Reads the digits `d` after the value `acc` already read, left to right:
/// the first non-digit is an invalid digit, and a value above `max` an
/// overflow.
pub open spec fn scan_digits(d: Seq<char>, acc: nat, max: nat) -> Result<nat, IntErrorKind>
    decreases d.len(),
{
    if d.len() == 0 {
        Ok(acc)
    } else if !is_digit(d[0]) {
        Err(IntErrorKind::InvalidDigit)
    } else if acc * 10 + digit_value(d[0]) > max {
        Err(IntErrorKind::PosOverflow)
    } else {
        scan_digits(d.drop_first(), acc * 10 + digit_value(d[0]), max)
    }
}

/// The unsigned number that `s` spells, at most `max`: an optional `'+'`
/// followed by at least one decimal digit.
pub open spec fn parse_uint(s: Seq<char>, max: nat) -> Result<nat, IntErrorKind> {
    if s.len() == 0 {
        Err(IntErrorKind::Empty)
    } else if s[0] == '+' {
        if s.len() == 1 {
            Err(IntErrorKind::InvalidDigit)
        } else {
            scan_digits(s.drop_first(), 0, max)
        }
    } else {
        scan_digits(s, 0, max)
    }
}

proof fn lemma_scan_push(a: Seq<char>, c: char, acc: nat, max: nat, m: nat)
    requires
        scan_digits(a, acc, max) == Ok::<nat, IntErrorKind>(m),
        is_digit(c),
        m * 10 + digit_value(c) <= max,
    ensures
        scan_digits(a.push(c), acc, max) == Ok::<nat, IntErrorKind>(m * 10 + digit_value(c)),
    decreases a.len(),
{
    if a.len() == 0 {
        assert(m == acc);
        assert(a.push(c).drop_first() =~= Seq::<char>::empty());
        assert(a.push(c)[0] == c);
        assert(scan_digits(Seq::<char>::empty(), acc * 10 + digit_value(c), max) == Ok::<
            nat,
            IntErrorKind,
        >(acc * 10 + digit_value(c)));
    } else {
        assert(a.push(c)[0] == a[0]);
        assert(a.push(c).drop_first() =~= a.drop_first().push(c));
        assert(is_digit(a[0]));
        assert(acc * 10 + digit_value(a[0]) <= max);
        assert(scan_digits(a.drop_first(), acc * 10 + digit_value(a[0]), max) == Ok::<
            nat,
            IntErrorKind,
        >(m));
        lemma_scan_push(a.drop_first(), c, acc * 10 + digit_value(a[0]), max, m);
    }
}

proof fn lemma_digit_char(d: nat)
    requires
        d < 10,
    ensures
        is_digit(digit_char(d)),
        digit_value(digit_char(d)) == d,
        digit_char(d) != '+',
        digit_char(d) != '\n',
{
    let c = digit_char(d);
    assert((c as u32) == d + 48);
}

/// How often `c` occurs in a one-character sequence.
pub proof fn lemma_occurrences_single(x: char, c: char)
    ensures
        occurrences(seq![x], c) == if x == c {
            1nat
        } else {
            0nat
        },
{
    let s = seq![x];
    assert(s.drop_last() =~= Seq::<char>::empty());
    assert(occurrences(s.drop_last(), c) == 0);
    assert(s.last() == x);
}

proof fn lemma_decimal_digits(n: nat, max: nat)
    requires
        n <= max,
    ensures
        decimal(n).len() > 0,
        decimal(n)[0] != '+',
        scan_digits(decimal(n), 0, max) == Ok::<nat, IntErrorKind>(n),
    decreases n,
{
    lemma_digit_char(n % 10);
    if n < 10 {
        let d = decimal(n);
        assert(d.drop_first() =~= Seq::<char>::empty());
        assert(is_digit(d[0]));
        assert(scan_digits(d.drop_first(), digit_value(d[0]), max) == Ok::<nat, IntErrorKind>(n));
    } else {
        lemma_decimal_digits(n / 10, max);
        let c = digit_char(n % 10);
        assert(digit_value(c) == n % 10);
        assert((n / 10) * 10 + n % 10 == n);
        lemma_scan_push(decimal(n / 10), c, 0, max, n / 10);
        assert(decimal(n)[0] == decimal(n / 10)[0]);
    }
}

/// A decimal number is made of digits only, and has no leading zero.
pub proof fn lemma_decimal_shape(n: nat)
    ensures
        decimal(n).len() >= 1,
        forall|i: int| 0 <= i < decimal(n).len() ==> is_digit(#[trigger] decimal(n)[i]),
        n > 0 ==> decimal(n)[0] != '0',
    decreases n,
{
    lemma_digit_char(n % 10);
    if n < 10 {
        let c = digit_char(n);
        assert(decimal(n)[0] == c);
        assert((c as u32) == n + 48);
    } else {
        lemma_decimal_shape(n / 10);
        let d = decimal(n);
        assert forall|i: int| 0 <= i < d.len() implies is_digit(#[trigger] d[i]) by {
            if i < d.len() - 1 {
                assert(d[i] == decimal(n / 10)[i]);
            }
        }
        assert(d[0] == decimal(n / 10)[0]);
    }
}

/// A number written in decimal reads back as itself.
pub proof fn lemma_decimal_parses(n: nat, max: nat)
    requires
        n <= max,
    ensures
        parse_uint(decimal(n), max) == Ok::<nat, IntErrorKind>(n),
{
    lemma_decimal_digits(n, max);
}

/// Reads `s` as an unsigned decimal number of at most `max`.
pub fn parse_unsigned(s: &str, max: usize) -> (r: Result<usize, IntErrorKind>)
    ensures
        match parse_uint(s@, max as nat) {
            Ok(n) => r == Ok::<usize, IntErrorKind>(n as usize) && n <= max,
            Err(e) => r == Err::<usize, IntErrorKind>(e),
        },
{
    let cs = chars_of(s);
    if cs.len() == 0 {
        return Err(IntErrorKind::Empty);
    }
    let mut i: usize = 0;
    if cs[0] == '+' {
        if cs.len() == 1 {
            return Err(IntErrorKind::InvalidDigit);
        }
        i = 1;
    }
    let ghost d0 = cs@.skip(i as int);
    assert(cs[0] == '+' ==> d0 =~= cs@.drop_first());
    assert(cs[0] != '+' ==> d0 =~= cs@);
    assert(parse_uint(s@, max as nat) == scan_digits(d0, 0, max as nat));
    let mut acc: usize = 0;
    while i < cs.len()
        invariant
            i <= cs.len(),
            acc <= max,
            parse_uint(s@, max as nat) == scan_digits(cs@.skip(i as int), acc as nat, max as nat),
        decreases cs.len() - i,
    {
        let c = cs[i];
        let ghost rest = cs@.skip(i as int);
        assert(rest[0] == c);
        assert(rest.drop_first() =~= cs@.skip(i + 1));
        if !('0' <= c && c <= '9') {
            return Err(IntErrorKind::InvalidDigit);
        }
        let v: usize = ((c as u32) - 48) as usize;
        if v > max || acc > (max - v) / 10 {
            assert(acc * 10 + v > max) by (nonlinear_arith)
                requires
                    v > max || acc > (max - v) / 10,
                    v <= max ==> (max - v) / 10 * 10 + 10 > max - v,
            ;
            return Err(IntErrorKind::PosOverflow);
        }
        assert(acc * 10 + v <= max) by (nonlinear_arith)
            requires
                acc <= (max - v) / 10,
                v <= max,
                (max - v) / 10 * 10 <= max - v,
        ;
        acc = acc * 10 + v;
        i += 1;
    }
    assert(cs@.skip(i as int) =~= Seq::<char>::empty());
    Ok(acc)
}

} // verus!

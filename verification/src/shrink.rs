//! `shrink`: breaks a text into rows of a given number of characters.
use vstd::prelude::*;

use crate::text::{chars_of, push_char};

verus! {

/// Whether a row ends after the `k`-th character (counted from 1): each
/// time `width` characters have been written (after every character when
/// `width` is 0).
pub open spec fn breaks_after(k: nat, width: nat) -> bool {
    let step: nat = if width == 0 {
        1
    } else {
        width
    };
    k % step == 0
}

/// The characters of `s`, each followed by a newline where a row ends.
pub open spec fn shrunk(s: Seq<char>, width: nat) -> Seq<char>
    decreases s.len(),
{
    if s.len() == 0 {
        Seq::<char>::empty()
    } else {
        shrunk(s.drop_last(), width) + seq![s.last()] + if breaks_after(s.len(), width) {
            seq!['\n']
        } else {
            Seq::<char>::empty()
        }
    }
}

/// A text of fewer than `width` characters comes back unchanged.
pub proof fn lemma_short_text_unchanged(s: Seq<char>, width: nat)
    requires
        s.len() < width,
    ensures
        shrunk(s, width) == s,
    decreases s.len(),
{
    if s.len() > 0 {
        lemma_short_text_unchanged(s.drop_last(), width);
        vstd::arithmetic::div_mod::lemma_small_mod(s.len(), width);
        assert(!breaks_after(s.len(), width));
        assert(s.drop_last() + seq![s.last()] =~= s);
        assert(s + Seq::<char>::empty() =~= s);
    }
}

proof fn lemma_shrunk_concat(a: Seq<char>, b: Seq<char>, width: nat)
    requires
        width >= 1,
        a.len() % width == 0,
    ensures
        shrunk(a + b, width) == shrunk(a, width) + shrunk(b, width),
    decreases b.len(),
{
    if b.len() == 0 {
        assert(a + b =~= a);
        assert(shrunk(a, width) + Seq::<char>::empty() =~= shrunk(a, width));
    } else {
        lemma_shrunk_concat(a, b.drop_last(), width);
        assert((a + b).drop_last() =~= a + b.drop_last());
        assert((a + b).last() == b.last());
        vstd::arithmetic::div_mod::lemma_add_mod_noop_right(
            b.len() as int,
            a.len() as int,
            width as int,
        );
        assert(breaks_after((a + b).len(), width) == breaks_after(b.len(), width));
        let gap = if breaks_after(b.len(), width) {
            seq!['\n']
        } else {
            Seq::<char>::empty()
        };
        assert(shrunk(a, width) + shrunk(b.drop_last(), width) + seq![b.last()] + gap
            =~= shrunk(a, width) + (shrunk(b.drop_last(), width) + seq![b.last()] + gap));
    }
}

/// Every row holds `width` characters, the last one at most as many: a
/// text is broken after its first `width` characters, and its remainder in
/// the same way.
pub proof fn lemma_rows_of_width(s: Seq<char>, width: nat)
    requires
        width >= 1,
    ensures
        shrunk(s, width) == if s.len() < width {
            s
        } else {
            s.take(width as int) + seq!['\n'] + shrunk(s.skip(width as int), width)
        },
{
    if s.len() < width {
        lemma_short_text_unchanged(s, width);
    } else {
        let head = s.take(width as int);
        assert(s =~= head + s.skip(width as int));
        assert(width % width == 0) by (nonlinear_arith)
            requires
                width >= 1,
        ;
        lemma_shrunk_concat(head, s.skip(width as int), width);
        lemma_short_text_unchanged(head.drop_last(), width);
        assert(head.len() == width);
        assert(breaks_after(head.len(), width));
        assert(head.drop_last() + seq![head.last()] =~= head);
    }
}

/// The text broken into rows: a newline follows every `width`-th
/// character (every character when `width` is 0).
pub fn shrink(width: usize, text: &str) -> (out: String)
    ensures
        out@ == shrunk(text@, width as nat),
{
    let cs = chars_of(text);
    let step: usize = if width == 0 {
        1
    } else {
        width
    };
    let mut out = String::new();
    let mut i: usize = 0;
    assert(cs@.take(0) =~= Seq::<char>::empty());
    while i < cs.len()
        invariant
            i <= cs.len(),
            cs@ == text@,
            step == (if width == 0 {
                1
            } else {
                width
            }),
            out@ == shrunk(cs@.take(i as int), width as nat),
        decreases cs.len() - i,
    {
        push_char(&mut out, cs[i]);
        if (i + 1) % step == 0 {
            push_char(&mut out, '\n');
        }
        proof {
            let t = cs@.take(i + 1);
            assert(t.drop_last() =~= cs@.take(i as int));
            assert(t.last() == cs@[i as int]);
        }
        i += 1;
        assert(out@ =~= shrunk(cs@.take(i as int), width as nat));
    }
    assert(cs@.take(i as int) =~= cs@);
    out
}

// ------------------------------------------------------------------------
// Command line
// ------------------------------------------------------------------------

/// Why the command line is refused.
#[derive(Debug, Clone, Copy, PartialEq, Eq)]
pub enum ShrinkArgError {
    /// A switch was given (the tool has none).
    SwitchGiven,
    /// The width and a source are missing.
    MissingArguments,
}

/// What the command line amounts to: no switch may be given, and without piped
/// input both a width and a file name are needed.
pub open spec fn shrink_args(swcs: Seq<String>, n_opts: nat, stdin_is_terminal: bool) -> Result<
    (),
    ShrinkArgError,
> {
    if exists|i: int| 0 <= i < swcs.len() && #[trigger] swcs[i]@.len() != 0 {
        Err(ShrinkArgError::SwitchGiven)
    } else if n_opts < 2 && stdin_is_terminal {
        Err(ShrinkArgError::MissingArguments)
    } else {
        Ok(())
    }
}

/// Checks the switches and the arguments.
pub fn check_shrink_args(swcs: &Vec<String>, n_opts: usize, stdin_is_terminal: bool) -> (r: Result<
    (),
    ShrinkArgError,
>)
    ensures
        r == shrink_args(swcs@, n_opts as nat, stdin_is_terminal),
{
    let mut i: usize = 0;
    while i < swcs.len()
        invariant
            i <= swcs.len(),
            forall|j: int| 0 <= j < i ==> #[trigger] swcs@[j]@.len() == 0,
        decreases swcs.len() - i,
    {
        if !swcs[i].as_str().is_empty() {
            return Err(ShrinkArgError::SwitchGiven);
        }
        i += 1;
    }
    if n_opts < 2 && stdin_is_terminal {
        return Err(ShrinkArgError::MissingArguments);
    }
    Ok(())
}

} // verus!

//! The mathematical model: what tokenizing, line breaking and justification
//! mean on sequences of characters. Every executable function of the crate is
//! specified against these definitions.

use vstd::prelude::*;

verus! {

/// A sequence of `n` space characters.
pub open spec fn spaces(n: nat) -> Seq<char> {
    Seq::new(n, |i: int| ' ')
}

/// The words of a text: maximal runs of characters other than the ASCII
/// space, in order. Runs of spaces, leading and trailing spaces included,
/// separate words and are discarded.
pub open spec fn tokenize(s: Seq<char>) -> Seq<Seq<char>>
    decreases s.len(),
{
    if s.len() == 0 {
        Seq::empty()
    } else {
        let rest = tokenize(s.drop_last());
        if s.last() == ' ' {
            rest
        } else if s.len() >= 2 && s[s.len() - 2] != ' ' {
            rest.update(rest.len() - 1, rest.last().push(s.last()))
        } else {
            rest.push(seq![s.last()])
        }
    }
}

/// A well-formed word: non-empty, with no interior space.
pub open spec fn wf_word(w: Seq<char>) -> bool {
    w.len() > 0 && forall|k: int| 0 <= k < w.len() ==> w[k] != ' '
}

/// Every word of the group is well-formed.
pub open spec fn wf_words(ws: Seq<Seq<char>>) -> bool {
    forall|i: int| 0 <= i < ws.len() ==> wf_word(#[trigger] ws[i])
}

/// The total width of the words alone: the sum of their codepoint counts.
pub open spec fn sum_widths(ws: Seq<Seq<char>>) -> nat
    decreases ws.len(),
{
    if ws.len() == 0 {
        0
    } else {
        sum_widths(ws.drop_last()) + ws.last().len()
    }
}

/// The width a word-group occupies when its words are joined by single
/// spaces: the words plus one separator per gap.
pub open spec fn natural_width(ws: Seq<Seq<char>>) -> nat {
    if ws.len() == 0 {
        0
    } else {
        (sum_widths(ws) + ws.len() - 1) as nat
    }
}

/// The width of the gap at index `i` when `extra` leftmost gaps carry one
/// space more than the `base` width.
pub open spec fn gap_width(base: nat, extra: nat, i: nat) -> nat {
    if i < extra {
        base + 1
    } else {
        base
    }
}

/// The words joined left to right, with `gap_width(base, extra, i)` spaces
/// between word `i` and word `i + 1`.
pub open spec fn assemble(ws: Seq<Seq<char>>, base: nat, extra: nat) -> Seq<char>
    decreases ws.len(),
{
    if ws.len() == 0 {
        Seq::empty()
    } else if ws.len() == 1 {
        ws[0]
    } else {
        assemble(ws.drop_last(), base, extra) + spaces(
            gap_width(base, extra, (ws.len() - 2) as nat),
        ) + ws.last()
    }
}

/// The words joined by exactly one space each.
pub open spec fn single_spaced(ws: Seq<Seq<char>>) -> Seq<char> {
    assemble(ws, 1, 0)
}

/// The even share of the spare width that every gap of the line receives,
/// once the words alone leave `w - sum_widths(ws)` spare and the group has
/// `ws.len() - 1` gaps.
pub open spec fn base_gap(ws: Seq<Seq<char>>, w: nat) -> nat {
    ((w - sum_widths(ws)) as nat) / ((ws.len() - 1) as nat)
}

/// How many of the leftmost gaps receive one space beyond the even share:
/// the remainder of the same division.
pub open spec fn extra_gaps(ws: Seq<Seq<char>>, w: nat) -> nat {
    ((w - sum_widths(ws)) as nat) % ((ws.len() - 1) as nat)
}

/// One justified line of width `w` built from the word-group `ws`:
/// - no words give the empty line;
/// - a single word is padded on the right up to `w`, with no padding at all
///   when the word alone already reaches `w`;
/// - several words whose total width already reaches `w` are joined by single
///   spaces (the overflow policy);
/// - otherwise the spare width is split evenly over the gaps, and the
///   remainder goes one space at a time to the leftmost gaps.
pub open spec fn justify(ws: Seq<Seq<char>>, w: nat) -> Seq<char> {
    if ws.len() == 0 {
        Seq::empty()
    } else if ws.len() == 1 {
        ws[0] + spaces(if ws[0].len() <= w {
            (w - ws[0].len()) as nat
        } else {
            0
        })
    } else if sum_widths(ws) >= w {
        single_spaced(ws)
    } else {
        assemble(ws, base_gap(ws, w), extra_gaps(ws, w))
    }
}

/// The greedy line breaker after consuming `tokens`: the pair of the closed
/// word-groups, in order, and the group still being filled. A word opens a
/// group when none is open; it joins the open group when the group would
/// still be at most `w` wide single-spaced, and otherwise closes that group
/// and opens a new one.
pub open spec fn break_state(tokens: Seq<Seq<char>>, w: nat) -> (Seq<Seq<Seq<char>>>, Seq<
    Seq<char>,
>)
    decreases tokens.len(),
{
    if tokens.len() == 0 {
        (Seq::empty(), Seq::empty())
    } else {
        let (done, cur) = break_state(tokens.drop_last(), w);
        let t = tokens.last();
        if cur.len() == 0 {
            (done, seq![t])
        } else if natural_width(cur) + 1 + t.len() > w {
            (done.push(cur), seq![t])
        } else {
            (done, cur.push(t))
        }
    }
}

/// All word-groups the breaker produces for `tokens` at width `w`, the final
/// group included. Zero tokens yield exactly one empty group.
pub open spec fn break_groups(tokens: Seq<Seq<char>>, w: nat) -> Seq<Seq<Seq<char>>> {
    break_state(tokens, w).0.push(break_state(tokens, w).1)
}

/// The word-groups of all lines of the document, concatenated in order.
pub open spec fn concat_groups(gs: Seq<Seq<Seq<char>>>) -> Seq<Seq<char>>
    decreases gs.len(),
{
    if gs.len() == 0 {
        Seq::empty()
    } else {
        concat_groups(gs.drop_last()) + gs.last()
    }
}

/// The lines joined by a single newline, with no trailing newline.
pub open spec fn join_lines(ls: Seq<Seq<char>>) -> Seq<char>
    decreases ls.len(),
{
    if ls.len() == 0 {
        Seq::empty()
    } else if ls.len() == 1 {
        ls[0]
    } else {
        join_lines(ls.drop_last()) + seq!['\n'] + ls.last()
    }
}

/// The justified lines of the document for input `s` at width `w`, in order.
pub open spec fn lines_of(s: Seq<char>, w: nat) -> Seq<Seq<char>> {
    break_groups(tokenize(s), w).map_values(|g: Seq<Seq<char>>| justify(g, w))
}

/// The whole document: every word-group justified, the lines joined by
/// newlines.
pub open spec fn transform_spec(s: Seq<char>, w: nat) -> Seq<char> {
    join_lines(lines_of(s, w))
}

} // verus!

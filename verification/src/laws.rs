//! The guarantees the library gives beyond the exact contracts of
//! [`crate::transform`] and [`crate::align_line`]: stated over the model and
//! proved once for all inputs.

use vstd::prelude::*;

verus! {

use crate::lemmas::{lemma_assemble_len, lemma_break_state_props, lemma_concat_push,
    lemma_tokenize_assemble, lemma_tokenize_justify, lemma_tokenize_wf};
use crate::model::{assemble, base_gap, break_groups, concat_groups, extra_gaps, gap_width,
    justify, lines_of, natural_width, single_spaced, spaces, sum_widths, tokenize, transform_spec};
use vstd::arithmetic::div_mod::{lemma_div_by_self, lemma_div_is_ordered,
    lemma_fundamental_div_mod, lemma_mod_bound};

/// Width invariant: a line built from a non-empty word-group whose natural
/// single-spaced width is strictly below the target width is justified to
/// exactly the target width.
pub proof fn lemma_width_invariant(ws: Seq<Seq<char>>, w: nat)
    requires
        ws.len() > 0,
        natural_width(ws) < w,
    ensures
        justify(ws, w).len() == w,
{
    if ws.len() == 1 {
        assert(sum_widths(ws.drop_last()) == 0);
        assert(natural_width(ws) == ws[0].len());
        assert(justify(ws, w) == ws[0] + spaces((w - ws[0].len()) as nat));
    } else {
        let gaps = (ws.len() - 1) as nat;
        let slack = (w - sum_widths(ws)) as nat;
        let base = slack / gaps;
        let extra = slack % gaps;
        assert(sum_widths(ws) + gaps == natural_width(ws));
        lemma_fundamental_div_mod(slack as int, gaps as int);
        lemma_mod_bound(slack as int, gaps as int);
        lemma_assemble_len(ws, base, extra);
        assert(gaps * base == base * gaps) by (nonlinear_arith);
        assert(justify(ws, w).len() == sum_widths(ws) + gaps * base + extra);
    }
}

/// Overflow invariant: a word-group whose natural width meets or exceeds the
/// target width comes out as the words joined by single spaces, and the line
/// is at least the target width long. The side condition on groups of two or
/// more words is exactly what the breaker guarantees of every group it
/// produces (see [`lemma_break_groups_fit`]) and what the overflow policy
/// grants a group handed to [`crate::align_line`] directly.
pub proof fn lemma_overflow_invariant(ws: Seq<Seq<char>>, w: nat)
    requires
        natural_width(ws) >= w,
        ws.len() >= 2 ==> sum_widths(ws) >= w || natural_width(ws) <= w,
    ensures
        justify(ws, w) == single_spaced(ws),
        justify(ws, w).len() >= w,
{
    if ws.len() == 0 {
        assert(w == 0);
        assert(justify(ws, w) =~= single_spaced(ws));
    } else if ws.len() == 1 {
        assert(sum_widths(ws.drop_last()) == 0);
        assert(natural_width(ws) == ws[0].len());
        assert(justify(ws, w) == ws[0] + spaces(0));
        assert(ws[0] + spaces(0) =~= ws[0]);
        assert(single_spaced(ws) == ws[0]);
    } else {
        let gaps = (ws.len() - 1) as nat;
        lemma_assemble_len(ws, 1, 0);
        assert(gaps * 1 == gaps) by (nonlinear_arith);
        assert(single_spaced(ws).len() == sum_widths(ws) + gaps);
        if sum_widths(ws) >= w {
            assert(justify(ws, w) == single_spaced(ws));
        } else {
            assert(natural_width(ws) == w);
            let slack = (w - sum_widths(ws)) as nat;
            assert(slack == gaps);
            lemma_div_by_self(gaps as int);
            lemma_fundamental_div_mod(slack as int, gaps as int);
            assert(gaps * (slack / gaps) == gaps * 1) by (nonlinear_arith)
                requires
                    slack / gaps == 1,
            ;
            assert(slack % gaps == 0);
            assert(justify(ws, w) == assemble(ws, 1, 0));
        }
    }
}

/// What the greedy breaker promises of its output: once the input holds at
/// least one word no produced group is empty, and every produced group of two
/// or more words fits the width single-spaced.
pub proof fn lemma_break_groups_fit(tokens: Seq<Seq<char>>, w: nat)
    ensures
        tokens.len() > 0 ==> forall|i: int|
            0 <= i < break_groups(tokens, w).len() ==> (#[trigger] break_groups(
                tokens,
                w,
            )[i]).len() > 0,
        forall|i: int|
            0 <= i < break_groups(tokens, w).len() ==> ((#[trigger] break_groups(
                tokens,
                w,
            )[i]).len() >= 2 ==> natural_width(break_groups(tokens, w)[i]) <= w),
{
    lemma_break_state_props(tokens, w);
    let done = crate::model::break_state(tokens, w).0;
    assert(forall|i: int|
        0 <= i < done.len() ==> break_groups(tokens, w)[i] == done[i]);
    assert(break_groups(tokens, w).last() == crate::model::break_state(tokens, w).1);
}

/// Width invariant over a whole document: once the input holds at least one
/// word, every line whose word-group is naturally narrower than the target
/// width is exactly the target width long. (With no words at all the single
/// produced line is empty, and this does not apply.)
pub proof fn lemma_document_width_invariant(input: Seq<char>, w: nat)
    requires
        tokenize(input).len() > 0,
    ensures
        lines_of(input, w).len() == break_groups(tokenize(input), w).len(),
        forall|i: int|
            0 <= i < lines_of(input, w).len() ==> (natural_width(
                #[trigger] break_groups(tokenize(input), w)[i],
            ) < w ==> lines_of(input, w)[i].len() == w),
{
    let tokens = tokenize(input);
    lemma_break_groups_fit(tokens, w);
    assert forall|i: int|
        0 <= i < lines_of(input, w).len() && natural_width(
            break_groups(tokens, w)[i],
        ) < w implies lines_of(input, w)[i].len() == w by {
        lemma_width_invariant(break_groups(tokens, w)[i], w);
        assert(lines_of(input, w)[i] == justify(break_groups(tokens, w)[i], w));
    }
}

/// Overflow invariant over a whole document: every line whose word-group
/// naturally meets or exceeds the target width is the words joined by single
/// spaces, at least the target width long.
pub proof fn lemma_document_overflow_invariant(input: Seq<char>, w: nat)
    ensures
        lines_of(input, w).len() == break_groups(tokenize(input), w).len(),
        forall|i: int|
            0 <= i < lines_of(input, w).len() ==> (natural_width(
                #[trigger] break_groups(tokenize(input), w)[i],
            ) >= w ==> lines_of(input, w)[i] == single_spaced(break_groups(tokenize(input), w)[i])
                && lines_of(input, w)[i].len() >= w),
{
    let tokens = tokenize(input);
    lemma_break_groups_fit(tokens, w);
    assert forall|i: int|
        0 <= i < lines_of(input, w).len() && natural_width(
            break_groups(tokens, w)[i],
        ) >= w implies lines_of(input, w)[i] == single_spaced(break_groups(tokens, w)[i])
        && lines_of(input, w)[i].len() >= w by {
        lemma_overflow_invariant(break_groups(tokens, w)[i], w);
        assert(lines_of(input, w)[i] == justify(break_groups(tokens, w)[i], w));
    }
}

/// Left-bias tie-break: when the slack does not divide evenly over the gaps,
/// the justified line is the words interleaved with gaps of
/// `gap_width(base_gap(ws, w), extra_gaps(ws, w), k)` spaces between word `k`
/// and word `k + 1`, and each of the leftmost `extra_gaps(ws, w)` gaps is
/// exactly one space wider than every gap to the right of them.
pub proof fn lemma_left_bias(ws: Seq<Seq<char>>, w: nat, i: nat, j: nat)
    requires
        ws.len() >= 2,
        sum_widths(ws) < w,
        extra_gaps(ws, w) != 0,
        i < extra_gaps(ws, w),
        extra_gaps(ws, w) <= j < ws.len() - 1,
    ensures
        justify(ws, w) == assemble(ws, base_gap(ws, w), extra_gaps(ws, w)),
        gap_width(base_gap(ws, w), extra_gaps(ws, w), i) == gap_width(
            base_gap(ws, w),
            extra_gaps(ws, w),
            j,
        ) + 1,
{
}

/// Word preservation: splitting every line of the document back into its
/// words and concatenating them, in order, reproduces exactly the words of
/// the input.
pub proof fn lemma_word_preservation(input: Seq<char>, w: nat)
    ensures
        concat_groups(lines_of(input, w).map_values(|l: Seq<char>| tokenize(l))) == tokenize(
            input,
        ),
{
    let tokens = tokenize(input);
    lemma_tokenize_wf(input);
    lemma_break_state_props(tokens, w);
    let done = crate::model::break_state(tokens, w).0;
    let cur = crate::model::break_state(tokens, w).1;
    let groups = break_groups(tokens, w);
    let lines = lines_of(input, w);
    let toks = lines.map_values(|l: Seq<char>| tokenize(l));
    assert forall|i: int| 0 <= i < groups.len() implies toks[i] == groups[i] by {
        if i < done.len() {
            assert(groups[i] == done[i]);
        } else {
            assert(groups[i] == cur);
        }
        lemma_tokenize_justify(groups[i], w);
        assert(lines[i] == justify(groups[i], w));
    }
    assert(toks =~= groups);
    lemma_concat_push(done, cur);
}

/// Re-wrap idempotence: flattening the document back into a single-spaced
/// run of its words and transforming that run at the same width reproduces
/// the same document, line for line.
pub proof fn lemma_rewrap_idempotent(input: Seq<char>, w: nat)
    ensures
        transform_spec(single_spaced(tokenize(input)), w) == transform_spec(input, w),
{
    lemma_tokenize_wf(input);
    lemma_tokenize_assemble(tokenize(input), 1, 0);
    assert(tokenize(single_spaced(tokenize(input))) == tokenize(input));
}

} // verus!

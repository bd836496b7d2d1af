//! Supporting proofs: how the recursive model definitions unfold over
//! prefixes, and bounds used by the executable code.

use vstd::prelude::*;

verus! {

use crate::model::{assemble, break_state, concat_groups, gap_width, justify, natural_width,
    spaces, sum_widths, tokenize, wf_word, wf_words};

/// A prefix one element longer splits into the shorter prefix and that
/// element.
pub proof fn lemma_take_succ<A>(s: Seq<A>, i: int)
    requires
        0 <= i < s.len(),
    ensures
        s.take(i + 1).drop_last() == s.take(i),
        s.take(i + 1).last() == s[i],
        s.take(i + 1).len() == i + 1,
{
    assert(s.take(i + 1).drop_last() =~= s.take(i));
}

/// Summing word widths over a prefix, one word at a time.
pub proof fn lemma_sum_take_succ(ws: Seq<Seq<char>>, i: int)
    requires
        0 <= i < ws.len(),
    ensures
        sum_widths(ws.take(i + 1)) == sum_widths(ws.take(i)) + ws[i].len(),
{
    lemma_take_succ(ws, i);
}

/// A prefix of the words is never wider than all of them.
pub proof fn lemma_sum_take_le(ws: Seq<Seq<char>>, i: int)
    requires
        0 <= i <= ws.len(),
    ensures
        sum_widths(ws.take(i)) <= sum_widths(ws),
    decreases ws.len() - i,
{
    if i == ws.len() {
        assert(ws.take(i) =~= ws);
    } else {
        lemma_sum_take_succ(ws, i);
        lemma_sum_take_le(ws, i + 1);
    }
}

/// Assembling a line word by word: appending the next word adds one gap and
/// the word itself.
pub proof fn lemma_assemble_take_succ(ws: Seq<Seq<char>>, base: nat, extra: nat, i: int)
    requires
        1 <= i < ws.len(),
    ensures
        assemble(ws.take(i + 1), base, extra) == assemble(ws.take(i), base, extra) + spaces(
            gap_width(base, extra, (i - 1) as nat),
        ) + ws[i],
{
    lemma_take_succ(ws, i);
}

/// The assembled line is exactly as long as its words and its gaps together.
pub proof fn lemma_assemble_len(ws: Seq<Seq<char>>, base: nat, extra: nat)
    ensures
        ws.len() >= 1 ==> assemble(ws, base, extra).len() == sum_widths(ws) + (ws.len() - 1)
            * base + (if extra <= ws.len() - 1 {
            extra as int
        } else {
            ws.len() - 1
        }),
    decreases ws.len(),
{
    if ws.len() == 0 {
    } else if ws.len() == 1 {
        assert(sum_widths(ws.drop_last()) == 0);
        assert(sum_widths(ws) == ws[0].len());
        assert(assemble(ws, base, extra) == ws[0]);
        assert(0 * base == 0) by (nonlinear_arith);
        assert(assemble(ws, base, extra).len() == sum_widths(ws) + (ws.len() - 1) * base + (
        if extra <= ws.len() - 1 {
            extra as int
        } else {
            ws.len() - 1
        }));
    } else {
        let d = ws.drop_last();
        lemma_assemble_len(d, base, extra);
        let k = ws.len() - 1;
        let g = gap_width(base, extra, (k - 1) as nat);
        assert(assemble(ws, base, extra).len() == assemble(d, base, extra).len() + g
            + ws.last().len());
        assert(sum_widths(ws) == sum_widths(d) + ws.last().len());
        assert(d.len() == k);
        assert(assemble(d, base, extra).len() == sum_widths(d) + (k - 1) * base + (if extra <= k
            - 1 {
            extra as int
        } else {
            k - 1
        }));
        assert((k - 1) * base + base == k * base) by (nonlinear_arith);
        if extra <= k - 1 {
            assert(g == base);
            assert(assemble(ws, base, extra).len() == sum_widths(ws) + k * base + extra);
        } else {
            assert(g == base + 1);
            if extra <= k {
                assert(assemble(ws, base, extra).len() == sum_widths(ws) + k * base + extra);
            } else {
                assert(assemble(ws, base, extra).len() == sum_widths(ws) + k * base + k);
            }
        }
    }
}

/// The words of a text are never empty and never contain a space; and while
/// the text ends in a non-space, its last word is still open.
pub proof fn lemma_tokenize_wf(s: Seq<char>)
    ensures
        wf_words(tokenize(s)),
        s.len() > 0 && s.last() != ' ' ==> tokenize(s).len() > 0,
    decreases s.len(),
{
    if s.len() > 0 {
        let d = s.drop_last();
        let rest = tokenize(d);
        lemma_tokenize_wf(d);
        if s.last() == ' ' {
        } else if s.len() >= 2 && s[s.len() - 2] != ' ' {
            assert(d.last() == s[s.len() - 2]);
            assert(rest.len() > 0);
            let grown = rest.last().push(s.last());
            assert(wf_word(grown));
            let out = rest.update(rest.len() - 1, grown);
            assert forall|i: int| 0 <= i < out.len() implies wf_word(#[trigger] out[i]) by {
                if i < rest.len() - 1 {
                    assert(out[i] == rest[i]);
                }
            }
        } else {
            let out = rest.push(seq![s.last()]);
            assert(wf_word(seq![s.last()]));
            assert forall|i: int| 0 <= i < out.len() implies wf_word(#[trigger] out[i]) by {
                if i < rest.len() {
                    assert(out[i] == rest[i]);
                }
            }
        }
    }
}

/// Trailing spaces add no words.
pub proof fn lemma_tokenize_spaces(s: Seq<char>, n: nat)
    ensures
        tokenize(s + spaces(n)) == tokenize(s),
    decreases n,
{
    if n == 0 {
        assert(s + spaces(0) =~= s);
    } else {
        lemma_tokenize_spaces(s, (n - 1) as nat);
        let t = s + spaces(n);
        assert(t.len() == s.len() + n);
        assert(t.last() == ' ');
        assert(t.drop_last() =~= s + spaces((n - 1) as nat));
    }
}

/// Appending a well-formed word to a text that is empty or ends in a space
/// appends exactly that word to the text's words.
pub proof fn lemma_tokenize_word(s: Seq<char>, t: Seq<char>)
    requires
        wf_word(t),
        s.len() == 0 || s.last() == ' ',
    ensures
        tokenize(s + t) == tokenize(s).push(t),
    decreases t.len(),
{
    let u = s + t;
    assert(u.last() == t.last());
    assert(u.last() != ' ');
    if t.len() == 1 {
        assert(u.drop_last() =~= s);
        if s.len() == 0 {
            assert(u.len() == 1);
            assert(tokenize(u) == tokenize(s).push(seq![u.last()]));
        } else {
            assert(u[u.len() - 2] == s.last());
            assert(tokenize(u) == tokenize(s).push(seq![u.last()]));
        }
        assert(seq![u.last()] =~= t);
    } else {
        let d = t.drop_last();
        assert(wf_word(d)) by {
            assert(forall|k: int| 0 <= k < d.len() ==> d[k] == t[k]);
        }
        lemma_tokenize_word(s, d);
        assert(u.drop_last() =~= s + d);
        assert(u[u.len() - 2] == d.last());
        assert(d.last() != ' ');
        assert(u.len() >= 2);
        let rest = tokenize(s + d);
        assert(rest == tokenize(s).push(d));
        assert(rest.len() > 0);
        assert(rest.last() == d);
        assert(tokenize(u) == rest.update(rest.len() - 1, d.push(t.last())));
        assert(d.push(t.last()) =~= t);
        assert(rest.update(rest.len() - 1, t) =~= tokenize(s).push(t));
    }
}

/// Splitting an assembled line on spaces gives back exactly its words,
/// provided every word is well-formed and every gap holds at least one space.
pub proof fn lemma_tokenize_assemble(ws: Seq<Seq<char>>, base: nat, extra: nat)
    requires
        wf_words(ws),
        base >= 1,
    ensures
        tokenize(assemble(ws, base, extra)) == ws,
    decreases ws.len(),
{
    if ws.len() == 0 {
        assert(tokenize(assemble(ws, base, extra)) =~= ws);
    } else if ws.len() == 1 {
        assert(assemble(ws, base, extra) == ws[0]);
        assert(Seq::<char>::empty() + ws[0] =~= ws[0]);
        lemma_tokenize_word(Seq::<char>::empty(), ws[0]);
        assert(tokenize(Seq::<char>::empty()).push(ws[0]) =~= ws);
    } else {
        let d = ws.drop_last();
        assert(wf_words(d)) by {
            assert(forall|i: int| 0 <= i < d.len() ==> d[i] == ws[i]);
        }
        lemma_tokenize_assemble(d, base, extra);
        let g = gap_width(base, extra, (ws.len() - 2) as nat);
        let a = assemble(d, base, extra);
        assert(g >= 1);
        lemma_tokenize_spaces(a, g);
        let b = a + spaces(g);
        assert(b.len() > 0);
        assert(b.last() == ' ') by {
            assert(b[b.len() - 1] == spaces(g)[g - 1]);
        }
        lemma_tokenize_word(b, ws.last());
        assert(assemble(ws, base, extra) == b + ws.last());
        assert(d.push(ws.last()) =~= ws);
    }
}

/// Splitting a justified line on spaces gives back exactly its word-group,
/// for any group the breaker can produce: well-formed words, and no group of
/// two or more words that neither fills the width nor fits it single-spaced.
pub proof fn lemma_tokenize_justify(ws: Seq<Seq<char>>, w: nat)
    requires
        wf_words(ws),
        ws.len() >= 2 ==> sum_widths(ws) >= w || natural_width(ws) <= w,
    ensures
        tokenize(justify(ws, w)) == ws,
{
    if ws.len() == 0 {
        assert(tokenize(justify(ws, w)) =~= ws);
    } else if ws.len() == 1 {
        let pad = if ws[0].len() <= w {
            (w - ws[0].len()) as nat
        } else {
            0
        };
        lemma_tokenize_spaces(ws[0], pad);
        assert(Seq::<char>::empty() + ws[0] =~= ws[0]);
        lemma_tokenize_word(Seq::<char>::empty(), ws[0]);
        assert(tokenize(Seq::<char>::empty()).push(ws[0]) =~= ws);
    } else if sum_widths(ws) >= w {
        lemma_tokenize_assemble(ws, 1, 0);
    } else {
        let gaps = (ws.len() - 1) as nat;
        let slack = (w - sum_widths(ws)) as nat;
        assert(natural_width(ws) == sum_widths(ws) + gaps);
        assert(gaps <= slack);
        vstd::arithmetic::div_mod::lemma_div_by_self(gaps as int);
        vstd::arithmetic::div_mod::lemma_div_is_ordered(gaps as int, slack as int, gaps as int);
        assert(slack / gaps >= 1);
        lemma_tokenize_assemble(ws, slack / gaps, slack % gaps);
    }
}

/// Appending a word to a group widens it by that word.
pub proof fn lemma_sum_push(ws: Seq<Seq<char>>, t: Seq<char>)
    ensures
        sum_widths(ws.push(t)) == sum_widths(ws) + t.len(),
{
    assert(ws.push(t).drop_last() =~= ws);
}

/// Closing one more group appends its words to the words already closed.
pub proof fn lemma_concat_push(gs: Seq<Seq<Seq<char>>>, g: Seq<Seq<char>>)
    ensures
        concat_groups(gs.push(g)) == concat_groups(gs) + g,
{
    assert(gs.push(g).drop_last() =~= gs);
}

/// What the greedy breaker guarantees, at every point of its run: the open
/// group is non-empty once a word was seen, every closed group is non-empty,
/// every group of two or more words fits the width single-spaced, the groups
/// carry exactly the input words in order, and well-formed words stay
/// well-formed.
pub proof fn lemma_break_state_props(tokens: Seq<Seq<char>>, w: nat)
    ensures
        tokens.len() > 0 ==> break_state(tokens, w).1.len() > 0,
        forall|i: int|
            0 <= i < break_state(tokens, w).0.len() ==> (#[trigger] break_state(
                tokens,
                w,
            ).0[i]).len() > 0,
        forall|i: int|
            0 <= i < break_state(tokens, w).0.len() ==> ((#[trigger] break_state(
                tokens,
                w,
            ).0[i]).len() >= 2 ==> natural_width(break_state(tokens, w).0[i]) <= w),
        break_state(tokens, w).1.len() >= 2 ==> natural_width(break_state(tokens, w).1) <= w,
        concat_groups(break_state(tokens, w).0) + break_state(tokens, w).1 == tokens,
        wf_words(tokens) ==> wf_words(break_state(tokens, w).1),
        wf_words(tokens) ==> forall|i: int|
            0 <= i < break_state(tokens, w).0.len() ==> wf_words(
                #[trigger] break_state(tokens, w).0[i],
            ),
    decreases tokens.len(),
{
    if tokens.len() == 0 {
        assert(concat_groups(break_state(tokens, w).0) + break_state(tokens, w).1
            =~= tokens);
    } else {
        let d = tokens.drop_last();
        let t = tokens.last();
        lemma_break_state_props(d, w);
        let prev_done = break_state(d, w).0;
        let prev_cur = break_state(d, w).1;
        let done = break_state(tokens, w).0;
        let cur = break_state(tokens, w).1;
        assert(wf_words(tokens) ==> wf_words(d) && wf_word(t)) by {
            if wf_words(tokens) {
                assert(forall|i: int| 0 <= i < d.len() ==> d[i] == tokens[i]);
                assert(t == tokens[tokens.len() - 1]);
            }
        }
        if prev_cur.len() == 0 {
            assert(concat_groups(prev_done) + prev_cur =~= concat_groups(prev_done));
            assert(concat_groups(done) + cur =~= d.push(t));
            assert(d.push(t) =~= tokens);
            assert(cur =~= seq![t]);
            assert(wf_words(tokens) ==> wf_words(cur));
        } else if natural_width(prev_cur) + 1 + t.len() > w {
            lemma_concat_push(prev_done, prev_cur);
            assert(concat_groups(done) + cur =~= (concat_groups(prev_done) + prev_cur).push(t));
            assert((concat_groups(prev_done) + prev_cur).push(t) =~= tokens);
            assert(forall|i: int|
                0 <= i < prev_done.len() ==> done[i] == prev_done[i]);
            assert(done.last() == prev_cur);
            assert(wf_words(tokens) ==> wf_words(cur));
        } else {
            lemma_sum_push(prev_cur, t);
            assert(cur == prev_cur.push(t));
            assert(natural_width(cur) == natural_width(prev_cur) + 1 + t.len());
            assert(concat_groups(done) + cur =~= (concat_groups(prev_done) + prev_cur).push(t));
            assert((concat_groups(prev_done) + prev_cur).push(t) =~= tokens);
            assert(wf_words(tokens) ==> wf_words(cur)) by {
                if wf_words(tokens) {
                    assert(forall|i: int| 0 <= i < prev_cur.len() ==> cur[i] == prev_cur[i]);
                    assert(cur.last() == t);
                }
            }
        }
    }
}

} // verus!

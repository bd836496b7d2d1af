//! Fixed-width text justification.
//!
//! The library splits an input text into space-separated words, packs the
//! words greedily into lines no wider than a requested column width, and pads
//! each line with distributed spaces so that it occupies exactly that width
//! whenever its words allow it. Width is always measured in Unicode
//! codepoints, never in bytes.

use vstd::prelude::*;

pub mod laws;
pub mod lemmas;
pub mod model;

verus! {

use crate::lemmas::{lemma_assemble_take_succ, lemma_sum_take_le, lemma_sum_take_succ,
    lemma_take_succ};
use crate::model::{assemble, break_state, join_lines, justify, lines_of, natural_width, spaces,
    sum_widths, tokenize, transform_spec};
use vstd::arithmetic::div_mod::lemma_fundamental_div_mod;
use vstd::string::StrSliceExecFns;

/// Builds a string of `n` space characters.
fn make_spaces(n: usize) -> (res: String)
    ensures
        res@ == spaces(n as nat),
{
    let mut res = String::new();
    let mut i: usize = 0;
    proof {
        reveal_strlit(" ");
    }
    while i < n
        invariant
            i <= n,
            res@ =~= spaces(i as nat),
            " "@ =~= seq![' '],
        decreases n - i,
    {
        res.append(" ");
        i = i + 1;
        proof {
            assert(res@ =~= spaces(i as nat));
        }
    }
    assert(res@ =~= spaces(n as nat));
    res
}

/// Splits the input into its words: maximal runs of non-space characters.
/// Runs of spaces, leading and trailing spaces included, are discarded.
fn split_words<'a>(input: &'a str) -> (words: Vec<&'a str>)
    ensures
        words.deep_view() == tokenize(input@),
{
    let n = input.unicode_len();
    let mut words: Vec<&'a str> = Vec::new();
    let mut start: usize = 0;
    let mut i: usize = 0;
    while i < n
        invariant
            n == input@.len(),
            start <= i <= n,
            forall|k: int| start <= k < i ==> input@[k] != ' ',
            start == i ==> (i == 0 || input@[i - 1] == ' '),
            start < i ==> tokenize(input@.take(i as int)) == words.deep_view().push(
                input@.subrange(start as int, i as int),
            ),
            start == i ==> tokenize(input@.take(i as int)) == words.deep_view(),
        decreases n - i,
    {
        let ghost prefix = input@.take(i as int);
        let ghost prefix1 = input@.take(i as int + 1);
        proof {
            lemma_take_succ(input@, i as int);
        }
        let c = input.get_char(i);
        if c == ' ' {
            if start < i {
                let ghost prev = words.deep_view();
                let w = input.substring_char(start, i);
                words.push(w);
                proof {
                    assert(words.deep_view() =~= prev.push(w@));
                    assert(tokenize(prefix1) == words.deep_view());
                }
            }
            start = i + 1;
        } else {
            if start < i {
                proof {
                    assert(prefix1[i - 1] == input@[i - 1]);
                    assert(input@[i - 1] != ' ');
                    let rest = tokenize(prefix);
                    let grown = rest.last().push(input@[i as int]);
                    assert(tokenize(prefix1) == rest.update(rest.len() - 1, grown));
                    assert(grown =~= input@.subrange(start as int, i as int + 1));
                    assert(rest.update(rest.len() - 1, grown) =~= words.deep_view().push(
                        input@.subrange(start as int, i as int + 1),
                    ));
                }
            } else {
                proof {
                    assert(i == 0 || prefix1[i - 1] == ' ');
                    assert(tokenize(prefix1) == tokenize(prefix).push(seq![input@[i as int]]));
                    assert(seq![input@[i as int]] =~= input@.subrange(
                        start as int,
                        i as int + 1,
                    ));
                }
            }
        }
        i = i + 1;
    }
    proof {
        assert(input@.take(n as int) =~= input@);
    }
    if start < n {
        let ghost prev = words.deep_view();
        let w = input.substring_char(start, n);
        words.push(w);
        proof {
            assert(words.deep_view() =~= prev.push(w@));
        }
    }
    words
}

/// Justifies one word-group to the target width:
/// - no words give the empty string;
/// - a single word is padded on the right up to the width, or left bare when
///   it is at least that wide already;
/// - several words whose total width already reaches the target are joined by
///   single spaces, overflowing the width;
/// - otherwise the spare width is spread over the gaps, the leftmost gaps
///   taking the remainder one extra space each.
pub fn align_line(words: Vec<&str>, line_width: usize) -> (res: String)
    requires
        natural_width(words.deep_view()) <= usize::MAX,
    ensures
        res@ == justify(words.deep_view(), line_width as nat),
{
    let ghost ws = words.deep_view();
    let n = words.len();
    proof {
        assert(ws.len() == n);
    }
    if n == 0 {
        let res = String::new();
        proof {
            assert(res@ =~= justify(ws, line_width as nat));
        }
        res
    } else if n == 1 {
        let wlen = words[0].unicode_len();
        proof {
            assert(words@[0]@ == ws[0]);
        }
        let pad = if wlen >= line_width {
            0
        } else {
            line_width - wlen
        };
        let mut res = String::from_str(words[0]);
        let sp = make_spaces(pad);
        res.append(sp.as_str());
        proof {
            assert(res@ == justify(ws, line_width as nat));
        }
        res
    } else {
        let mut total: usize = 0;
        let mut i: usize = 0;
        while i < n
            invariant
                ws == words.deep_view(),
                n == ws.len(),
                n == words@.len(),
                n >= 2,
                i <= n,
                natural_width(ws) <= usize::MAX,
                total == sum_widths(ws.take(i as int)),
            decreases n - i,
        {
            proof {
                assert(words@[i as int]@ == ws[i as int]);
                lemma_sum_take_succ(ws, i as int);
                lemma_sum_take_le(ws, i as int + 1);
                assert(sum_widths(ws) <= natural_width(ws));
            }
            let wl = words[i].unicode_len();
            total = total + wl;
            i = i + 1;
        }
        proof {
            assert(ws.take(n as int) =~= ws);
            assert(total == sum_widths(ws));
        }
        let gaps = n - 1;
        let (base, extra): (usize, usize) = if total >= line_width {
            (1, 0)
        } else {
            ((line_width - total) / gaps, (line_width - total) % gaps)
        };
        proof {
            if total < line_width && extra > 0 {
                let slack = line_width - total;
                lemma_fundamental_div_mod(slack as int, gaps as int);
                assert(gaps >= 2);
                assert(gaps * base >= 2 * base) by (nonlinear_arith)
                    requires
                        gaps >= 2,
                        base >= 0,
                ;
                assert(2 * base <= slack);
                assert(base + 1 <= usize::MAX);
            }
        }
        let mut res = String::new();
        let mut i: usize = 0;
        while i < n
            invariant
                ws == words.deep_view(),
                n == ws.len(),
                n == words@.len(),
                n >= 2,
                i <= n,
                extra > 0 ==> base + 1 <= usize::MAX,
                res@ == assemble(ws.take(i as int), base as nat, extra as nat),
            decreases n - i,
        {
            if i > 0 {
                let g = if i - 1 < extra {
                    base + 1
                } else {
                    base
                };
                let sp = make_spaces(g);
                res.append(sp.as_str());
            }
            res.append(words[i]);
            proof {
                assert(words@[i as int]@ == ws[i as int]);
                if i > 0 {
                    lemma_assemble_take_succ(ws, base as nat, extra as nat, i as int);
                } else {
                    assert(ws.take(1).len() == 1);
                    assert(ws.take(1)[0] == ws[0]);
                }
            }
            i = i + 1;
        }
        proof {
            assert(ws.take(n as int) =~= ws);
            assert(res@ == justify(ws, line_width as nat));
        }
        res
    }
}

/// Reformats the input into a fixed-width, justified document: the words are
/// packed greedily into lines at most `line_width` codepoints wide when
/// single-spaced, every line is justified to exactly that width whenever its
/// words allow it, and the lines are joined by single newlines.
pub fn transform(input: &str, line_width: u32) -> (res: String)
    ensures
        res@ == transform_spec(input@, line_width as nat),
{
    let w = line_width as usize;
    let ghost wnat = line_width as nat;
    let words = split_words(input);
    let ghost tokens = tokenize(input@);
    let mut lines: Vec<String> = Vec::new();
    let mut cur: Vec<&str> = Vec::new();
    let mut cur_width: usize = 0;
    let mut j: usize = 0;
    while j < words.len()
        invariant
            words.deep_view() == tokens,
            w == wnat,
            j <= words@.len(),
            words@.len() == tokens.len(),
            lines.deep_view() == break_state(tokens.take(j as int), wnat).0.map_values(
                |g: Seq<Seq<char>>| justify(g, wnat),
            ),
            cur.deep_view() == break_state(tokens.take(j as int), wnat).1,
            cur_width == natural_width(cur.deep_view()),
        decreases words@.len() - j,
    {
        let word = words[j];
        let wlen = word.unicode_len();
        proof {
            lemma_take_succ(tokens, j as int);
            assert(words@[j as int]@ == tokens[j as int]);
        }
        let ghost prev_done = break_state(tokens.take(j as int), wnat).0;
        if cur.len() == 0 {
            cur.push(word);
            cur_width = wlen;
            proof {
                assert(cur.deep_view() =~= seq![tokens[j as int]]);
                assert(cur.deep_view().drop_last() =~= Seq::<Seq<char>>::empty());
                assert(sum_widths(Seq::<Seq<char>>::empty()) == 0);
                assert(natural_width(cur.deep_view()) == wlen);
            }
        } else if cur_width >= w || wlen > w - cur_width - 1 {
            proof {
                assert(natural_width(cur.deep_view()) + 1 + tokens[j as int].len() > wnat);
            }
            let ghost prev_lines = lines.deep_view();
            let ghost closed = cur.deep_view();
            let line = align_line(cur, w);
            lines.push(line);
            cur = Vec::new();
            cur.push(word);
            cur_width = wlen;
            proof {
                assert(lines.deep_view() =~= prev_lines.push(line@));
                assert(lines.deep_view() =~= prev_done.push(closed).map_values(
                    |g: Seq<Seq<char>>| justify(g, wnat),
                ));
                assert(cur.deep_view() =~= seq![tokens[j as int]]);
                assert(cur.deep_view().drop_last() =~= Seq::<Seq<char>>::empty());
                assert(sum_widths(Seq::<Seq<char>>::empty()) == 0);
                assert(natural_width(cur.deep_view()) == wlen);
            }
        } else {
            proof {
                assert(natural_width(cur.deep_view()) + 1 + tokens[j as int].len() <= wnat);
            }
            let ghost prev_cur = cur.deep_view();
            cur.push(word);
            cur_width = cur_width + 1 + wlen;
            proof {
                assert(cur.deep_view() =~= prev_cur.push(tokens[j as int]));
                assert(cur.deep_view().drop_last() =~= prev_cur);
                assert(natural_width(cur.deep_view()) == cur_width);
            }
        }
        j = j + 1;
    }
    proof {
        assert(tokens.take(tokens.len() as int) =~= tokens);
    }
    let ghost prev_lines = lines.deep_view();
    let line = align_line(cur, w);
    lines.push(line);
    proof {
        assert(lines.deep_view() =~= prev_lines.push(line@));
        assert(lines.deep_view() =~= lines_of(input@, wnat));
    }
    let ghost ls = lines.deep_view();
    let mut res = String::new();
    let mut k: usize = 0;
    proof {
        reveal_strlit("\n");
    }
    while k < lines.len()
        invariant
            ls == lines.deep_view(),
            lines@.len() == ls.len(),
            k <= ls.len(),
            "\n"@ =~= seq!['\n'],
            res@ == join_lines(ls.take(k as int)),
        decreases ls.len() - k,
    {
        if k > 0 {
            res.append("\n");
        }
        res.append(lines[k].as_str());
        proof {
            lemma_take_succ(ls, k as int);
            assert(lines@[k as int]@ == ls[k as int]);
            if k == 0 {
                assert(ls.take(1).len() == 1);
                assert(res@ == join_lines(ls.take(1)));
            }
        }
        k = k + 1;
    }
    proof {
        assert(ls.take(ls.len() as int) =~= ls);
        assert(res@ == transform_spec(input@, wnat));
    }
    res
}

} // verus!

//! Properties of the parser that relate several of its functions: the pair
//! count under odd token counts, the block count of a segmented file, and
//! the round trip from rendered text back through the tokenizer.

use vstd::prelude::*;

use crate::phrase::PhraseV;
use crate::quote::SegState;
use crate::quote::render_dialogue;
use crate::quote::render_phrase;
use crate::quote::seg_loop;
use crate::quote::segments;
use crate::text::is_space;
use crate::text::lemma_trim_of_clean;
use crate::text::trim;
use crate::tokens::clean_tokens;
use crate::tokens::glue_first;
use crate::tokens::is_break1;
use crate::tokens::is_break2;
use crate::tokens::lemma_raw_split_nonempty;
use crate::tokens::paired;
use crate::tokens::raw_split;
use crate::tokens::tokens_of;

verus! {

/// A block that splits into an odd number of kept tokens, `2 * n + 1` of
/// them, yields exactly `n` phrases: the final unpaired token is dropped,
/// and each phrase pairs two consecutive tokens.
pub proof fn lemma_odd_token_truncation(s: Seq<char>, n: nat)
    requires
        tokens_of(s).len() == 2 * n + 1,
    ensures
        paired(tokens_of(s)).len() == n,
        forall|i: int|
            0 <= i < n ==> paired(tokens_of(s))[i] == (PhraseV {
                text: tokens_of(s)[2 * i],
                author: tokens_of(s)[2 * i + 1],
            }),
{
}

/// The number of blocks the segmenter's scan still emits, keeping only the
/// two state bits that decide emission.
pub open spec fn seg_count(lines: Seq<Seq<char>>, i: int, pb: bool, op: bool) -> int
    decreases lines.len() - i,
{
    if i < 0 || i >= lines.len() {
        if op {
            1
        } else {
            0
        }
    } else if lines[i].len() == 0 {
        seg_count(lines, i + 1, true, op)
    } else if op && pb {
        1 + seg_count(lines, i + 1, false, true)
    } else {
        seg_count(lines, i + 1, pb, true)
    }
}

proof fn lemma_seg_loop_count(lines: Seq<Seq<char>>, i: int, st: SegState)
    ensures
        seg_loop(lines, i, st, false).len() == seg_count(
            lines,
            i,
            st.prev_blank,
            st.block is Some,
        ),
    decreases lines.len() - i,
{
    if i < 0 || i >= lines.len() {
    } else if lines[i].len() == 0 {
        lemma_seg_loop_count(lines, i + 1, SegState { prev_blank: true, block: st.block });
    } else {
        match st.block {
            Option::Some(p) => {
                if st.prev_blank {
                    lemma_seg_loop_count(
                        lines,
                        i + 1,
                        SegState {
                            prev_blank: false,
                            block: Option::Some((i, lines[i] + crate::quote::join_mark())),
                        },
                    );
                } else {
                    lemma_seg_loop_count(
                        lines,
                        i + 1,
                        SegState {
                            prev_blank: st.prev_blank,
                            block: Option::Some(
                                (p.0, p.1 + lines[i] + crate::quote::join_mark()),
                            ),
                        },
                    );
                }
            },
            Option::None => {
                lemma_seg_loop_count(
                    lines,
                    i + 1,
                    SegState {
                        prev_blank: st.prev_blank,
                        block: Option::Some((i, lines[i] + crate::quote::join_mark())),
                    },
                );
            },
        }
    }
}

/// The number of maximal runs of non-blank lines from line `i` on, where
/// `in_run` says whether line `i` continues a run already begun.
pub open spec fn runs_from(lines: Seq<Seq<char>>, i: int, in_run: bool) -> int
    decreases lines.len() - i,
{
    if i < 0 || i >= lines.len() {
        0
    } else if lines[i].len() == 0 {
        runs_from(lines, i + 1, false)
    } else {
        (if in_run {
            0int
        } else {
            1int
        }) + runs_from(lines, i + 1, true)
    }
}

/// The number of maximal runs of non-blank lines in a file's lines.
pub open spec fn count_runs(lines: Seq<Seq<char>>) -> int {
    runs_from(lines, 0, false)
}

proof fn lemma_seg_count_runs(lines: Seq<Seq<char>>, i: int, pb: bool, op: bool)
    requires
        !(pb && !op),
        !op ==> (0 <= i < lines.len() ==> lines[i].len() > 0),
    ensures
        seg_count(lines, i, pb, op) == (if op {
            1int
        } else {
            0int
        }) + runs_from(lines, i, op && !pb),
    decreases lines.len() - i,
{
    if i < 0 || i >= lines.len() {
    } else if lines[i].len() == 0 {
        lemma_seg_count_runs(lines, i + 1, true, op);
    } else if op && pb {
        lemma_seg_count_runs(lines, i + 1, false, true);
    } else {
        lemma_seg_count_runs(lines, i + 1, pb, true);
    }
}

/// Segmenting lines whose first line is not blank, with blank lines as the
/// only block separators, yields exactly one block per maximal run of
/// non-blank lines, however long the blank runs between them are.
pub proof fn lemma_block_count(lines: Seq<Seq<char>>)
    requires
        lines.len() > 0 ==> lines[0].len() > 0,
    ensures
        segments(lines, false).len() == count_runs(lines),
{
    lemma_seg_loop_count(lines, 0, SegState { prev_blank: false, block: Option::None });
    lemma_seg_count_runs(lines, 0, false, false);
}

/// A token whose rendered form the tokenizer reads back whole: non-empty,
/// no whitespace at either end, no delimiter character or pair inside, and
/// no leading dash that would merge with a preceding mark.
pub open spec fn clean_token(s: Seq<char>) -> bool {
    s.len() > 0 && !is_space(s[0]) && !is_space(s[s.len() - 1]) && s[0] != '-' && (forall|k: int|
        0 <= k < s.len() ==> !is_break1(#[trigger] s[k])) && (forall|k: int|
        0 <= k < s.len() - 1 ==> !is_break2(#[trigger] s[k], s[k + 1]))
}

/// Every text and author of the dialogue is a clean token.
pub open spec fn clean_dialogue(d: Seq<PhraseV>) -> bool {
    forall|i: int|
        0 <= i < d.len() ==> clean_token((#[trigger] d[i]).text) && clean_token(d[i].author)
}

proof fn lemma_raw_split_run(c: Seq<char>, rest: Seq<char>)
    requires
        forall|k: int| 0 <= k < c.len() ==> !is_break1(#[trigger] c[k]),
        forall|k: int| 0 <= k < c.len() - 1 ==> !is_break2(#[trigger] c[k], c[k + 1]),
        c.len() > 0 && rest.len() > 0 ==> !is_break2(c[c.len() - 1], rest[0]),
    ensures
        raw_split(c + rest) == glue_first(c, raw_split(rest)),
    decreases c.len(),
{
    lemma_raw_split_nonempty(rest);
    if c.len() == 0 {
        assert(c + rest =~= rest);
        assert(glue_first(c, raw_split(rest)) =~~= raw_split(rest));
    } else {
        let s = c + rest;
        assert(s[0] == c[0]);
        if s.len() >= 2 {
            if c.len() >= 2 {
                assert(s[1] == c[1]);
            } else {
                assert(s[1] == rest[0]);
            }
            assert(!is_break2(s[0], s[1]));
        }
        let r = raw_split(s.skip(1));
        assert(raw_split(s) == seq![seq![s[0]] + r[0]] + r.skip(1));
        assert(s.skip(1) =~= c.skip(1) + rest);
        lemma_raw_split_run(c.skip(1), rest);
        let x = raw_split(rest);
        assert(r == glue_first(c.skip(1), x));
        assert(r[0] == c.skip(1) + x[0]);
        assert(r.skip(1) =~= x.skip(1));
        assert(seq![s[0]] + (c.skip(1) + x[0]) =~= c + x[0]);
        assert(raw_split(s) =~~= glue_first(c, x));
    }
}

proof fn lemma_raw_split_end_nl(s: Seq<char>)
    requires
        s.len() > 0,
        s[s.len() - 1] == '\n',
    ensures
        raw_split(s).len() >= 2,
    decreases s.len(),
{
    if s.len() == 1 {
        reveal_with_fuel(raw_split, 3);
        assert(s.skip(1) =~= Seq::<char>::empty());
    } else if s.len() >= 2 && is_break2(s[0], s[1]) {
        assert(s.len() >= 3) by {
            assert(s[1] == '-' || s[1] == ';');
        }
        assert(s.skip(2)[s.skip(2).len() - 1] == s[s.len() - 1]);
        lemma_raw_split_end_nl(s.skip(2));
    } else if is_break1(s[0]) {
        assert(s.skip(1)[s.skip(1).len() - 1] == s[s.len() - 1]);
        lemma_raw_split_end_nl(s.skip(1));
    } else {
        assert(s.skip(1)[s.skip(1).len() - 1] == s[s.len() - 1]);
        lemma_raw_split_end_nl(s.skip(1));
    }
}

proof fn lemma_raw_split_concat_nl(x: Seq<char>, y: Seq<char>)
    requires
        x.len() > 0,
        x[x.len() - 1] == '\n',
    ensures
        raw_split(x + y) == raw_split(x).drop_last() + raw_split(y),
    decreases x.len(),
{
    let s = x + y;
    lemma_raw_split_nonempty(y);
    if x.len() == 1 {
        assert(s[0] == '\n');
        if s.len() >= 2 {
            assert(!is_break2(s[0], s[1]));
        }
        assert(s.skip(1) =~= y);
        assert(raw_split(s) == seq![Seq::<char>::empty()] + raw_split(y));
        assert(raw_split(x) == seq![Seq::<char>::empty()] + raw_split(x.skip(1)));
        assert(x.skip(1) =~= Seq::<char>::empty());
        assert(raw_split(x).drop_last() =~= seq![Seq::<char>::empty()]);
    } else {
        assert(s[0] == x[0] && s[1] == x[1]);
        if is_break2(x[0], x[1]) {
            assert(x.len() >= 3) by {
                assert(x[1] == '-' || x[1] == ';');
            }
            assert(s.skip(2) =~= x.skip(2) + y);
            assert(x.skip(2)[x.skip(2).len() - 1] == x[x.len() - 1]);
            lemma_raw_split_concat_nl(x.skip(2), y);
            lemma_raw_split_end_nl(x.skip(2));
            assert(raw_split(s) == seq![Seq::<char>::empty()] + raw_split(x.skip(2) + y));
            assert(raw_split(x) == seq![Seq::<char>::empty()] + raw_split(x.skip(2)));
            assert(raw_split(x).drop_last() =~~= seq![Seq::<char>::empty()] + raw_split(
                x.skip(2),
            ).drop_last());
            assert(raw_split(s) =~~= raw_split(x).drop_last() + raw_split(y));
        } else if is_break1(x[0]) {
            assert(s.skip(1) =~= x.skip(1) + y);
            assert(x.skip(1)[x.skip(1).len() - 1] == x[x.len() - 1]);
            lemma_raw_split_concat_nl(x.skip(1), y);
            lemma_raw_split_end_nl(x.skip(1));
            assert(raw_split(s) == seq![Seq::<char>::empty()] + raw_split(x.skip(1) + y));
            assert(raw_split(x) == seq![Seq::<char>::empty()] + raw_split(x.skip(1)));
            assert(raw_split(x).drop_last() =~~= seq![Seq::<char>::empty()] + raw_split(
                x.skip(1),
            ).drop_last());
            assert(raw_split(s) =~~= raw_split(x).drop_last() + raw_split(y));
        } else {
            assert(s.skip(1) =~= x.skip(1) + y);
            assert(x.skip(1)[x.skip(1).len() - 1] == x[x.len() - 1]);
            lemma_raw_split_concat_nl(x.skip(1), y);
            lemma_raw_split_end_nl(x.skip(1));
            let rx = raw_split(x.skip(1));
            let r = raw_split(s.skip(1));
            assert(r == rx.drop_last() + raw_split(y));
            assert(rx.drop_last().len() >= 1);
            assert(r[0] == rx.drop_last()[0]);
            assert(rx.drop_last()[0] == rx[0]);
            assert(raw_split(s) == seq![seq![s[0]] + r[0]] + r.skip(1));
            assert(raw_split(x) == seq![seq![x[0]] + rx[0]] + rx.skip(1));
            assert(r.skip(1) =~= rx.drop_last().skip(1) + raw_split(y));
            assert(raw_split(x).drop_last() =~~= seq![seq![x[0]] + rx[0]] + rx.skip(
                1,
            ).drop_last());
            assert(rx.skip(1).drop_last() =~= rx.drop_last().skip(1));
            assert(raw_split(s) =~~= raw_split(x).drop_last() + raw_split(y));
        }
    }
}

proof fn lemma_clean_concat(a: Seq<Seq<char>>, b: Seq<Seq<char>>)
    ensures
        clean_tokens(a + b) == clean_tokens(a) + clean_tokens(b),
    decreases b.len(),
{
    if b.len() == 0 {
        assert(a + b =~= a);
        assert(clean_tokens(a) + clean_tokens(b) =~= clean_tokens(a));
    } else {
        assert((a + b).drop_last() =~= a + b.drop_last());
        assert((a + b).last() == b.last());
        lemma_clean_concat(a, b.drop_last());
        assert(clean_tokens(a + b) =~= clean_tokens(a) + clean_tokens(b));
    }
}

proof fn lemma_phrase_split(p: PhraseV)
    requires
        clean_token(p.text),
        clean_token(p.author),
    ensures
        raw_split(render_phrase(p)) == seq![
            Seq::<char>::empty(),
            p.text,
            Seq::<char>::empty(),
            seq![' '] + p.author,
            Seq::<char>::empty(),
        ],
{
    let t = p.text;
    let a = p.author;
    let e = Seq::<char>::empty();
    let s4 = seq![' '] + a + seq!['\n'];
    let s3 = seq![' ', '-'] + s4;
    let s2 = seq!['"'] + s3;
    let s1 = t + s2;
    let rp = render_phrase(p);
    assert(rp =~= seq!['"'] + s1);
    // the sole line-break delimiter at the very end
    assert(raw_split(seq!['\n']) == seq![e] + raw_split(e)) by {
        assert(!is_break2('\n', '\n'));
        assert(seq!['\n'].skip(1) =~= e);
    }
    assert(raw_split(seq!['\n']) =~~= seq![e, e]);
    // the author run, preceded by the second space of the dash mark
    assert(s4 =~= (seq![' '] + a) + seq!['\n']);
    assert(forall|k: int|
        0 <= k < (seq![' '] + a).len() ==> !is_break1(#[trigger] (seq![' '] + a)[k]));
    assert(forall|k: int|
        0 <= k < (seq![' '] + a).len() - 1 ==> !is_break2(
            #[trigger] (seq![' '] + a)[k],
            (seq![' '] + a)[k + 1],
        ));
    assert(!is_break2((seq![' '] + a)[(seq![' '] + a).len() - 1], '\n'));
    lemma_raw_split_run(seq![' '] + a, seq!['\n']);
    assert(raw_split(s4) =~~= seq![seq![' '] + a, e]) by {
        assert((seq![' '] + a) + e =~= seq![' '] + a);
    }
    // the space-dash delimiter
    assert(raw_split(s3) == seq![e] + raw_split(s3.skip(2))) by {
        assert(is_break2(s3[0], s3[1]));
    }
    assert(s3.skip(2) =~= s4);
    assert(raw_split(s3) =~~= seq![e, seq![' '] + a, e]);
    // the closing quotation mark
    assert(raw_split(s2) == seq![e] + raw_split(s2.skip(1))) by {
        assert(s2[1] == ' ');
        assert(!is_break2(s2[0], s2[1]));
        assert(is_break1(s2[0]));
    }
    assert(s2.skip(1) =~= s3);
    assert(raw_split(s2) =~~= seq![e, e, seq![' '] + a, e]);
    // the text run
    assert(t.len() > 0 && s2.len() > 0 ==> !is_break2(t[t.len() - 1], s2[0]));
    lemma_raw_split_run(t, s2);
    assert(raw_split(s1) =~~= seq![t, e, seq![' '] + a, e]) by {
        assert(t + e =~= t);
    }
    // the opening quotation mark
    assert(raw_split(rp) == seq![e] + raw_split(rp.skip(1))) by {
        assert(rp[0] == '"');
        assert(rp[1] == t[0]);
        assert(!is_break2(rp[0], rp[1]));
    }
    assert(rp.skip(1) =~= s1);
    assert(raw_split(rp) =~~= seq![e, t, e, seq![' '] + a, e]);
}

proof fn lemma_clean_of_phrase_fragments(p: PhraseV, frs: Seq<Seq<char>>)
    requires
        clean_token(p.text),
        clean_token(p.author),
        frs == seq![
            Seq::<char>::empty(),
            p.text,
            Seq::<char>::empty(),
            seq![' '] + p.author,
        ],
    ensures
        clean_tokens(frs) == seq![p.text, p.author],
{
    reveal_with_fuel(clean_tokens, 6);
    let t = p.text;
    let a = p.author;
    let e = Seq::<char>::empty();
    let sp_a = seq![' '] + a;
    lemma_trim_of_clean(t);
    assert(trim(sp_a) == a) by {
        assert(is_space(sp_a[0]));
        assert(sp_a.skip(1) =~= a);
        lemma_trim_of_clean(a);
    }
    assert(trim(e) == e);
    let l1 = seq![e];
    let l2 = seq![e, t];
    let l3 = seq![e, t, e];
    let l4 = seq![e, t, e, sp_a];
    assert(l1.drop_last() =~= Seq::<Seq<char>>::empty());
    assert(l2.drop_last() =~= l1);
    assert(l3.drop_last() =~= l2);
    assert(l4.drop_last() =~= l3);
    assert(clean_tokens(l1) =~~= Seq::<Seq<char>>::empty());
    assert(clean_tokens(l2) =~~= seq![t]);
    assert(clean_tokens(l3) =~~= seq![t]);
    assert(clean_tokens(l4) =~~= seq![t, a]);
}

/// The alternating token list a dialogue renders to: text, author, text,
/// author, in order.
pub open spec fn interleave(d: Seq<PhraseV>) -> Seq<Seq<char>> {
    Seq::new(
        2 * d.len(),
        |j: int|
            if j % 2 == 0 {
                d[j / 2].text
            } else {
                d[j / 2].author
            },
    )
}

#[verifier::rlimit(60)]
proof fn lemma_tokens_render(d: Seq<PhraseV>)
    requires
        clean_dialogue(d),
    ensures
        tokens_of(render_dialogue(d)) == interleave(d),
    decreases d.len(),
{
    reveal_with_fuel(clean_tokens, 3);
    reveal_with_fuel(raw_split, 3);
    let e = Seq::<char>::empty();
    if d.len() == 0 {
        assert(raw_split(e) == seq![e]);
        assert(seq![e].drop_last() =~= Seq::<Seq<char>>::empty());
        assert(tokens_of(e) =~~= interleave(d));
    } else {
        let p = d[0];
        let rp = render_phrase(p);
        let rest = render_dialogue(d.skip(1));
        assert(render_dialogue(d) == rp + rest);
        assert(rp[rp.len() - 1] == '\n');
        lemma_raw_split_concat_nl(rp, rest);
        lemma_phrase_split(p);
        let frs = seq![e, p.text, e, seq![' '] + p.author];
        assert(raw_split(rp).drop_last() =~= frs);
        lemma_clean_concat(frs, raw_split(rest));
        lemma_clean_of_phrase_fragments(p, frs);
        assert(clean_dialogue(d.skip(1)));
        lemma_tokens_render(d.skip(1));
        assert(tokens_of(render_dialogue(d)) == seq![p.text, p.author] + interleave(d.skip(1)));
        assert forall|j: int| 0 <= j < 2 * d.len() implies (seq![p.text, p.author] + interleave(
            d.skip(1),
        ))[j] == interleave(d)[j] by {
            if j >= 2 {
                assert(interleave(d.skip(1))[j - 2] == (if (j - 2) % 2 == 0 {
                    d.skip(1)[(j - 2) / 2].text
                } else {
                    d.skip(1)[(j - 2) / 2].author
                }));
                assert((j - 2) % 2 == j % 2);
                assert((j - 2) / 2 + 1 == j / 2);
                assert(d.skip(1)[(j - 2) / 2] == d[j / 2]);
            }
        }
        assert(tokens_of(render_dialogue(d)) =~~= interleave(d));
    }
}

proof fn lemma_paired_interleave(d: Seq<PhraseV>)
    ensures
        paired(interleave(d)) == d,
{
    assert(paired(interleave(d)).len() == d.len());
    assert forall|i: int| 0 <= i < d.len() implies paired(interleave(d))[i] == d[i] by {
        assert(interleave(d)[2 * i] == d[i].text);
        assert(interleave(d)[2 * i + 1] == d[i].author);
        assert(paired(interleave(d))[i] =~~= d[i]);
    }
    assert(paired(interleave(d)) =~~= d);
}

/// Round trip: tokenizing the rendered form of a dialogue of clean tokens
/// recovers exactly the same (text, author) pairs, in the same order.
pub proof fn lemma_render_round_trip(d: Seq<PhraseV>)
    requires
        clean_dialogue(d),
    ensures
        paired(tokens_of(render_dialogue(d))) == d,
{
    lemma_tokens_render(d);
    lemma_paired_interleave(d);
}

} // verus!

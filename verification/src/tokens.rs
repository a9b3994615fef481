//! The phrase tokenizer: a block's text is split on a fixed family of
//! punctuation delimiters, each fragment is trimmed, blank fragments are
//! dropped, and the surviving tokens are paired into phrases.

use vstd::prelude::*;
use vstd::string::*;

use crate::phrase::PhraseV;
use crate::text::to_char_vec;
use crate::text::trim;
use crate::text::trim_range;

verus! {

/// Two-character delimiters: a closing quotation mark or a space followed by
/// a dash, and the two-character line-join mark.
pub open spec fn is_break2(a: char, b: char) -> bool {
    (a == '"' && b == '-') || (a == '”' && b == '-') || (a == ' ' && b == '-') || (a == ';' && b
        == ';')
}

/// Single-character delimiters: bare quotation marks and line breaks.
pub open spec fn is_break1(a: char) -> bool {
    a == '"' || a == '“' || a == '”' || a == '\n'
}

fn is_break2_chars(a: char, b: char) -> (r: bool)
    ensures
        r == is_break2(a, b),
{
    (a == '"' && b == '-') || (a == '”' && b == '-') || (a == ' ' && b == '-') || (a == ';' && b
        == ';')
}

fn is_break1_char(a: char) -> (r: bool)
    ensures
        r == is_break1(a),
{
    a == '"' || a == '“' || a == '”' || a == '\n'
}

/// The raw fragments of `s`: the text is scanned left to right, the
/// two-character delimiters take precedence, and a fragment stands between
/// every two consecutive delimiters (so fragments may be empty).
pub open spec fn raw_split(s: Seq<char>) -> Seq<Seq<char>>
    decreases s.len(),
{
    if s.len() == 0 {
        seq![Seq::<char>::empty()]
    } else if s.len() >= 2 && is_break2(s[0], s[1]) {
        seq![Seq::<char>::empty()] + raw_split(s.skip(2))
    } else if is_break1(s[0]) {
        seq![Seq::<char>::empty()] + raw_split(s.skip(1))
    } else {
        let r = raw_split(s.skip(1));
        seq![seq![s[0]] + r[0]] + r.skip(1)
    }
}

pub proof fn lemma_raw_split_nonempty(s: Seq<char>)
    ensures
        raw_split(s).len() >= 1,
{
}

/// A partial fragment `c` glued onto the front of a split `fr`.
pub open spec fn glue_first(c: Seq<char>, fr: Seq<Seq<char>>) -> Seq<Seq<char>>
    recommends
        fr.len() >= 1,
{
    seq![c + fr[0]] + fr.skip(1)
}

/// The fragments of `frs` trimmed, with the blank ones dropped.
pub open spec fn clean_tokens(frs: Seq<Seq<char>>) -> Seq<Seq<char>>
    decreases frs.len(),
{
    if frs.len() == 0 {
        Seq::empty()
    } else {
        clean_tokens(frs.drop_last()) + (if trim(frs.last()).len() > 0 {
            seq![trim(frs.last())]
        } else {
            Seq::<Seq<char>>::empty()
        })
    }
}

/// The kept tokens of a block's text: raw fragments, trimmed, blanks dropped.
pub open spec fn tokens_of(s: Seq<char>) -> Seq<Seq<char>> {
    clean_tokens(raw_split(s))
}

/// Consecutive tokens paired into phrases; with an odd token count the final
/// unpaired token is dropped (the pair count truncates).
pub open spec fn paired(toks: Seq<Seq<char>>) -> Seq<PhraseV> {
    Seq::new((toks.len() / 2) as nat, |i: int| PhraseV { text: toks[2 * i], author: toks[2 * i + 1] })
}

/// The views of a sequence of owned strings.
pub open spec fn str_views(v: Seq<String>) -> Seq<Seq<char>> {
    v.map_values(|s: String| s@)
}

/// Trims `line[from..to]` and appends it to `toks` unless it is blank.
fn push_fragment(toks: &mut Vec<String>, line: &str, v: &Vec<char>, from: usize, to: usize)
    requires
        v@ == line@,
        from <= to <= line@.len(),
    ensures
        ({
            let t = trim(line@.subrange(from as int, to as int));
            str_views(final(toks)@) == str_views(old(toks)@) + (if t.len() > 0 {
                seq![t]
            } else {
                Seq::<Seq<char>>::empty()
            })
        }),
{
    let (a, b) = trim_range(v, from, to);
    if a < b {
        let frag = line.substring_char(a, b);
        let owned = frag.to_owned();
        toks.push(owned);
        proof {
            let t = trim(line@.subrange(from as int, to as int));
            assert(str_views(toks@) =~~= str_views(old(toks)@) + seq![t]);
        }
    } else {
        proof {
            let t = trim(line@.subrange(from as int, to as int));
            assert(line@.subrange(a as int, b as int).len() == 0);
            assert(str_views(toks@) =~~= str_views(toks@) + Seq::<Seq<char>>::empty());
        }
    }
}

/// Splits a block's text into its kept tokens.
pub fn split_tokens(line: &str) -> (toks: Vec<String>)
    ensures
        str_views(toks@) == tokens_of(line@),
{
    let v = to_char_vec(line);
    let n = v.len();
    let mut toks: Vec<String> = Vec::new();
    let mut start: usize = 0;
    let mut i: usize = 0;
    let ghost mut done: Seq<Seq<char>> = Seq::empty();
    proof {
        assert(line@.skip(0) =~= line@);
        lemma_raw_split_nonempty(line@);
        assert(line@.subrange(0, 0) =~= Seq::<char>::empty());
        assert(Seq::<char>::empty() + raw_split(line@)[0] =~= raw_split(line@)[0]);
        assert(done + glue_first(line@.subrange(0, 0), raw_split(line@.skip(0))) =~~= raw_split(
            line@,
        ));
    }
    while i < n
        invariant
            v@ == line@,
            n == v@.len(),
            start <= i <= n,
            raw_split(line@) == done + glue_first(
                line@.subrange(start as int, i as int),
                raw_split(line@.skip(i as int)),
            ),
            str_views(toks@) == clean_tokens(done),
        decreases n - i,
    {
        let c = v[i];
        let brk2 = i + 1 < n && is_break2_chars(c, v[i + 1]);
        let brk1 = is_break1_char(c);
        let ghost s = line@;
        let ghost cur = s.subrange(start as int, i as int);
        let ghost rest = s.skip(i as int);
        if brk2 || brk1 {
            let d: usize = if brk2 {
                2
            } else {
                1
            };
            proof {
                let after = s.skip(i + d);
                if brk2 {
                    assert(rest[0] == s[i as int] && rest[1] == s[i + 1]);
                    assert(rest.skip(2) =~= after);
                    assert(raw_split(rest) == seq![Seq::<char>::empty()] + raw_split(after));
                } else {
                    assert(rest[0] == s[i as int]);
                    if rest.len() >= 2 {
                        assert(rest[1] == s[i + 1]);
                    }
                    assert(rest.skip(1) =~= after);
                    assert(raw_split(rest) == seq![Seq::<char>::empty()] + raw_split(after));
                }
                lemma_raw_split_nonempty(s.skip(i + d));
                assert(glue_first(cur, seq![Seq::<char>::empty()] + raw_split(s.skip(i + d)))
                    =~~= seq![cur] + raw_split(s.skip(i + d)));
                assert(s.subrange(i + d, i + d) =~= Seq::<char>::empty());
                assert(glue_first(s.subrange(i + d, i + d), raw_split(s.skip(i + d)))
                    =~~= raw_split(s.skip(i + d)));
            }
            push_fragment(&mut toks, line, &v, start, i);
            proof {
                let d2 = done + seq![cur];
                assert(d2.drop_last() =~~= done);
                assert(d2.last() == cur);
                assert(clean_tokens(d2) == clean_tokens(done) + (if trim(cur).len() > 0 {
                    seq![trim(cur)]
                } else {
                    Seq::<Seq<char>>::empty()
                }));
                done = d2;
                assert(raw_split(line@) == done + glue_first(
                    s.subrange(i + d, i + d),
                    raw_split(s.skip(i + d)),
                )) by {
                    assert(done + glue_first(s.subrange(i + d, i + d), raw_split(s.skip(i + d)))
                        =~~= (done.drop_last() + glue_first(cur, raw_split(rest))));
                }
            }
            i = i + d;
            start = i;
        } else {
            proof {
                assert(rest[0] == s[i as int]);
                if rest.len() >= 2 {
                    assert(rest[1] == s[i + 1]);
                }
                let r = raw_split(s.skip(i + 1));
                lemma_raw_split_nonempty(s.skip(i + 1));
                assert(rest.skip(1) =~= s.skip(i + 1));
                assert(raw_split(rest) == seq![seq![rest[0]] + r[0]] + r.skip(1));
                assert(cur + seq![s[i as int]] =~= s.subrange(start as int, i + 1));
                assert(glue_first(cur, raw_split(rest)) =~~= glue_first(
                    s.subrange(start as int, i + 1),
                    r,
                ));
            }
            i = i + 1;
        }
    }
    proof {
        assert(line@.skip(n as int) =~= Seq::<char>::empty());
        let cur = line@.subrange(start as int, n as int);
        assert(glue_first(cur, raw_split(Seq::<char>::empty())) =~~= seq![cur]);
    }
    push_fragment(&mut toks, line, &v, start, n);
    proof {
        let cur = line@.subrange(start as int, n as int);
        let d2 = done + seq![cur];
        assert(d2.drop_last() =~~= done);
        assert(d2.last() == cur);
        assert(clean_tokens(d2) == clean_tokens(done) + (if trim(cur).len() > 0 {
            seq![trim(cur)]
        } else {
            Seq::<Seq<char>>::empty()
        }));
        assert(raw_split(line@) =~~= d2);
        assert(str_views(toks@) == tokens_of(line@));
    }
    toks
}

} // verus!

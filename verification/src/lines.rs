//! Splitting raw text into lines: a line ends at a line feed or at a
//! carriage return followed by a line feed, and a final line without a
//! terminator still counts.

use vstd::prelude::*;
use vstd::string::*;

use crate::text::to_char_vec;
use crate::tokens::str_views;

verus! {

/// The lines of `s`. A terminator is `\n` or `\r\n`; the terminator of the
/// last line is optional, and an empty final fragment is not a line.
pub open spec fn split_lines(s: Seq<char>) -> Seq<Seq<char>>
    decreases s.len(),
{
    if s.len() == 0 {
        Seq::empty()
    } else if s.len() >= 2 && s[0] == '\r' && s[1] == '\n' {
        seq![Seq::<char>::empty()] + split_lines(s.skip(2))
    } else if s[0] == '\n' {
        seq![Seq::<char>::empty()] + split_lines(s.skip(1))
    } else {
        let r = split_lines(s.skip(1));
        if r.len() == 0 {
            seq![seq![s[0]]]
        } else {
            seq![seq![s[0]] + r[0]] + r.skip(1)
        }
    }
}

/// A partial line `c` glued onto the front of the lines `rest`.
pub open spec fn glue_line(c: Seq<char>, rest: Seq<Seq<char>>) -> Seq<Seq<char>> {
    if rest.len() == 0 {
        if c.len() == 0 {
            Seq::<Seq<char>>::empty()
        } else {
            seq![c]
        }
    } else {
        seq![c + rest[0]] + rest.skip(1)
    }
}

/// Splits `contents` into its lines.
pub fn split_into_lines(contents: &str) -> (lines: Vec<String>)
    ensures
        str_views(lines@) == split_lines(contents@),
{
    let v = to_char_vec(contents);
    let n = v.len();
    let mut lines: Vec<String> = Vec::new();
    let mut start: usize = 0;
    let mut i: usize = 0;
    let ghost mut done: Seq<Seq<char>> = Seq::empty();
    proof {
        assert(contents@.skip(0) =~= contents@);
        assert(contents@.subrange(0, 0) =~= Seq::<char>::empty());
        if split_lines(contents@).len() > 0 {
            assert(Seq::<char>::empty() + split_lines(contents@)[0] =~= split_lines(
                contents@,
            )[0]);
        }
        assert(done + glue_line(contents@.subrange(0, 0), split_lines(contents@.skip(0)))
            =~~= split_lines(contents@));
    }
    while i < n
        invariant
            v@ == contents@,
            n == v@.len(),
            start <= i <= n,
            split_lines(contents@) == done + glue_line(
                contents@.subrange(start as int, i as int),
                split_lines(contents@.skip(i as int)),
            ),
            str_views(lines@) == done,
        decreases n - i,
    {
        let c = v[i];
        let brk2 = c == '\r' && i + 1 < n && v[i + 1] == '\n';
        let brk1 = c == '\n';
        let ghost s = contents@;
        let ghost cur = s.subrange(start as int, i as int);
        let ghost rest = s.skip(i as int);
        if brk2 || brk1 {
            let d: usize = if brk2 {
                2
            } else {
                1
            };
            proof {
                let after = s.skip(i + d);
                assert(rest[0] == s[i as int]);
                if rest.len() >= 2 {
                    assert(rest[1] == s[i + 1]);
                }
                if brk2 {
                    assert(rest.skip(2) =~= after);
                } else {
                    assert(rest.skip(1) =~= after);
                }
                assert(split_lines(rest) == seq![Seq::<char>::empty()] + split_lines(after));
                assert(glue_line(cur, seq![Seq::<char>::empty()] + split_lines(after))
                    =~~= seq![cur] + split_lines(after));
                assert(s.subrange(i + d, i + d) =~= Seq::<char>::empty());
                if split_lines(after).len() > 0 {
                    assert(Seq::<char>::empty() + split_lines(after)[0] =~= split_lines(after)[0]);
                }
                assert(glue_line(s.subrange(i + d, i + d), split_lines(after)) =~~= split_lines(
                    after,
                ));
            }
            let piece = contents.substring_char(start, i);
            let owned = piece.to_owned();
            lines.push(owned);
            proof {
                done = done + seq![cur];
                assert(str_views(lines@) =~~= done);
            }
            i = i + d;
            start = i;
        } else {
            proof {
                assert(rest[0] == s[i as int]);
                if rest.len() >= 2 {
                    assert(rest[1] == s[i + 1]);
                }
                let r = split_lines(s.skip(i + 1));
                assert(rest.skip(1) =~= s.skip(i + 1));
                if r.len() == 0 {
                    assert(split_lines(rest) == seq![seq![rest[0]]]);
                    assert(cur + seq![s[i as int]] =~= s.subrange(start as int, i + 1));
                    assert(glue_line(cur, split_lines(rest)) =~~= glue_line(
                        s.subrange(start as int, i + 1),
                        r,
                    ));
                } else {
                    assert(split_lines(rest) == seq![seq![rest[0]] + r[0]] + r.skip(1));
                    assert(cur + seq![s[i as int]] =~= s.subrange(start as int, i + 1));
                    assert(glue_line(cur, split_lines(rest)) =~~= glue_line(
                        s.subrange(start as int, i + 1),
                        r,
                    ));
                }
            }
            i = i + 1;
        }
    }
    if start < n {
        let piece = contents.substring_char(start, n);
        let owned = piece.to_owned();
        lines.push(owned);
        proof {
            let cur = contents@.subrange(start as int, n as int);
            assert(contents@.skip(n as int) =~= Seq::<char>::empty());
            assert(glue_line(cur, split_lines(Seq::<char>::empty())) =~~= seq![cur]);
            done = done + seq![cur];
            assert(str_views(lines@) =~~= done);
            assert(split_lines(contents@) =~~= done);
        }
    } else {
        proof {
            let cur = contents@.subrange(start as int, n as int);
            assert(cur.len() == 0);
            assert(contents@.skip(n as int) =~= Seq::<char>::empty());
            assert(glue_line(cur, split_lines(Seq::<char>::empty()))
                =~~= Seq::<Seq<char>>::empty());
            assert(split_lines(contents@) =~~= done);
        }
    }
    lines
}

} // verus!

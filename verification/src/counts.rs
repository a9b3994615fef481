//! Counting quotes per author: each author is charged at most once per
//! quote, and the report is sorted by author name.

use vstd::pervasive::VecAdditionalExecFns;
use vstd::prelude::*;
use vstd::string::*;

use crate::phrase::PhraseV;
use crate::quote::Quote;
use crate::quote::QuoteV;
use crate::quote::quote_views;
use crate::text::lemma_lex_asym;
use crate::text::lemma_lex_total;
use crate::text::lemma_lex_trans;
use crate::text::lex_less;
use crate::text::lex_lt;
use crate::text::to_char_vec;

verus! {

/// The author speaks somewhere in the quote's dialogue.
pub open spec fn quote_has_author(q: QuoteV, a: Seq<char>) -> bool {
    exists|j: int| 0 <= j < q.dialogue.len() && (#[trigger] q.dialogue[j]).author == a
}

/// How many of the quotes the author speaks in.
pub open spec fn author_total(qs: Seq<QuoteV>, a: Seq<char>) -> int
    decreases qs.len(),
{
    if qs.len() == 0 {
        0
    } else {
        author_total(qs.drop_last(), a) + (if quote_has_author(qs.last(), a) {
            1int
        } else {
            0int
        })
    }
}

/// The author already speaks among the first `j` phrases.
pub open spec fn seen_in_prefix(d: Seq<PhraseV>, j: int, a: Seq<char>) -> bool {
    exists|k: int| 0 <= k < j && (#[trigger] d[k]).author == a
}

/// How many distinct authors speak in a dialogue.
pub open spec fn distinct_count(d: Seq<PhraseV>) -> int
    decreases d.len(),
{
    if d.len() == 0 {
        0
    } else {
        distinct_count(d.drop_last()) + (if seen_in_prefix(d, d.len() - 1, d[d.len() - 1].author) {
            0int
        } else {
            1int
        })
    }
}

/// How many distinct (quote, author) incidences the collection holds.
pub open spec fn pair_total(qs: Seq<QuoteV>) -> int
    decreases qs.len(),
{
    if qs.len() == 0 {
        0
    } else {
        pair_total(qs.drop_last()) + distinct_count(qs.last().dialogue)
    }
}

/// The sum of the per-author counts of a report.
pub open spec fn sum_counts(s: Seq<(String, usize)>) -> int
    decreases s.len(),
{
    if s.len() == 0 {
        0
    } else {
        sum_counts(s.drop_last()) + s.last().1
    }
}

/// The count a report gives an author, 0 when the author is absent.
pub open spec fn count_of(s: Seq<(String, usize)>, a: Seq<char>) -> int
    decreases s.len(),
{
    if s.len() == 0 {
        0
    } else if s.last().0@ == a {
        s.last().1 as int
    } else {
        count_of(s.drop_last(), a)
    }
}

/// The report has an entry for the author.
pub open spec fn has_author_entry(s: Seq<(String, usize)>, a: Seq<char>) -> bool {
    exists|p: int| 0 <= p < s.len() && (#[trigger] s[p]).0@ == a
}

/// The report's entries are in strictly ascending name order.
pub open spec fn sorted_strict(s: Seq<(String, usize)>) -> bool {
    forall|p: int, q: int| 0 <= p < q < s.len() ==> lex_lt(#[trigger] s[p].0@, #[trigger] s[q].0@)
}

pub proof fn lemma_author_total_bound(qs: Seq<QuoteV>, a: Seq<char>)
    ensures
        0 <= author_total(qs, a) <= qs.len(),
    decreases qs.len(),
{
    if qs.len() > 0 {
        lemma_author_total_bound(qs.drop_last(), a);
    }
}

proof fn lemma_sorted_distinct(s: Seq<(String, usize)>, p: int, q: int)
    requires
        sorted_strict(s),
        0 <= p < s.len(),
        0 <= q < s.len(),
        p != q,
    ensures
        s[p].0@ != s[q].0@,
{
    if p < q {
        lemma_lex_asym(s[p].0@, s[q].0@);
    } else {
        lemma_lex_asym(s[q].0@, s[p].0@);
    }
}

proof fn lemma_count_entry(s: Seq<(String, usize)>, p: int)
    requires
        sorted_strict(s),
        0 <= p < s.len(),
    ensures
        count_of(s, s[p].0@) == s[p].1,
    decreases s.len(),
{
    if p == s.len() - 1 {
    } else {
        lemma_sorted_distinct(s, p, s.len() - 1);
        assert(s.drop_last()[p] == s[p]);
        lemma_count_entry(s.drop_last(), p);
    }
}

proof fn lemma_absent_zero(s: Seq<(String, usize)>, a: Seq<char>)
    requires
        !has_author_entry(s, a),
    ensures
        count_of(s, a) == 0,
    decreases s.len(),
{
    if s.len() > 0 {
        assert(s[s.len() - 1].0@ != a);
        assert(forall|p: int|
            0 <= p < s.len() - 1 ==> (#[trigger] s.drop_last()[p]).0@ == s[p].0@);
        lemma_absent_zero(s.drop_last(), a);
    }
}

proof fn lemma_count_of_update(s: Seq<(String, usize)>, p: int, nm: String, val: usize)
    requires
        0 <= p < s.len(),
        nm@ == s[p].0@,
        forall|q: int| 0 <= q < s.len() && q != p ==> (#[trigger] s[q]).0@ != s[p].0@,
    ensures
        count_of(s.update(p, (nm, val)), s[p].0@) == val,
        forall|b: Seq<char>|
            b != s[p].0@ ==> count_of(s.update(p, (nm, val)), b) == count_of(s, b),
        sum_counts(s.update(p, (nm, val))) == sum_counts(s) - s[p].1 + val,
    decreases s.len(),
{
    let s2 = s.update(p, (nm, val));
    if p == s.len() - 1 {
        assert(s2.drop_last() =~= s.drop_last());
        assert(s2.last() == (nm, val));
        assert forall|b: Seq<char>| b != s[p].0@ implies count_of(s2, b) == count_of(s, b) by {
            assert(count_of(s2, b) == count_of(s2.drop_last(), b));
            assert(count_of(s, b) == count_of(s.drop_last(), b));
        }
    } else {
        assert(s2.last() == s.last());
        assert(s2.drop_last() =~= s.drop_last().update(p, (nm, val)));
        assert(forall|q: int|
            0 <= q < s.len() - 1 ==> (#[trigger] s.drop_last()[q]).0@ == s[q].0@);
        lemma_count_of_update(s.drop_last(), p, nm, val);
        assert(s.last().0@ != s[p].0@);
        assert(count_of(s2, s[p].0@) == val) by {
            assert(count_of(s2, s[p].0@) == count_of(s2.drop_last(), s[p].0@));
            assert(s.drop_last()[p].0@ == s[p].0@);
        }
        assert forall|b: Seq<char>| b != s[p].0@ implies count_of(s2, b) == count_of(s, b) by {
            if s.last().0@ == b {
            } else {
                assert(count_of(s2, b) == count_of(s2.drop_last(), b));
                assert(count_of(s, b) == count_of(s.drop_last(), b));
            }
        }
        assert(sum_counts(s2) == sum_counts(s2.drop_last()) + s2.last().1);
    }
}

proof fn lemma_count_of_insert(s: Seq<(String, usize)>, p: int, nm: String)
    requires
        0 <= p <= s.len(),
        !has_author_entry(s, nm@),
    ensures
        count_of(s.insert(p, (nm, 1usize)), nm@) == 1,
        forall|b: Seq<char>| b != nm@ ==> count_of(s.insert(p, (nm, 1usize)), b) == count_of(s, b),
        sum_counts(s.insert(p, (nm, 1usize))) == sum_counts(s) + 1,
    decreases s.len(),
{
    let s2 = s.insert(p, (nm, 1usize));
    if p == s.len() {
        assert(s2.drop_last() =~= s);
        assert(s2.last() == (nm, 1usize));
        assert forall|b: Seq<char>| b != nm@ implies count_of(s2, b) == count_of(s, b) by {
            assert(count_of(s2, b) == count_of(s2.drop_last(), b));
        }
    } else {
        assert(s2.last() == s.last());
        assert(s2.drop_last() =~= s.drop_last().insert(p, (nm, 1usize)));
        assert(forall|q: int|
            0 <= q < s.len() - 1 ==> (#[trigger] s.drop_last()[q]).0@ == s[q].0@);
        assert(s[s.len() - 1].0@ != nm@);
        lemma_count_of_insert(s.drop_last(), p, nm);
        assert(count_of(s2, nm@) == 1) by {
            assert(count_of(s2, nm@) == count_of(s2.drop_last(), nm@));
        }
        assert forall|b: Seq<char>| b != nm@ implies count_of(s2, b) == count_of(s, b) by {
            if s.last().0@ == b {
            } else {
                assert(count_of(s2, b) == count_of(s2.drop_last(), b));
                assert(count_of(s, b) == count_of(s.drop_last(), b));
            }
        }
        assert(sum_counts(s2) == sum_counts(s2.drop_last()) + s2.last().1);
    }
}

/// Charges the author one more quote: an existing entry is incremented, a
/// missing one is inserted at its sorted position.
fn bump(counts: &mut Vec<(String, usize)>, author: &String)
    requires
        sorted_strict(old(counts)@),
        forall|p: int| 0 <= p < old(counts)@.len() ==> 1 <= (#[trigger] old(counts)@[p]).1,
        count_of(old(counts)@, author@) < usize::MAX,
    ensures
        sorted_strict(final(counts)@),
        forall|p: int| 0 <= p < final(counts)@.len() ==> 1 <= (#[trigger] final(counts)@[p]).1,
        count_of(final(counts)@, author@) == count_of(old(counts)@, author@) + 1,
        forall|b: Seq<char>|
            b != author@ ==> count_of(final(counts)@, b) == count_of(old(counts)@, b),
        sum_counts(final(counts)@) == sum_counts(old(counts)@) + 1,
        forall|b: Seq<char>|
            has_author_entry(final(counts)@, b) == (has_author_entry(old(counts)@, b) || b
                == author@),
{
    let a_chars = to_char_vec(author.as_str());
    let n = counts.len();
    let mut p: usize = 0;
    while p < n
        invariant
            n == counts@.len(),
            p <= n,
            a_chars@ == author@,
            forall|q: int| 0 <= q < p ==> lex_lt(#[trigger] counts@[q].0@, author@),
        ensures
            p <= n,
            forall|q: int| 0 <= q < p ==> lex_lt(#[trigger] counts@[q].0@, author@),
            p < n ==> !lex_lt(counts@[p as int].0@, author@),
        decreases n - p,
    {
        let cv = to_char_vec(counts[p].0.as_str());
        if !lex_less(&cv, &a_chars) {
            break ;
        }
        p = p + 1;
    }
    if p < n && counts[p].0 == *author {
        let c = counts[p].1;
        let name = author.clone();
        proof {
            lemma_count_entry(counts@, p as int);
            assert(forall|q: int|
                0 <= q < counts@.len() && q != p ==> (#[trigger] counts@[q]).0@ != counts@[p as int].0@)
                by {
                assert forall|q: int|
                    0 <= q < counts@.len() && q != p implies (#[trigger] counts@[q]).0@
                    != counts@[p as int].0@ by {
                    lemma_sorted_distinct(counts@, q, p as int);
                }
            }
            lemma_count_of_update(counts@, p as int, name, (c + 1) as usize);
        }
        let ghost s0 = counts@;
        proof {
            assert(s0 == old(counts)@);
        }
        counts.set(p, (name, c + 1));
        proof {
            assert(counts@ == s0.update(p as int, (name, (c + 1) as usize)));
            assert(sorted_strict(counts@)) by {
                assert forall|x: int, y: int| 0 <= x < y < counts@.len() implies lex_lt(
                    counts@[x].0@,
                    counts@[y].0@,
                ) by {
                    assert(counts@[x].0@ == s0[x].0@);
                    assert(counts@[y].0@ == s0[y].0@);
                }
            }
            assert forall|b: Seq<char>| has_author_entry(counts@, b) == (has_author_entry(s0, b)
                || b == author@) by {
                if has_author_entry(counts@, b) {
                    let w = choose|w: int| 0 <= w < counts@.len() && (#[trigger] counts@[w]).0@ == b;
                    assert(s0[w].0@ == counts@[w].0@);
                }
                if has_author_entry(s0, b) {
                    let w = choose|w: int| 0 <= w < s0.len() && (#[trigger] s0[w]).0@ == b;
                    assert(counts@[w].0@ == s0[w].0@);
                }
                if b == author@ {
                    assert(counts@[p as int].0@ == b);
                }
            }
        }
    } else {
        proof {
            assert(!has_author_entry(counts@, author@)) by {
                if p < n {
                    assert(counts@[p as int].0@ != author@);
                    lemma_lex_total(counts@[p as int].0@, author@);
                    assert(lex_lt(author@, counts@[p as int].0@));
                }
                if has_author_entry(counts@, author@) {
                    let w = choose|w: int|
                        0 <= w < counts@.len() && (#[trigger] counts@[w]).0@ == author@;
                    if w < p {
                        lemma_lex_asym(counts@[w].0@, author@);
                    } else if p < n {
                        if p < w {
                            lemma_lex_trans(author@, counts@[p as int].0@, counts@[w].0@);
                            lemma_lex_asym(author@, counts@[w].0@);
                        } else {
                            lemma_lex_asym(author@, counts@[w].0@);
                        }
                    }
                }
            }
        }
        let name = author.clone();
        proof {
            lemma_absent_zero(counts@, author@);
            lemma_count_of_insert(counts@, p as int, name);
        }
        let ghost s0 = counts@;
        proof {
            assert(s0 == old(counts)@);
        }
        counts.insert(p, (name, 1));
        proof {
            assert(counts@ == s0.insert(p as int, (name, 1usize)));
            assert(counts@[p as int] == (name, 1usize));
            assert(forall|q: int| 0 <= q < p ==> counts@[q] == s0[q]);
            assert(forall|q: int|
                p < q < counts@.len() ==> counts@[q] == s0[q - 1]);
            assert(forall|q: int|
                p < q < counts@.len() ==> lex_lt(author@, #[trigger] counts@[q].0@)) by {
                assert forall|q: int| p < q < counts@.len() implies lex_lt(
                    author@,
                    #[trigger] counts@[q].0@,
                ) by {
                    if p < n {
                        assert(counts@[q].0@ == s0[q - 1].0@);
                        lemma_lex_total(s0[p as int].0@, author@);
                        if q - 1 > p {
                            lemma_lex_trans(author@, s0[p as int].0@, s0[q - 1].0@);
                        }
                    }
                }
            }
            assert(sorted_strict(counts@)) by {
                assert forall|x: int, y: int| 0 <= x < y < counts@.len() implies lex_lt(
                    counts@[x].0@,
                    counts@[y].0@,
                ) by {
                    if y < p {
                    } else if y == p {
                        assert(counts@[x].0@ == s0[x].0@);
                    } else if x == p {
                    } else if x < p {
                        assert(counts@[x].0@ == s0[x].0@);
                        assert(counts@[y].0@ == s0[y - 1].0@);
                    } else {
                        assert(counts@[x].0@ == s0[x - 1].0@);
                        assert(counts@[y].0@ == s0[y - 1].0@);
                    }
                }
            }
            assert forall|b: Seq<char>| has_author_entry(counts@, b) == (has_author_entry(s0, b)
                || b == author@) by {
                if has_author_entry(counts@, b) && b != author@ {
                    let w = choose|w: int| 0 <= w < counts@.len() && (#[trigger] counts@[w]).0@ == b;
                    if w < p {
                        assert(s0[w].0@ == b);
                    } else {
                        assert(w != p);
                        assert(s0[w - 1].0@ == b);
                    }
                }
                if has_author_entry(s0, b) {
                    let w = choose|w: int| 0 <= w < s0.len() && (#[trigger] s0[w]).0@ == b;
                    if w < p {
                        assert(counts@[w].0@ == b);
                    } else {
                        assert(counts@[w + 1].0@ == b);
                    }
                }
                if b == author@ {
                    assert(counts@[p as int].0@ == b);
                }
            }
        }
    }
    proof {
        assert(sorted_strict(counts@));
        assert(count_of(counts@, author@) == count_of(old(counts)@, author@) + 1);
        assert(forall|b: Seq<char>|
            has_author_entry(counts@, b) == (has_author_entry(old(counts)@, b) || b == author@));
    }
}

impl Quote {
    /// The per-author report: one entry for each author that speaks in the
    /// collection, in strictly ascending name order; an author's count is
    /// the number of quotes it speaks in (speaking twice in one quote
    /// counts once), and the counts sum to the number of distinct
    /// (quote, author) incidences.
    pub fn author_counts(quote_list: &Vec<Quote>) -> (counts: Vec<(String, usize)>)
        ensures
            sorted_strict(counts@),
            forall|a: Seq<char>|
                #[trigger] count_of(counts@, a) == author_total(quote_views(quote_list@), a),
            forall|p: int|
                0 <= p < counts@.len() ==> (#[trigger] counts@[p]).1 == author_total(
                    quote_views(quote_list@),
                    counts@[p].0@,
                ) && counts@[p].1 >= 1,
            forall|a: Seq<char>|
                author_total(quote_views(quote_list@), a) > 0 ==> has_author_entry(counts@, a),
            sum_counts(counts@) == pair_total(quote_views(quote_list@)),
    {
        let ghost qv = quote_views(quote_list@);
        let n = quote_list.len();
        let mut counts: Vec<(String, usize)> = Vec::new();
        let mut i: usize = 0;
        proof {
            assert(qv.take(0) =~= Seq::<QuoteV>::empty());
        }
        while i < n
            invariant
                qv == quote_views(quote_list@),
                n == quote_list@.len(),
                n == qv.len(),
                i <= n,
                sorted_strict(counts@),
                forall|p: int| 0 <= p < counts@.len() ==> 1 <= (#[trigger] counts@[p]).1,
                forall|a: Seq<char>|
                    #[trigger] count_of(counts@, a) == author_total(qv.take(i as int), a),
                sum_counts(counts@) == pair_total(qv.take(i as int)),
            decreases n - i,
        {
            let dl = quote_list[i].dialogue.len();
            let ghost d = qv[i as int].dialogue;
            proof {
                assert(qv[i as int] == quote_list@[i as int]@);
                assert(d.len() == dl);
                assert(d.take(0) =~= Seq::<PhraseV>::empty());
            }
            let mut j: usize = 0;
            while j < dl
                invariant
                    qv == quote_views(quote_list@),
                    n == quote_list@.len(),
                    n == qv.len(),
                    i < n,
                    d == qv[i as int].dialogue,
                    d == quote_list@[i as int]@.dialogue,
                    dl == d.len(),
                    dl == quote_list@[i as int].dialogue@.len(),
                    j <= dl,
                    sorted_strict(counts@),
                    forall|p: int| 0 <= p < counts@.len() ==> 1 <= (#[trigger] counts@[p]).1,
                    forall|a: Seq<char>|
                        #[trigger] count_of(counts@, a) == author_total(qv.take(i as int), a) + (
                        if seen_in_prefix(d, j as int, a) {
                            1int
                        } else {
                            0int
                        }),
                    sum_counts(counts@) == pair_total(qv.take(i as int)) + distinct_count(
                        d.take(j as int),
                    ),
                decreases dl - j,
            {
                let ghost a0 = d[j as int].author;
                let mut seen = false;
                let mut k: usize = 0;
                while k < j
                    invariant
                        d == quote_list@[i as int]@.dialogue,
                        i < quote_list@.len(),
                        j < d.len(),
                        j < quote_list@[i as int].dialogue@.len(),
                        d.len() == quote_list@[i as int].dialogue@.len(),
                        k <= j,
                        a0 == d[j as int].author,
                        seen == seen_in_prefix(d, k as int, a0),
                    decreases j - k,
                {
                    if quote_list[i].dialogue[k].author == quote_list[i].dialogue[j].author {
                        seen = true;
                        proof {
                            assert(d[k as int].author == a0);
                            assert(seen_in_prefix(d, k + 1, a0));
                        }
                    }
                    proof {
                        if !seen {
                            assert(d[k as int].author != a0);
                        }
                        if seen_in_prefix(d, k + 1, a0) && !seen_in_prefix(d, k as int, a0) {
                            assert(d[k as int].author == a0);
                            assert(seen);
                        }
                    }
                    k = k + 1;
                }
                if !seen {
                    proof {
                        lemma_author_total_bound(qv.take(i as int), a0);
                        assert(count_of(counts@, a0) < usize::MAX);
                    }
                    bump(&mut counts, &quote_list[i].dialogue[j].author);
                    proof {
                        assert(quote_list@[i as int].dialogue@[j as int]@.author == a0);
                    }
                }
                proof {
                    assert forall|a: Seq<char>| #[trigger] count_of(counts@, a) == author_total(
                        qv.take(i as int),
                        a,
                    ) + (if seen_in_prefix(d, j + 1, a) {
                        1int
                    } else {
                        0int
                    }) by {
                        if a == a0 {
                            assert(seen_in_prefix(d, j + 1, a0)) by {
                                assert(d[j as int].author == a0);
                            }
                        } else {
                            assert(seen_in_prefix(d, j + 1, a) == seen_in_prefix(d, j as int, a))
                                by {
                                if seen_in_prefix(d, j + 1, a) && !seen_in_prefix(
                                    d,
                                    j as int,
                                    a,
                                ) {
                                    assert(d[j as int].author == a);
                                }
                            }
                        }
                    }
                    assert(distinct_count(d.take(j + 1)) == distinct_count(d.take(j as int)) + (
                    if seen_in_prefix(d, j as int, a0) {
                        0int
                    } else {
                        1int
                    })) by {
                        let t = d.take(j + 1);
                        assert(t.drop_last() =~= d.take(j as int));
                        assert(t[t.len() - 1] == d[j as int]);
                        assert(seen_in_prefix(t, t.len() - 1, t[t.len() - 1].author)
                            == seen_in_prefix(d, j as int, a0)) by {
                            if seen_in_prefix(t, t.len() - 1, t[t.len() - 1].author) {
                                let w = choose|w: int|
                                    0 <= w < t.len() - 1 && (#[trigger] t[w]).author == t[t.len()
                                        - 1].author;
                                assert(d[w].author == a0);
                            }
                            if seen_in_prefix(d, j as int, a0) {
                                let w = choose|w: int|
                                    0 <= w < j && (#[trigger] d[w]).author == a0;
                                assert(t[w].author == t[t.len() - 1].author);
                            }
                        }
                    }
                }
                j = j + 1;
            }
            proof {
                let t = qv.take(i + 1);
                assert(t.drop_last() =~= qv.take(i as int));
                assert(t.last() == qv[i as int]);
                assert(d.take(dl as int) =~= d);
                assert forall|a: Seq<char>| #[trigger] count_of(counts@, a) == author_total(
                    qv.take(i + 1),
                    a,
                ) by {
                    assert(seen_in_prefix(d, dl as int, a) == quote_has_author(qv[i as int], a));
                }
            }
            i = i + 1;
        }
        proof {
            assert(qv.take(n as int) =~= qv);
            assert forall|p: int| 0 <= p < counts@.len() implies (#[trigger] counts@[p]).1
                == author_total(qv, counts@[p].0@) && counts@[p].1 >= 1 by {
                lemma_count_entry(counts@, p);
            }
            assert forall|a: Seq<char>|
                author_total(qv, a) > 0 implies has_author_entry(counts@, a) by {
                if !has_author_entry(counts@, a) {
                    lemma_absent_zero(counts@, a);
                }
            }
        }
        counts
    }

    /// The total of a report's counts; for a report produced by
    /// [`Quote::author_counts`] this is the number of distinct
    /// (quote, author) incidences.
    pub fn total_count(counts: &Vec<(String, usize)>) -> (total: u128)
        ensures
            total == sum_counts(counts@),
    {
        let n = counts.len();
        let mut total: u128 = 0;
        let mut i: usize = 0;
        proof {
            assert(counts@.take(0) =~= Seq::<(String, usize)>::empty());
        }
        while i < n
            invariant
                n == counts@.len(),
                i <= n,
                total == sum_counts(counts@.take(i as int)),
                total <= (i as int) * (usize::MAX as int),
            decreases n - i,
        {
            let c = counts[i].1;
            proof {
                let m = usize::MAX as int;
                assert(total + c <= (i as int) * m + m);
                assert((i as int) * m + m == (i + 1) * m) by (nonlinear_arith);
                assert((i + 1) * m <= (n as int) * m) by (nonlinear_arith)
                    requires
                        i < n,
                        m >= 0,
                ;
                assert((n as int) * m < u128::MAX) by (nonlinear_arith)
                    requires
                        0 <= n <= m,
                        0 <= m <= 0xffff_ffff_ffff_ffffint,
                ;
                let t = counts@.take(i + 1);
                assert(t.drop_last() =~= counts@.take(i as int));
                assert(t.last() == counts@[i as int]);
            }
            total = total + (c as u128);
            i = i + 1;
        }
        proof {
            assert(counts@.take(n as int) =~= counts@);
        }
        total
    }
}

} // verus!

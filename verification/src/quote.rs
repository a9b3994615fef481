//! The quote record and the two-stage parser: blocks of adjacent non-blank
//! lines become [`Quote`]s, and each block's text is tokenized into the
//! quote's dialogue.

use vstd::prelude::*;
use vstd::string::*;

use crate::lines::split_into_lines;
use crate::lines::split_lines;
use crate::phrase::Phrase;
use crate::phrase::PhraseV;
use crate::phrase::phrase_views;
use crate::text::find_substring;
use crate::text::is_substring;
use crate::text::to_char_vec;
use crate::tokens::paired;
use crate::tokens::split_tokens;
use crate::tokens::str_views;
use crate::tokens::tokens_of;

verus! {

/// The mathematical content of a [`Quote`].
#[verifier::ext_equal]
pub struct QuoteV {
    pub line_number: int,
    pub dialogue: Seq<PhraseV>,
}

/// One parsed block: its 1-based starting line and its dialogue, in
/// speaking order.
#[derive(Debug, Clone)]
pub struct Quote {
    pub line_number: usize,
    pub dialogue: Vec<Phrase>,
}

impl View for Quote {
    type V = QuoteV;

    open spec fn view(&self) -> QuoteV {
        QuoteV { line_number: self.line_number as int, dialogue: phrase_views(self.dialogue@) }
    }
}

/// The views of a sequence of quotes.
pub open spec fn quote_views(qs: Seq<Quote>) -> Seq<QuoteV> {
    qs.map_values(|q: Quote| q@)
}

impl PartialEq for Quote {
    fn eq(&self, other: &Self) -> (r: bool) {
        if self.line_number != other.line_number {
            return false;
        }
        if self.dialogue.len() != other.dialogue.len() {
            return false;
        }
        let n = self.dialogue.len();
        let mut i: usize = 0;
        while i < n
            invariant
                n == self.dialogue@.len() == other.dialogue@.len(),
                i <= n,
                forall|k: int| 0 <= k < i ==> self.dialogue@[k]@ == other.dialogue@[k]@,
            decreases n - i,
        {
            if !(self.dialogue[i] == other.dialogue[i]) {
                return false;
            }
            i = i + 1;
        }
        true
    }
}

impl vstd::std_specs::cmp::PartialEqSpecImpl for Quote {
    open spec fn obeys_eq_spec() -> bool {
        true
    }

    open spec fn eq_spec(&self, other: &Quote) -> bool {
        self.line_number == other.line_number && self.dialogue@.len() == other.dialogue@.len()
            && (forall|k: int|
            0 <= k < self.dialogue@.len() ==> self.dialogue@[k]@ == other.dialogue@[k]@)
    }
}

/// The two-character mark joining the lines of one block before
/// tokenization.
pub open spec fn join_mark() -> Seq<char> {
    seq![';', ';']
}

/// The segmenter's scan state: whether a blank line has been seen since the
/// last emission, and the block being accumulated, as its 0-based starting
/// line and its text so far.
pub struct SegState {
    pub prev_blank: bool,
    pub block: Option<(int, Seq<char>)>,
}

/// The blocks emitted by the segmenter's scan from line `i` onward, each as
/// (block text, 1-based starting line).
pub open spec fn seg_loop(lines: Seq<Seq<char>>, i: int, st: SegState, single: bool) -> Seq<
    (Seq<char>, int),
>
    decreases lines.len() - i,
{
    if i < 0 || i >= lines.len() {
        match st.block {
            Option::Some(p) => seq![(p.1, p.0 + 1)],
            Option::None => Seq::empty(),
        }
    } else if lines[i].len() == 0 {
        seg_loop(lines, i + 1, SegState { prev_blank: true, block: st.block }, single)
    } else {
        match st.block {
            Option::Some(p) => {
                if st.prev_blank || single {
                    seq![(p.1, p.0 + 1)] + seg_loop(
                        lines,
                        i + 1,
                        SegState {
                            prev_blank: false,
                            block: Option::Some((i, lines[i] + join_mark())),
                        },
                        single,
                    )
                } else {
                    seg_loop(
                        lines,
                        i + 1,
                        SegState {
                            prev_blank: st.prev_blank,
                            block: Option::Some((p.0, p.1 + lines[i] + join_mark())),
                        },
                        single,
                    )
                }
            },
            Option::None => seg_loop(
                lines,
                i + 1,
                SegState {
                    prev_blank: st.prev_blank,
                    block: Option::Some((i, lines[i] + join_mark())),
                },
                single,
            ),
        }
    }
}

/// The blocks of a file's lines: scanning starts before the first line with
/// no blank seen and no block open.
pub open spec fn segments(lines: Seq<Seq<char>>, single: bool) -> Seq<(Seq<char>, int)> {
    seg_loop(lines, 0, SegState { prev_blank: false, block: Option::None }, single)
}

/// The quote a block parses to.
pub open spec fn block_quote(b: (Seq<char>, int)) -> QuoteV {
    QuoteV { line_number: b.1, dialogue: paired(tokens_of(b.0)) }
}

/// The quotes of a whole file.
pub open spec fn parse_views(s: Seq<char>, single: bool) -> Seq<QuoteV> {
    segments(split_lines(s), single).map_values(|b: (Seq<char>, int)| block_quote(b))
}

/// The case-folding of a character sequence, as `str::to_lowercase`
/// computes it.
pub uninterp spec fn lower_of(s: Seq<char>) -> Seq<char>;

/// Relies on `str::to_lowercase`: the result depends on the characters
/// alone, and an empty string stays empty.
#[verifier::external_body]
fn lowercase(s: &str) -> (r: String)
    ensures
        r@ == lower_of(s@),
        s@.len() == 0 ==> r@.len() == 0,
{
    s.to_lowercase()
}

/// The field of a phrase a search targets.
pub open spec fn phrase_field(p: PhraseV, author: bool) -> Seq<char> {
    if author {
        p.author
    } else {
        p.text
    }
}

/// The quote has a phrase whose targeted field contains the search term,
/// both sides case-folded.
pub open spec fn quote_matches(q: QuoteV, search: Seq<char>, author: bool) -> bool {
    exists|i: int|
        0 <= i < q.dialogue.len() && is_substring(
            lower_of(search),
            lower_of(phrase_field(#[trigger] q.dialogue[i], author)),
        )
}

/// The subsequence of `qs` whose quotes match, in their original order.
pub open spec fn matching_quotes(qs: Seq<Quote>, search: Seq<char>, author: bool) -> Seq<Quote>
    decreases qs.len(),
{
    if qs.len() == 0 {
        Seq::empty()
    } else {
        matching_quotes(qs.drop_last(), search, author) + (if quote_matches(
            qs.last()@,
            search,
            author,
        ) {
            seq![qs.last()]
        } else {
            Seq::<Quote>::empty()
        })
    }
}

/// The rendered form of one phrase: the text in straight quotation marks,
/// a dash, the author, and a line break.
pub open spec fn render_phrase(p: PhraseV) -> Seq<char> {
    seq!['"'] + p.text + seq!['"', ' ', '-', ' '] + p.author + seq!['\n']
}

/// The rendered form of a dialogue: its phrases in order, one per line.
pub open spec fn render_dialogue(d: Seq<PhraseV>) -> Seq<char>
    decreases d.len(),
{
    if d.len() == 0 {
        Seq::empty()
    } else {
        render_phrase(d[0]) + render_dialogue(d.skip(1))
    }
}

/// Rendering a concatenation renders the parts in order.
pub proof fn lemma_render_concat(a: Seq<PhraseV>, b: Seq<PhraseV>)
    ensures
        render_dialogue(a + b) == render_dialogue(a) + render_dialogue(b),
    decreases a.len(),
{
    if a.len() == 0 {
        assert(a + b =~= b);
        assert(render_dialogue(a) + render_dialogue(b) =~= render_dialogue(b));
    } else {
        lemma_render_concat(a.skip(1), b);
        assert((a + b).skip(1) =~= a.skip(1) + b);
        assert((a + b)[0] == a[0]);
        assert(render_dialogue(a + b) =~= render_dialogue(a) + render_dialogue(b));
    }
}

impl Quote {
    /// Parses one block's text into a quote starting at `line_number`.
    pub fn new(line: &str, line_number: usize) -> (q: Quote)
        ensures
            q@ == block_quote((line@, line_number as int)),
    {
        let toks = split_tokens(line);
        let num: usize = toks.len() / 2;
        let mut dialogue: Vec<Phrase> = Vec::new();
        let mut i: usize = 0;
        while i < num
            invariant
                num == toks@.len() / 2,
                toks@.len() <= usize::MAX,
                i <= num,
                str_views(toks@) == tokens_of(line@),
                phrase_views(dialogue@) == paired(tokens_of(line@)).take(i as int),
            decreases num - i,
        {
            proof {
                assert(2 * (i as int) + 1 < toks@.len());
                assert(str_views(toks@)[2 * (i as int)] == toks@[2 * (i as int)]@);
                assert(str_views(toks@)[2 * (i as int) + 1] == toks@[2 * (i as int) + 1]@);
            }
            let text = toks[2 * i].clone();
            let author = toks[2 * i + 1].clone();
            let ghost tv = text@;
            let ghost av = author@;
            let ghost d0 = dialogue@;
            dialogue.push(Phrase { text, author });
            proof {
                let p = paired(tokens_of(line@));
                let d = dialogue@;
                assert(phrase_views(d0).len() == d0.len());
                assert(d0.len() == i);
                assert(d.len() == i + 1);
                assert(tv == tokens_of(line@)[2 * (i as int)]);
                assert(av == tokens_of(line@)[2 * (i as int) + 1]);
                assert(p[i as int] == (PhraseV {
                    text: tokens_of(line@)[2 * (i as int)],
                    author: tokens_of(line@)[2 * (i as int) + 1],
                }));
                assert(d[i as int]@ == (PhraseV { text: tv, author: av }));
                assert forall|k: int| 0 <= k < i + 1 implies phrase_views(d)[k] == p.take(i + 1)[k]
                    by {
                    assert(phrase_views(d)[k] == d[k]@);
                    if k < i {
                        assert(d[k] == d0[k]);
                        assert(phrase_views(d0)[k] == d0[k]@);
                        assert(phrase_views(d0)[k] == p.take(i as int)[k]);
                    }
                    assert(p.take(i + 1)[k] == p[k]);
                }
                assert(phrase_views(d) =~~= p.take(i + 1));
            }
            i = i + 1;
        }
        proof {
            assert(paired(tokens_of(line@)).take(num as int) =~~= paired(tokens_of(line@)));
        }
        Quote { line_number, dialogue }
    }

    /// Parses a whole file into its quotes. With `single_line_break` every
    /// line break ends a block; otherwise only blank lines do.
    pub fn parse_file(contents: &str, single_line_break: bool) -> (quotes: Vec<Quote>)
        ensures
            quote_views(quotes@) == parse_views(contents@, single_line_break),
    {
        let lines = split_into_lines(contents);
        let n = lines.len();
        let mut quotes: Vec<Quote> = Vec::new();
        let mut previous_line_empty = false;
        let mut line_number_option: Option<usize> = Option::None;
        let mut quote_text = String::new();
        let mut i: usize = 0;
        let ghost lv = split_lines(contents@);
        proof {
            assert(quote_views(quotes@) =~~= Seq::<QuoteV>::empty());
        }
        while i < n
            invariant
                str_views(lines@) == lv,
                lv == split_lines(contents@),
                n == lines@.len(),
                i <= n,
                (match line_number_option {
                    Option::Some(f) => f < i,
                    Option::None => quote_text@.len() == 0,
                }),
                parse_views(contents@, single_line_break) == quote_views(quotes@) + seg_loop(
                    lv,
                    i as int,
                    SegState {
                        prev_blank: previous_line_empty,
                        block: (match line_number_option {
                            Option::Some(f) => Option::Some((f as int, quote_text@)),
                            Option::None => Option::<(int, Seq<char>)>::None,
                        }),
                    },
                    single_line_break,
                ).map_values(|b: (Seq<char>, int)| block_quote(b)),
            decreases n - i,
        {
            proof {
                assert(lv[i as int] == lines@[i as int]@);
            }
            let ghost st = SegState {
                prev_blank: previous_line_empty,
                block: (match line_number_option {
                    Option::Some(f) => Option::Some((f as int, quote_text@)),
                    Option::None => Option::<(int, Seq<char>)>::None,
                }),
            };
            if lines[i].as_str().is_empty() {
                previous_line_empty = true;
                proof {
                    assert(seg_loop(lv, i as int, st, single_line_break) == seg_loop(
                        lv,
                        i + 1,
                        SegState { prev_blank: true, block: st.block },
                        single_line_break,
                    ));
                }
            } else {
                if previous_line_empty || single_line_break {
                    if let Option::Some(first) = line_number_option {
                        let q = Quote::new(quote_text.as_str(), first + 1);
                        quotes.push(q);
                        previous_line_empty = false;
                        line_number_option = Option::None;
                        quote_text = String::new();
                        proof {
                            assert(quote_views(quotes@) =~~= quote_views(quotes@.drop_last()).push(
                                quotes@.last()@,
                            ));
                        }
                    }
                }
                if line_number_option.is_none() {
                    line_number_option = Option::Some(i);
                }
                quote_text.append(lines[i].as_str());
                quote_text.append(";;");
                proof {
                    reveal_strlit(";;");
                    assert(";;"@ =~= join_mark());
                }
            }
            i = i + 1;
            proof {
                let st2 = SegState {
                    prev_blank: previous_line_empty,
                    block: (match line_number_option {
                        Option::Some(f) => Option::Some((f as int, quote_text@)),
                        Option::None => Option::<(int, Seq<char>)>::None,
                    }),
                };
                if lv[i - 1].len() == 0 {
                } else {
                    match st.block {
                        Option::Some(p) => {
                            if st.prev_blank || single_line_break {
                                assert(seg_loop(lv, i - 1, st, single_line_break) == seq![
                                    (p.1, p.0 + 1),
                                ] + seg_loop(lv, i as int, st2, single_line_break)) by {
                                    assert(st2.block == Option::Some(
                                        (i - 1, lv[i - 1] + join_mark()),
                                    )) by {
                                        assert(quote_text@ =~= Seq::<char>::empty() + lines@[i
                                            - 1]@ + join_mark());
                                    }
                                }
                                assert((seq![(p.1, p.0 + 1)] + seg_loop(
                                    lv,
                                    i as int,
                                    st2,
                                    single_line_break,
                                )).map_values(|b: (Seq<char>, int)| block_quote(b)) =~~= seq![
                                    block_quote((p.1, p.0 + 1)),
                                ] + seg_loop(lv, i as int, st2, single_line_break).map_values(
                                    |b: (Seq<char>, int)| block_quote(b),
                                ));
                            } else {
                                assert(st2.block == Option::Some(
                                    (p.0, p.1 + lv[i - 1] + join_mark()),
                                ));
                                assert(seg_loop(lv, i - 1, st, single_line_break) == seg_loop(
                                    lv,
                                    i as int,
                                    st2,
                                    single_line_break,
                                ));
                            }
                        },
                        Option::None => {
                            assert(st2.block == Option::Some((i - 1, lv[i - 1] + join_mark())))
                                by {
                                assert(quote_text@ =~= Seq::<char>::empty() + lines@[i - 1]@
                                    + join_mark());
                            }
                            assert(seg_loop(lv, i - 1, st, single_line_break) == seg_loop(
                                lv,
                                i as int,
                                st2,
                                single_line_break,
                            ));
                        },
                    }
                }
            }
        }
        if let Option::Some(first) = line_number_option {
            let q = Quote::new(quote_text.as_str(), first + 1);
            quotes.push(q);
            proof {
                assert(quote_views(quotes@) =~~= quote_views(quotes@.drop_last()).push(
                    quotes@.last()@,
                ));
                assert(quote_views(quotes@) =~~= parse_views(contents@, single_line_break));
            }
        } else {
            proof {
                assert(quote_views(quotes@) =~~= parse_views(contents@, single_line_break));
            }
        }
        quotes
    }

    /// The quote has a phrase whose targeted field (author when `author`,
    /// text otherwise) contains `search`, case-insensitively.
    pub fn contains(&self, search: &str, author: bool) -> (found: bool)
        ensures
            found == quote_matches(self@, search@, author),
    {
        let needle_s = lowercase(search);
        let needle = to_char_vec(needle_s.as_str());
        let dl = self.dialogue.len();
        let mut j: usize = 0;
        while j < dl
            invariant
                dl == self.dialogue@.len(),
                j <= dl,
                needle@ == lower_of(search@),
                forall|t: int|
                    0 <= t < j ==> !is_substring(
                        lower_of(search@),
                        lower_of(phrase_field(#[trigger] self@.dialogue[t], author)),
                    ),
            decreases dl - j,
        {
            let field = if author {
                self.dialogue[j].author.as_str()
            } else {
                self.dialogue[j].text.as_str()
            };
            proof {
                assert(field@ == phrase_field(self@.dialogue[j as int], author));
            }
            let hay_s = lowercase(field);
            let hay = to_char_vec(hay_s.as_str());
            if find_substring(&needle, &hay) {
                return true;
            }
            j = j + 1;
        }
        false
    }

    /// Keeps exactly the quotes that match `name`, preserving their order.
    pub fn search(quote_list: Vec<Quote>, name: &str, author: bool) -> (found: Vec<Quote>)
        ensures
            found@ == matching_quotes(quote_list@, name@, author),
    {
        let mut input = quote_list;
        let mut out: Vec<Quote> = Vec::new();
        let ghost orig = input@;
        let ghost mut processed: Seq<Quote> = Seq::empty();
        proof {
            assert(out@ =~= matching_quotes(processed, name@, author));
        }
        while input.len() > 0
            invariant
                orig == processed + input@,
                out@ == matching_quotes(processed, name@, author),
            decreases input@.len(),
        {
            let q = input.remove(0);
            let ghost q_spec = q;
            let keep = q.contains(name, author);
            proof {
                let p2 = processed.push(q_spec);
                assert(p2.drop_last() =~= processed);
                assert(p2.last() == q_spec);
            }
            if keep {
                out.push(q);
            }
            proof {
                processed = processed.push(q_spec);
                assert(orig =~= processed + input@);
                assert(out@ =~= matching_quotes(processed, name@, author));
            }
        }
        proof {
            assert(processed =~= orig);
        }
        out
    }

    /// Renders the dialogue, one phrase per line, as
    /// `"<text>" - <author>` followed by a line break.
    pub fn render(&self) -> (r: String)
        ensures
            r@ == render_dialogue(self@.dialogue),
    {
        let mut r = String::new();
        let n = self.dialogue.len();
        let mut i: usize = 0;
        proof {
            assert(self@.dialogue.take(0) =~= Seq::<PhraseV>::empty());
        }
        while i < n
            invariant
                n == self.dialogue@.len(),
                i <= n,
                r@ == render_dialogue(self@.dialogue.take(i as int)),
            decreases n - i,
        {
            r.append("\"");
            r.append(self.dialogue[i].text.as_str());
            r.append("\" - ");
            r.append(self.dialogue[i].author.as_str());
            r.append("\n");
            proof {
                reveal_strlit("\"");
                reveal_strlit("\" - ");
                reveal_strlit("\n");
                let d = self@.dialogue;
                let p = d[i as int];
                assert(r@ =~= render_dialogue(d.take(i as int)) + render_phrase(p)) by {
                    assert("\""@ =~= seq!['"']);
                    assert("\" - "@ =~= seq!['"', ' ', '-', ' ']);
                    assert("\n"@ =~= seq!['\n']);
                }
                lemma_render_concat(d.take(i as int), seq![p]);
                assert(seq![p].skip(1) =~= Seq::<PhraseV>::empty());
                assert(render_dialogue(Seq::<PhraseV>::empty()) == Seq::<char>::empty());
                assert(render_dialogue(seq![p]) == render_phrase(seq![p][0]) + render_dialogue(
                    seq![p].skip(1),
                ));
                assert(render_phrase(p) + Seq::<char>::empty() =~= render_phrase(p));
                assert(render_dialogue(seq![p]) =~= render_phrase(p));
                assert(d.take(i as int) + seq![p] =~= d.take(i + 1));
            }
            i = i + 1;
        }
        proof {
            assert(self@.dialogue.take(n as int) =~= self@.dialogue);
        }
        r
    }

    /// The lines written on persisting the quotes: each quote rendered,
    /// followed by one extra line break that leaves a blank line between
    /// quotes.
    pub fn serialize_for_write(quote_list: &Vec<Quote>) -> (out: Vec<String>)
        ensures
            out@.len() == quote_list@.len(),
            forall|i: int|
                0 <= i < out@.len() ==> out@[i]@ == render_dialogue(
                    #[trigger] quote_list@[i]@.dialogue,
                ) + seq!['\n'],
    {
        let n = quote_list.len();
        let mut out: Vec<String> = Vec::new();
        let mut i: usize = 0;
        while i < n
            invariant
                n == quote_list@.len(),
                i <= n,
                out@.len() == i,
                forall|k: int|
                    0 <= k < i ==> out@[k]@ == render_dialogue(
                        #[trigger] quote_list@[k]@.dialogue,
                    ) + seq!['\n'],
            decreases n - i,
        {
            let mut line = quote_list[i].render();
            line.append("\n");
            proof {
                reveal_strlit("\n");
                assert("\n"@ =~= seq!['\n']);
            }
            out.push(line);
            i = i + 1;
        }
        out
    }
}

} // verus!

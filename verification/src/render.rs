//! The renderer: attaches indicator glyphs to matches and writes the output
//! text — each symbol's glyph followed by its optional indicator, in order,
//! with no separators, optionally preceded by a reference listing of the
//! distinct symbols used, in emission order.

use vstd::prelude::*;

use crate::indicator::Palette;
use crate::indicator::hearts_of;
use crate::indicator::indicator_of;
use crate::lexicon::SymV;
use crate::lexicon::Symbol;
use crate::lexicon::views;
use crate::matcher::Match;
use crate::matcher::MatchV;
use crate::matcher::greedy;
use crate::matcher::lemma_match_bounds;
use crate::matcher::match_views;

verus! {

/// The final unit of the encoding: a symbol and its optional indicator
/// glyph.
pub struct EncodedToken {
    pub symbol: usize,
    pub indicator: Option<String>,
}

/// The mathematical image of an [`EncodedToken`].
pub ghost struct TokV {
    pub symbol: int,
    pub indicator: Option<Seq<char>>,
}

impl View for EncodedToken {
    type V = TokV;

    open spec fn view(&self) -> TokV {
        TokV {
            symbol: self.symbol as int,
            indicator: match self.indicator {
                Some(g) => Some(g@),
                None => None,
            },
        }
    }
}

/// The views of a sequence of tokens.
pub open spec fn tok_views(s: Seq<EncodedToken>) -> Seq<TokV> {
    s.map_values(|t: EncodedToken| t@)
}

/// The token a match turns into over a given palette.
pub open spec fn token_of(m: MatchV, hearts: Seq<Seq<char>>) -> TokV {
    TokV { symbol: m.symbol, indicator: indicator_of(m.length, hearts) }
}

/// Attaches to every match its indicator glyph.
pub fn apply_indicators(ms: &Vec<Match>, palette: &Palette) -> (r: Vec<EncodedToken>)
    requires
        palette.wf(),
        forall|k: int| 0 <= k < ms@.len() ==> 1 <= #[trigger] ms@[k].length,
    ensures
        tok_views(r@) == match_views(ms@).map_values(
            |m: MatchV| token_of(m, hearts_of(palette)),
        ),
{
    let mut out: Vec<EncodedToken> = Vec::new();
    let mut i: usize = 0;
    proof {
        assert(tok_views(out@) =~= match_views(ms@.take(0)).map_values(
            |m: MatchV| token_of(m, hearts_of(palette)),
        ));
    }
    while i < ms.len()
        invariant
            i <= ms@.len(),
            palette.wf(),
            forall|k: int| 0 <= k < ms@.len() ==> 1 <= #[trigger] ms@[k].length,
            tok_views(out@) == match_views(ms@.take(i as int)).map_values(
                |m: MatchV| token_of(m, hearts_of(palette)),
            ),
        decreases ms@.len() - i,
    {
        let m = ms[i];
        let ind = crate::indicator::run_indicator(m.length, palette);
        let tok = EncodedToken { symbol: m.symbol, indicator: ind };
        proof {
            assert(tok@ == token_of(ms@[i as int]@, hearts_of(palette)));
            assert(ms@.take(i + 1) =~= ms@.take(i as int).push(ms@[i as int]));
            assert(tok_views(out@.push(tok)) =~= tok_views(out@).push(tok@));
            assert(match_views(ms@.take(i as int).push(ms@[i as int])).map_values(
                |mm: MatchV| token_of(mm, hearts_of(palette)),
            ) =~= match_views(ms@.take(i as int)).map_values(
                |mm: MatchV| token_of(mm, hearts_of(palette)),
            ).push(token_of(ms@[i as int]@, hearts_of(palette))));
        }
        out.push(tok);
        i = i + 1;
    }
    proof {
        assert(ms@.take(ms@.len() as int) =~= ms@);
    }
    out
}

/// The glyph stream of a token sequence: each symbol's glyph followed by
/// its indicator glyph when it has one, concatenated in order.
pub open spec fn rendered_from(toks: Seq<TokV>, lex: Seq<SymV>) -> Seq<char>
    decreases toks.len(),
{
    if toks.len() == 0 {
        Seq::empty()
    } else {
        lex[toks[0].symbol].glyph + (match toks[0].indicator {
            Some(g) => g,
            None => Seq::<char>::empty(),
        }) + rendered_from(toks.drop_first(), lex)
    }
}

/// Rendering one more token appends its glyphs at the end.
proof fn lemma_rendered_push(toks: Seq<TokV>, t: TokV, lex: Seq<SymV>)
    ensures
        rendered_from(toks.push(t), lex) == rendered_from(toks, lex) + lex[t.symbol].glyph
            + (match t.indicator {
            Some(g) => g,
            None => Seq::<char>::empty(),
        }),
    decreases toks.len(),
{
    let ind = (match t.indicator {
        Some(g) => g,
        None => Seq::<char>::empty(),
    });
    if toks.len() == 0 {
        assert(toks.push(t)[0] == t);
        assert(toks.push(t).drop_first() =~= Seq::<TokV>::empty());
        assert(rendered_from(Seq::<TokV>::empty(), lex) == Seq::<char>::empty());
        assert(rendered_from(toks, lex) == Seq::<char>::empty());
        assert(rendered_from(toks.push(t), lex) == lex[t.symbol].glyph + ind + Seq::<char>::empty());
        assert(lex[t.symbol].glyph + ind + Seq::<char>::empty() =~= rendered_from(toks, lex)
            + lex[t.symbol].glyph + ind);
    } else {
        lemma_rendered_push(toks.drop_first(), t, lex);
        assert(toks.push(t).drop_first() =~= toks.drop_first().push(t));
        assert(toks.push(t)[0] == toks[0]);
        let h = lex[toks[0].symbol].glyph + (match toks[0].indicator {
            Some(g) => g,
            None => Seq::<char>::empty(),
        });
        assert(rendered_from(toks.push(t), lex) == h + (rendered_from(toks.drop_first(), lex)
            + lex[t.symbol].glyph + ind));
        assert(h + (rendered_from(toks.drop_first(), lex) + lex[t.symbol].glyph + ind) =~= (h
            + rendered_from(toks.drop_first(), lex)) + lex[t.symbol].glyph + ind);
    }
}

/// Writes the glyph stream of a token sequence.
pub fn render_result(toks: &Vec<EncodedToken>, lexicon: &Vec<Symbol>) -> (r: String)
    requires
        forall|k: int| 0 <= k < toks@.len() ==> 0 <= #[trigger] toks@[k]@.symbol < lexicon@.len(),
    ensures
        r@ == rendered_from(tok_views(toks@), views(lexicon@)),
{
    let mut out = String::new();
    let mut i: usize = 0;
    proof {
        assert(tok_views(toks@).take(0) =~= Seq::<TokV>::empty());
        assert(out@ =~= rendered_from(tok_views(toks@).take(0), views(lexicon@)));
    }
    while i < toks.len()
        invariant
            i <= toks@.len(),
            forall|k: int|
                0 <= k < toks@.len() ==> 0 <= #[trigger] toks@[k]@.symbol < lexicon@.len(),
            out@ == rendered_from(tok_views(toks@).take(i as int), views(lexicon@)),
        decreases toks@.len() - i,
    {
        let sym = toks[i].symbol;
        proof {
            assert(toks@[i as int]@.symbol < lexicon@.len());
        }
        out.append(lexicon[sym].glyph.as_str());
        match &toks[i].indicator {
            Some(g) => {
                out.append(g.as_str());
            },
            None => {},
        }
        proof {
            let tv = tok_views(toks@);
            assert(tv[i as int] == toks@[i as int]@);
            assert(tv.take(i + 1) =~= tv.take(i as int).push(tv[i as int]));
            lemma_rendered_push(tv.take(i as int), tv[i as int], views(lexicon@));
        }
        i = i + 1;
    }
    proof {
        assert(tok_views(toks@).take(toks@.len() as int) =~= tok_views(toks@));
    }
    out
}

/// The symbol indices of a token stream.
pub open spec fn tok_syms(toks: Seq<TokV>) -> Seq<int> {
    toks.map_values(|t: TokV| t.symbol)
}

/// The distinct members of `syms` not yet in `seen`, first occurrences
/// first, in order of appearance.
pub open spec fn first_occurrences(syms: Seq<int>, seen: Set<int>) -> Seq<int>
    decreases syms.len(),
{
    if syms.len() == 0 {
        Seq::empty()
    } else if seen.contains(syms[0]) {
        first_occurrences(syms.drop_first(), seen)
    } else {
        seq![syms[0]] + first_occurrences(syms.drop_first(), seen.insert(syms[0]))
    }
}

/// One reference line: the symbol's glyph, a space, and its name.
pub open spec fn reference_line(s: SymV) -> Seq<char> {
    s.glyph + seq![' '] + s.name
}

/// The views of a sequence of lines.
pub open spec fn line_views(s: Seq<String>) -> Seq<Seq<char>> {
    s.map_values(|l: String| l@)
}

/// Whether a symbol index was already listed.
fn seen_contains(seen: &Vec<usize>, x: usize) -> (r: bool)
    ensures
        r == seen@.contains(x),
{
    let mut q: usize = 0;
    while q < seen.len()
        invariant
            q <= seen@.len(),
            forall|p: int| 0 <= p < q ==> seen@[p] != x,
        decreases seen@.len() - q,
    {
        if seen[q] == x {
            return true;
        }
        q = q + 1;
    }
    false
}

/// Builds the reference listing: one line per distinct symbol of the token
/// stream, in emission order, showing the symbol's glyph and its name.
pub fn render_reference(toks: &Vec<EncodedToken>, lexicon: &Vec<Symbol>) -> (r: Vec<String>)
    requires
        forall|k: int| 0 <= k < toks@.len() ==> 0 <= #[trigger] toks@[k]@.symbol < lexicon@.len(),
    ensures
        line_views(r@) == first_occurrences(tok_syms(tok_views(toks@)), Set::empty()).map_values(
            |j: int| reference_line(views(lexicon@)[j]),
        ),
{
    let ghost full = tok_syms(tok_views(toks@));
    let ghost lexv = views(lexicon@);
    let mut lines: Vec<String> = Vec::new();
    let mut seen: Vec<usize> = Vec::new();
    let ghost mut seenset: Set<int> = Set::empty();
    let ghost mut done: Seq<int> = Seq::empty();
    let mut i: usize = 0;
    proof {
        assert(full.skip(0) =~= full);
        assert(done + first_occurrences(full.skip(0), seenset) =~= first_occurrences(
            full,
            Set::empty(),
        ));
        assert(line_views(lines@) =~= done.map_values(|j: int| reference_line(lexv[j])));
    }
    while i < toks.len()
        invariant
            i <= toks@.len(),
            full == tok_syms(tok_views(toks@)),
            lexv == views(lexicon@),
            forall|k: int|
                0 <= k < toks@.len() ==> 0 <= #[trigger] toks@[k]@.symbol < lexicon@.len(),
            first_occurrences(full, Set::empty()) == done + first_occurrences(
                full.skip(i as int),
                seenset,
            ),
            line_views(lines@) == done.map_values(|j: int| reference_line(lexv[j])),
            forall|v: int|
                #[trigger] seenset.contains(v) <==> (0 <= v <= usize::MAX && seen@.contains(
                    v as usize,
                )),
        decreases toks@.len() - i,
    {
        let s = toks[i].symbol;
        proof {
            assert(full[i as int] == toks@[i as int]@.symbol);
            assert(full.skip(i as int)[0] == full[i as int]);
            assert(full.skip(i as int).drop_first() =~= full.skip(i + 1));
        }
        let already = seen_contains(&seen, s);
        proof {
            assert(already == seenset.contains(s as int));
        }
        if !already {
            let mut line = String::new();
            line.append(lexicon[s].glyph.as_str());
            crate::text::push_char(&mut line, ' ');
            line.append(lexicon[s].name.as_str());
            let ghost prev_done = done;
            let ghost prev_set = seenset;
            let ghost prev_seen = seen@;
            proof {
                assert(line@ =~= reference_line(lexv[s as int]));
                done = done.push(s as int);
                seenset = seenset.insert(s as int);
                assert(first_occurrences(full.skip(i as int), prev_set) == seq![full[i as int]]
                    + first_occurrences(full.skip(i as int).drop_first(), prev_set.insert(
                    full[i as int],
                )));
                assert(prev_done + (seq![s as int] + first_occurrences(full.skip(i + 1), seenset))
                    =~= done + first_occurrences(full.skip(i + 1), seenset));
                assert(line_views(lines@.push(line)) =~= line_views(lines@).push(line@));
                assert(done.map_values(|j: int| reference_line(lexv[j])) =~= prev_done.map_values(
                    |j: int| reference_line(lexv[j]),
                ).push(reference_line(lexv[s as int])));
            }
            lines.push(line);
            seen.push(s);
            proof {
                assert forall|v: int| #[trigger] seenset.contains(v) <==> (0 <= v <= usize::MAX
                    && seen@.contains(v as usize)) by {
                    assert(seen@ == prev_seen.push(s));
                    if 0 <= v <= usize::MAX {
                        let u = v as usize;
                        if seenset.contains(v) {
                            if prev_set.contains(v) {
                                let p = choose|p: int|
                                    0 <= p < prev_seen.len() && prev_seen[p] == u;
                                assert(seen@[p] == u);
                            } else {
                                assert(v == s as int);
                                assert(seen@[seen@.len() - 1] == u);
                            }
                            assert(seen@.contains(u));
                        }
                        if seen@.contains(u) {
                            let p = choose|p: int| 0 <= p < seen@.len() && seen@[p] == u;
                            if p < prev_seen.len() {
                                assert(prev_seen[p] == u);
                                assert(prev_seen.contains(u));
                            } else {
                                assert(u == s);
                            }
                            assert(seenset.contains(v));
                        }
                    }
                }
            }
        } else {
            proof {
                assert(first_occurrences(full.skip(i as int), seenset) == first_occurrences(
                    full.skip(i + 1),
                    seenset,
                ));
            }
        }
        i = i + 1;
    }
    proof {
        assert(full.skip(toks@.len() as int).len() == 0);
        assert(first_occurrences(full.skip(toks@.len() as int), seenset) =~= Seq::<int>::empty());
        assert(done + Seq::<int>::empty() =~= done);
    }
    lines
}

/// Lines joined into one text, each line ended by a newline.
pub open spec fn joined(lines: Seq<Seq<char>>) -> Seq<char>
    decreases lines.len(),
{
    if lines.len() == 0 {
        Seq::empty()
    } else {
        lines[0] + seq!['\n'] + joined(lines.drop_first())
    }
}

/// Joining one more line appends it, with its newline, at the end.
proof fn lemma_joined_push(lines: Seq<Seq<char>>, l: Seq<char>)
    ensures
        joined(lines.push(l)) == joined(lines) + l + seq!['\n'],
    decreases lines.len(),
{
    if lines.len() == 0 {
        assert(lines.push(l)[0] == l);
        assert(lines.push(l).drop_first() =~= Seq::<Seq<char>>::empty());
        assert(joined(Seq::<Seq<char>>::empty()) == Seq::<char>::empty());
        assert(joined(lines) == Seq::<char>::empty());
        assert(joined(lines.push(l)) == l + seq!['\n'] + Seq::<char>::empty());
        assert(l + seq!['\n'] + Seq::<char>::empty() =~= joined(lines) + l + seq!['\n']);
    } else {
        lemma_joined_push(lines.drop_first(), l);
        assert(lines.push(l).drop_first() =~= lines.drop_first().push(l));
        assert(lines.push(l)[0] == lines[0]);
        let h = lines[0] + seq!['\n'];
        assert(joined(lines.push(l)) == h + (joined(lines.drop_first()) + l + seq!['\n']));
        assert(h + (joined(lines.drop_first()) + l + seq!['\n']) =~= (h + joined(
            lines.drop_first(),
        )) + l + seq!['\n']);
    }
}

/// The reference block of a token stream: the joined reference lines of its
/// distinct symbols, in emission order.
pub open spec fn reference_text(toks: Seq<TokV>, lex: Seq<SymV>) -> Seq<char> {
    joined(
        first_occurrences(tok_syms(toks), Set::empty()).map_values(
            |j: int| reference_line(lex[j]),
        ),
    )
}

/// The whole output text for a token stream: when asked for, the reference
/// block under its heading and a blank line; then the result heading and
/// the glyph stream on a line of its own.
pub open spec fn output_text(toks: Seq<TokV>, lex: Seq<SymV>, reference: bool) -> Seq<char> {
    let result = "Result:\n"@ + rendered_from(toks, lex) + seq!['\n'];
    if reference {
        "Reference:\n"@ + reference_text(toks, lex) + seq!['\n'] + result
    } else {
        result
    }
}

/// The tokens a greedy tokenization turns into over a palette.
pub open spec fn tokens_of(ms: Seq<MatchV>, hearts: Seq<Seq<char>>) -> Seq<TokV> {
    ms.map_values(|m: MatchV| token_of(m, hearts))
}

/// Runs the whole pipeline on one input: greedy tokenization, indicator
/// mapping, and rendering of the output text. `None` exactly when the
/// matcher gets stuck at some position — the unrecoverable
/// lexicon-exhaustion condition.
pub fn encode_text(
    input: &str,
    lexicon: &Vec<Symbol>,
    palette: &Palette,
    reference: bool,
) -> (r: Option<String>)
    requires
        palette.wf(),
    ensures
        match greedy(input@, views(lexicon@)) {
            Some(ms) => r matches Some(out) && out@ == output_text(
                tokens_of(ms, hearts_of(palette)),
                views(lexicon@),
                reference,
            ),
            None => r is None,
        },
{
    let ghost lexv = views(lexicon@);
    let found = crate::matcher::encode(input, lexicon);
    let ms = match found {
        None => {
            return None;
        },
        Some(ms) => ms,
    };
    proof {
        assert(greedy(input@, lexv) == Some(match_views(ms@)));
        lemma_match_bounds(input@, lexv, 0, match_views(ms@));
        assert(match_views(ms@).len() == ms@.len());
        assert forall|k: int| 0 <= k < ms@.len() implies 1 <= #[trigger] ms@[k].length by {
            assert(match_views(ms@)[k] == ms@[k]@);
            assert(1 <= match_views(ms@)[k].length);
        }
    }
    let toks = apply_indicators(&ms, palette);
    proof {
        assert(tok_views(toks@).len() == toks@.len());
        assert(match_views(ms@).len() == ms@.len());
        assert(toks@.len() == ms@.len());
        assert forall|k: int|
            0 <= k < toks@.len() implies 0 <= #[trigger] toks@[k]@.symbol < lexicon@.len() by {
            assert(tok_views(toks@)[k] == toks@[k]@);
            assert(match_views(ms@)[k] == ms@[k]@);
            assert(tok_views(toks@)[k] == token_of(match_views(ms@)[k], hearts_of(palette)));
            assert(0 <= match_views(ms@)[k].symbol < lexicon@.len());
        }
        assert(tok_views(toks@) == tokens_of(match_views(ms@), hearts_of(palette)));
    }
    let body = render_result(&toks, lexicon);
    let mut out = String::new();
    if reference {
        let lines = render_reference(&toks, lexicon);
        out.append("Reference:\n");
        proof {
            assert(line_views(lines@).take(0) =~= Seq::<Seq<char>>::empty());
            assert(out@ =~= "Reference:\n"@ + joined(line_views(lines@).take(0)));
        }
        let mut li: usize = 0;
        while li < lines.len()
            invariant
                li <= lines@.len(),
                out@ == "Reference:\n"@ + joined(line_views(lines@).take(li as int)),
            decreases lines@.len() - li,
        {
            out.append(lines[li].as_str());
            crate::text::push_char(&mut out, '\n');
            proof {
                let lv = line_views(lines@);
                assert(lv[li as int] == lines@[li as int]@);
                assert(lv.take(li + 1) =~= lv.take(li as int).push(lv[li as int]));
                lemma_joined_push(lv.take(li as int), lv[li as int]);
                assert("Reference:\n"@ + (joined(lv.take(li as int)) + lv[li as int]
                    + seq!['\n']) =~= ("Reference:\n"@ + joined(lv.take(li as int)))
                    + lv[li as int] + seq!['\n']);
            }
            li = li + 1;
        }
        proof {
            assert(line_views(lines@).take(lines@.len() as int) =~= line_views(lines@));
        }
        crate::text::push_char(&mut out, '\n');
        proof {
            assert(joined(line_views(lines@)) == reference_text(tok_views(toks@), lexv));
        }
    }
    let ghost head = out@;
    out.append("Result:\n");
    out.append(body.as_str());
    crate::text::push_char(&mut out, '\n');
    proof {
        let toksv = tok_views(toks@);
        assert(out@ == ((head + "Result:\n"@) + rendered_from(toksv, lexv)).push('\n'));
        if reference {
            assert(head == ("Reference:\n"@ + reference_text(toksv, lexv)).push('\n'));
            assert(out@ =~= "Reference:\n"@ + reference_text(toksv, lexv) + seq!['\n'] + (
            "Result:\n"@ + rendered_from(toksv, lexv) + seq!['\n']));
        } else {
            assert(head =~= Seq::<char>::empty());
            assert(out@ =~= "Result:\n"@ + rendered_from(toksv, lexv) + seq!['\n']);
        }
    }
    Some(out)
}

} // verus!

//! The lexicon: the sorted table of symbols that the matcher draws its
//! candidates from. It is built from a corpus of name/glyph pairs by case
//! folding every name, dropping multi-word names (those are reserved for the
//! indicator glyphs), and sorting ascending by name.

use vstd::prelude::*;

use crate::text::lemma_lex_le_total;
use crate::text::lemma_lex_le_trans;
use crate::text::lex_le;
use crate::text::lex_le_exec;
use crate::text::lower_seq;
use crate::text::to_lowercase;

verus! {

broadcast use
    vstd::seq_lib::group_seq_properties,
    vstd::seq_lib::group_seq_lib_default,
    vstd::seq_lib::group_to_multiset_ensures,
    vstd::seq_lib::to_multiset_insert;

/// One raw corpus entry: a display name and the glyph it labels.
pub struct CorpusEntry {
    pub name: String,
    pub glyph: String,
}

/// A lexicon entry: a case-folded, separator-free matching label and the
/// glyph emitted for it.
pub struct Symbol {
    pub name: String,
    pub glyph: String,
}

/// The mathematical image of a [`Symbol`].
pub ghost struct SymV {
    pub name: Seq<char>,
    pub glyph: Seq<char>,
}

impl View for Symbol {
    type V = SymV;

    open spec fn view(&self) -> SymV {
        SymV { name: self.name@, glyph: self.glyph@ }
    }
}

/// The views of a sequence of symbols.
pub open spec fn views(s: Seq<Symbol>) -> Seq<SymV> {
    s.map_values(|x: Symbol| x@)
}

/// A corpus entry enters the lexicon exactly when its case-folded name holds
/// no word separator (multi-word names are reserved for indicator glyphs).
pub open spec fn eligible(e: CorpusEntry) -> bool {
    !lower_seq(e.name@).contains(' ')
}

/// The symbol an eligible corpus entry turns into.
pub open spec fn symbol_of(e: CorpusEntry) -> SymV {
    SymV { name: lower_seq(e.name@), glyph: e.glyph@ }
}

/// Whether a symbol carries the given name.
pub open spec fn has_name(name: Seq<char>) -> spec_fn(SymV) -> bool {
    |t: SymV| t.name == name
}

/// The symbols of `s` that carry `name`, in their order in `s`.
pub open spec fn name_group(s: Seq<SymV>, name: Seq<char>) -> Seq<SymV> {
    s.filter(has_name(name))
}

/// The lexicon order: ascending by name, lexicographically by code point.
pub open spec fn sorted_syms(s: Seq<SymV>) -> bool {
    forall|i: int, j: int| 0 <= i < j < s.len() ==> lex_le(s[i].name, s[j].name)
}

/// Whether a character sequence holds a space.
fn contains_space(s: &str) -> (r: bool)
    ensures
        r == s@.contains(' '),
{
    let n = s.unicode_len();
    let mut i: usize = 0;
    while i < n
        invariant
            i <= n,
            n == s@.len(),
            forall|j: int| 0 <= j < i ==> s@[j] != ' ',
        decreases n - i,
    {
        if s.get_char(i) == ' ' {
            return true;
        }
        i = i + 1;
    }
    false
}

/// Inserts a symbol into a sorted table, after every entry whose name is not
/// strictly greater, so that equal names keep their arrival order.
fn insert_sorted(out: &mut Vec<Symbol>, x: Symbol)
    requires
        sorted_syms(views(old(out)@)),
    ensures
        sorted_syms(views(final(out)@)),
        views(final(out)@).to_multiset() == views(old(out)@).to_multiset().insert(x@),
        forall|name: Seq<char>| #[trigger] name_group(views(final(out)@), name) == (if name
            == x@.name {
            name_group(views(old(out)@), name).push(x@)
        } else {
            name_group(views(old(out)@), name)
        }),
    decreases old(out)@.len(),
{
    let ghost pre = out@;
    let mut j: usize = 0;
    loop
        invariant
            out@ == pre,
            sorted_syms(views(pre)),
            j <= pre.len(),
            forall|k: int| 0 <= k < j ==> lex_le(views(pre)[k].name, x@.name),
        ensures
            out@ == pre,
            j <= pre.len(),
            forall|k: int| 0 <= k < j ==> lex_le(views(pre)[k].name, x@.name),
            j < pre.len() ==> !lex_le(views(pre)[j as int].name, x@.name),
        decreases pre.len() - j,
    {
        if j >= out.len() {
            break;
        }
        let le = lex_le_exec(out[j].name.as_str(), x.name.as_str());
        if !le {
            break;
        }
        j = j + 1;
    }
    proof {
        if j < pre.len() {
            lemma_lex_le_total(views(pre)[j as int].name, x@.name);
        }
        assert(forall|k: int|
            j <= k < pre.len() ==> lex_le(x@.name, #[trigger] views(pre)[k].name)) by {
            assert forall|k: int| j <= k < pre.len() implies lex_le(
                x@.name,
                #[trigger] views(pre)[k].name,
            ) by {
                if j < k {
                    lemma_lex_le_trans(x@.name, views(pre)[j as int].name, views(pre)[k].name);
                }
            }
        }
    }
    out.insert(j, x);
    proof {
        assert(views(out@) =~= views(pre).insert(j as int, x@));
        let s = views(pre).insert(j as int, x@);
        assert forall|i1: int, j1: int| 0 <= i1 < j1 < s.len() implies lex_le(
            s[i1].name,
            s[j1].name,
        ) by {
            if j1 < j {
                assert(s[i1] == views(pre)[i1]);
                assert(s[j1] == views(pre)[j1]);
            } else if j1 == j {
                assert(s[i1] == views(pre)[i1]);
                assert(s[j1] == x@);
            } else if i1 < j {
                assert(s[i1] == views(pre)[i1]);
                assert(s[j1] == views(pre)[j1 - 1]);
                lemma_lex_le_trans(views(pre)[i1].name, x@.name, views(pre)[j1 - 1].name);
            } else if i1 == j {
                assert(s[i1] == x@);
                assert(s[j1] == views(pre)[j1 - 1]);
            } else {
                assert(s[i1] == views(pre)[i1 - 1]);
                assert(s[j1] == views(pre)[j1 - 1]);
            }
        }
        let sp = views(pre);
        assert forall|k: int| j <= k < sp.len() implies sp[k].name != x@.name by {
            lemma_lex_le_total(x@.name, x@.name);
            if sp[k].name == x@.name {
                if k > j {
                    assert(lex_le(sp[j as int].name, sp[k].name));
                }
                assert(lex_le(sp[j as int].name, x@.name));
            }
        }
        assert forall|name: Seq<char>| #[trigger] name_group(views(out@), name) == (if name
            == x@.name {
            name_group(sp, name).push(x@)
        } else {
            name_group(sp, name)
        }) by {
            let pred = has_name(name);
            let a = sp.take(j as int);
            let bb = sp.skip(j as int);
            assert(views(out@) =~= a + (seq![x@] + bb));
            assert(sp =~= a + bb);
            assert((a + (seq![x@] + bb)).filter(pred) == a.filter(pred) + (seq![x@]
                + bb).filter(pred));
            assert((seq![x@] + bb).filter(pred) == seq![x@].filter(pred) + bb.filter(pred));
            assert((a + bb).filter(pred) == a.filter(pred) + bb.filter(pred));
            assert(seq![x@].filter(pred) == if pred(x@) {
                Seq::<SymV>::empty().push(x@)
            } else {
                Seq::<SymV>::empty()
            }) by {
                reveal(Seq::filter);
                assert(seq![x@].drop_last() =~= Seq::<SymV>::empty());
                assert(Seq::<SymV>::empty().filter(pred) == Seq::<SymV>::empty());
                assert(seq![x@].last() == x@);
            }
            if name == x@.name {
                assert(bb.filter(pred) =~= Seq::<SymV>::empty()) by {
                    if bb.filter(pred).len() > 0 {
                        let e = bb.filter(pred)[0];
                        assert(pred(e));
                        assert(bb.filter(pred).contains(e));
                        bb.lemma_filter_contains_rev(pred, e);
                        let q = choose|q: int| 0 <= q < bb.len() && bb[q] == e;
                        assert(sp[j + q] == e);
                        assert(false);
                    }
                }
                assert(name_group(views(out@), name) =~= name_group(sp, name).push(x@));
            } else {
                assert(!pred(x@));
                assert(name_group(views(out@), name) =~= name_group(sp, name));
            }
        }
    }
}

/// Builds the lexicon from a corpus: keeps exactly the eligible entries,
/// case-folds their names, and sorts ascending by name. The result holds,
/// with multiplicity, precisely the symbols of the eligible corpus entries,
/// and the sort is stable: symbols of equal name keep their corpus order.
pub fn build_lexicon(corpus: &Vec<CorpusEntry>) -> (r: Vec<Symbol>)
    ensures
        sorted_syms(views(r@)),
        views(r@).to_multiset() == corpus@.filter(|e: CorpusEntry| eligible(e)).map_values(
            |e: CorpusEntry| symbol_of(e),
        ).to_multiset(),
        forall|name: Seq<char>| #[trigger] name_group(views(r@), name) == name_group(
            corpus@.filter(|e: CorpusEntry| eligible(e)).map_values(
                |e: CorpusEntry| symbol_of(e),
            ),
            name,
        ),
        forall|k: int| 0 <= k < views(r@).len() ==> !(#[trigger] views(r@)[k]).name.contains(' '),
{
    let ghost pred = |e: CorpusEntry| eligible(e);
    let ghost f = |e: CorpusEntry| symbol_of(e);
    let mut syms: Vec<Symbol> = Vec::new();
    let mut i: usize = 0;
    proof {
        assert(corpus@.take(0).filter(pred) =~= Seq::<CorpusEntry>::empty());
        assert(views(syms@) =~= corpus@.take(0).filter(pred).map_values(f));
    }
    while i < corpus.len()
        invariant
            i <= corpus@.len(),
            views(syms@) == corpus@.take(i as int).filter(pred).map_values(f),
            pred == (|e: CorpusEntry| eligible(e)),
            f == (|e: CorpusEntry| symbol_of(e)),
        decreases corpus@.len() - i,
    {
        let lowered = to_lowercase(corpus[i].name.as_str());
        let keep = !contains_space(lowered.as_str());
        proof {
            assert(corpus@.take(i + 1) =~= corpus@.take(i as int).push(corpus@[i as int]));
            corpus@.take(i as int).lemma_filter_push(corpus@[i as int], pred);
        }
        if keep {
            let sym = Symbol { name: lowered, glyph: corpus[i].glyph.clone() };
            proof {
                assert(sym@ == f(corpus@[i as int]));
                assert(views(syms@.push(sym)) =~= views(syms@).push(sym@));
                assert(corpus@.take(i as int).filter(pred).push(corpus@[i as int]).map_values(f)
                    =~= corpus@.take(i as int).filter(pred).map_values(f).push(
                    f(corpus@[i as int]),
                ));
            }
            syms.push(sym);
        }
        i = i + 1;
    }
    proof {
        assert(corpus@.take(corpus@.len() as int) =~= corpus@);
    }
    let mut out: Vec<Symbol> = Vec::new();
    let mut k: usize = 0;
    proof {
        assert(views(syms@.take(0)) =~= Seq::<SymV>::empty());
        assert(views(out@) =~= Seq::<SymV>::empty());
        assert(views(out@).to_multiset() =~= views(syms@.take(0)).to_multiset());
        assert(views(out@) == views(syms@.take(0)));
    }
    while k < syms.len()
        invariant
            k <= syms@.len(),
            sorted_syms(views(out@)),
            views(out@).to_multiset() == views(syms@.take(k as int)).to_multiset(),
            forall|name: Seq<char>| #[trigger] name_group(views(out@), name) == name_group(
                views(syms@.take(k as int)),
                name,
            ),
        decreases syms@.len() - k,
    {
        let ghost pre_take = views(syms@.take(k as int));
        let sym = Symbol {
            name: syms[k].name.clone(),
            glyph: syms[k].glyph.clone(),
        };
        proof {
            assert(sym@ == syms@[k as int]@);
            assert(views(syms@.take(k + 1)) =~= pre_take.push(syms@[k as int]@));
            broadcast use vstd::seq_lib::to_multiset_build;

        }
        insert_sorted(&mut out, sym);
        proof {
            assert forall|name: Seq<char>| #[trigger] name_group(views(out@), name) == name_group(
                views(syms@.take(k + 1)),
                name,
            ) by {
                let pred = has_name(name);
                pre_take.lemma_filter_push(syms@[k as int]@, pred);
                assert(views(syms@.take(k + 1)) == pre_take.push(syms@[k as int]@));
            }
        }
        k = k + 1;
    }
    proof {
        assert(syms@.take(syms@.len() as int) =~= syms@);
        assert(views(syms@.take(syms@.len() as int)) == views(syms@));
        let fm = corpus@.filter(pred).map_values(f);
        assert forall|k: int|
            0 <= k < views(out@).len() implies !(#[trigger] views(out@)[k]).name.contains(
            ' ',
        ) by {
            let elem = views(out@)[k];
            assert(views(out@).contains(elem));
            assert(views(out@).to_multiset().count(elem) > 0);
            assert(fm.to_multiset().count(elem) > 0);
            assert(fm.contains(elem));
            let q = choose|q: int| 0 <= q < fm.len() && fm[q] == elem;
            assert(fm[q] == f(corpus@.filter(pred)[q]));
            assert(pred(corpus@.filter(pred)[q]));
            assert(eligible(corpus@.filter(pred)[q]));
        }
    }
    out
}

/// Fetches the corpus of name/glyph pairs.
///
/// Relies on `emojis::iter`: it yields every emoji of the crate's built-in
/// table (skin-tone variants other than the default excluded), each carrying
/// its CLDR name and its glyph string.
#[verifier::external_body]
fn fetch_corpus() -> (r: Vec<CorpusEntry>) {
    emojis::iter().map(
        |e| CorpusEntry { name: e.name().to_owned(), glyph: e.as_str().to_owned() },
    ).collect()
}

/// Builds the lexicon from the emoji corpus: every single-word emoji name,
/// case-folded, sorted ascending.
pub fn default_lexicon() -> (r: Vec<Symbol>)
    ensures
        sorted_syms(views(r@)),
        forall|k: int| 0 <= k < views(r@).len() ==> !(#[trigger] views(r@)[k]).name.contains(' '),
{
    let corpus = fetch_corpus();
    build_lexicon(&corpus)
}

} // verus!

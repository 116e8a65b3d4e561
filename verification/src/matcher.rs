//! The greedy matcher: walks the input left to right and, at every cursor
//! position, picks the lexicon symbol whose name is the longest literal
//! prefix of the remaining input. A symbol whose name equals the whole input
//! is never a candidate. Ties keep the earliest symbol in the table.
//!
//! Cursor positions and match lengths are measured in characters (Unicode
//! scalar values) throughout, never in bytes.

use vstd::prelude::*;

use crate::lexicon::SymV;
use crate::lexicon::Symbol;
use crate::lexicon::sorted_syms;
use crate::lexicon::views;
use crate::text::lemma_lex_le_total;
use crate::text::lex_le;
use crate::text::str_eq;

verus! {

/// One step of the tokenizer: the index of the chosen symbol in the lexicon
/// and how many characters of the input it consumed.
#[derive(Clone, Copy, PartialEq, Eq, Structural, Debug)]
pub struct Match {
    pub symbol: usize,
    pub length: usize,
}

/// The mathematical image of a [`Match`].
pub ghost struct MatchV {
    pub symbol: int,
    pub length: int,
}

impl View for Match {
    type V = MatchV;

    open spec fn view(&self) -> MatchV {
        MatchV { symbol: self.symbol as int, length: self.length as int }
    }
}

/// The views of a sequence of matches.
pub open spec fn match_views(s: Seq<Match>) -> Seq<MatchV> {
    s.map_values(|m: Match| m@)
}

/// Length of the longest common literal prefix of `rem` and `name`,
/// character by character, stopping at the first mismatch or at either end.
pub open spec fn match_len(rem: Seq<char>, name: Seq<char>) -> nat
    decreases rem.len(),
{
    if rem.len() == 0 || name.len() == 0 {
        0
    } else if rem[0] == name[0] {
        1 + match_len(rem.drop_first(), name.drop_first())
    } else {
        0
    }
}

/// A common prefix is no longer than either string.
pub proof fn lemma_match_len_le(rem: Seq<char>, name: Seq<char>)
    ensures
        match_len(rem, name) <= rem.len(),
        match_len(rem, name) <= name.len(),
    decreases rem.len(),
{
    if rem.len() != 0 && name.len() != 0 && rem[0] == name[0] {
        lemma_match_len_le(rem.drop_first(), name.drop_first());
    }
}

/// Up to the matched length, the name and the remaining input agree.
pub proof fn lemma_match_len_prefix(rem: Seq<char>, name: Seq<char>)
    ensures
        forall|j: int| 0 <= j < match_len(rem, name) ==> rem[j] == name[j],
    decreases rem.len(),
{
    lemma_match_len_le(rem, name);
    if rem.len() != 0 && name.len() != 0 && rem[0] == name[0] {
        lemma_match_len_prefix(rem.drop_first(), name.drop_first());
        assert forall|j: int| 0 <= j < match_len(rem, name) implies rem[j] == name[j] by {
            if j > 0 {
                assert(rem.drop_first()[j - 1] == name.drop_first()[j - 1]);
            }
        }
    }
}

/// A scan that stopped at position `k` — equal so far, then a mismatch or an
/// end — has found exactly the matched length.
pub proof fn lemma_match_len_from_scan(rem: Seq<char>, name: Seq<char>, k: int)
    requires
        0 <= k <= rem.len(),
        k <= name.len(),
        forall|j: int| 0 <= j < k ==> rem[j] == name[j],
        k == rem.len() || k == name.len() || rem[k] != name[k],
    ensures
        match_len(rem, name) == k,
    decreases k,
{
    if k == 0 {
        if rem.len() != 0 && name.len() != 0 {
            assert(rem[0] != name[0]);
        }
    } else {
        assert(rem[0] == name[0]);
        let rem1 = rem.drop_first();
        let name1 = name.drop_first();
        assert(forall|j: int| 0 <= j < k - 1 ==> rem1[j] == rem[j + 1] && name1[j] == name[j + 1]);
        if k - 1 < rem1.len() && k - 1 < name1.len() {
            assert(rem1[k - 1] == rem[k]);
            assert(name1[k - 1] == name[k]);
        }
        lemma_match_len_from_scan(rem1, name1, k - 1);
    }
}

/// The running best over the first `n` symbols of the lexicon: the longest
/// match length seen and the index of the first symbol achieving it, with
/// `(0, -1)` when nothing matched. A symbol whose name equals the full input
/// is skipped.
pub open spec fn scan_best(rem: Seq<char>, full: Seq<char>, lex: Seq<SymV>, n: int) -> (nat, int)
    decreases n,
{
    if n <= 0 {
        (0 as nat, -1)
    } else {
        let prev = scan_best(rem, full, lex, n - 1);
        if lex[n - 1].name == full {
            prev
        } else if match_len(rem, lex[n - 1].name) > prev.0 {
            (match_len(rem, lex[n - 1].name), n - 1)
        } else {
            prev
        }
    }
}

/// The best candidate over the whole lexicon.
pub open spec fn best(rem: Seq<char>, full: Seq<char>, lex: Seq<SymV>) -> (nat, int) {
    scan_best(rem, full, lex, lex.len() as int)
}

/// What the scan guarantees: the winner is a real, non-excluded candidate
/// achieving the reported length; no non-excluded candidate beats it; and
/// every earlier non-excluded candidate falls strictly short.
pub proof fn lemma_scan_best_props(rem: Seq<char>, full: Seq<char>, lex: Seq<SymV>, n: int)
    requires
        0 <= n <= lex.len(),
    ensures
        scan_best(rem, full, lex, n).0 == 0 ==> scan_best(rem, full, lex, n).1 == -1,
        scan_best(rem, full, lex, n).0 > 0 ==> {
            let b = scan_best(rem, full, lex, n);
            &&& 0 <= b.1 < n
            &&& lex[b.1].name != full
            &&& match_len(rem, lex[b.1].name) == b.0
        },
        forall|j: int|
            0 <= j < n && lex[j].name != full ==> match_len(rem, lex[j].name) <= scan_best(
                rem,
                full,
                lex,
                n,
            ).0,
        forall|j: int|
            0 <= j < scan_best(rem, full, lex, n).1 && lex[j].name != full ==> match_len(
                rem,
                lex[j].name,
            ) < scan_best(rem, full, lex, n).0,
    decreases n,
{
    if n > 0 {
        lemma_scan_best_props(rem, full, lex, n - 1);
    }
}

/// The greedy tokenization of `input` from cursor `i` on: `None` when some
/// position admits no match at all, otherwise the full match sequence. The
/// bounds guard on the chosen length keeps the recursion well founded;
/// [`lemma_match_len_le`] shows it never cuts a real run short.
pub open spec fn greedy_from(input: Seq<char>, lex: Seq<SymV>, i: int) -> Option<Seq<MatchV>>
    decreases input.len() - i,
{
    if i >= input.len() {
        Some(Seq::empty())
    } else {
        let b = best(input.skip(i), input, lex);
        if b.0 <= 0 || i + b.0 > input.len() {
            None
        } else {
            match greedy_from(input, lex, i + b.0) {
                Some(rest) => Some(seq![MatchV { symbol: b.1, length: b.0 as int }] + rest),
                None => None,
            }
        }
    }
}

/// The greedy tokenization of the whole input.
pub open spec fn greedy(input: Seq<char>, lex: Seq<SymV>) -> Option<Seq<MatchV>> {
    greedy_from(input, lex, 0)
}

/// Longest common prefix of the input at `pos` against `name`.
fn match_len_at(input: &str, pos: usize, name: &str) -> (r: usize)
    requires
        pos <= input@.len(),
    ensures
        r == match_len(input@.skip(pos as int), name@),
        pos + r <= input@.len(),
        r <= name@.len(),
{
    let ilen = input.unicode_len();
    let nlen = name.unicode_len();
    let mut k: usize = 0;
    loop
        invariant
            pos + k <= ilen,
            k <= nlen,
            ilen == input@.len(),
            nlen == name@.len(),
            pos <= ilen,
            forall|j: int| 0 <= j < k ==> input@[pos + j] == name@[j],
        ensures
            pos + k <= ilen,
            k <= nlen,
            forall|j: int| 0 <= j < k ==> input@[pos + j] == name@[j],
            pos + k == ilen || k == nlen || input@[pos + k] != name@[k as int],
        decreases nlen - k,
    {
        if pos + k >= ilen {
            break;
        }
        if k >= nlen {
            break;
        }
        if input.get_char(pos + k) != name.get_char(k) {
            break;
        }
        k = k + 1;
    }
    proof {
        let rem = input@.skip(pos as int);
        assert(forall|j: int| 0 <= j < k ==> rem[j] == input@[pos + j]);
        if pos + k < ilen && (k as int) < nlen as int {
            assert(rem[k as int] == input@[pos + k]);
        }
        lemma_match_len_from_scan(rem, name@, k as int);
    }
    k
}

/// The best candidate at cursor `pos`: the first symbol with the longest
/// literal prefix match against the remaining input, symbols whose name
/// equals the whole input excluded. `None` exactly when no candidate matches
/// even one character.
pub fn best_at(input: &str, pos: usize, lexicon: &Vec<Symbol>) -> (r: Option<Match>)
    requires
        pos < input@.len(),
    ensures
        match r {
            Some(m) => {
                &&& best(input@.skip(pos as int), input@, views(lexicon@)).0 == m.length as nat
                &&& best(input@.skip(pos as int), input@, views(lexicon@)).1 == m.symbol as int
                &&& 0 < m.length
                &&& pos + m.length <= input@.len()
                &&& m.symbol < lexicon@.len()
            },
            None => best(input@.skip(pos as int), input@, views(lexicon@)).0 == 0,
        },
{
    let ghost rem = input@.skip(pos as int);
    let ghost lexv = views(lexicon@);
    let mut best_len: usize = 0;
    let mut best_sym: usize = 0;
    let mut t: usize = 0;
    while t < lexicon.len()
        invariant
            t <= lexicon@.len(),
            pos < input@.len(),
            rem == input@.skip(pos as int),
            lexv == views(lexicon@),
            best_len == 0 ==> scan_best(rem, input@, lexv, t as int) == (0 as nat, -1int),
            best_len > 0 ==> scan_best(rem, input@, lexv, t as int) == (
                best_len as nat,
                best_sym as int,
            ),
            pos + best_len <= input@.len(),
            best_len > 0 ==> best_sym < lexicon@.len(),
        decreases lexicon@.len() - t,
    {
        proof {
            assert(lexv[t as int].name == lexicon@[t as int].name@);
        }
        let excluded = str_eq(lexicon[t].name.as_str(), input);
        if !excluded {
            let l = match_len_at(input, pos, lexicon[t].name.as_str());
            if l > best_len {
                best_len = l;
                best_sym = t;
            }
        }
        t = t + 1;
    }
    if best_len == 0 {
        None
    } else {
        Some(Match { symbol: best_sym, length: best_len })
    }
}

/// Greedy tokenization of `input` against the lexicon: at each cursor
/// position take the best candidate and advance by the matched length.
/// `None` exactly when some position admits no match, the unrecoverable
/// lexicon-exhaustion condition.
pub fn encode(input: &str, lexicon: &Vec<Symbol>) -> (r: Option<Vec<Match>>)
    ensures
        match r {
            Some(ms) => greedy(input@, views(lexicon@)) == Some(match_views(ms@)),
            None => greedy(input@, views(lexicon@)) is None,
        },
{
    let ghost lexv = views(lexicon@);
    let ilen = input.unicode_len();
    let mut result: Vec<Match> = Vec::new();
    let mut i: usize = 0;
    proof {
        assert(match_views(result@) =~= Seq::<MatchV>::empty());
    }
    loop
        invariant
            i <= ilen,
            ilen == input@.len(),
            lexv == views(lexicon@),
            match greedy_from(input@, lexv, i as int) {
                Some(rest) => greedy(input@, lexv) == Some(match_views(result@) + rest),
                None => greedy(input@, lexv) is None,
            },
        decreases ilen - i,
    {
        if i >= ilen {
            proof {
                assert(greedy_from(input@, lexv, i as int) == Some(Seq::<MatchV>::empty()));
                assert(match_views(result@) + Seq::<MatchV>::empty() =~= match_views(result@));
            }
            return Some(result);
        }
        let found = best_at(input, i, lexicon);
        match found {
            None => {
                proof {
                    assert(greedy_from(input@, lexv, i as int) is None);
                }
                return None;
            },
            Some(m) => {
                proof {
                    let b = best(input@.skip(i as int), input@, lexv);
                    let mv = MatchV { symbol: b.1, length: b.0 as int };
                    assert(mv == m@);
                    match greedy_from(input@, lexv, i + m.length) {
                        Some(rest) => {
                            assert(greedy_from(input@, lexv, i as int) == Some(
                                seq![mv] + rest,
                            ));
                            assert(match_views(result@.push(m)) =~= match_views(result@) + seq![
                                m@,
                            ]);
                            assert(match_views(result@) + (seq![mv] + rest) =~= match_views(
                                result@.push(m),
                            ) + rest);
                        },
                        None => {
                            assert(greedy_from(input@, lexv, i as int) is None);
                        },
                    }
                }
                result.push(m);
                i = i + m.length;
            },
        }
    }
}

/// The text a match sequence consumes: each symbol's name truncated to the
/// matched length, concatenated in order.
pub open spec fn consumed(ms: Seq<MatchV>, lex: Seq<SymV>) -> Seq<char>
    decreases ms.len(),
{
    if ms.len() == 0 {
        Seq::empty()
    } else {
        lex[ms[0].symbol].name.take(ms[0].length) + consumed(ms.drop_first(), lex)
    }
}

/// Every match of a greedy tokenization names a real symbol and consumed at
/// least one character.
pub proof fn lemma_match_bounds(input: Seq<char>, lex: Seq<SymV>, i: int, ms: Seq<MatchV>)
    requires
        0 <= i <= input.len(),
        greedy_from(input, lex, i) == Some(ms),
    ensures
        forall|k: int| #![trigger ms[k]]
            0 <= k < ms.len() ==> 0 <= ms[k].symbol < lex.len() && 1 <= ms[k].length,
    decreases input.len() - i,
{
    if i < input.len() {
        let rem = input.skip(i);
        let b = best(rem, input, lex);
        lemma_scan_best_props(rem, input, lex, lex.len() as int);
        match greedy_from(input, lex, i + b.0) {
            Some(rest) => {
                lemma_match_bounds(input, lex, i + b.0, rest);
                let mv = MatchV { symbol: b.1, length: b.0 as int };
                assert(ms == seq![mv] + rest);
                assert forall|k: int| #![trigger ms[k]]
                    0 <= k < ms.len() implies 0 <= ms[k].symbol < lex.len() && 1
                    <= ms[k].length by {
                    if k > 0 {
                        assert(ms[k] == rest[k - 1]);
                    }
                }
            },
            None => {},
        }
    }
}

/// Round-trip reconstruction: whatever the greedy tokenization returns,
/// concatenating each match's consumed substring reproduces the input from
/// the starting cursor on, exactly.
pub proof fn lemma_reconstruction(input: Seq<char>, lex: Seq<SymV>, i: int)
    requires
        0 <= i <= input.len(),
    ensures
        greedy_from(input, lex, i) matches Some(ms) ==> consumed(ms, lex) == input.skip(i),
    decreases input.len() - i,
{
    if i >= input.len() {
        assert(input.skip(i) =~= Seq::<char>::empty());
    } else {
        let rem = input.skip(i);
        let b = best(rem, input, lex);
        if b.0 > 0 && i + b.0 <= input.len() {
            lemma_scan_best_props(rem, input, lex, lex.len() as int);
            lemma_match_len_prefix(rem, lex[b.1].name);
            lemma_reconstruction(input, lex, i + b.0);
            match greedy_from(input, lex, i + b.0) {
                Some(rest) => {
                    let mv = MatchV { symbol: b.1, length: b.0 as int };
                    let ms = seq![mv] + rest;
                    assert(ms.drop_first() =~= rest);
                    assert(lex[b.1].name.take(b.0 as int) =~= rem.take(b.0 as int)) by {
                        lemma_match_len_le(rem, lex[b.1].name);
                    }
                    assert(input.skip(i + b.0) =~= rem.skip(b.0 as int));
                    assert(consumed(ms, lex) == rem.take(b.0 as int) + rem.skip(b.0 as int));
                    assert(rem.take(b.0 as int) + rem.skip(b.0 as int) =~= rem);
                },
                None => {},
            }
        }
    }
}

/// Whether the lexicon holds a one-character symbol for `c`.
pub open spec fn has_single(lex: Seq<SymV>, c: char) -> bool {
    exists|j: int| 0 <= j < lex.len() && #[trigger] lex[j].name == seq![c]
}

/// Greedy success: when the lexicon holds every character of the input as a
/// one-character symbol and the input has at least two characters, the
/// tokenizer never gets stuck. (A one-character input equal to such a symbol
/// would lose its only candidate to the self-match exclusion.)
pub proof fn lemma_greedy_succeeds(input: Seq<char>, lex: Seq<SymV>, i: int)
    requires
        input.len() >= 2,
        0 <= i <= input.len(),
        forall|p: int| 0 <= p < input.len() ==> has_single(lex, #[trigger] input[p]),
    ensures
        greedy_from(input, lex, i) is Some,
    decreases input.len() - i,
{
    if i < input.len() {
        let rem = input.skip(i);
        let j = choose|j: int| 0 <= j < lex.len() && #[trigger] lex[j].name == seq![input[i]];
        assert(lex[j].name.len() == 1);
        assert(lex[j].name != input);
        assert(rem[0] == input[i]);
        assert(match_len(rem, lex[j].name) == 1) by {
            assert(rem.len() > 0);
            assert(rem[0] == lex[j].name[0]);
            assert(lex[j].name.drop_first().len() == 0);
            assert(match_len(rem.drop_first(), lex[j].name.drop_first()) == 0);
        }
        let b = best(rem, input, lex);
        lemma_scan_best_props(rem, input, lex, lex.len() as int);
        assert(b.0 >= 1);
        lemma_match_len_le(rem, lex[b.1].name);
        assert(i + b.0 <= input.len());
        lemma_greedy_succeeds(input, lex, i + b.0);
    }
}

/// Round-trip reconstruction for a whole input: with every input character
/// present as a one-character symbol and an input of at least two
/// characters, the greedy tokenization exists and its consumed substrings
/// concatenate back to the input exactly.
pub proof fn lemma_round_trip(input: Seq<char>, lex: Seq<SymV>)
    requires
        input.len() >= 2,
        forall|p: int| 0 <= p < input.len() ==> has_single(lex, #[trigger] input[p]),
    ensures
        greedy(input, lex) is Some,
        greedy(input, lex) matches Some(ms) ==> consumed(ms, lex) == input,
{
    lemma_greedy_succeeds(input, lex, 0);
    lemma_reconstruction(input, lex, 0);
    assert(input.skip(0) =~= input);
}

/// Greedy maximality: no non-excluded symbol matches the remaining input
/// longer than the selected best.
pub proof fn lemma_greedy_maximality(rem: Seq<char>, full: Seq<char>, lex: Seq<SymV>, j: int)
    requires
        0 <= j < lex.len(),
        lex[j].name != full,
    ensures
        match_len(rem, lex[j].name) <= best(rem, full, lex).0,
{
    lemma_scan_best_props(rem, full, lex, lex.len() as int);
}

/// Tie-break determinism: among the non-excluded symbols that tie for the
/// longest match, the selected one stands earliest in the table, and in a
/// sorted lexicon its name is lexicographically smallest.
pub proof fn lemma_tie_break(rem: Seq<char>, full: Seq<char>, lex: Seq<SymV>, j: int)
    requires
        0 <= j < lex.len(),
        lex[j].name != full,
        sorted_syms(lex),
        best(rem, full, lex).0 > 0,
        match_len(rem, lex[j].name) == best(rem, full, lex).0,
    ensures
        best(rem, full, lex).1 <= j,
        lex_le(lex[best(rem, full, lex).1].name, lex[j].name),
{
    lemma_scan_best_props(rem, full, lex, lex.len() as int);
    let b = best(rem, full, lex);
    if b.1 == j {
        lemma_lex_le_total(lex[j].name, lex[j].name);
    }
}

/// Self-match exclusion: a symbol whose name equals the whole input is never
/// selected by the greedy tokenization of that input.
pub proof fn lemma_self_match_excluded(input: Seq<char>, lex: Seq<SymV>, i: int, ms: Seq<MatchV>)
    requires
        0 <= i <= input.len(),
        greedy_from(input, lex, i) == Some(ms),
    ensures
        forall|k: int| #![trigger ms[k]] 0 <= k < ms.len() ==> lex[ms[k].symbol].name != input,
    decreases input.len() - i,
{
    if i < input.len() {
        let rem = input.skip(i);
        let b = best(rem, input, lex);
        lemma_scan_best_props(rem, input, lex, lex.len() as int);
        match greedy_from(input, lex, i + b.0) {
            Some(rest) => {
                lemma_self_match_excluded(input, lex, i + b.0, rest);
                let mv = MatchV { symbol: b.1, length: b.0 as int };
                assert(ms == seq![mv] + rest);
                assert forall|k: int| #![trigger ms[k]]
                    0 <= k < ms.len() implies lex[ms[k].symbol].name != input by {
                    if k > 0 {
                        assert(ms[k] == rest[k - 1]);
                    }
                }
            },
            None => {},
        }
    }
}

} // verus!


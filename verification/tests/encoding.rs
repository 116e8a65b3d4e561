use kaley::indicator::Palette;
use kaley::indicator::load_palette;
use kaley::indicator::run_indicator;
use kaley::lexicon::CorpusEntry;
use kaley::lexicon::Symbol;
use kaley::lexicon::build_lexicon;
use kaley::lexicon::default_lexicon;
use kaley::matcher::Match;
use kaley::matcher::encode;
use kaley::render::apply_indicators;
use kaley::render::encode_text;
use kaley::render::render_reference;
use kaley::render::render_result;

fn sym(name: &str, glyph: &str) -> Symbol {
    Symbol { name: name.to_string(), glyph: glyph.to_string() }
}

fn entry(name: &str, glyph: &str) -> CorpusEntry {
    CorpusEntry { name: name.to_string(), glyph: glyph.to_string() }
}

fn dummy_palette() -> Palette {
    let hearts = vec!["#2", "#3", "#4", "#5", "#6", "#7", "#8+"];
    Palette { hearts: hearts.into_iter().map(|s| s.to_string()).collect() }
}

/// The sorted lexicon {"a": A, "ab": C, "b": B}.
fn ab_lexicon() -> Vec<Symbol> {
    vec![sym("a", "A"), sym("ab", "C"), sym("b", "B")]
}

#[test]
fn scenario_ab_matches() {
    let lexicon = ab_lexicon();
    let ms = encode("ab", &lexicon).expect("encoding must succeed");
    assert_eq!(ms, vec![Match { symbol: 0, length: 1 }, Match { symbol: 2, length: 1 }]);
}

#[test]
fn scenario_ab_rendered() {
    let lexicon = ab_lexicon();
    let palette = dummy_palette();
    let ms = encode("ab", &lexicon).unwrap();
    let toks = apply_indicators(&ms, &palette);
    assert!(toks[0].indicator.is_none());
    assert!(toks[1].indicator.is_none());
    let out = render_result(&toks, &lexicon);
    assert_eq!(out, "AB");
}

#[test]
fn scenario_ab_output_with_reference() {
    let lexicon = ab_lexicon();
    let palette = dummy_palette();
    let out = encode_text("ab", &lexicon, &palette, true).unwrap();
    assert_eq!(out, "Reference:\nA a\nB b\n\nResult:\nAB\n");
}

#[test]
fn scenario_ab_output_without_reference() {
    let lexicon = ab_lexicon();
    let palette = dummy_palette();
    let out = encode_text("ab", &lexicon, &palette, false).unwrap();
    assert_eq!(out, "Result:\nAB\n");
}

#[test]
fn greedy_prefers_longest() {
    // sorted: e, ell, h, l, o
    let lexicon = vec![sym("e", "E"), sym("ell", "L"), sym("h", "H"), sym("l", "W"), sym("o", "O")];
    let ms = encode("hello", &lexicon).unwrap();
    assert_eq!(
        ms,
        vec![
            Match { symbol: 2, length: 1 },
            Match { symbol: 1, length: 3 },
            Match { symbol: 4, length: 1 },
        ]
    );
    let palette = dummy_palette();
    let toks = apply_indicators(&ms, &palette);
    let out = render_result(&toks, &lexicon);
    assert_eq!(out, "HL#3O");
}

#[test]
fn tie_break_takes_smallest_name() {
    // "a" and "ax" both match one character of "ay"; "a" sorts first and wins.
    let lexicon = vec![sym("a", "A"), sym("ax", "X"), sym("y", "Y")];
    let ms = encode("ay", &lexicon).unwrap();
    assert_eq!(ms, vec![Match { symbol: 0, length: 1 }, Match { symbol: 2, length: 1 }]);
}

#[test]
fn self_match_leaves_single_symbol_without_candidates() {
    let lexicon = vec![sym("a", "A")];
    assert!(encode("a", &lexicon).is_none());
}

#[test]
fn empty_lexicon_exhausts() {
    let lexicon: Vec<Symbol> = Vec::new();
    assert!(encode("abc", &lexicon).is_none());
}

#[test]
fn unmatched_character_exhausts() {
    let lexicon = vec![sym("a", "A")];
    assert!(encode("az", &lexicon).is_none());
}

#[test]
fn lexicon_filters_multi_word_names() {
    let corpus = vec![entry("red heart", "\u{2764}\u{fe0f}"), entry("cat", "\u{1f408}")];
    let lexicon = build_lexicon(&corpus);
    assert_eq!(lexicon.len(), 1);
    assert_eq!(lexicon[0].name, "cat");
    assert_eq!(lexicon[0].glyph, "\u{1f408}");
}

#[test]
fn lexicon_folds_case_and_sorts() {
    let corpus = vec![entry("CAt", "C"), entry("Zebra", "Z"), entry("ca", "D")];
    let lexicon = build_lexicon(&corpus);
    let names: Vec<&str> = lexicon.iter().map(|s| s.name.as_str()).collect();
    assert_eq!(names, vec!["ca", "cat", "zebra"]);
}

#[test]
fn lexicon_keeps_duplicate_names_in_corpus_order() {
    let corpus = vec![entry("x", "X1"), entry("x", "X2")];
    let lexicon = build_lexicon(&corpus);
    assert_eq!(lexicon.len(), 2);
    assert_eq!(lexicon[0].glyph, "X1");
    assert_eq!(lexicon[1].glyph, "X2");
}

#[test]
fn indicator_boundaries_on_real_palette() {
    let palette = load_palette().expect("the emoji table holds the palette");
    assert!(run_indicator(1, &palette).is_none());
    let mut glyphs = Vec::new();
    for length in 2..=7usize {
        glyphs.push(run_indicator(length, &palette).expect("counts above one take a glyph"));
    }
    for i in 0..glyphs.len() {
        for j in (i + 1)..glyphs.len() {
            assert_ne!(glyphs[i], glyphs[j]);
        }
    }
    let eight = run_indicator(8, &palette).unwrap();
    let large = run_indicator(1000, &palette).unwrap();
    assert_eq!(eight, large);
    assert_eq!(eight, "\u{1f5a4}");
    for g in &glyphs {
        assert_ne!(*g, eight);
    }
}

#[test]
fn indicator_returns_fully_qualified_glyph() {
    // The red heart is looked up unqualified but comes back fully qualified.
    let palette = load_palette().unwrap();
    assert_eq!(run_indicator(2, &palette).unwrap(), "\u{2764}\u{fe0f}");
}

#[test]
fn five_character_run_takes_fourth_palette_glyph() {
    let palette = load_palette().unwrap();
    let lexicon = vec![sym("abcde", "G"), sym("f", "F")];
    let ms = encode("abcdef", &lexicon).unwrap();
    assert_eq!(ms[0], Match { symbol: 0, length: 5 });
    let toks = apply_indicators(&ms, &palette);
    assert_eq!(toks[0].indicator.as_deref(), Some("\u{1f49a}"));
    assert!(toks[1].indicator.is_none());
}

#[test]
fn reference_lists_each_symbol_once() {
    let lexicon = ab_lexicon();
    let palette = dummy_palette();
    let ms = encode("abab", &lexicon).unwrap();
    assert_eq!(ms, vec![Match { symbol: 1, length: 2 }, Match { symbol: 1, length: 2 }]);
    let toks = apply_indicators(&ms, &palette);
    let lines = render_reference(&toks, &lexicon);
    assert_eq!(lines, vec!["C ab".to_string()]);
    let out = encode_text("abab", &lexicon, &palette, true).unwrap();
    assert_eq!(out, "Reference:\nC ab\n\nResult:\nC#2C#2\n");
}

#[test]
fn pipeline_reports_exhaustion() {
    let lexicon = vec![sym("a", "A")];
    let palette = dummy_palette();
    assert!(encode_text("a", &lexicon, &palette, false).is_none());
    assert!(encode_text("az", &lexicon, &palette, true).is_none());
}

#[test]
fn default_lexicon_is_sorted_and_single_word() {
    let lexicon = default_lexicon();
    assert!(!lexicon.is_empty());
    for w in lexicon.windows(2) {
        assert!(w[0].name <= w[1].name);
    }
    for s in &lexicon {
        assert!(!s.name.contains(' '));
        assert_eq!(s.name, s.name.to_lowercase());
    }
    assert!(lexicon.iter().any(|s| s.name == "cat"));
}

#[test]
fn real_corpus_round_trip_and_maximality() {
    let lexicon = default_lexicon();
    let input = "cat";
    let ms = encode(input, &lexicon).expect("the emoji lexicon covers this word");
    // Round trip: the consumed prefixes concatenate back to the input.
    let mut rebuilt = String::new();
    let mut cursor = 0usize;
    for m in &ms {
        assert!(m.length >= 1);
        let name = &lexicon[m.symbol].name;
        let prefix: String = name.chars().take(m.length).collect();
        rebuilt.push_str(&prefix);
        // Greedy maximality, checked by brute force against every candidate.
        let remaining: Vec<char> = input.chars().skip(cursor).collect();
        for s in &lexicon {
            if s.name == input {
                continue;
            }
            let common = s
                .name
                .chars()
                .zip(remaining.iter())
                .take_while(|(a, b)| a == *b)
                .count();
            assert!(common <= m.length);
        }
        cursor += m.length;
    }
    assert_eq!(rebuilt, input);
}

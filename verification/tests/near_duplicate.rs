use slopgraph::finding::{Evidence, Shape};
use slopgraph::near_duplicate::{
    compute_window_hashes, detect, normalize_tokens, raw_tokens, token_class, window_matches, windows_confident, FunctionCandidate,
    LexKind, NormalizedToken, RawToken, TokenClass, MIN_AST_NODES, WINDOW_SIZE,
};
use slopgraph::syntax::lex_tokens;

/// Tokens of a body: `id` stands for an identifier, `1` for a literal, anything else is text.
fn tokens(words: &[&str]) -> Vec<RawToken> {
    let mut out = Vec::new();
    let mut at = 0u32;
    for w in words {
        let class = if *w == "id" {
            TokenClass::Identifier
        } else if *w == "1" {
            TokenClass::Literal
        } else {
            TokenClass::Other
        };
        out.push(RawToken { start: at, end: at + w.len() as u32, class, text: w.to_string() });
        at += w.len() as u32 + 1;
    }
    out
}

/// A body of `reps` repetitions of a statement pattern.
fn body(reps: usize, keyword: &str) -> Vec<&str> {
    let mut words = Vec::new();
    for _ in 0..reps {
        words.extend_from_slice(&["const", "id", "=", "id", "+", "1", ";", keyword, "(", "id", ">", "1", ")", "{", "return", "id", ";", "}"]);
    }
    words
}

fn candidate(display: &str, name: &str, span_start: u32, kinds: Vec<u32>, words: &[&str]) -> FunctionCandidate {
    let raw = tokens(words);
    let normalized = normalize_tokens(&raw, 0, u32::MAX);
    FunctionCandidate {
        abs: format!("/project/{display}"),
        display: display.to_string(),
        name: name.to_string(),
        line: 1,
        span_start,
        ast_kinds: kinds,
        window_hashes: compute_window_hashes(&normalized),
    }
}

#[test]
fn low_window_overlap_is_rejected() {
    let kinds: Vec<u32> = (0..30).collect();
    let a = candidate("test.ts", "f", 10, kinds.clone(), &body(6, "if"));
    let b = candidate("test.ts", "g", 90, kinds, &body(6, "while"));
    assert!(!windows_confident(&a.window_hashes, &b.window_hashes));
    assert_eq!(detect(&vec![a, b]).len(), 0);
}

#[test]
fn normalization_abstracts_names_and_literals() {
    let raw = tokens(&["function", "id", "(", "1", ")", "+"]);
    let n = normalize_tokens(&raw, 0, u32::MAX);
    assert_eq!(
        n,
        vec![
            NormalizedToken::Text("function".to_string()),
            NormalizedToken::Id,
            NormalizedToken::Text("(".to_string()),
            NormalizedToken::Lit,
            NormalizedToken::Text(")".to_string()),
            NormalizedToken::Text("+".to_string()),
        ]
    );
    // Tokens outside the body span and the end-of-input token are dropped.
    let mut raw = tokens(&["a", "b", "c"]);
    raw.push(RawToken { start: 6, end: 6, class: TokenClass::Eof, text: String::new() });
    let inner = normalize_tokens(&raw, 2, 3);
    assert_eq!(inner, vec![NormalizedToken::Text("b".to_string())]);
}

#[test]
fn window_hashes_count_and_equality() {
    let words = body(5, "if");
    let raw = tokens(&words);
    let n = normalize_tokens(&raw, 0, u32::MAX);
    let h = compute_window_hashes(&n);
    assert_eq!(h.len(), n.len() - WINDOW_SIZE + 1);
    // The pattern repeats every 18 tokens, so windows 18 apart hash alike.
    assert_eq!(h[0], h[1 + 17]);
    assert_ne!(h[0], h[1]);
    let short = compute_window_hashes(&n[..WINDOW_SIZE - 1].to_vec());
    assert!(short.is_empty());
}

#[test]
fn window_matches_counts_multiplicity() {
    assert_eq!(window_matches(&vec![1, 1, 2, 3], &vec![1, 2, 2, 4]), 2);
    assert_eq!(window_matches(&vec![1, 2], &vec![2, 1]), window_matches(&vec![2, 1], &vec![1, 2]));
    assert!(windows_confident(&vec![1, 2, 3, 4, 5, 6, 7, 8, 9, 10], &vec![1, 2, 3, 4, 5, 6, 7, 0, 0, 0]));
    assert!(!windows_confident(&vec![1, 2, 3, 4, 5, 6, 7, 8, 9, 10], &vec![1, 2, 3, 4, 5, 6, 0, 0, 0, 0]));
    assert!(!windows_confident(&vec![], &vec![]));
}

/// The tokens the parser lexes from `code`, classed as the library reads them.
fn lexed(code: &str) -> Vec<RawToken> {
    raw_tokens(lex_tokens("example.ts", code))
}

#[test]
fn template_pieces_are_literals() {
    assert_eq!(token_class(LexKind::TemplateHead, false, false), TokenClass::Literal);
    assert_eq!(token_class(LexKind::NoSubstitutionTemplate, false, false), TokenClass::Literal);
    assert_eq!(token_class(LexKind::Eof, false, false), TokenClass::Eof);
    assert_eq!(token_class(LexKind::Other, true, false), TokenClass::Identifier);
    assert_eq!(token_class(LexKind::Other, false, false), TokenClass::Other);
    let classes: Vec<TokenClass> = lexed("f(`a${b}c`)").iter().map(|t| t.class).collect();
    assert_eq!(
        classes,
        vec![
            TokenClass::Identifier,
            TokenClass::Other,
            TokenClass::Literal,
            TokenClass::Identifier,
            TokenClass::Literal,
            TokenClass::Other
        ]
    );
}

#[test]
fn test_token_normalization_types() {
    let code = r#"
        function example(alpha: string, beta: number) {
            const str = "hello";
            const num = 12345;
            const big = 999n;
            const reg = /pattern/g;
            const tmpl = `prefix ${alpha} suffix`;
            if (beta > 0) {
                return str + num;
            }
            return null;
        }
        "#;
    let tokens = normalize_tokens(&lexed(code), 0, code.len() as u32);

    // Check that identifiers became NormalizedToken::Id
    assert!(tokens.contains(&NormalizedToken::Id));
    // Check that literals became NormalizedToken::Lit
    assert!(tokens.contains(&NormalizedToken::Lit));
    // Check that keywords/punctuation retained exact text
    assert!(tokens.contains(&NormalizedToken::Text("function".to_string())));
    assert!(tokens.contains(&NormalizedToken::Text("const".to_string())));
    assert!(tokens.contains(&NormalizedToken::Text("if".to_string())));
    assert!(tokens.contains(&NormalizedToken::Text("return".to_string())));
    assert!(tokens.contains(&NormalizedToken::Text(">".to_string())));
    assert!(tokens.contains(&NormalizedToken::Text("+".to_string())));
}

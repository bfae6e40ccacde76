use std::path::PathBuf;

use oxc::ast::AstType;
use slopgraph::extract::collect_functions_in_file as functions_of;
use slopgraph::near_duplicate::{window_matches, FunctionCandidate, MIN_AST_NODES};

/// The near-duplicate candidates of one file, read from its text.
fn collect_functions_in_file(abs: &PathBuf, display: &PathBuf, source: &str) -> Vec<FunctionCandidate> {
    functions_of(abs.to_str().unwrap(), display.to_str().unwrap(), source)
}

/// The share of matching token windows, as a fraction of the larger count.
fn token_window_confidence(a: &[u64], b: &[u64]) -> f64 {
    if a.is_empty() || b.is_empty() {
        return 0.0;
    }
    window_matches(&a.to_vec(), &b.to_vec()) as f64 / a.len().max(b.len()) as f64
}

#[test]
fn test_near_duplicate_positive_pair() {
    let code_a = r#"
    function processCustomerData(input: Record<string, unknown>): boolean {
        const isValid = input !== null && typeof input === "object";
        if (!isValid) {
            return false;
        }
        const id = input["customerId"];
        const score = Number(input["score"]);
        const flag = Boolean(input["active"]);
        if (score > 100 && flag) {
            const adjusted = score * 1.1;
            const result = adjusted > 150 ? true : false;
            return result;
        }
        return false;
    }
    "#;

    let code_b = r#"
    function processSupplierData(data: Record<string, unknown>): boolean {
        const isOk = data !== null && typeof data === "object";
        if (!isOk) {
            return false;
        }
        const key = data["supplierId"];
        const amount = Number(data["total"]);
        const status = Boolean(data["verified"]);
        if (amount > 200 && status) {
            const computed = amount * 1.25;
            const finalVal = computed > 250 ? true : false;
            return finalVal;
        }
        return false;
    }
    "#;

    let dummy_path = PathBuf::from("test.ts");
    let funcs_a = collect_functions_in_file(&dummy_path, &dummy_path, code_a);
    let funcs_b = collect_functions_in_file(&dummy_path, &dummy_path, code_b);

    assert_eq!(funcs_a.len(), 1);
    assert_eq!(funcs_b.len(), 1);

    let fa = &funcs_a[0];
    let fb = &funcs_b[0];

    assert!(fa.ast_kinds.len() >= MIN_AST_NODES);
    assert!(fb.ast_kinds.len() >= MIN_AST_NODES);
    assert_eq!(fa.ast_kinds, fb.ast_kinds);

    let conf = token_window_confidence(&fa.window_hashes, &fb.window_hashes);
    assert!(conf >= 0.7);
}

#[test]
fn test_ast_node_floor_under_20_rejected() {
    let code = r#"
    function tinyA(x: number): number {
        return x + 1;
    }
    function tinyB(y: number): number {
        return y + 2;
    }
    "#;
    let dummy_path = PathBuf::from("tiny.ts");
    let funcs = collect_functions_in_file(&dummy_path, &dummy_path, code);
    for f in &funcs {
        assert!(f.ast_kinds.len() < MIN_AST_NODES);
    }
}

#[test]
fn test_different_ast_structure_rejected() {
    // Same tokens/keywords roughly, but one uses `while` and one uses `if`
    let code_if = r#"
    function checkWithIf(arr: number[], limit: number): number {
        let sum = 0;
        let i = 0;
        const threshold = limit * 2;
        if (i < arr.length && sum < threshold) {
            sum = sum + arr[i];
            i = i + 1;
            const doubled = sum * 2;
            return doubled > 50 ? doubled : sum;
        }
        const defaultVal = limit + 10;
        return defaultVal * 2;
    }
    "#;

    let code_while = r#"
    function checkWithWhile(arr: number[], limit: number): number {
        let sum = 0;
        let i = 0;
        const threshold = limit * 2;
        while (i < arr.length && sum < threshold) {
            sum = sum + arr[i];
            i = i + 1;
            const doubled = sum * 2;
            return doubled > 50 ? doubled : sum;
        }
        const defaultVal = limit + 10;
        return defaultVal * 2;
    }
    "#;

    let dummy_path = PathBuf::from("test.ts");
    let funcs_if = collect_functions_in_file(&dummy_path, &dummy_path, code_if);
    let funcs_while = collect_functions_in_file(&dummy_path, &dummy_path, code_while);

    assert_eq!(funcs_if.len(), 1);
    assert_eq!(funcs_while.len(), 1);

    assert_ne!(funcs_if[0].ast_kinds, funcs_while[0].ast_kinds);
}

#[test]
fn test_same_named_functions_rejected_by_detect() {
    let code = r#"
    {
        function calculateTax(val: number): number {
            const isPositive = val > 0;
            if (!isPositive) {
                return 0;
            }
            const rate = 0.05;
            const base = val * rate;
            const total = base + 10;
            const rounded = Math.round(total);
            if (rounded > 100) {
                const extra = rounded * 1.1;
                return extra > 200 ? extra : rounded;
            }
            return 0;
        }
    }
    {
        function calculateTax(amount: number): number {
            const isPos = amount > 0;
            if (!isPos) {
                return 0;
            }
            const taxRate = 0.08;
            const initial = amount * taxRate;
            const sum = initial + 20;
            const finalVal = Math.round(sum);
            if (finalVal > 100) {
                const surcharge = finalVal * 1.2;
                return surcharge > 300 ? surcharge : finalVal;
            }
            return 0;
        }
    }
    "#;

    let abs = PathBuf::from("/project/src/same.ts");
    let funcs = collect_functions_in_file(&abs, &PathBuf::from("src/same.ts"), code);
    assert_eq!(funcs.len(), 2);
    assert_eq!(funcs[0].name, funcs[1].name); // Both named calculateTax

    // Verify distinct name check rejects them
    let is_distinct = funcs[0].name != funcs[1].name;
    assert!(!is_distinct);
}

#[test]
fn test_nested_functions_skipped_in_outer_ast() {
    let code = r#"
    function outerFunction(x: number): number {
        const a = x + 1;
        const inner = (y: number) => {
            const z = y * 2;
            const w = z + 3;
            return w > 10 ? w : 10;
        };
        const b = inner(a);
        if (b > 20) {
            const c = b * 1.5;
            return c;
        }
        return b;
    }
    "#;
    let dummy_path = PathBuf::from("nested.ts");
    let funcs = collect_functions_in_file(&dummy_path, &dummy_path, code);

    // outerFunction + inner arrow function = 2 functions
    assert_eq!(funcs.len(), 2);
    let outer = &funcs[0];
    // outerFunction's AST kinds contains ArrowFunctionExpression, but not its inner statements
    assert!(outer.ast_kinds.contains(&(AstType::ArrowFunctionExpression as u32)));
}


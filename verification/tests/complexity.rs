//! How many ways there are through a function.

use crap4rust::complexity::{analyze_str, AnalysisError};

/// Analyse `src` and return the complexity of its single function.
fn cc(src: &str) -> u32 {
    let mut fns = analyze_str(src).expect("source should parse");
    assert_eq!(fns.len(), 1, "expected exactly one function in fixture");
    fns.remove(0).complexity
}

#[test]
fn per_construct_complexity() {
    let cases = [
        (
            "empty fn",
            "fn f() {}",
            1,
        ),
        (
            "straight-line fn",
            "fn f() { let a = 1; let b = a + 2; println!(\"{b}\"); }",
            1,
        ),
        (
            "single if",
            "fn f(x: i32) { if x > 0 {} }",
            2,
        ),
        (
            "if / else-if chain, bare else does not count",
            "fn f(x: i32) { if x > 0 {} else if x < 0 {} else {} }",
            3,
        ),
        (
            "single wildcard arm: only `_` is exempt",
            "fn f(x: i32) { match x { _ => {} } }",
            1,
        ),
        (
            "match with `_`: two literal arms count, `_` exempt",
            "fn f(x: i32) { match x { 1 => {}, 2 => {}, _ => {} } }",
            3,
        ),
        (
            "bare-binding arm counts: only `_` is exempt",
            "fn f(x: i32) { match x { 1 => {}, other => { let _ = other; } } }",
            3,
        ),
        (
            "match without `_`: every arm counts",
            "fn f(x: i32) { match x { 1 => {}, 2 => {}, 3 => {} } }",
            4,
        ),
        (
            "unit-variant arms count: None no longer exempt",
            "fn f(o: Option<i32>) { match o { Some(v) => { let _ = v; }, None => {} } }",
            3,
        ),
        (
            "Ok/Err arms both count",
            "fn f(r: Result<i32, i32>) { match r { Ok(v) => { let _ = v; }, Err(e) => { let _ = e; } } }",
            3,
        ),
        (
            "bare unit-variant + bare binding both count; only `_` exempt",
            "fn f(x: E) { match x { Foo => {}, Bar => {}, other => { let _ = other; } } }",
            4,
        ),
        (
            "literal + bare binding both count; only `_` exempt",
            "fn f(n: i32) { match n { 0 => {}, rest => { let _ = rest; } } }",
            3,
        ),
        (
            "logical &&",
            "fn f(a: bool, b: bool) -> bool { a && b }",
            2,
        ),
        (
            "logical || and &&",
            "fn f(a: bool, b: bool, c: bool) -> bool { a && b || c }",
            3,
        ),
        (
            "bitwise & and | do not count",
            "fn f(a: u8, b: u8) -> u8 { a & b | a }",
            1,
        ),
        (
            "if let",
            "fn f(x: Option<i32>) { if let Some(v) = x { let _ = v; } }",
            2,
        ),
        (
            "let-else",
            "fn f(x: Option<i32>) { let Some(v) = x else { return; }; let _ = v; }",
            2,
        ),
        (
            "while",
            "fn f(mut x: i32) { while x > 0 { x -= 1; } }",
            2,
        ),
        (
            "while let",
            "fn f(mut it: std::vec::IntoIter<i32>) { while let Some(v) = it.next() { let _ = v; } }",
            2,
        ),
        (
            "for",
            "fn f() { for i in 0..10 { let _ = i; } }",
            2,
        ),
        (
            "loop",
            "fn f() { loop { break; } }",
            2,
        ),
        (
            "try operator ?",
            "fn f(x: Option<i32>) -> Option<i32> { let a = x?; let b = x?; Some(a + b) }",
            3,
        ),
        (
            "match-arm guard counted separately from its (binding) pattern",
            "fn f(x: i32) { match x { n if n > 0 => {}, _ => {} } }",
            3,
        ),
        (
            "guarded wildcard `_ if cond` = +1 (guard only; `_` +0)",
            "fn f(x: i32) { match x { _ if x > 0 => {}, _ => {} } }",
            2,
        ),
        (
            "two guarded wildcards = base 1 + two guards; `_` patterns +0",
            "fn f(x: i32) { match x { _ if x > 0 => {}, _ if x < 0 => {}, _ => {} } }",
            3,
        ),
        (
            "guarded refutable pattern = pattern +1 and guard +1",
            "fn f(x: Option<i32>) { match x { Some(y) if y > 0 => { let _ = y; }, _ => {} } }",
            3,
        ),
    ];

    for (name, src, expected) in cases {
        assert_eq!(cc(src), expected, "case: {name}");
    }
}

#[test]
fn closure_decisions_roll_up_into_enclosing_fn() {
    // base 1 + closure's `if` (1) + closure's `&&` (1) = 3, all on the parent.
    let src = r#"
        fn f(items: Vec<i32>) -> Vec<i32> {
            items
                .into_iter()
                .filter(|&n| if n > 0 && n < 10 { true } else { false })
                .collect()
        }
    "#;
    assert_eq!(cc(src), 3);
}

#[test]
fn nested_fn_is_its_own_function() {
    let src = r#"
        fn outer(x: i32) -> i32 {
            fn inner(y: i32) -> i32 {
                if y > 0 {
                    y
                } else {
                    -y
                }
            }
            if x > 0 {
                inner(x)
            } else {
                0
            }
        }
    "#;
    let fns = analyze_str(src).expect("parses");
    let outer = fns.iter().find(|f| f.name == "outer").expect("outer");
    let inner = fns.iter().find(|f| f.name == "inner").expect("inner");
    // Each has base 1 + its own single `if`; the nested fn does not inflate outer.
    assert_eq!(
        outer.complexity, 2,
        "outer should not absorb inner's decisions"
    );
    assert_eq!(inner.complexity, 2);
}

#[test]
fn impl_and_trait_methods_are_measured() {
    let src = r#"
        trait T {
            fn required(&self);
            fn provided(&self, x: i32) -> i32 {
                if x > 0 { x } else { -x }
            }
        }
        struct S;
        impl S {
            fn method(&self, x: i32) -> i32 {
                match x {
                    0 => 0,
                    _ => 1,
                }
            }
        }
    "#;
    let fns = analyze_str(src).expect("parses");
    // `required` has no body → not measured.
    assert!(fns.iter().all(|f| f.name != "required"));
    assert_eq!(
        fns.iter()
            .find(|f| f.name == "provided")
            .unwrap()
            .complexity,
        2
    );
    // match with one real arm + one catch-all → base 1 + 1 = 2.
    assert_eq!(
        fns.iter().find(|f| f.name == "method").unwrap().complexity,
        2
    );
}

#[test]
fn combined_realistic_functions() {
    // base 1
    // + `for` (1)
    // + `if x > 0 && x % 2 == 0` (if 1, && 1)
    // + `?` (1)
    // = 5
    let classify = r#"
        fn classify(xs: Vec<i32>) -> Result<i32, ()> {
            let mut total = 0;
            for x in xs {
                if x > 0 && x % 2 == 0 {
                    total += x;
                }
            }
            let doubled = check(total)?;
            Ok(doubled)
        }
    "#;
    assert_eq!(cc(classify), 5);

    // base 1
    // + match arms: `Some(0)` (1), `Some(n) if n > 0` (arm 1 + guard 1 = 2),
    //   `Some(_)` (1 — a tuple-struct pattern, NOT a catch-all), `_` (0 — catch-all) = 4
    // + `while let` (1)
    // = 6
    let handle = r#"
        fn handle(v: Option<i32>) -> i32 {
            let mut acc = match v {
                Some(0) => 0,
                Some(n) if n > 0 => n,
                Some(_) => -2,
                _ => -1,
            };
            let mut it = (0..acc.max(0)).into_iter();
            while let Some(step) = it.next() {
                acc += step;
            }
            acc
        }
    "#;
    assert_eq!(cc(handle), 6);
}

#[test]
fn spans_are_captured() {
    let src = "fn a() {}\n\nfn b() {\n    let _ = 1;\n}\n";
    let fns = analyze_str(src).expect("parses");
    let a = fns.iter().find(|f| f.name == "a").unwrap();
    let b = fns.iter().find(|f| f.name == "b").unwrap();
    assert_eq!((a.start_line, a.end_line), (1, 1));
    assert_eq!((b.start_line, b.end_line), (3, 5));
}

#[test]
fn test_code_is_not_measured() {
    let src = r#"
        fn product() {}
        #[cfg(test)]
        fn helper() {}
        #[test]
        fn checks() {}
        #[cfg(test)]
        trait Fixture {
            fn provided(&self) -> bool {
                true
            }
        }
        #[cfg(test)]
        mod tests {
            fn nested() {}
        }
        struct S;
        impl S {
            fn method(&self) {}
            #[cfg(test)]
            fn hook(&self) {}
        }
    "#;
    let names: Vec<String> = analyze_str(src)
        .expect("parses")
        .into_iter()
        .map(|f| f.name)
        .collect();
    assert_eq!(names, vec!["product", "method"]);
}

#[test]
fn inline_modules_are_kept_apart_from_the_name() {
    let src = "fn top() {}\nmod a { fn mid() {} mod b { fn deep() {} } }\n";
    let found = analyze_str(src).expect("parses");
    let named: Vec<(Vec<String>, String)> = found
        .into_iter()
        .map(|f| (f.modules, f.name))
        .collect();
    assert_eq!(
        named,
        vec![
            (vec![], "top".to_string()),
            (vec!["a".to_string()], "mid".to_string()),
            (vec!["a".to_string(), "b".to_string()], "deep".to_string()),
        ]
    );
}

#[test]
fn what_does_not_parse_is_an_error() {
    let err = analyze_str("fn {").unwrap_err();
    assert!(matches!(err, AnalysisError::Syntax(_)));
}

#[test]
fn a_macro_is_not_looked_into() {
    let src = "fn f() { check!(if a && b { c? } else { d }); }";
    assert_eq!(cc(src), 1);
}

#[test]
fn decisions_in_arguments_and_blocks_are_found() {
    // base 1 + `&&` in the argument + `?` in the block + `if` in the async block
    let src = "fn f() -> R { g(a && b); let x = { h()? }; async { if x {} }; }";
    assert_eq!(cc(src), 4);
}

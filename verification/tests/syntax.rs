//! The syntax of a source text.

use crap4rust::syntax::{
    assemble, parse_source, Clause, Definition, File, Head, Node, Step, SyntaxError,
};

fn parsed(source: &str) -> File {
    parse_source(source).expect("the source parses")
}

/// A node in short: a letter for what it is, and its children in brackets.
fn sketch(node: &Node) -> String {
    let head = match &node.head {
        Head::Item { definition, .. } => match definition {
            Definition::Module { name, .. } => format!("mod {name}"),
            Definition::Function { name, .. } => format!("fn {name}"),
            Definition::Signature => "sig".to_string(),
            Definition::Other => "item".to_string(),
        },
        Head::Attribute => "attr".to_string(),
        Head::Block => "block".to_string(),
        Head::Let { diverges } => format!("let {diverges}"),
        Head::If => "if".to_string(),
        Head::While => "while".to_string(),
        Head::ForLoop => "for".to_string(),
        Head::Loop => "loop".to_string(),
        Head::Match { arms } => format!("match {}", arms.len()),
        Head::Binary { operator } => format!("binary {operator:?}"),
        Head::Try => "try".to_string(),
    };
    format!("{head}{}", sketches(&node.children))
}

fn sketches(nodes: &[Node]) -> String {
    if nodes.is_empty() {
        String::new()
    } else {
        let inner: Vec<String> = nodes.iter().map(sketch).collect();
        format!("[{}]", inner.join(" "))
    }
}

#[test]
fn constructs_stand_where_they_are_nested() {
    let file = parsed("fn f(x: bool) { if x && g()? { loop {} } else { let Some(y) = z else { return }; } }");
    assert_eq!(
        sketches(&file.nodes),
        "[fn f[block[if[binary And[try] block[loop[block]] block[let true[block]]]]]]"
    );
}

#[test]
fn members_and_modules_are_items() {
    let file = parsed("mod m { trait T { fn a(&self); fn b(&self) {} } impl S { fn c() {} const D: u8 = 1; } }");
    assert_eq!(
        sketches(&file.nodes),
        "[mod m[item[sig fn b[block]] item[fn c[block] item]]]"
    );
}

#[test]
fn positions_are_those_of_the_text() {
    let file = parsed("\n  mod tests;\n#[inline]\nfn f() {\n}\n");
    match &file.nodes[0].head {
        Head::Item {
            definition:
                Definition::Module {
                    name,
                    line,
                    column,
                    inline,
                },
            ..
        } => assert_eq!((name.as_str(), *line, *column, *inline), ("tests", 2, 6, false)),
        other => panic!("{other:?}"),
    }
    match &file.nodes[1].head {
        Head::Item {
            definition:
                Definition::Function {
                    name,
                    start_line,
                    end_line,
                },
            ..
        } => assert_eq!((name.as_str(), *start_line, *end_line), ("f", 3, 5)),
        other => panic!("{other:?}"),
    }
}

#[test]
fn attributes_are_read_term_by_term() {
    let file = parsed("#![cfg(test)]\n#[cfg_attr(unix, path = \"a.rs\",)] #[doc] mod m;\n");
    assert!(matches!(
        &file.attrs[0],
        Clause::List { name: Some(name), terms: Some(terms), trailing: false, .. }
            if name == "cfg" && terms.len() == 1
    ));
    match &file.nodes[1].head {
        Head::Item { attrs, .. } => {
            match &attrs[0] {
                Clause::List {
                    name,
                    terms: Some(terms),
                    trailing,
                    tokens,
                } => {
                    assert_eq!(name.as_deref(), Some("cfg_attr"));
                    assert!(*trailing);
                    assert_eq!(tokens, "unix , path = \"a.rs\" ,");
                    assert!(matches!(&terms[0], Clause::Word { name: Some(name) } if name == "unix"));
                    assert!(matches!(
                        &terms[1],
                        Clause::Value { name: Some(name), text: Some(text) }
                            if name == "path" && text == "a.rs"
                    ));
                }
                other => panic!("{other:?}"),
            }
            assert!(matches!(&attrs[1], Clause::Word { name: Some(name) } if name == "doc"));
        }
        other => panic!("{other:?}"),
    }
}

#[test]
fn arguments_that_are_no_terms_have_none() {
    let file = parsed("#[a(b c)] #[d::e] mod m;\n");
    match &file.nodes[0].head {
        Head::Item { attrs, .. } => {
            assert!(matches!(&attrs[0], Clause::List { terms: None, .. }));
            assert!(matches!(&attrs[1], Clause::Word { name: None }));
        }
        other => panic!("{other:?}"),
    }
}

#[test]
fn arms_tell_wildcards_and_guards() {
    let file = parsed("fn f() { match x { 0 => 1, _ if y => 2, _ => 3 } }");
    match &file.nodes[0].children[0].children[0].head {
        Head::Match { arms } => {
            let told: Vec<(bool, bool)> = arms.iter().map(|a| (a.wildcard, a.guarded)).collect();
            assert_eq!(told, vec![(false, false), (true, true), (true, false)]);
        }
        other => panic!("{other:?}"),
    }
}

#[test]
fn what_is_no_source_has_no_syntax() {
    match parse_source("fn f() }") {
        Err(SyntaxError { message }) => {
            assert_eq!(message, "cannot parse string into token stream");
        }
        other => panic!("{other:?}"),
    }
    assert!(parse_source("fn {").is_err());
    assert!(parse_source("").expect("parses").nodes.is_empty());
}

#[test]
fn steps_make_a_tree() {
    let nodes = assemble(vec![
        Step::Enter { head: Head::If },
        Step::Enter { head: Head::Block },
        Step::Leave,
        Step::Enter { head: Head::Try },
        Step::Leave,
        Step::Leave,
        Step::Enter { head: Head::Loop },
        Step::Leave,
    ]);
    assert_eq!(sketches(&nodes), "[if[block try] loop]");
}

#[test]
fn what_is_not_left_is_not_complete() {
    let nodes = assemble(vec![
        Step::Leave,
        Step::Enter { head: Head::Try },
        Step::Leave,
        Step::Enter { head: Head::If },
    ]);
    assert_eq!(sketches(&nodes), "[try]");
}

#[test]
fn what_was_parsed_before_makes_no_difference() {
    let source = "\n\nfn f(x: i32) -> bool {\n    matches(x, [0; 3]);\n    match x {\n        -1 | -2..=-0 => t.0.1,\n        _ => false,\n    }\n}\n";
    let first = format!("{:?}", parsed(source));
    assert!(parse_source("fn g( {").is_err());
    assert!(parse_source("mod a;\nmod b;\n").is_ok());
    assert_eq!(format!("{:?}", parsed(source)), first);
    match &parsed(source).nodes[0].head {
        Head::Item {
            definition:
                Definition::Function {
                    start_line,
                    end_line,
                    ..
                },
            ..
        } => assert_eq!((*start_line, *end_line), (3, 9)),
        other => panic!("{other:?}"),
    }
}

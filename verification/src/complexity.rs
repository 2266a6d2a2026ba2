//! Cyclomatic complexity of the functions of a source file.
//!
//! A function counts one, and one more for every decision in its body. Only
//! the surface syntax is read: what a macro expands to is not seen, and an
//! `.await` is no decision.

use vstd::prelude::*;

use crate::product;
use crate::syntax::{
    ClauseView, Definition, DefinitionView, File, FileView, Head, HeadView, MatchArm, Node, NodeView,
    Operator, SyntaxError,
};
use crate::text;

verus! {

/// The complexity and the lines of one function.
#[derive(Debug, PartialEq, Eq)]
pub struct FunctionComplexity {
    /// The name of the function.
    pub name: String,
    /// The names of the inline modules around it, the outermost first.
    pub modules: Vec<String>,
    /// One, and one more for every decision.
    pub complexity: u32,
    /// The line that the function starts on, counted from one.
    pub start_line: usize,
    /// The line that it ends on.
    pub end_line: usize,
}

/// What a `FunctionComplexity` says.
#[verifier::ext_equal]
pub struct FunctionView {
    /// See `FunctionComplexity::name`.
    pub name: Seq<char>,
    /// See `FunctionComplexity::modules`.
    pub modules: Seq<Seq<char>>,
    /// See `FunctionComplexity::complexity`.
    pub complexity: nat,
    /// See `FunctionComplexity::start_line`.
    pub start_line: usize,
    /// See `FunctionComplexity::end_line`.
    pub end_line: usize,
}

impl View for FunctionComplexity {
    type V = FunctionView;

    open spec fn view(&self) -> FunctionView {
        FunctionView {
            name: self.name@,
            modules: text::views(self.modules@),
            complexity: self.complexity as nat,
            start_line: self.start_line,
            end_line: self.end_line,
        }
    }
}

/// What several `FunctionComplexity`s say.
pub open spec fn functions_view(functions: Seq<FunctionComplexity>) -> Seq<FunctionView> {
    functions.map_values(|function: FunctionComplexity| function@)
}

/// The decisions of one arm: its pattern, unless it is `_`, and its guard.
pub open spec fn arm_decisions(arm: MatchArm) -> nat {
    (if arm.wildcard {
        0nat
    } else {
        1nat
    }) + (if arm.guarded {
        1nat
    } else {
        0nat
    })
}

/// The decisions of the arms of a `match`.
pub open spec fn arms_decisions(arms: Seq<MatchArm>) -> nat
    decreases arms.len(),
{
    if arms.len() == 0 {
        0
    } else {
        arms_decisions(arms.drop_last()) + arm_decisions(arms.last())
    }
}

/// The decisions that a construct makes itself: one for an `if`, a loop, a `?`,
/// an `&&` or `||`, and a `let` with a diverging `else`; those of its arms for
/// a `match`; none for anything else.
pub open spec fn own_decisions(head: HeadView) -> nat {
    match head {
        HeadView::If | HeadView::While | HeadView::ForLoop | HeadView::Loop | HeadView::Try => 1,
        HeadView::Match { arms } => arms_decisions(arms),
        HeadView::Binary { operator } => match operator {
            Operator::And | Operator::Or => 1,
            Operator::Other => 0,
        },
        HeadView::Let { diverges } => if diverges {
            1
        } else {
            0
        },
        HeadView::Item { .. } | HeadView::Attribute | HeadView::Block => 0,
    }
}

/// The decisions in a construct: its own and those inside it. An item has none:
/// what is nested in it is a scope of its own.
pub open spec fn node_decisions(node: NodeView) -> nat
    decreases node,
{
    if node.head is Item {
        0
    } else {
        own_decisions(node.head) + decisions(node.children)
    }
}

/// The decisions in several constructs.
pub open spec fn decisions(nodes: Seq<NodeView>) -> nat
    decreases nodes,
{
    if nodes.len() == 0 {
        0
    } else {
        decisions(nodes.drop_last()) + node_decisions(nodes.last())
    }
}

/// The complexity of a function, from what stands inside its item: one, and the
/// decisions of its body, which is the last of it.
pub open spec fn body_complexity(children: Seq<NodeView>) -> nat {
    1 + (if children.len() == 0 {
        0
    } else {
        node_decisions(children.last())
    })
}

/// The functions that a construct defines, itself and inside it, in source
/// order, given the names of the inline modules around it. What no normal build
/// compiles is passed over, and so is a method without a body.
pub open spec fn node_functions(node: NodeView, modules: Seq<Seq<char>>) -> Seq<FunctionView>
    decreases node,
{
    match node.head {
        HeadView::Item { attrs, definition } => if product::test_only(attrs) {
            Seq::empty()
        } else {
            match definition {
                DefinitionView::Module { name, .. } => functions(node.children, modules.push(name)),
                DefinitionView::Function { name, start_line, end_line } => seq![
                    FunctionView {
                        name,
                        modules,
                        complexity: body_complexity(node.children),
                        start_line,
                        end_line,
                    },
                ] + functions(node.children, modules),
                DefinitionView::Signature => Seq::empty(),
                DefinitionView::Other => functions(node.children, modules),
            }
        },
        _ => functions(node.children, modules),
    }
}

/// The functions that several constructs define.
pub open spec fn functions(nodes: Seq<NodeView>, modules: Seq<Seq<char>>) -> Seq<FunctionView>
    decreases nodes,
{
    if nodes.len() == 0 {
        Seq::empty()
    } else {
        functions(nodes.drop_last(), modules) + node_functions(nodes.last(), modules)
    }
}

/// The functions of a file.
pub open spec fn file_functions(file: FileView) -> Seq<FunctionView> {
    functions(file.nodes, Seq::empty())
}

/// Whether every complexity fits the type that holds it.
pub open spec fn measurable(functions: Seq<FunctionView>) -> bool {
    forall|i: int| 0 <= i < functions.len() ==> (#[trigger] functions[i]).complexity <= u32::MAX
}

/// More constructs do not have fewer decisions.
proof fn lemma_decisions_grow(nodes: Seq<NodeView>, n: int)
    requires
        0 <= n <= nodes.len(),
    ensures
        decisions(nodes.take(n)) <= decisions(nodes),
    decreases nodes.len(),
{
    if n < nodes.len() {
        assert(nodes.drop_last().take(n) == nodes.take(n));
        lemma_decisions_grow(nodes.drop_last(), n);
    } else {
        assert(nodes.take(n) == nodes);
    }
}

/// More arms do not have fewer decisions.
proof fn lemma_arms_grow(arms: Seq<MatchArm>, n: int)
    requires
        0 <= n <= arms.len(),
    ensures
        arms_decisions(arms.take(n)) <= arms_decisions(arms),
    decreases arms.len(),
{
    if n < arms.len() {
        assert(arms.drop_last().take(n) == arms.take(n));
        lemma_arms_grow(arms.drop_last(), n);
    } else {
        assert(arms.take(n) == arms);
    }
}

/// Whether `out` is the number `n`, or nothing where it does not fit.
pub open spec fn counts(out: Option<u32>, n: nat) -> bool {
    match out {
        Some(count) => count == n,
        None => n > u32::MAX,
    }
}

/// Adds two counts.
fn sum(a: Option<u32>, b: Option<u32>, Ghost(x): Ghost<nat>, Ghost(y): Ghost<nat>) -> (out: Option<
    u32,
>)
    requires
        counts(a, x),
        counts(b, y),
    ensures
        counts(out, x + y),
{
    match (a, b) {
        (Some(a), Some(b)) => a.checked_add(b),
        _ => None,
    }
}

/// Counts the decisions of the arms of a `match`.
fn count_arms(arms: &Vec<MatchArm>) -> (out: Option<u32>)
    ensures
        counts(out, arms_decisions(arms@)),
{
    let mut total: u32 = 0;
    let mut i: usize = 0;
    while i < arms.len()
        invariant
            i <= arms.len(),
            total == arms_decisions(arms@.take(i as int)),
        decreases arms.len() - i,
    {
        let arm = arms[i];
        assert(arms@.take(i + 1).drop_last() == arms@.take(i as int));
        let pattern: u32 = if arm.wildcard {
            0
        } else {
            1
        };
        let guard: u32 = if arm.guarded {
            1
        } else {
            0
        };
        match total.checked_add(pattern + guard) {
            Some(more) => {
                total = more;
            },
            None => {
                proof {
                    lemma_arms_grow(arms@, i + 1);
                }
                return None;
            },
        }
        i += 1;
    }
    assert(arms@.take(i as int) == arms@);
    Some(total)
}

/// Counts the decisions that a construct makes itself.
fn count_own(head: &Head) -> (out: Option<u32>)
    ensures
        counts(out, own_decisions(head@)),
{
    match head {
        Head::If | Head::While | Head::ForLoop | Head::Loop | Head::Try => Some(1),
        Head::Match { arms } => count_arms(arms),
        Head::Binary { operator } => match operator {
            Operator::And | Operator::Or => Some(1),
            Operator::Other => Some(0),
        },
        Head::Let { diverges } => if *diverges {
            Some(1)
        } else {
            Some(0)
        },
        Head::Item { .. } | Head::Attribute | Head::Block => Some(0),
    }
}

/// Counts the decisions in a construct.
fn count_node(node: &Node) -> (out: Option<u32>)
    ensures
        counts(out, node_decisions(node@)),
    decreases node,
{
    match &node.head {
        Head::Item { .. } => Some(0),
        _ => {
            let own = count_own(&node.head);
            let inside = count_nodes(&node.children);
            assert(node@.children == crate::syntax::nodes_view(node.children@));
            sum(
                own,
                inside,
                Ghost(own_decisions(node@.head)),
                Ghost(decisions(node@.children)),
            )
        },
    }
}

/// Counts the decisions in several constructs.
fn count_nodes(nodes: &Vec<Node>) -> (out: Option<u32>)
    ensures
        counts(out, decisions(crate::syntax::nodes_view(nodes@))),
    decreases nodes,
{
    let ghost views = crate::syntax::nodes_view(nodes@);
    let mut total: u32 = 0;
    let mut i: usize = 0;
    while i < nodes.len()
        invariant
            i <= nodes.len(),
            views == crate::syntax::nodes_view(nodes@),
            total == decisions(views.take(i as int)),
        decreases nodes.len() - i,
    {
        assert(views.take(i + 1).drop_last() == views.take(i as int));
        assert(views[i as int] == nodes@[i as int]@);
        let inside = count_node(&nodes[i]);
        match sum(
            Some(total),
            inside,
            Ghost(decisions(views.take(i as int))),
            Ghost(node_decisions(views[i as int])),
        ) {
            Some(more) => {
                total = more;
            },
            None => {
                proof {
                    lemma_decisions_grow(views, i + 1);
                }
                return None;
            },
        }
        i += 1;
    }
    assert(views.take(i as int) == views);
    Some(total)
}

/// The complexity of a function, from what stands inside its item.
fn complexity_of_body(children: &Vec<Node>) -> (out: Option<u32>)
    ensures
        counts(out, body_complexity(crate::syntax::nodes_view(children@))),
{
    let ghost views = crate::syntax::nodes_view(children@);
    if children.len() == 0 {
        return Some(1);
    }
    let last: usize = children.len() - 1;
    assert(views.last() == children@[last as int]@);
    let inside = count_node(&children[last]);
    sum(Some(1), inside, Ghost(1nat), Ghost(node_decisions(views.last())))
}

/// What a list of measured functions may be extended to.
spec fn extended(
    before: Seq<FunctionComplexity>,
    after: Seq<FunctionComplexity>,
    found: Seq<FunctionView>,
    complete: bool,
) -> bool {
    if complete {
        functions_view(after) == functions_view(before) + found
    } else {
        !measurable(found)
    }
}

/// Measures the functions of a construct, and tells whether every complexity
/// fits.
fn collect_node(node: &Node, modules: &Vec<String>, out: &mut Vec<FunctionComplexity>) -> (complete:
    bool)
    ensures
        extended(
            old(out)@,
            final(out)@,
            node_functions(node@, text::views(modules@)),
            complete,
        ),
    decreases node,
{
    let ghost children = crate::syntax::nodes_view(node.children@);
    assert(node@.children == children);
    match &node.head {
        Head::Item { attrs, definition } => {
            if product::is_test_only(attrs) {
                assert(functions_view(out@) + Seq::<FunctionView>::empty() == functions_view(out@));
                return true;
            }
            match definition {
                Definition::Module { name, .. } => {
                    let mut inner = text::copies(modules);
                    inner.push(name.clone());
                    assert(text::views(inner@) == text::views(modules@).push(name@));
                    collect(&node.children, &inner, out)
                },
                Definition::Function { name, start_line, end_line } => {
                    let ghost function = FunctionView {
                        name: name@,
                        modules: text::views(modules@),
                        complexity: body_complexity(children),
                        start_line: *start_line,
                        end_line: *end_line,
                    };
                    let ghost rest = functions(children, text::views(modules@));
                    let ghost before = out@;
                    assert((seq![function] + rest)[0] == function);
                    match complexity_of_body(&node.children) {
                        Some(complexity) => {
                            out.push(
                                FunctionComplexity {
                                    name: name.clone(),
                                    modules: text::copies(modules),
                                    complexity,
                                    start_line: *start_line,
                                    end_line: *end_line,
                                },
                            );
                            assert(functions_view(out@) == functions_view(before).push(function));
                            let complete = collect(&node.children, modules, out);
                            proof {
                                if complete {
                                    assert(functions_view(before).push(function) + rest
                                        == functions_view(before) + (seq![function] + rest));
                                } else {
                                    let i = choose|i: int|
                                        0 <= i < rest.len() && (#[trigger] rest[i]).complexity
                                            > u32::MAX;
                                    assert((seq![function] + rest)[i + 1] == rest[i]);
                                }
                            }
                            complete
                        },
                        None => false,
                    }
                },
                Definition::Signature => {
                    assert(functions_view(out@) + Seq::<FunctionView>::empty() == functions_view(
                        out@,
                    ));
                    true
                },
                Definition::Other => collect(&node.children, modules, out),
            }
        },
        _ => collect(&node.children, modules, out),
    }
}

/// Measures the functions of several constructs, and tells whether every
/// complexity fits.
fn collect(nodes: &Vec<Node>, modules: &Vec<String>, out: &mut Vec<FunctionComplexity>) -> (complete:
    bool)
    ensures
        extended(
            old(out)@,
            final(out)@,
            functions(crate::syntax::nodes_view(nodes@), text::views(modules@)),
            complete,
        ),
    decreases nodes,
{
    let ghost views = crate::syntax::nodes_view(nodes@);
    let ghost path = text::views(modules@);
    let ghost start = functions_view(out@);
    let mut i: usize = 0;
    assert(start + Seq::<FunctionView>::empty() == start);
    while i < nodes.len()
        invariant
            i <= nodes.len(),
            views == crate::syntax::nodes_view(nodes@),
            path == text::views(modules@),
            start == functions_view(old(out)@),
            functions_view(out@) == start + functions(views.take(i as int), path),
        decreases nodes.len() - i,
    {
        let ghost seen = functions(views.take(i as int), path);
        let ghost more = node_functions(views[i as int], path);
        assert(views.take(i + 1).drop_last() == views.take(i as int));
        assert(views[i as int] == nodes@[i as int]@);
        if !collect_node(&nodes[i], modules, out) {
            proof {
                let k = choose|k: int|
                    0 <= k < more.len() && (#[trigger] more[k]).complexity > u32::MAX;
                lemma_found_stays(views, path, i as int, k);
            }
            return false;
        }
        assert((start + seen) + more == start + (seen + more));
        i += 1;
    }
    assert(views.take(i as int) == views);
    true
}

/// What one construct defines is among what all of them define.
proof fn lemma_found_stays(nodes: Seq<NodeView>, modules: Seq<Seq<char>>, i: int, k: int)
    requires
        0 <= i < nodes.len(),
        0 <= k < node_functions(nodes[i], modules).len(),
    ensures
        exists|j: int|
            0 <= j < functions(nodes, modules).len() && #[trigger] functions(nodes, modules)[j]
                == node_functions(nodes[i], modules)[k],
    decreases nodes.len(),
{
    let rest = functions(nodes.drop_last(), modules);
    let last = node_functions(nodes.last(), modules);
    let all = functions(nodes, modules);
    assert(all == rest + last);
    if i < nodes.len() - 1 {
        assert(nodes.drop_last()[i] == nodes[i]);
        lemma_found_stays(nodes.drop_last(), modules, i, k);
        let j = choose|j: int|
            0 <= j < rest.len() && #[trigger] rest[j] == node_functions(nodes[i], modules)[k];
        assert(all[j] == rest[j]);
    } else {
        assert(all[rest.len() + k] == last[k]);
    }
}

/// Measures the functions of a file: free functions, methods, methods that a
/// trait provides, and functions nested in others, each for itself. What a
/// closure decides counts for the function around it.
pub fn analyze_file(file: &File) -> (out: Vec<FunctionComplexity>)
    requires
        measurable(file_functions(file@)),
    ensures
        functions_view(out@) == file_functions(file@),
{
    let mut out: Vec<FunctionComplexity> = Vec::new();
    let modules: Vec<String> = Vec::new();
    assert(text::views(modules@) == Seq::<Seq<char>>::empty());
    let complete = collect(&file.nodes, &modules, &mut out);
    assert(functions_view(Seq::<FunctionComplexity>::empty()) + file_functions(file@)
        == file_functions(file@));
    out
}

/// Whether every complexity of a file fits the type that holds it.
pub fn is_measurable(file: &File) -> (r: bool)
    ensures
        r == measurable(file_functions(file@)),
{
    let mut out: Vec<FunctionComplexity> = Vec::new();
    let modules: Vec<String> = Vec::new();
    assert(text::views(modules@) == Seq::<Seq<char>>::empty());
    let complete = collect(&file.nodes, &modules, &mut out);
    proof {
        if complete {
            assert(functions_view(Seq::<FunctionComplexity>::empty()) + file_functions(file@)
                == file_functions(file@));
            assert forall|i: int| 0 <= i < file_functions(file@).len() implies (
            #[trigger] file_functions(file@)[i]).complexity <= u32::MAX by {
                assert(functions_view(out@)[i] == out@[i]@);
            }
        }
    }
    complete
}

/// Why a source text could not be measured.
#[derive(Debug)]
pub enum AnalysisError {
    /// It has no syntax.
    Syntax(SyntaxError),
    /// It has a function whose complexity does not fit the type that holds it.
    TooComplex,
}

/// Parses a source text and measures its functions.
pub fn analyze_str(source: &str) -> (out: Result<Vec<FunctionComplexity>, AnalysisError>)
    requires
        source@.len() <= crate::syntax::LONGEST_SOURCE,
    ensures
        match crate::syntax::syntax_of(source@) {
            Err(said) => out matches Err(AnalysisError::Syntax(error)) && error.message@ == said,
            Ok(file) => if measurable(file_functions(file)) {
                out matches Ok(found) && functions_view(found@) == file_functions(file)
            } else {
                out == Err::<Vec<FunctionComplexity>, AnalysisError>(AnalysisError::TooComplex)
            },
        },
{
    match crate::syntax::parse_source(source) {
        Ok(file) => {
            if is_measurable(&file) {
                Ok(analyze_file(&file))
            } else {
                Err(AnalysisError::TooComplex)
            }
        },
        Err(error) => Err(AnalysisError::Syntax(error)),
    }
}

/// The decisions of a row of constructs are those of its two parts.
proof fn lemma_decisions_add(a: Seq<NodeView>, b: Seq<NodeView>)
    ensures
        decisions(a + b) == decisions(a) + decisions(b),
    decreases b.len(),
{
    if b.len() == 0 {
        assert(a + b == a);
    } else {
        assert((a + b).drop_last() == a + b.drop_last());
        lemma_decisions_add(a, b.drop_last());
    }
}

/// An item nested in a function adds nothing to it, wherever it stands: what is
/// inside is measured for itself.
pub proof fn law_a_nested_item_adds_nothing(
    before: Seq<NodeView>,
    item: NodeView,
    after: Seq<NodeView>,
)
    requires
        item.head is Item,
    ensures
        decisions(before.push(item) + after) == decisions(before + after),
{
    lemma_decisions_add(before.push(item), after);
    lemma_decisions_add(before, after);
    assert(before.push(item).drop_last() == before);
    assert(node_decisions(item) == 0);
    assert(decisions(before.push(item)) == decisions(before) + node_decisions(item));
}

/// Every function counts at least one.
pub proof fn law_every_function_counts_one(nodes: Seq<NodeView>, modules: Seq<Seq<char>>, i: int)
    requires
        0 <= i < functions(nodes, modules).len(),
    ensures
        functions(nodes, modules)[i].complexity >= 1,
    decreases nodes, 0int,
{
    let rest = functions(nodes.drop_last(), modules);
    let last = node_functions(nodes.last(), modules);
    assert(functions(nodes, modules) == rest + last);
    if i < rest.len() {
        law_every_function_counts_one(nodes.drop_last(), modules, i);
    } else {
        lemma_node_functions_count_one(nodes.last(), modules, i - rest.len());
    }
}

proof fn lemma_node_functions_count_one(node: NodeView, modules: Seq<Seq<char>>, i: int)
    requires
        0 <= i < node_functions(node, modules).len(),
    ensures
        node_functions(node, modules)[i].complexity >= 1,
    decreases node, 1int,
{
    match node.head {
        HeadView::Item { attrs, definition } => {
            match definition {
                DefinitionView::Module { name, .. } => {
                    law_every_function_counts_one(node.children, modules.push(name), i);
                },
                DefinitionView::Function { .. } => {
                    if i > 0 {
                        law_every_function_counts_one(node.children, modules, i - 1);
                    }
                },
                DefinitionView::Signature => {},
                DefinitionView::Other => {
                    law_every_function_counts_one(node.children, modules, i);
                },
            }
        },
        _ => {
            law_every_function_counts_one(node.children, modules, i);
        },
    }
}

/// What no normal build compiles is not measured, with everything inside it:
/// the functions are those of the rest.
pub proof fn law_test_code_is_not_measured(
    before: Seq<NodeView>,
    item: NodeView,
    after: Seq<NodeView>,
    modules: Seq<Seq<char>>,
)
    requires
        product::test_only_item(item),
    ensures
        functions(before.push(item) + after, modules) == functions(before + after, modules),
    decreases after.len(),
{
    if after.len() == 0 {
        assert(before.push(item) + after == before.push(item));
        assert(before + after == before);
        assert(before.push(item).drop_last() == before);
        assert(node_functions(item, modules) == Seq::<FunctionView>::empty());
        assert(functions(before.push(item), modules) == functions(before, modules)
            + node_functions(item, modules));
        assert(functions(before, modules) + Seq::<FunctionView>::empty() == functions(
            before,
            modules,
        ));
    } else {
        assert((before.push(item) + after).drop_last() == before.push(item) + after.drop_last());
        assert((before + after).drop_last() == before + after.drop_last());
        law_test_code_is_not_measured(before, item, after.drop_last(), modules);
        assert((before.push(item) + after).last() == after.last());
        assert((before + after).last() == after.last());
    }
}

proof fn lemma_decisions_of_one(node: NodeView)
    ensures
        decisions(seq![node]) == node_decisions(node),
{
    assert(seq![node].drop_last() == Seq::<NodeView>::empty());
    assert(decisions(seq![node].drop_last()) == 0);
}

/// A construct among others adds its own decisions to theirs, wherever it stands.
proof fn lemma_decisions_around(before: Seq<NodeView>, node: NodeView, after: Seq<NodeView>)
    ensures
        decisions(before + seq![node] + after) == decisions(before) + node_decisions(node)
            + decisions(after),
{
    lemma_decisions_add(before + seq![node], after);
    lemma_decisions_add(before, seq![node]);
    lemma_decisions_of_one(node);
}

/// Whether a way from a construct down to one inside it, by positions among
/// children, leads past no item: neither the construct is one, nor what is reached,
/// nor anything between.
pub open spec fn reaches(node: NodeView, way: Seq<int>) -> bool
    decreases way.len(),
{
    &&& !(node.head is Item)
    &&& way.len() > 0 ==> 0 <= way[0] < node.children.len() && reaches(
        node.children[way[0]],
        way.skip(1),
    )
}

/// The construct that a way leads to.
pub open spec fn reached(node: NodeView, way: Seq<int>) -> NodeView
    decreases way.len(),
{
    if way.len() == 0 {
        node
    } else {
        reached(node.children[way[0]], way.skip(1))
    }
}

/// A construct with another one put in among the children of what a way leads to.
pub open spec fn with_one_more(node: NodeView, way: Seq<int>, at: int, more: NodeView) -> NodeView
    decreases way.len(),
{
    if way.len() == 0 {
        NodeView { head: node.head, children: node.children.insert(at, more) }
    } else {
        NodeView {
            head: node.head,
            children: node.children.update(
                way[0],
                with_one_more(node.children[way[0]], way.skip(1), at, more),
            ),
        }
    }
}

/// Every construct counts, however deep it stands and whatever stands around it:
/// one more of them, with no item between, adds its decisions and nothing else. So
/// a construct has no fewer decisions than anything inside it that it reaches.
pub proof fn law_every_construct_inside_counts(
    node: NodeView,
    way: Seq<int>,
    at: int,
    more: NodeView,
)
    requires
        reaches(node, way),
        0 <= at <= reached(node, way).children.len(),
    ensures
        node_decisions(with_one_more(node, way, at, more)) == node_decisions(node)
            + node_decisions(more),
        node_decisions(node) >= node_decisions(reached(node, way)),
    decreases way.len(),
{
    let children = node.children;
    if way.len() == 0 {
        let before = children.take(at);
        let after = children.skip(at);
        assert(children.insert(at, more) == before + seq![more] + after);
        assert(children == before + after);
        lemma_decisions_around(before, more, after);
        lemma_decisions_add(before, after);
    } else {
        let i = way[0];
        let old_child = children[i];
        let new_child = with_one_more(old_child, way.skip(1), at, more);
        law_every_construct_inside_counts(old_child, way.skip(1), at, more);
        let before = children.take(i);
        let after = children.skip(i + 1);
        assert(children.update(i, new_child) == before + seq![new_child] + after);
        assert(children == before + seq![old_child] + after);
        lemma_decisions_around(before, new_child, after);
        lemma_decisions_around(before, old_child, after);
    }
}

/// A construct that holds nothing, as far as the decisions in it go.
pub open spec fn bare(head: HeadView) -> NodeView {
    NodeView { head, children: Seq::empty() }
}

/// What is a decision: an `if`, a loop of any kind, a `?`, an `&&` or `||`, and a
/// `let` that may diverge are one each. Any other operator, a plain `let`, a block,
/// an attribute and an item are none.
pub proof fn law_what_a_decision_is(head: HeadView)
    ensures
        head is If || head is While || head is ForLoop || head is Loop || head is Try
            ==> node_decisions(bare(head)) == 1,
        head matches HeadView::Binary { operator } ==> (node_decisions(bare(head)) == 1
            <==> operator is And || operator is Or),
        head matches HeadView::Let { diverges } ==> (node_decisions(bare(head)) == 1 <==> diverges),
        !(head is Match) ==> node_decisions(bare(head)) <= 1,
        head is Block || head is Attribute || head is Item ==> node_decisions(bare(head)) == 0,
{
}

/// The arms of a `match` count each by itself, wherever it stands: one for a
/// pattern that is not `_`, and one more for a guard.
pub proof fn law_every_arm_counts(before: Seq<MatchArm>, arm: MatchArm, after: Seq<MatchArm>)
    ensures
        node_decisions(bare(HeadView::Match { arms: Seq::empty() })) == 0,
        node_decisions(bare(HeadView::Match { arms: before + seq![arm] + after }))
            == node_decisions(bare(HeadView::Match { arms: before + after })) + (if arm.wildcard {
            0int
        } else {
            1int
        }) + (if arm.guarded {
            1int
        } else {
            0int
        }),
    decreases after.len(),
{
    let with = before + seq![arm] + after;
    let without = before + after;
    if after.len() == 0 {
        assert(with.drop_last() == before);
        assert(with.last() == arm);
        assert(without == before);
    } else {
        law_every_arm_counts(before, arm, after.drop_last());
        assert(with.drop_last() == before + seq![arm] + after.drop_last());
        assert(without.drop_last() == before + after.drop_last());
        assert(with.last() == after.last());
        assert(without.last() == after.last());
    }
}

/// The functions of two rows of constructs are those of the one, and then those of
/// the other.
pub proof fn law_functions_come_in_source_order(
    a: Seq<NodeView>,
    b: Seq<NodeView>,
    modules: Seq<Seq<char>>,
)
    ensures
        functions(a + b, modules) == functions(a, modules) + functions(b, modules),
        functions(Seq::<NodeView>::empty(), modules) == Seq::<FunctionView>::empty(),
    decreases b.len(),
{
    if b.len() == 0 {
        assert(a + b == a);
        assert(functions(a, modules) + functions(b, modules) == functions(a, modules));
    } else {
        assert((a + b).drop_last() == a + b.drop_last());
        assert((a + b).last() == b.last());
        law_functions_come_in_source_order(a, b.drop_last(), modules);
        assert((functions(a, modules) + functions(b.drop_last(), modules)) + node_functions(
            b.last(),
            modules,
        ) == functions(a, modules) + (functions(b.drop_last(), modules) + node_functions(
            b.last(),
            modules,
        )));
    }
}

/// A function that a normal build compiles is measured: by its name, its lines and
/// the modules around it, and its complexity is one and the decisions of its body,
/// the last of what stands inside. What is nested in it follows.
pub proof fn law_a_function_is_measured(
    node: NodeView,
    name: Seq<char>,
    start_line: usize,
    end_line: usize,
    attrs: Seq<ClauseView>,
    modules: Seq<Seq<char>>,
)
    requires
        node.head == (HeadView::Item {
            attrs,
            definition: DefinitionView::Function { name, start_line, end_line },
        }),
        forall|i: int| 0 <= i < attrs.len() ==> !product::marks_test(#[trigger] attrs[i]),
    ensures
        ({
            let found = functions(seq![node], modules);
            &&& found.len() == 1 + functions(node.children, modules).len()
            &&& found[0].name == name
            &&& found[0].modules == modules
            &&& found[0].start_line == start_line
            &&& found[0].end_line == end_line
            &&& node.children.len() > 0 ==> found[0].complexity == 1 + node_decisions(
                node.children.last(),
            )
            &&& node.children.len() == 0 ==> found[0].complexity == 1
            &&& found.skip(1) == functions(node.children, modules)
        }),
{
    lemma_functions_of_one(node, modules);
    let found = functions(seq![node], modules);
    assert(found.skip(1) == functions(node.children, modules));
}

proof fn lemma_functions_of_one(node: NodeView, modules: Seq<Seq<char>>)
    ensures
        functions(seq![node], modules) == node_functions(node, modules),
{
    assert(seq![node].drop_last() == Seq::<NodeView>::empty());
    assert(functions(seq![node].drop_last(), modules) == Seq::<FunctionView>::empty());
    assert(Seq::<FunctionView>::empty() + node_functions(node, modules) == node_functions(
        node,
        modules,
    ));
}

/// Whatever a function is nested in does not hide it: what stands in a construct
/// that is no item, or in an item that is neither a module nor a method without a
/// body, is found as if it stood by itself. A module adds its name to the modules
/// around, and a method without a body has no functions.
pub proof fn law_nesting_hides_no_function(node: NodeView, modules: Seq<Seq<char>>)
    requires
        !product::test_only_item(node),
    ensures
        match node.head {
            HeadView::Item { definition: DefinitionView::Module { name, .. }, .. } => functions(
                seq![node],
                modules,
            ) == functions(node.children, modules.push(name)),
            HeadView::Item { definition: DefinitionView::Function { .. }, .. } => functions(
                seq![node],
                modules,
            ).len() == functions(node.children, modules).len() + 1,
            HeadView::Item { definition: DefinitionView::Signature, .. } => functions(
                seq![node],
                modules,
            ) == Seq::<FunctionView>::empty(),
            _ => functions(seq![node], modules) == functions(node.children, modules),
        },
{
    lemma_functions_of_one(node, modules);
}

/// The functions of a file are those of its constructs, with no module around them;
/// and only a complexity that does not fit in 32 bits cannot be measured.
pub proof fn law_a_file_is_measured_whole(file: FileView, functions: Seq<FunctionView>)
    ensures
        file_functions(file) == self::functions(file.nodes, Seq::empty()),
        measurable(functions) <==> !exists|i: int|
            0 <= i < functions.len() && (#[trigger] functions[i]).complexity > 4_294_967_295,
{
}

} // verus!

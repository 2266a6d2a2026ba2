//! Product or test: what of a source file a normal build compiles.
//!
//! Nothing is evaluated whose truth depends on an environment that is not at
//! hand: a feature or a target may be set or not. But `test` is set by
//! `cargo test` and by no normal build, so an item that requires it is no part
//! of the product in any environment. What cannot be proven to require it
//! counts as product.

use vstd::prelude::*;

use crate::syntax::{Clause, ClauseView, File, FileView, Head, HeadView, Node, NodeView};
use crate::text;

verus! {

/// The identifier that a clause starts with, if it starts with a single one.
pub open spec fn name_of(clause: ClauseView) -> Option<Seq<char>> {
    match clause {
        ClauseView::Word { name } => name,
        ClauseView::List { name, .. } => name,
        ClauseView::Value { name, .. } => name,
    }
}

/// Whether a clause starts with exactly the identifier `wanted`.
pub fn is_named(clause: &Clause, wanted: &str) -> (r: bool)
    ensures
        r == (name_of(clause@) == Some(wanted@)),
{
    let name = match clause {
        Clause::Word { name } => name,
        Clause::List { name, .. } => name,
        Clause::Value { name, .. } => name,
    };
    match name {
        Some(name) => text::same(name, wanted),
        None => false,
    }
}

/// Whether a `cfg` predicate is false in every build that does not set `test`:
/// it is `test`, or an `all` with a term that requires `test`, or an `any` with
/// at least one term whose every term does. Of anything else, and of a
/// predicate that cannot be read, it is not known.
pub open spec fn needs_test(clause: ClauseView) -> bool
    decreases clause,
{
    match clause {
        ClauseView::Word { name } => name == Some("test"@),
        ClauseView::List { name, terms: Some(terms), .. } => {
            if name == Some("all"@) {
                exists|i: int| 0 <= i < terms.len() && needs_test(#[trigger] terms[i])
            } else if name == Some("any"@) {
                terms.len() > 0 && forall|i: int|
                    0 <= i < terms.len() ==> needs_test(#[trigger] terms[i])
            } else {
                false
            }
        },
        _ => false,
    }
}

/// Whether a `cfg` predicate is false in every build that does not set `test`.
pub fn requires_test(clause: &Clause) -> (r: bool)
    ensures
        r == needs_test(clause@),
    decreases clause,
{
    match clause {
        Clause::Word { .. } => is_named(clause, "test"),
        Clause::List { terms: Some(terms), .. } => {
            let ghost views = Seq::new(terms@.len(), |i: int| terms@[i]@);
            assert(clause@ matches ClauseView::List { terms: Some(seen), .. } && seen == views);
            if is_named(clause, "all") {
                let mut i: usize = 0;
                while i < terms.len()
                    invariant
                        i <= terms.len(),
                        views == Seq::new(terms@.len(), |i: int| terms@[i]@),
                        forall|k: int| 0 <= k < i ==> !needs_test(#[trigger] views[k]),
                        clause@ matches ClauseView::List { name, terms: Some(seen), .. } && seen
                            == views && name == Some("all"@),
                        decreases_to!(clause => terms),
                    decreases terms.len() - i,
                {
                    if requires_test(&terms[i]) {
                        assert(needs_test(views[i as int]));
                        return true;
                    }
                    i += 1;
                }
                false
            } else if is_named(clause, "any") {
                let mut i: usize = 0;
                while i < terms.len()
                    invariant
                        i <= terms.len(),
                        views == Seq::new(terms@.len(), |i: int| terms@[i]@),
                        forall|k: int| 0 <= k < i ==> needs_test(#[trigger] views[k]),
                        clause@ matches ClauseView::List { name, terms: Some(seen), .. } && seen
                            == views && name == Some("any"@) && name != Some("all"@),
                        decreases_to!(clause => terms),
                    decreases terms.len() - i,
                {
                    if !requires_test(&terms[i]) {
                        assert(!needs_test(views[i as int]));
                        return false;
                    }
                    i += 1;
                }
                terms.len() > 0
            } else {
                false
            }
        },
        _ => false,
    }
}

/// Whether an attribute marks what no normal build compiles: it is `test`, or a
/// `cfg` of one predicate that requires `test`.
pub open spec fn marks_test(clause: ClauseView) -> bool {
    ||| name_of(clause) == Some("test"@)
    ||| match clause {
        ClauseView::List { name, terms: Some(terms), trailing, .. } => name == Some("cfg"@)
            && terms.len() == 1 && !trailing && needs_test(terms[0]),
        _ => false,
    }
}

/// Whether an attribute marks what no normal build compiles.
fn is_test_attribute(clause: &Clause) -> (r: bool)
    ensures
        r == marks_test(clause@),
{
    if is_named(clause, "test") {
        return true;
    }
    if !is_named(clause, "cfg") {
        return false;
    }
    match clause {
        Clause::List { terms: Some(terms), trailing, .. } => {
            if terms.len() == 1 && !*trailing {
                requires_test(&terms[0])
            } else {
                false
            }
        },
        _ => false,
    }
}

/// Whether some attribute marks what no normal build compiles.
pub open spec fn test_only(attrs: Seq<ClauseView>) -> bool {
    exists|i: int| 0 <= i < attrs.len() && marks_test(#[trigger] attrs[i])
}

/// Whether attributes mark an item that no normal build compiles.
///
/// Only `test` itself counts, not a macro that expands to it: a stray
/// `tokio::test` is reported rather than dropped.
pub fn is_test_only(attrs: &Vec<Clause>) -> (r: bool)
    ensures
        r == test_only(crate::syntax::clauses_view(attrs@)),
{
    let ghost views = crate::syntax::clauses_view(attrs@);
    let mut i: usize = 0;
    while i < attrs.len()
        invariant
            i <= attrs.len(),
            views == crate::syntax::clauses_view(attrs@),
            forall|k: int| 0 <= k < i ==> !marks_test(#[trigger] views[k]),
        decreases attrs.len() - i,
    {
        if is_test_attribute(&attrs[i]) {
            assert(marks_test(views[i as int]));
            return true;
        }
        i += 1;
    }
    false
}

/// Whether a node is an item.
pub open spec fn is_item(node: NodeView) -> bool {
    node.head is Item
}

/// Whether a node is an item that no normal build compiles.
pub open spec fn test_only_item(node: NodeView) -> bool {
    match node.head {
        HeadView::Item { attrs, .. } => test_only(attrs),
        _ => false,
    }
}

/// Whether a node is an item, or a member of an `impl` or of a `trait`, that no
/// normal build compiles.
///
/// A `cfg` belongs to the item that it is written on; what is nested inside
/// does not carry it. So the question is asked of every item, and what is
/// answered holds of everything inside it.
pub fn is_test_only_item(node: &Node) -> (r: bool)
    ensures
        r == test_only_item(node@),
{
    match &node.head {
        Head::Item { attrs, .. } => is_test_only(attrs),
        _ => false,
    }
}

/// Whether no normal build compiles anything of a file: an attribute of the
/// file says so, or it has items and every one of them is test-only.
pub open spec fn test_only_file(file: FileView) -> bool {
    ||| test_only(file.attrs)
    ||| {
        &&& exists|i: int| 0 <= i < file.nodes.len() && is_item(#[trigger] file.nodes[i])
        &&& forall|i: int|
            0 <= i < file.nodes.len() && is_item(#[trigger] file.nodes[i]) ==> test_only_item(
                file.nodes[i],
            )
    }
}

/// Whether no normal build compiles anything of a file.
///
/// A file that declares nothing proves nothing, so it counts as product; and so
/// does one with items that hold no function.
pub fn is_test_only_file(file: &File) -> (r: bool)
    ensures
        r == test_only_file(file@),
{
    if is_test_only(&file.attrs) {
        return true;
    }
    let ghost nodes = file@.nodes;
    let mut some: bool = false;
    let mut i: usize = 0;
    while i < file.nodes.len()
        invariant
            i <= file.nodes.len(),
            nodes == file@.nodes,
            !test_only(file@.attrs),
            some == exists|k: int| 0 <= k < i && is_item(#[trigger] nodes[k]),
            forall|k: int|
                0 <= k < i && is_item(#[trigger] nodes[k]) ==> test_only_item(nodes[k]),
        decreases file.nodes.len() - i,
    {
        let node = &file.nodes[i];
        assert(nodes[i as int] == node@);
        let item: bool = match &node.head {
            Head::Item { .. } => true,
            _ => false,
        };
        if item {
            assert(is_item(nodes[i as int]));
            if !is_test_only_item(node) {
                return false;
            }
            some = true;
        }
        i += 1;
    }
    some
}

/// A `cfg` that requires `test` in one place requires it in every `all` around
/// that place.
pub proof fn law_all_requires_what_a_term_requires(
    name: Option<Seq<char>>,
    terms: Seq<ClauseView>,
    trailing: bool,
    tokens: Seq<char>,
    i: int,
)
    requires
        name == Some("all"@),
        0 <= i < terms.len(),
        needs_test(terms[i]),
    ensures
        needs_test(ClauseView::List { name, terms: Some(terms), trailing, tokens }),
{
    let list = ClauseView::List { name, terms: Some(terms), trailing, tokens };
    let seen = list->List_terms->Some_0;
    assert(seen[i] == terms[i]);
    assert(needs_test(seen[i]));
}

/// One alternative that a normal build may take is enough for an `any` to be
/// product.
pub proof fn law_any_is_product_if_an_alternative_is(
    name: Option<Seq<char>>,
    terms: Seq<ClauseView>,
    trailing: bool,
    tokens: Seq<char>,
    i: int,
)
    requires
        name == Some("any"@),
        0 <= i < terms.len(),
        !needs_test(terms[i]),
    ensures
        !needs_test(ClauseView::List { name, terms: Some(terms), trailing, tokens }),
{
    reveal_strlit("any");
    reveal_strlit("all");
    assert("any"@[1] != "all"@[1]);
}

/// Whether a `cfg` predicate holds, given what holds of everything that is neither
/// `test` nor made of other predicates, in a build that does not set `test`. `all`,
/// `any` and `not` are what they are called.
pub open spec fn holds_without_test(clause: ClauseView, otherwise: spec_fn(ClauseView) -> bool) -> bool
    decreases clause,
{
    match clause {
        ClauseView::Word { name } => name != Some(seq!['t', 'e', 's', 't']) && otherwise(clause),
        ClauseView::List { name, terms: Some(terms), .. } => {
            if name == Some(seq!['a', 'l', 'l']) {
                forall|i: int|
                    0 <= i < terms.len() ==> holds_without_test(#[trigger] terms[i], otherwise)
            } else if name == Some(seq!['a', 'n', 'y']) {
                exists|i: int|
                    0 <= i < terms.len() && holds_without_test(#[trigger] terms[i], otherwise)
            } else if name == Some(seq!['n', 'o', 't']) && terms.len() == 1 {
                !holds_without_test(terms[0], otherwise)
            } else {
                otherwise(clause)
            }
        },
        _ => otherwise(clause),
    }
}

/// What is said to require `test` is never compiled by a normal build: whatever
/// holds of anything else, the predicate does not hold where `test` is not set.
pub proof fn law_no_normal_build_compiles_what_requires_test(
    clause: ClauseView,
    otherwise: spec_fn(ClauseView) -> bool,
)
    requires
        needs_test(clause),
    ensures
        !holds_without_test(clause, otherwise),
    decreases clause,
{
    lemma_words();
    match clause {
        ClauseView::List { name, terms: Some(terms), .. } => {
            if name == Some("all"@) {
                let i = choose|i: int| 0 <= i < terms.len() && needs_test(#[trigger] terms[i]);
                law_no_normal_build_compiles_what_requires_test(terms[i], otherwise);
            } else {
                assert forall|i: int| 0 <= i < terms.len() implies !holds_without_test(
                    #[trigger] terms[i],
                    otherwise,
                ) by {
                    assert(needs_test(terms[i]));
                    law_no_normal_build_compiles_what_requires_test(terms[i], otherwise);
                }
            }
        },
        _ => {},
    }
}

proof fn lemma_words()
    ensures
        "test"@ == seq!['t', 'e', 's', 't'],
        "all"@ == seq!['a', 'l', 'l'],
        "any"@ == seq!['a', 'n', 'y'],
        "cfg"@ == seq!['c', 'f', 'g'],
        "all"@ != "any"@,
        seq!['n', 'o', 't'] != "all"@,
        seq!['n', 'o', 't'] != "any"@,
{
    reveal_strlit("test");
    reveal_strlit("all");
    reveal_strlit("any");
    reveal_strlit("cfg");
    assert("test"@ =~= seq!['t', 'e', 's', 't']);
    assert("all"@ =~= seq!['a', 'l', 'l']);
    assert("any"@ =~= seq!['a', 'n', 'y']);
    assert("cfg"@ =~= seq!['c', 'f', 'g']);
    assert("all"@[1] != "any"@[1]);
    assert(seq!['n', 'o', 't'][0] != "all"@[0]);
    assert(seq!['n', 'o', 't'][0] != "any"@[0]);
}

/// What requires `test`: the word itself; an `all` of which some term does; an `any`
/// that has terms, all of which do. No other word does, no value, nothing under
/// another name, and nothing that cannot be read.
pub proof fn law_what_requires_test(
    name: Option<Seq<char>>,
    text: Option<Seq<char>>,
    terms: Seq<ClauseView>,
    trailing: bool,
    tokens: Seq<char>,
)
    ensures
        needs_test(ClauseView::Word { name }) <==> name == Some(seq!['t', 'e', 's', 't']),
        !needs_test(ClauseView::Value { name, text }),
        !needs_test(ClauseView::List { name, terms: None, trailing, tokens }),
        ({
            let list = ClauseView::List { name, terms: Some(terms), trailing, tokens };
            &&& name == Some(seq!['a', 'l', 'l']) ==> (needs_test(list) <==> exists|i: int|
                0 <= i < terms.len() && needs_test(#[trigger] terms[i]))
            &&& name == Some(seq!['a', 'n', 'y']) ==> (needs_test(list) <==> terms.len() > 0
                && forall|i: int| 0 <= i < terms.len() ==> needs_test(#[trigger] terms[i]))
            &&& name != Some(seq!['a', 'l', 'l']) && name != Some(seq!['a', 'n', 'y'])
                ==> !needs_test(list)
        }),
{
    lemma_words();
    let list = ClauseView::List { name, terms: Some(terms), trailing, tokens };
    let seen = list->List_terms->Some_0;
    assert(seen == terms);
}

/// What marks test code: an attribute called `test`, and a `cfg` of a single
/// predicate that requires `test`. Nothing under another name does.
pub proof fn law_what_marks_test_code(
    clause: ClauseView,
    term: ClauseView,
    terms: Seq<ClauseView>,
    trailing: bool,
    tokens: Seq<char>,
)
    ensures
        name_of(clause) == Some(seq!['t', 'e', 's', 't']) ==> marks_test(clause),
        name_of(clause) != Some(seq!['t', 'e', 's', 't']) && name_of(clause) != Some(
            seq!['c', 'f', 'g'],
        ) ==> !marks_test(clause),
        ({
            let attr = |terms: Option<Seq<ClauseView>>, trailing: bool|
                ClauseView::List { name: Some(seq!['c', 'f', 'g']), terms, trailing, tokens };
            &&& marks_test(attr(Some(seq![term]), false)) <==> needs_test(term)
            &&& !marks_test(attr(Some(terms), true))
            &&& terms.len() != 1 ==> !marks_test(attr(Some(terms), trailing))
            &&& !marks_test(attr(None, trailing))
        }),
{
    lemma_words();
    assert("cfg"@.len() == 3 && "test"@.len() == 4);
    assert(seq![term][0] == term);
}

/// One attribute that marks test code is enough, wherever it stands, and without one
/// an item is product.
pub proof fn law_one_mark_is_enough(before: Seq<ClauseView>, attr: ClauseView, after: Seq<ClauseView>)
    ensures
        test_only(before.push(attr) + after) <==> marks_test(attr) || test_only(before + after),
        !test_only(Seq::<ClauseView>::empty()),
{
    let with = before.push(attr) + after;
    let without = before + after;
    let at = before.len() as int;
    assert(with[at] == attr);
    if test_only(without) {
        let i = choose|i: int| 0 <= i < without.len() && marks_test(#[trigger] without[i]);
        let k = if i < at { i } else { i + 1 };
        assert(with[k] == without[i]);
    }
    if test_only(with) && !marks_test(attr) {
        let k = choose|k: int| 0 <= k < with.len() && marks_test(#[trigger] with[k]);
        let i = if k < at { k } else { k - 1 };
        assert(without[i] == with[k]);
    }
}

/// A file is test code if an attribute of it says so, and also if all of its items
/// are, of which it has some: one item that is product makes it product, and so does
/// having none. What is no item makes no difference.
pub proof fn law_what_makes_a_file_test_code(file: FileView, node: NodeView, i: int)
    ensures
        test_only(file.attrs) ==> test_only_file(file),
        !test_only(file.attrs) && 0 <= i < file.nodes.len() && file.nodes[i].head is Item
            && !test_only_item(file.nodes[i]) ==> !test_only_file(file),
        !test_only(file.attrs) && (forall|k: int|
            0 <= k < file.nodes.len() ==> !((#[trigger] file.nodes[k]).head is Item))
            ==> !test_only_file(file),
        test_only_file(file) && test_only_item(node) ==> test_only_file(
            FileView { nodes: file.nodes.push(node), ..file },
        ),
        test_only_item(node) ==> test_only_file(FileView { nodes: seq![node], ..file }),
        !(node.head is Item) ==> test_only_file(FileView { nodes: file.nodes.push(node), ..file })
            == test_only_file(file),
{
    if 0 <= i < file.nodes.len() && file.nodes[i].head is Item {
        assert(is_item(file.nodes[i]));
    }
    let longer = FileView { nodes: file.nodes.push(node), ..file };
    if !(node.head is Item) {
        assert forall|k: int| 0 <= k < file.nodes.len() implies is_item(
            #[trigger] longer.nodes[k],
        ) == is_item(file.nodes[k]) && longer.nodes[k] == file.nodes[k] by {}
        if test_only_file(file) && !test_only(file.attrs) {
            let k = choose|k: int| 0 <= k < file.nodes.len() && is_item(#[trigger] file.nodes[k]);
            assert(is_item(longer.nodes[k]));
            assert forall|k: int| 0 <= k < longer.nodes.len() && is_item(
                #[trigger] longer.nodes[k],
            ) implies test_only_item(longer.nodes[k]) by {
                assert(is_item(file.nodes[k]));
            }
        }
        if test_only_file(longer) && !test_only(file.attrs) {
            let k = choose|k: int|
                0 <= k < longer.nodes.len() && is_item(#[trigger] longer.nodes[k]);
            assert(is_item(file.nodes[k]));
            assert forall|k: int| 0 <= k < file.nodes.len() && is_item(
                #[trigger] file.nodes[k],
            ) implies test_only_item(file.nodes[k]) by {
                assert(is_item(longer.nodes[k]));
            }
        }
    }
    let one = seq![node];
    assert(one[0] == node);
    if test_only_item(node) {
        let single = FileView { nodes: one, ..file };
        assert(is_item(single.nodes[0]));
        assert(test_only_file(single));
        let n = file.nodes.len() as int;
        assert(longer.nodes[n] == node);
        assert(is_item(longer.nodes[n]));
        if test_only_file(file) && !test_only(file.attrs) {
            assert forall|k: int| 0 <= k < longer.nodes.len() && is_item(
                #[trigger] longer.nodes[k],
            ) implies test_only_item(longer.nodes[k]) by {
                if k < n {
                    assert(is_item(file.nodes[k]));
                }
            }
        }
    }
}

/// Only an item can be test code, and it is if its attributes say so.
pub proof fn law_an_item_is_what_its_attributes_say(node: NodeView)
    ensures
        match node.head {
            HeadView::Item { attrs, .. } => test_only_item(node) <==> test_only(attrs),
            _ => !test_only_item(node),
        },
{
}

} // verus!

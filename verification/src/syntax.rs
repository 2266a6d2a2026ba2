//! The syntax of a Rust source file, as far as the library reads it.
//!
//! Parsing is `syn`'s, and so is the walk over what it finds: `Tracer` only notes
//! down, one after the other, which constructs the walk enters and leaves. From
//! these steps a plain tree is made. Its nodes are the constructs that the
//! library tells apart, in source order, each with what stands inside it; every
//! other construct is represented by its contents alone.

use vstd::prelude::*;

use syn::punctuated::Punctuated;
use syn::spanned::Spanned;
use syn::visit::Visit;

verus! {

/// What an attribute says: `test`, `cfg(..)`, `path = ".."`.
#[derive(Debug)]
pub enum Clause {
    /// A path alone. `name` is the path if it is a single identifier.
    Word { name: Option<String> },
    /// A path with arguments.
    List {
        /// The path if it is a single identifier.
        name: Option<String>,
        /// The arguments, where they read as further terms between commas.
        terms: Option<Vec<Clause>>,
        /// Whether a comma follows the last of the terms.
        trailing: bool,
        /// The arguments as their tokens read.
        tokens: String,
    },
    /// A path with a value.
    Value {
        /// The path if it is a single identifier.
        name: Option<String>,
        /// The value if it is a string literal.
        text: Option<String>,
    },
}

/// One arm of a `match`.
#[derive(Debug, Clone, Copy, PartialEq, Eq)]
pub struct MatchArm {
    /// Whether its pattern is `_`.
    pub wildcard: bool,
    /// Whether it has a guard.
    pub guarded: bool,
}

/// An operator between two operands.
#[derive(Debug, Clone, Copy, PartialEq, Eq)]
pub enum Operator {
    /// `&&`.
    And,
    /// `||`.
    Or,
    /// Any other.
    Other,
}

/// What an item defines.
#[derive(Debug)]
pub enum Definition {
    /// A module. The position is that of its name: the line counted from one,
    /// the column from zero.
    Module { name: String, line: usize, column: usize, inline: bool },
    /// A function with a body, from its first line to its last. The body is the
    /// last of the item's children.
    Function { name: String, start_line: usize, end_line: usize },
    /// A method of a trait without a body.
    Signature,
    /// Anything else.
    Other,
}

/// What a node of the tree is.
#[derive(Debug)]
pub enum Head {
    /// An item, or a member of an `impl` or of a `trait`.
    Item { attrs: Vec<Clause>, definition: Definition },
    /// An attribute; its children are those of its value.
    Attribute,
    /// A block.
    Block,
    /// A `let`, which may have a diverging `else`.
    Let { diverges: bool },
    /// An `if`.
    If,
    /// A `while`.
    While,
    /// A `for`.
    ForLoop,
    /// A `loop`.
    Loop,
    /// A `match`.
    Match { arms: Vec<MatchArm> },
    /// A binary operation.
    Binary { operator: Operator },
    /// A `?`.
    Try,
}

/// A construct and what stands inside it, in source order.
#[derive(Debug)]
pub struct Node {
    /// What it is.
    pub head: Head,
    /// What stands inside it.
    pub children: Vec<Node>,
}

/// One step of a walk over the tree of a source text.
#[derive(Debug)]
pub enum Step {
    /// A construct is entered.
    Enter { head: Head },
    /// The construct that was entered last and not left yet is left.
    Leave,
}

/// What a walk over the tree of a source text passes.
#[derive(Debug)]
struct Trace {
    /// The attributes of the file as a whole.
    attrs: Vec<Clause>,
    /// The steps of the walk.
    steps: Vec<Step>,
}

/// A source file.
#[derive(Debug)]
pub struct File {
    /// The attributes of the file as a whole.
    pub attrs: Vec<Clause>,
    /// Its items, and the attributes in front of them.
    pub nodes: Vec<Node>,
}

/// What a `Clause` holds.
#[verifier::ext_equal]
pub enum ClauseView {
    /// See `Clause::Word`.
    Word { name: Option<Seq<char>> },
    /// See `Clause::List`.
    List {
        name: Option<Seq<char>>,
        terms: Option<Seq<ClauseView>>,
        trailing: bool,
        tokens: Seq<char>,
    },
    /// See `Clause::Value`.
    Value { name: Option<Seq<char>>, text: Option<Seq<char>> },
}

/// What a `Definition` holds.
#[verifier::ext_equal]
pub enum DefinitionView {
    /// See `Definition::Module`.
    Module { name: Seq<char>, line: usize, column: usize, inline: bool },
    /// See `Definition::Function`.
    Function { name: Seq<char>, start_line: usize, end_line: usize },
    /// See `Definition::Signature`.
    Signature,
    /// See `Definition::Other`.
    Other,
}

/// What a `Head` holds.
#[verifier::ext_equal]
pub enum HeadView {
    /// See `Head::Item`.
    Item { attrs: Seq<ClauseView>, definition: DefinitionView },
    /// See `Head::Attribute`.
    Attribute,
    /// See `Head::Block`.
    Block,
    /// See `Head::Let`.
    Let { diverges: bool },
    /// See `Head::If`.
    If,
    /// See `Head::While`.
    While,
    /// See `Head::ForLoop`.
    ForLoop,
    /// See `Head::Loop`.
    Loop,
    /// See `Head::Match`.
    Match { arms: Seq<MatchArm> },
    /// See `Head::Binary`.
    Binary { operator: Operator },
    /// See `Head::Try`.
    Try,
}

/// What a `Node` holds.
#[verifier::ext_equal]
pub struct NodeView {
    /// See `Node::head`.
    pub head: HeadView,
    /// See `Node::children`.
    pub children: Seq<NodeView>,
}

/// What a `Step` holds.
#[verifier::ext_equal]
pub enum StepView {
    /// See `Step::Enter`.
    Enter { head: HeadView },
    /// See `Step::Leave`.
    Leave,
}

/// What a `Trace` holds.
#[verifier::ext_equal]
pub struct TraceView {
    /// The attributes of the file as a whole.
    pub attrs: Seq<ClauseView>,
    /// The steps of the walk.
    pub steps: Seq<StepView>,
}

/// What a `File` holds.
#[verifier::ext_equal]
pub struct FileView {
    /// See `File::attrs`.
    pub attrs: Seq<ClauseView>,
    /// See `File::nodes`.
    pub nodes: Seq<NodeView>,
}

/// The text of an optional string.
pub open spec fn optional(text: Option<String>) -> Option<Seq<char>> {
    match text {
        Some(text) => Some(text@),
        None => None,
    }
}

/// What a `Clause` holds.
pub open spec fn clause_view(clause: Clause) -> ClauseView
    decreases clause,
{
    match clause {
        Clause::Word { name } => ClauseView::Word { name: optional(name) },
        Clause::List { name, terms, trailing, tokens } => ClauseView::List {
            name: optional(name),
            terms: match terms {
                Some(terms) => Some(
                    Seq::new(
                        terms@.len(),
                        |i: int|
                            if 0 <= i < terms@.len() {
                                clause_view(terms@[i])
                            } else {
                                arbitrary()
                            },
                    ),
                ),
                None => None,
            },
            trailing,
            tokens: tokens@,
        },
        Clause::Value { name, text } => ClauseView::Value {
            name: optional(name),
            text: optional(text),
        },
    }
}

impl View for Clause {
    type V = ClauseView;

    open spec fn view(&self) -> ClauseView {
        clause_view(*self)
    }
}

/// What several `Clause`s hold.
pub open spec fn clauses_view(clauses: Seq<Clause>) -> Seq<ClauseView> {
    clauses.map_values(|clause: Clause| clause@)
}

impl View for Definition {
    type V = DefinitionView;

    open spec fn view(&self) -> DefinitionView {
        match self {
            Definition::Module { name, line, column, inline } => DefinitionView::Module {
                name: name@,
                line: *line,
                column: *column,
                inline: *inline,
            },
            Definition::Function { name, start_line, end_line } => DefinitionView::Function {
                name: name@,
                start_line: *start_line,
                end_line: *end_line,
            },
            Definition::Signature => DefinitionView::Signature,
            Definition::Other => DefinitionView::Other,
        }
    }
}

impl View for Head {
    type V = HeadView;

    open spec fn view(&self) -> HeadView {
        match self {
            Head::Item { attrs, definition } => HeadView::Item {
                attrs: clauses_view(attrs@),
                definition: definition@,
            },
            Head::Attribute => HeadView::Attribute,
            Head::Block => HeadView::Block,
            Head::Let { diverges } => HeadView::Let { diverges: *diverges },
            Head::If => HeadView::If,
            Head::While => HeadView::While,
            Head::ForLoop => HeadView::ForLoop,
            Head::Loop => HeadView::Loop,
            Head::Match { arms } => HeadView::Match { arms: arms@ },
            Head::Binary { operator } => HeadView::Binary { operator: *operator },
            Head::Try => HeadView::Try,
        }
    }
}

/// What a `Node` holds.
pub open spec fn node_view(node: Node) -> NodeView
    decreases node,
{
    NodeView {
        head: node.head@,
        children: Seq::new(
            node.children@.len(),
            |i: int|
                if 0 <= i < node.children@.len() {
                    node_view(node.children@[i])
                } else {
                    arbitrary()
                },
        ),
    }
}

impl View for Node {
    type V = NodeView;

    open spec fn view(&self) -> NodeView {
        node_view(*self)
    }
}

/// What several `Node`s hold.
pub open spec fn nodes_view(nodes: Seq<Node>) -> Seq<NodeView> {
    nodes.map_values(|node: Node| node@)
}

impl View for Step {
    type V = StepView;

    open spec fn view(&self) -> StepView {
        match self {
            Step::Enter { head } => StepView::Enter { head: head@ },
            Step::Leave => StepView::Leave,
        }
    }
}

/// What several `Step`s hold.
pub open spec fn steps_view(steps: Seq<Step>) -> Seq<StepView> {
    steps.map_values(|step: Step| step@)
}

impl View for Trace {
    type V = TraceView;

    closed spec fn view(&self) -> TraceView {
        TraceView { attrs: clauses_view(self.attrs@), steps: steps_view(self.steps@) }
    }
}

impl View for File {
    type V = FileView;

    open spec fn view(&self) -> FileView {
        FileView { attrs: clauses_view(self.attrs@), nodes: nodes_view(self.nodes@) }
    }
}

/// What an attribute says, as `syn` has it.
#[verifier::external_type_specification]
#[verifier::external_body]
pub struct ExternalMeta(syn::Meta);

/// An attribute, as `syn` has it.
#[verifier::external_type_specification]
#[verifier::external_body]
pub struct ExternalAttribute(syn::Attribute);

/// An item, as `syn` has it.
#[verifier::external_type_specification]
#[verifier::external_body]
pub struct ExternalItem(syn::Item);

/// A member of an `impl`, as `syn` has it.
#[verifier::external_type_specification]
#[verifier::external_body]
pub struct ExternalImplItem(syn::ImplItem);

/// A member of a `trait`, as `syn` has it.
#[verifier::external_type_specification]
#[verifier::external_body]
pub struct ExternalTraitItem(syn::TraitItem);

/// A block, as `syn` has it.
#[verifier::external_type_specification]
#[verifier::external_body]
pub struct ExternalBlock(syn::Block);

/// A `let`, as `syn` has it.
#[verifier::external_type_specification]
#[verifier::external_body]
pub struct ExternalLocal(syn::Local);

/// An expression, as `syn` has it.
#[verifier::external_type_specification]
#[verifier::external_body]
pub struct ExternalExpr(syn::Expr);

/// A path with arguments, as `syn` has it.
#[verifier::external_type_specification]
#[verifier::external_body]
pub struct ExternalMetaList(syn::MetaList);

/// An arm of a `match`, as `syn` has it.
#[verifier::external_type_specification]
#[verifier::external_body]
pub struct ExternalArm(syn::Arm);

/// An operator between two operands, as `syn` has it.
#[verifier::external_type_specification]
#[verifier::external_body]
pub struct ExternalBinOp(syn::BinOp);

/// A method of a `trait`, as `syn` has it.
#[verifier::external_type_specification]
#[verifier::external_body]
pub struct ExternalTraitItemFn(syn::TraitItemFn);

/// Notes down the constructs that a walk over `syn`'s tree passes.
struct Tracer {
    /// The steps so far.
    steps: Vec<Step>,
}

/// Converts a `syn::Meta`. `Path::get_ident` gives the path where it is a single
/// identifier. Of the result, as of those of the conversions below, nothing is
/// promised by itself: it is part of what `trace_of` names.
#[verifier::external_body]
fn clause(meta: &syn::Meta) -> Clause {
    let name = meta.path().get_ident().map(|ident| ident.to_string());
    match meta {
        syn::Meta::Path(_) => Clause::Word { name },
        syn::Meta::List(list) => list_clause(name, list),
        syn::Meta::NameValue(pair) => Clause::Value { name, text: literal(&pair.value) },
    }
}

/// Converts a `syn::MetaList`. `MetaList::parse_args_with` reads the arguments as
/// terms between commas where they are such, `Punctuated::trailing_punct` tells
/// whether a comma follows the last, and `TokenStream`'s `to_string` gives the
/// tokens as they read.
#[verifier::external_body]
fn list_clause(name: Option<String>, list: &syn::MetaList) -> Clause {
    let tokens = list.tokens.to_string();
    match list.parse_args_with(Punctuated::<syn::Meta, syn::token::Comma>::parse_terminated) {
        Ok(terms) => {
            let trailing = terms.trailing_punct();
            Clause::List { name, terms: Some(terms.iter().map(clause).collect()), trailing, tokens }
        },
        Err(_) => Clause::List { name, terms: None, trailing: false, tokens },
    }
}

/// Converts the value of an attribute, a `syn::Expr`: `LitStr::value` gives the
/// text of a string literal.
#[verifier::external_body]
fn literal(value: &syn::Expr) -> Option<String> {
    match value {
        syn::Expr::Lit(syn::ExprLit { lit: syn::Lit::Str(text), .. }) => Some(text.value()),
        _ => None,
    }
}

/// Converts several `syn::Attribute`s, each by its `meta`.
#[verifier::external_body]
fn clauses(attrs: &Vec<syn::Attribute>) -> Vec<Clause> {
    attrs.iter().map(|attr| clause(&attr.meta)).collect()
}

/// Converts the `attrs` of a `syn::Item`. A kind of item without attributes has
/// none.
#[verifier::external_body]
fn item_clauses(item: &syn::Item) -> Vec<Clause> {
    match item {
        syn::Item::Const(i) => clauses(&i.attrs),
        syn::Item::Enum(i) => clauses(&i.attrs),
        syn::Item::ExternCrate(i) => clauses(&i.attrs),
        syn::Item::Fn(i) => clauses(&i.attrs),
        syn::Item::ForeignMod(i) => clauses(&i.attrs),
        syn::Item::Impl(i) => clauses(&i.attrs),
        syn::Item::Macro(i) => clauses(&i.attrs),
        syn::Item::Mod(i) => clauses(&i.attrs),
        _ => other_item_clauses(item),
    }
}

/// Converts the `attrs` of a `syn::Item` of one of the remaining kinds.
#[verifier::external_body]
fn other_item_clauses(item: &syn::Item) -> Vec<Clause> {
    match item {
        syn::Item::Static(i) => clauses(&i.attrs),
        syn::Item::Struct(i) => clauses(&i.attrs),
        syn::Item::Trait(i) => clauses(&i.attrs),
        syn::Item::TraitAlias(i) => clauses(&i.attrs),
        syn::Item::Type(i) => clauses(&i.attrs),
        syn::Item::Union(i) => clauses(&i.attrs),
        syn::Item::Use(i) => clauses(&i.attrs),
        _ => Vec::new(),
    }
}

/// Converts what a `syn::Item` defines, with the positions that `Span::start` and
/// `Span::end` of `proc_macro2` give.
#[verifier::external_body]
fn item_definition(item: &syn::Item) -> Definition {
    match item {
        syn::Item::Mod(i) => Definition::Module {
            name: i.ident.to_string(),
            line: i.ident.span().start().line,
            column: i.ident.span().start().column,
            inline: i.content.is_some(),
        },
        syn::Item::Fn(i) => Definition::Function {
            name: i.sig.ident.to_string(),
            start_line: i.span().start().line,
            end_line: i.span().end().line,
        },
        _ => Definition::Other,
    }
}

/// Converts a `syn::ImplItem`, with the positions of a method that `Span::start`
/// and `Span::end` of `proc_macro2` give.
#[verifier::external_body]
fn impl_item_head(item: &syn::ImplItem) -> Head {
    let (attrs, definition) = match item {
        syn::ImplItem::Const(i) => (clauses(&i.attrs), Definition::Other),
        syn::ImplItem::Fn(i) => (clauses(&i.attrs), Definition::Function {
            name: i.sig.ident.to_string(),
            start_line: i.span().start().line,
            end_line: i.span().end().line,
        }),
        syn::ImplItem::Macro(i) => (clauses(&i.attrs), Definition::Other),
        syn::ImplItem::Type(i) => (clauses(&i.attrs), Definition::Other),
        _ => (Vec::new(), Definition::Other),
    };
    Head::Item { attrs, definition }
}

/// Converts a `syn::TraitItem`.
#[verifier::external_body]
fn trait_item_head(item: &syn::TraitItem) -> Head {
    let (attrs, definition) = match item {
        syn::TraitItem::Const(i) => (clauses(&i.attrs), Definition::Other),
        syn::TraitItem::Fn(i) => (clauses(&i.attrs), trait_function(i)),
        syn::TraitItem::Macro(i) => (clauses(&i.attrs), Definition::Other),
        syn::TraitItem::Type(i) => (clauses(&i.attrs), Definition::Other),
        _ => (Vec::new(), Definition::Other),
    };
    Head::Item { attrs, definition }
}

/// Converts a `syn::TraitItemFn`, with its positions that `Span::start` and
/// `Span::end` of `proc_macro2` give.
#[verifier::external_body]
fn trait_function(method: &syn::TraitItemFn) -> Definition {
    match &method.default {
        Some(_) => Definition::Function {
            name: method.sig.ident.to_string(),
            start_line: method.span().start().line,
            end_line: method.span().end().line,
        },
        None => Definition::Signature,
    }
}

/// Converts which variant a `syn::Expr` is, if it is one of those that are told
/// apart.
#[verifier::external_body]
fn expression_head(expression: &syn::Expr) -> Option<Head> {
    match expression {
        syn::Expr::If(_) => Some(Head::If),
        syn::Expr::While(_) => Some(Head::While),
        syn::Expr::ForLoop(_) => Some(Head::ForLoop),
        syn::Expr::Loop(_) => Some(Head::Loop),
        syn::Expr::Try(_) => Some(Head::Try),
        syn::Expr::Match(e) => Some(Head::Match { arms: e.arms.iter().map(arm).collect() }),
        syn::Expr::Binary(e) => Some(Head::Binary { operator: operator(&e.op) }),
        _ => None,
    }
}

/// Converts which variant a `syn::BinOp` is.
#[verifier::external_body]
fn operator(operator: &syn::BinOp) -> Operator {
    match operator {
        syn::BinOp::And(_) => Operator::And,
        syn::BinOp::Or(_) => Operator::Or,
        _ => Operator::Other,
    }
}

/// Converts a `syn::Arm`.
#[verifier::external_body]
fn arm(arm: &syn::Arm) -> MatchArm {
    MatchArm { wildcard: matches!(arm.pat, syn::Pat::Wild(_)), guarded: arm.guard.is_some() }
}

/// Each method notes down that one construct is entered, what `syn::visit` passes
/// inside it, and that it is left.
impl<'ast> Visit<'ast> for Tracer {
    /// Notes down an attribute around what `syn::visit::visit_attribute` passes.
    #[verifier::external_body]
    fn visit_attribute(&mut self, attribute: &'ast syn::Attribute) {
        self.steps.push(Step::Enter { head: Head::Attribute });
        syn::visit::visit_attribute(self, attribute);
        self.steps.push(Step::Leave);
    }

    /// Notes down an item around what `syn::visit::visit_item` passes.
    #[verifier::external_body]
    fn visit_item(&mut self, item: &'ast syn::Item) {
        let head = Head::Item { attrs: item_clauses(item), definition: item_definition(item) };
        self.steps.push(Step::Enter { head });
        syn::visit::visit_item(self, item);
        self.steps.push(Step::Leave);
    }

    /// Notes down a member of an `impl` around what
    /// `syn::visit::visit_impl_item` passes.
    #[verifier::external_body]
    fn visit_impl_item(&mut self, item: &'ast syn::ImplItem) {
        self.steps.push(Step::Enter { head: impl_item_head(item) });
        syn::visit::visit_impl_item(self, item);
        self.steps.push(Step::Leave);
    }

    /// Notes down a member of a `trait` around what
    /// `syn::visit::visit_trait_item` passes.
    #[verifier::external_body]
    fn visit_trait_item(&mut self, item: &'ast syn::TraitItem) {
        self.steps.push(Step::Enter { head: trait_item_head(item) });
        syn::visit::visit_trait_item(self, item);
        self.steps.push(Step::Leave);
    }

    /// Notes down a block around what `syn::visit::visit_block` passes.
    #[verifier::external_body]
    fn visit_block(&mut self, block: &'ast syn::Block) {
        self.steps.push(Step::Enter { head: Head::Block });
        syn::visit::visit_block(self, block);
        self.steps.push(Step::Leave);
    }

    /// Notes down a `let` around what `syn::visit::visit_local` passes.
    #[verifier::external_body]
    fn visit_local(&mut self, local: &'ast syn::Local) {
        let diverges = local.init.as_ref().is_some_and(|init| init.diverge.is_some());
        self.steps.push(Step::Enter { head: Head::Let { diverges } });
        syn::visit::visit_local(self, local);
        self.steps.push(Step::Leave);
    }

    /// Notes down an expression that is told apart around what
    /// `syn::visit::visit_expr` passes, and of any other only what it passes.
    #[verifier::external_body]
    fn visit_expr(&mut self, expression: &'ast syn::Expr) {
        match expression_head(expression) {
            Some(head) => {
                self.steps.push(Step::Enter { head });
                syn::visit::visit_expr(self, expression);
                self.steps.push(Step::Leave);
            },
            None => syn::visit::visit_expr(self, expression),
        }
    }
}

/// What a walk over the tree of a source text passes: what `syn::parse_file`
/// makes of the text, walked by `syn::visit`. For a text that is no Rust source,
/// what `syn` says of it.
pub uninterp spec fn trace_of(source: Seq<char>) -> Result<TraceView, Seq<char>>;

/// The largest number of characters of a source text that can be parsed whatever
/// it holds.
///
/// `proc_macro2` numbers the characters that it reads in 32 bits, and some it
/// reads again, which takes up as many numbers as they are and one more: `syn`
/// builds a negative literal anew wherever it looks for one, as in a pattern, a
/// generic argument, the value of an attribute or after a `return`, and each part
/// of an index such as `.0.1`. It does so a few times at most for each of them. A
/// text of this length leaves room for it to be read sixteen times over.
pub const LONGEST_SOURCE: u32 = 268_435_456;

/// Parses a source text with `syn::parse_file`, and notes down what a walk over
/// what it finds passes, or else what `Display` of `syn::Error` gives. That
/// depends on the text alone, so it has the name `trace_of`.
///
/// The numbering of characters starts anew: before the text is read,
/// `proc_macro2::extra::invalidate_current_thread_spans` forgets those that the
/// thread read earlier. It panics inside a procedural macro, where the library
/// has no place; and positions that the thread got from `proc_macro2` before are
/// void. None is kept here.
///
/// Left unsaid: a text may be nested too deeply for the stack.
#[verifier::external_body]
fn parse(source: &str) -> (out: Result<Trace, String>)
    requires
        source@.len() <= LONGEST_SOURCE,
    ensures
        match out {
            Ok(trace) => trace_of(source@) == Ok::<TraceView, Seq<char>>(trace@),
            Err(message) => trace_of(source@) == Err::<TraceView, Seq<char>>(message@),
        },
{
    proc_macro2::extra::invalidate_current_thread_spans();
    let file = syn::parse_file(source).map_err(|error| error.to_string())?;
    let mut tracer = Tracer { steps: Vec::new() };
    tracer.visit_file(&file);
    Ok(Trace { attrs: clauses(&file.attrs), steps: tracer.steps })
}

/// How far a tree has grown: the nodes that are complete and stand in no other,
/// and the nodes that were entered and not left, the outermost first, each with
/// what is complete inside it.
#[verifier::ext_equal]
pub struct Growth {
    /// The nodes that are complete.
    pub nodes: Seq<NodeView>,
    /// The nodes that were not left yet.
    pub open: Seq<NodeView>,
}

impl Growth {
    /// Where growth starts.
    pub open spec fn seed() -> Growth {
        Growth { nodes: Seq::empty(), open: Seq::empty() }
    }

    /// With one more complete node, inside the innermost one that is not left.
    pub open spec fn with(self, node: NodeView) -> Growth {
        if self.open.len() == 0 {
            Growth { nodes: self.nodes.push(node), ..self }
        } else {
            let outer = self.open.last();
            Growth {
                open: self.open.drop_last().push(
                    NodeView { head: outer.head, children: outer.children.push(node) },
                ),
                ..self
            }
        }
    }

    /// With several more complete nodes.
    pub open spec fn with_all(self, nodes: Seq<NodeView>) -> Growth
        decreases nodes.len(),
    {
        if nodes.len() == 0 {
            self
        } else {
            self.with_all(nodes.drop_last()).with(nodes.last())
        }
    }

    /// After one more step: a node is entered, or the innermost one is left and
    /// with that complete.
    pub open spec fn after(self, step: StepView) -> Growth {
        match step {
            StepView::Enter { head } => Growth {
                open: self.open.push(NodeView { head, children: Seq::empty() }),
                ..self
            },
            StepView::Leave => if self.open.len() == 0 {
                self
            } else {
                Growth { open: self.open.drop_last(), ..self }.with(self.open.last())
            },
        }
    }

    /// After several more steps.
    pub open spec fn after_all(self, steps: Seq<StepView>) -> Growth
        decreases steps.len(),
    {
        if steps.len() == 0 {
            self
        } else {
            self.after_all(steps.drop_last()).after(steps.last())
        }
    }
}

/// The nodes that steps make.
pub open spec fn nodes_of(steps: Seq<StepView>) -> Seq<NodeView> {
    Growth::seed().after_all(steps).nodes
}

/// The syntax of a source text, or what is said of one that is no Rust source.
pub open spec fn syntax_of(source: Seq<char>) -> Result<FileView, Seq<char>> {
    match trace_of(source) {
        Ok(trace) => Ok(FileView { attrs: trace.attrs, nodes: nodes_of(trace.steps) }),
        Err(message) => Err(message),
    }
}

proof fn lemma_node_view(node: Node)
    ensures
        node@ == (NodeView { head: node.head@, children: nodes_view(node.children@) }),
{
    assert(node@.children =~= nodes_view(node.children@));
}

/// Makes the tree of the steps of a walk.
pub fn assemble(steps: Vec<Step>) -> (out: Vec<Node>)
    ensures
        nodes_view(out@) == nodes_of(steps_view(steps@)),
{
    let ghost all = steps_view(steps@);
    let mut nodes: Vec<Node> = Vec::new();
    let mut open: Vec<Node> = Vec::new();
    assert(nodes_view(nodes@) == Seq::<NodeView>::empty());
    assert(nodes_view(open@) == Seq::<NodeView>::empty());
    assert(all.take(0) == Seq::<StepView>::empty());
    for step in passed: steps.into_iter()
        invariant
            all == steps_view(passed.seq()),
            nodes_view(nodes@) == Growth::seed().after_all(all.take(passed.index() as int)).nodes,
            nodes_view(open@) == Growth::seed().after_all(all.take(passed.index() as int)).open,
    {
        let ghost i = passed.index() as int;
        let ghost before = Growth::seed().after_all(all.take(i));
        assert(all.take(i + 1).drop_last() == all.take(i));
        assert(all.take(i + 1).last() == step@);
        let ghost opened = open@;
        let ghost complete = nodes@;
        match step {
            Step::Enter { head } => {
                let node = Node { head, children: Vec::new() };
                proof {
                    lemma_node_view(node);
                    assert(nodes_view(node.children@) == Seq::<NodeView>::empty());
                }
                open.push(node);
                assert(nodes_view(open@) == nodes_view(opened).push(node@));
            },
            Step::Leave => {
                match open.pop() {
                    None => {},
                    Some(node) => {
                        assert(nodes_view(opened).last() == node@);
                        assert(nodes_view(open@) == nodes_view(opened).drop_last());
                        let ghost rest = open@;
                        match open.pop() {
                            None => {
                                nodes.push(node);
                                assert(nodes_view(nodes@) == nodes_view(complete).push(node@));
                            },
                            Some(outer) => {
                                let ghost inside = outer.children@;
                                proof {
                                    lemma_node_view(outer);
                                }
                                assert(nodes_view(rest).last() == outer@);
                                assert(nodes_view(open@) == nodes_view(rest).drop_last());
                                let ghost shorter = open@;
                                let mut children = outer.children;
                                children.push(node);
                                let grown = Node { head: outer.head, children };
                                proof {
                                    lemma_node_view(grown);
                                    assert(nodes_view(grown.children@) == nodes_view(inside).push(
                                        node@,
                                    ));
                                }
                                open.push(grown);
                                assert(nodes_view(open@) == nodes_view(shorter).push(grown@));
                            },
                        }
                    },
                }
            },
        }
    }
    assert(all.take(all.len() as int) == all);
    nodes
}

/// The steps of a walk over one node.
pub open spec fn walk_over(node: NodeView) -> Seq<StepView>
    decreases node, 0int,
{
    seq![StepView::Enter { head: node.head }] + walk_over_all(node.children)
        + seq![StepView::Leave]
}

/// The steps of a walk over several nodes.
pub open spec fn walk_over_all(nodes: Seq<NodeView>) -> Seq<StepView>
    decreases nodes, 1int,
{
    if nodes.len() == 0 {
        Seq::empty()
    } else {
        walk_over_all(nodes.drop_last()) + walk_over(nodes.last())
    }
}

proof fn lemma_after_concatenation(growth: Growth, a: Seq<StepView>, b: Seq<StepView>)
    ensures
        growth.after_all(a + b) == growth.after_all(a).after_all(b),
    decreases b.len(),
{
    if b.len() == 0 {
        assert(a + b == a);
    } else {
        assert((a + b).drop_last() == a + b.drop_last());
        assert((a + b).last() == b.last());
        lemma_after_concatenation(growth, a, b.drop_last());
    }
}

proof fn lemma_with_all(growth: Growth, nodes: Seq<NodeView>)
    requires
        growth.open.len() > 0,
    ensures
        growth.with_all(nodes) == (Growth {
            open: growth.open.drop_last().push(
                NodeView {
                    head: growth.open.last().head,
                    children: growth.open.last().children + nodes,
                },
            ),
            ..growth
        }),
    decreases nodes.len(),
{
    if nodes.len() == 0 {
        assert(growth.open.last().children + nodes == growth.open.last().children);
        assert(growth.open.drop_last().push(growth.open.last()) == growth.open);
    } else {
        lemma_with_all(growth, nodes.drop_last());
        let inner = growth.with_all(nodes.drop_last());
        assert(inner.open.drop_last() == growth.open.drop_last());
        assert((growth.open.last().children + nodes.drop_last()).push(nodes.last())
            == growth.open.last().children + nodes);
    }
}

proof fn lemma_walk_over(growth: Growth, node: NodeView)
    ensures
        growth.after_all(walk_over(node)) == growth.with(node),
    decreases node, 0int,
{
    let enter = seq![StepView::Enter { head: node.head }];
    let inside = walk_over_all(node.children);
    let leave = seq![StepView::Leave];
    lemma_after_concatenation(growth, enter + inside, leave);
    lemma_after_concatenation(growth, enter, inside);
    assert(enter.drop_last() == Seq::<StepView>::empty());
    let entered = growth.after_all(enter);
    assert(growth.after_all(enter.drop_last()) == growth);
    assert(entered == growth.after(enter.last()));
    lemma_walk_over_all(entered, node.children);
    lemma_with_all(entered, node.children);
    let grown = entered.with_all(node.children);
    assert(entered.open.last().children + node.children == node.children);
    assert(grown.open.last() == node);
    assert(grown.open.drop_last() == growth.open);
    assert(leave.drop_last() == Seq::<StepView>::empty());
    assert(grown.after_all(leave.drop_last()) == grown);
    assert(grown.after_all(leave) == grown.after(leave.last()));
}

proof fn lemma_walk_over_all(growth: Growth, nodes: Seq<NodeView>)
    ensures
        growth.after_all(walk_over_all(nodes)) == growth.with_all(nodes),
    decreases nodes, 1int,
{
    if nodes.len() > 0 {
        let rest = walk_over_all(nodes.drop_last());
        lemma_walk_over_all(growth, nodes.drop_last());
        lemma_after_concatenation(growth, rest, walk_over(nodes.last()));
        lemma_walk_over(growth.with_all(nodes.drop_last()), nodes.last());
    }
}

/// The steps of a walk over a tree make that tree.
pub proof fn law_a_walk_makes_its_tree(nodes: Seq<NodeView>)
    ensures
        nodes_of(walk_over_all(nodes)) == nodes,
{
    lemma_walk_over_all(Growth::seed(), nodes);
    lemma_seed_with_all(nodes);
}

proof fn lemma_seed_with_all(nodes: Seq<NodeView>)
    ensures
        Growth::seed().with_all(nodes) == (Growth { nodes, open: Seq::empty() }),
    decreases nodes.len(),
{
    if nodes.len() == 0 {
        assert(nodes == Seq::<NodeView>::empty());
    } else {
        lemma_seed_with_all(nodes.drop_last());
        assert(nodes.drop_last().push(nodes.last()) == nodes);
    }
}

/// Why a source text has no syntax: it is no Rust source.
#[derive(Debug, PartialEq, Eq)]
pub struct SyntaxError {
    /// What is said of it.
    pub message: String,
}

/// Parses a source text, as far as its characters can be numbered.
pub fn parse_source(source: &str) -> (out: Result<File, SyntaxError>)
    requires
        source@.len() <= LONGEST_SOURCE,
    ensures
        match out {
            Ok(file) => syntax_of(source@) == Ok::<FileView, Seq<char>>(file@),
            Err(error) => syntax_of(source@) == Err::<FileView, Seq<char>>(error.message@),
        },
{
    match parse(source) {
        Ok(trace) => Ok(File { attrs: trace.attrs, nodes: assemble(trace.steps) }),
        Err(message) => Err(SyntaxError { message }),
    }
}

/// The syntax of a source text is the tree that was walked, with the attributes of the
/// file; and what is said of a text that is no source is handed on.
pub proof fn law_the_syntax_is_what_was_walked(
    source: Seq<char>,
    attrs: Seq<ClauseView>,
    nodes: Seq<NodeView>,
    said: Seq<char>,
)
    ensures
        trace_of(source) == Ok::<TraceView, Seq<char>>(
            TraceView { attrs, steps: walk_over_all(nodes) },
        ) ==> syntax_of(source) == Ok::<FileView, Seq<char>>(FileView { attrs, nodes }),
        trace_of(source) == Err::<TraceView, Seq<char>>(said) ==> syntax_of(source) == Err::<
            FileView,
            Seq<char>,
        >(said),
{
    law_a_walk_makes_its_tree(nodes);
}

/// A walk over a tree enters a construct, walks over what stands inside in order, and
/// leaves it.
pub proof fn law_a_walk_enters_and_leaves(node: NodeView, a: Seq<NodeView>, b: Seq<NodeView>)
    ensures
        walk_over_all(seq![node]) == seq![StepView::Enter { head: node.head }] + walk_over_all(
            node.children,
        ) + seq![StepView::Leave],
        walk_over_all(a + b) == walk_over_all(a) + walk_over_all(b),
        walk_over_all(Seq::<NodeView>::empty()) == Seq::<StepView>::empty(),
    decreases b.len(),
{
    let none = Seq::<StepView>::empty();
    assert(seq![node].drop_last() == Seq::<NodeView>::empty());
    assert(walk_over_all(seq![node].drop_last()) == none);
    assert(none + walk_over(node) == walk_over(node));
    if b.len() == 0 {
        assert(a + b == a);
        assert(walk_over_all(a) + walk_over_all(b) == walk_over_all(a));
    } else {
        assert((a + b).drop_last() == a + b.drop_last());
        assert((a + b).last() == b.last());
        law_a_walk_enters_and_leaves(node, a, b.drop_last());
        assert((walk_over_all(a) + walk_over_all(b.drop_last())) + walk_over(b.last())
            == walk_over_all(a) + (walk_over_all(b.drop_last()) + walk_over(b.last())));
    }
}

} // verus!

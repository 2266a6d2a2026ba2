//! The crates of a cargo workspace: which of them are product, and in which
//! order their sources are read.

use vstd::prelude::*;

use crate::order::{Rank, Ranked};
use crate::text;

verus! {

/// What is read of the metadata of a workspace.
#[derive(Debug, PartialEq, Eq)]
pub struct Metadata {
    /// The root of the workspace.
    pub workspace_root: String,
    /// Its members.
    pub packages: Vec<Package>,
}

/// One member of a workspace.
#[derive(Debug, PartialEq, Eq)]
pub struct Package {
    /// Its name, by which members are ordered.
    pub name: String,
    /// The crates that are built from it.
    pub targets: Vec<Target>,
}

/// One crate that is built from a package.
#[derive(Debug, PartialEq, Eq)]
pub struct Target {
    /// Its name.
    pub name: String,
    /// What it is.
    pub kind: Vec<String>,
    /// The file that it is rooted at.
    pub src_path: String,
}

/// What a `Target` holds.
#[verifier::ext_equal]
pub struct TargetView {
    /// See `Target::name`.
    pub name: Seq<char>,
    /// See `Target::kind`.
    pub kind: Seq<Seq<char>>,
    /// See `Target::src_path`.
    pub src_path: Seq<char>,
}

/// What a `Package` holds.
#[verifier::ext_equal]
pub struct PackageView {
    /// See `Package::name`.
    pub name: Seq<char>,
    /// See `Package::targets`.
    pub targets: Seq<TargetView>,
}

impl View for Target {
    type V = TargetView;

    open spec fn view(&self) -> TargetView {
        TargetView { name: self.name@, kind: text::views(self.kind@), src_path: self.src_path@ }
    }
}

impl View for Package {
    type V = PackageView;

    open spec fn view(&self) -> PackageView {
        PackageView {
            name: self.name@,
            targets: self.targets@.map_values(|target: Target| target@),
        }
    }
}

/// What several `Package`s hold.
pub open spec fn packages_view(packages: Seq<Package>) -> Seq<PackageView> {
    packages.map_values(|package: Package| package@)
}

/// Whether a kind of target is built and is no product: a test, a benchmark, an
/// example, a build script.
pub open spec fn beside_product(kind: Seq<char>) -> bool {
    kind == "test"@ || kind == "bench"@ || kind == "example"@ || kind == "custom-build"@
}

/// The place of a target among those of its package: what is a binary comes
/// after what is not, and then the name decides.
#[derive(Debug, PartialEq, Eq, PartialOrd, Ord)]
pub struct TargetKey {
    /// Whether it is a binary.
    pub binary: bool,
    /// Its name.
    pub name: String,
}

/// What a `TargetKey` holds.
#[verifier::ext_equal]
pub struct TargetKeyView {
    /// See `TargetKey::binary`.
    pub binary: bool,
    /// See `TargetKey::name`.
    pub name: Seq<char>,
}

impl View for TargetKey {
    type V = TargetKeyView;

    open spec fn view(&self) -> TargetKeyView {
        TargetKeyView { binary: self.binary, name: self.name@ }
    }
}

impl Rank for TargetKeyView {
    open spec fn precedes(self, other: TargetKeyView) -> bool {
        ||| !self.binary && other.binary
        ||| self.binary == other.binary && text::before(self.name, other.name)
    }

    proof fn irreflexive(a: TargetKeyView) {
        text::lemma_before_irreflexive(a.name);
    }

    proof fn transitive(a: TargetKeyView, b: TargetKeyView, c: TargetKeyView) {
        if text::before(a.name, b.name) && text::before(b.name, c.name) {
            text::lemma_before_transitive(a.name, b.name, c.name);
        }
    }

    proof fn connected(a: TargetKeyView, b: TargetKeyView, c: TargetKeyView) {
        text::lemma_before_total(a.name, b.name);
        if text::before(b.name, a.name) && text::before(a.name, c.name) {
            text::lemma_before_transitive(b.name, a.name, c.name);
        }
    }
}

impl Ranked<TargetKeyView> for TargetKey {
    fn ranks_before(&self, other: &TargetKey) -> (r: bool) {
        if self.binary == other.binary {
            text::comes_before(&self.name, &other.name)
        } else {
            other.binary
        }
    }
}

impl TargetView {
    /// Whether the target is product: none of its kinds is beside the product.
    pub open spec fn product(self) -> bool {
        forall|i: int| 0 <= i < self.kind.len() ==> !beside_product(#[trigger] self.kind[i])
    }

    /// The identifier of the crate: the name of the target with underscores for
    /// its hyphens.
    pub open spec fn ident(self) -> Seq<char> {
        self.name.map_values(
            |c: char|
                if c == '-' {
                    '_'
                } else {
                    c
                },
        )
    }

    /// The place of the target among those of its package.
    pub open spec fn key(self) -> TargetKeyView {
        TargetKeyView { binary: self.kind.contains("bin"@), name: self.name }
    }
}

impl Target {
    /// Whether the target is product.
    pub fn is_product(&self) -> (r: bool)
        ensures
            r == self@.product(),
    {
        let ghost kinds = self@.kind;
        let mut i: usize = 0;
        while i < self.kind.len()
            invariant
                i <= self.kind.len(),
                kinds == self@.kind,
                forall|k: int| 0 <= k < i ==> !beside_product(#[trigger] kinds[k]),
            decreases self.kind.len() - i,
        {
            let kind = &self.kind[i];
            assert(kinds[i as int] == kind@);
            if text::same(kind, "test") || text::same(kind, "bench") || text::same(kind, "example")
                || text::same(kind, "custom-build") {
                return false;
            }
            i += 1;
        }
        true
    }

    /// The identifier that the modules of the target are qualified by. It is
    /// that of the target, whatever its package is called.
    pub fn crate_ident(&self) -> (out: String)
        ensures
            out@ == self@.ident(),
    {
        text::with_each(&self.name, '-', '_')
    }

    /// The place of the target among those of its package. A module shared by a
    /// library and a binary belongs to the library, because it comes first.
    pub fn order_key(&self) -> (out: TargetKey)
        ensures
            out@ == self@.key(),
    {
        TargetKey { binary: text::holds(&self.kind, "bin"), name: self.name.clone() }
    }
}

/// A name, by which members are ordered.
#[derive(Debug)]
struct NameKey {
    name: String,
}

/// What a `NameKey` holds.
#[verifier::ext_equal]
pub struct NameKeyView {
    /// The name.
    pub name: Seq<char>,
}

impl View for NameKey {
    type V = NameKeyView;

    closed spec fn view(&self) -> NameKeyView {
        NameKeyView { name: self.name@ }
    }
}

impl Rank for NameKeyView {
    open spec fn precedes(self, other: NameKeyView) -> bool {
        text::before(self.name, other.name)
    }

    proof fn irreflexive(a: NameKeyView) {
        text::lemma_before_irreflexive(a.name);
    }

    proof fn transitive(a: NameKeyView, b: NameKeyView, c: NameKeyView) {
        text::lemma_before_transitive(a.name, b.name, c.name);
    }

    proof fn connected(a: NameKeyView, b: NameKeyView, c: NameKeyView) {
        text::lemma_before_total(a.name, b.name);
        if text::before(b.name, a.name) {
            text::lemma_before_transitive(b.name, a.name, c.name);
        }
    }
}

impl Ranked<NameKeyView> for NameKey {
    fn ranks_before(&self, other: &NameKey) -> (r: bool) {
        text::comes_before(&self.name, &other.name)
    }
}

/// The root of one crate.
#[derive(Debug, PartialEq, Eq)]
pub struct CrateRoot {
    /// The file that the crate is rooted at.
    pub src_path: String,
    /// The identifier of the crate.
    pub crate_ident: String,
}

/// What a `CrateRoot` holds.
#[verifier::ext_equal]
pub struct CrateRootView {
    /// See `CrateRoot::src_path`.
    pub src_path: Seq<char>,
    /// See `CrateRoot::crate_ident`.
    pub crate_ident: Seq<char>,
}

impl View for CrateRoot {
    type V = CrateRootView;

    open spec fn view(&self) -> CrateRootView {
        CrateRootView { src_path: self.src_path@, crate_ident: self.crate_ident@ }
    }
}

/// What several `CrateRoot`s hold.
pub open spec fn crate_roots_view(roots: Seq<CrateRoot>) -> Seq<CrateRootView> {
    roots.map_values(|root: CrateRoot| root@)
}

/// The targets of a package that are product, as it lists them.
pub open spec fn products(targets: Seq<TargetView>) -> Seq<TargetView> {
    targets.filter(|target: TargetView| target.product())
}

/// What targets are ordered by.
pub open spec fn target_keys(targets: Seq<TargetView>) -> Seq<TargetKeyView> {
    targets.map_values(|target: TargetView| target.key())
}

/// The root of a target.
pub open spec fn root_of(target: TargetView) -> CrateRootView {
    CrateRootView { src_path: target.src_path, crate_ident: target.ident() }
}

/// The roots of the crates of a package, libraries first and then by name.
pub open spec fn package_roots(package: PackageView) -> Seq<CrateRootView> {
    let kept = products(package.targets);
    crate::order::ordering(target_keys(kept)).map_values(|p: int| root_of(kept[p]))
}

/// What members are ordered by.
pub open spec fn package_keys(packages: Seq<PackageView>) -> Seq<NameKeyView> {
    packages.map_values(|package: PackageView| NameKeyView { name: package.name })
}

/// The roots of the crates of packages, in the given order of them.
pub open spec fn roots_in(packages: Seq<PackageView>, order: Seq<int>) -> Seq<CrateRootView>
    decreases order.len(),
{
    if order.len() == 0 {
        Seq::empty()
    } else {
        roots_in(packages, order.drop_last()) + package_roots(packages[order.last()])
    }
}

/// The roots of the crates of a workspace: members by name, and the crates of
/// each with libraries first and then by name.
pub open spec fn workspace_roots(packages: Seq<PackageView>) -> Seq<CrateRootView> {
    roots_in(packages, crate::order::ordering(package_keys(packages)))
}

/// The positions of the targets of a package that are product.
fn product_positions(package: &Package) -> (out: Vec<usize>)
    ensures
        forall|k: int| 0 <= k < out@.len() ==> (#[trigger] out@[k]) < package.targets@.len(),
        out@.map_values(|p: usize| package.targets@[p as int]@) == products(package@.targets),
{
    let ghost views = package@.targets;
    let mut out: Vec<usize> = Vec::new();
    let mut i: usize = 0;
    proof {
        reveal(Seq::filter);
    }
    assert(out@.map_values(|p: usize| package.targets@[p as int]@) == products(views.take(0)));
    while i < package.targets.len()
        invariant
            i <= package.targets.len(),
            views == package@.targets,
            forall|k: int| 0 <= k < out@.len() ==> (#[trigger] out@[k]) < package.targets@.len(),
            out@.map_values(|p: usize| package.targets@[p as int]@) == products(
                views.take(i as int),
            ),
        decreases package.targets.len() - i,
    {
        assert(views.take(i + 1).drop_last() == views.take(i as int));
        assert(views.take(i + 1).last() == package.targets@[i as int]@);
        proof {
            reveal(Seq::filter);
        }
        let ghost before = out@;
        if package.targets[i].is_product() {
            out.push(i);
            assert(out@.map_values(|p: usize| package.targets@[p as int]@) == before.map_values(
                |p: usize| package.targets@[p as int]@,
            ).push(package.targets@[i as int]@));
        }
        i += 1;
    }
    assert(views.take(i as int) == views);
    out
}

/// The roots of the crates of a package, libraries first and then by name.
fn roots_of_package(package: &Package) -> (out: Vec<CrateRoot>)
    ensures
        crate_roots_view(out@) == package_roots(package@),
{
    let kept = product_positions(package);
    let ghost targets = products(package@.targets);
    let mut keys: Vec<TargetKey> = Vec::new();
    let mut i: usize = 0;
    while i < kept.len()
        invariant
            i <= kept.len(),
            keys@.len() == i,
            targets == kept@.map_values(|p: usize| package.targets@[p as int]@),
            forall|k: int| 0 <= k < kept@.len() ==> (#[trigger] kept@[k]) < package.targets@.len(),
            forall|k: int| 0 <= k < i ==> (#[trigger] keys@[k])@ == targets[k].key(),
        decreases kept.len() - i,
    {
        assert(targets[i as int] == package.targets@[kept@[i as int] as int]@);
        keys.push(package.targets[kept[i]].order_key());
        i += 1;
    }
    let order = crate::order::sort(&keys);
    assert(crate::order::ranks::<TargetKeyView, TargetKey>(keys@) == target_keys(targets));
    let ghost all = package_roots(package@);
    assert forall|k: int| 0 <= k < order@.len() implies (#[trigger] order@[k]) < kept.len() && all[k]
        == root_of(targets[order@[k] as int]) by {
        assert(crate::order::positions(order@)[k] == order@[k]);
    }
    let mut out: Vec<CrateRoot> = Vec::new();
    let mut n: usize = 0;
    while n < order.len()
        invariant
            n <= order.len(),
            out@.len() == n,
            all.len() == order@.len(),
            targets == kept@.map_values(|p: usize| package.targets@[p as int]@),
            forall|k: int| 0 <= k < kept@.len() ==> (#[trigger] kept@[k]) < package.targets@.len(),
            forall|k: int|
                0 <= k < order@.len() ==> (#[trigger] order@[k]) < kept.len() && all[k] == root_of(
                    targets[order@[k] as int],
                ),
            forall|k: int| 0 <= k < n ==> (#[trigger] out@[k])@ == all[k],
        decreases order.len() - n,
    {
        let place: usize = order[n];
        assert(targets[place as int] == package.targets@[kept@[place as int] as int]@);
        let target = &package.targets[kept[place]];
        out.push(CrateRoot { src_path: target.src_path.clone(), crate_ident: target.crate_ident() });
        n += 1;
    }
    assert(crate_roots_view(out@) == all);
    out
}

/// The roots of the crates of a workspace, in the order in which they are read:
/// members by name, and the crates of each with libraries first and then by
/// name.
pub fn crate_roots(metadata: &Metadata) -> (out: Vec<CrateRoot>)
    ensures
        crate_roots_view(out@) == workspace_roots(packages_view(metadata.packages@)),
{
    let ghost views = packages_view(metadata.packages@);
    let mut keys: Vec<NameKey> = Vec::new();
    let mut i: usize = 0;
    while i < metadata.packages.len()
        invariant
            i <= metadata.packages.len(),
            keys@.len() == i,
            forall|k: int|
                0 <= k < i ==> (#[trigger] keys@[k])@.name == metadata.packages@[k].name@,
        decreases metadata.packages.len() - i,
    {
        keys.push(NameKey { name: metadata.packages[i].name.clone() });
        i += 1;
    }
    let order = crate::order::sort(&keys);
    assert(crate::order::ranks::<NameKeyView, NameKey>(keys@) == package_keys(views));
    let ghost all = crate::order::ordering(package_keys(views));
    assert forall|k: int| 0 <= k < order@.len() implies (#[trigger] order@[k])
        < metadata.packages.len() && all[k] == order@[k] by {
        assert(crate::order::positions(order@)[k] == order@[k]);
    }
    let mut out: Vec<CrateRoot> = Vec::new();
    let mut n: usize = 0;
    assert(crate_roots_view(out@) == roots_in(views, all.take(0)));
    while n < order.len()
        invariant
            n <= order.len(),
            views == packages_view(metadata.packages@),
            all.len() == order@.len(),
            forall|k: int|
                0 <= k < order@.len() ==> (#[trigger] order@[k]) < metadata.packages.len() && all[k]
                    == order@[k],
            crate_roots_view(out@) == roots_in(views, all.take(n as int)),
        decreases order.len() - n,
    {
        assert(all.take(n + 1).drop_last() == all.take(n as int));
        assert(views[all[n as int]] == metadata.packages@[order@[n as int] as int]@);
        let mut more = roots_of_package(&metadata.packages[order[n]]);
        let ghost before = out@;
        let ghost added = more@;
        out.append(&mut more);
        assert(crate_roots_view(out@) == crate_roots_view(before) + crate_roots_view(added));
        n += 1;
    }
    assert(all.take(n as int) == all);
    out
}

/// Only product is read: every crate root is that of a product target of its
/// package, and no product target is left out or read twice.
pub proof fn law_exactly_the_product_is_read(package: PackageView)
    ensures
        package_roots(package).to_multiset() == products(package.targets).map_values(
            |target: TargetView| root_of(target),
        ).to_multiset(),
        forall|i: int|
            0 <= i < products(package.targets).len() ==> (#[trigger] products(
                package.targets,
            )[i]).product(),
        forall|i: int|
            0 <= i < package.targets.len() && package.targets[i].product() ==> products(
                package.targets,
            ).contains(#[trigger] package.targets[i]),
{
    let kept = products(package.targets);
    let roots = kept.map_values(|target: TargetView| root_of(target));
    crate::order::law_every_list_has_an_order(target_keys(kept));
    crate::order::law_an_order_keeps_every_value(target_keys(kept), roots);
    let order = crate::order::ordering(target_keys(kept));
    assert(package_roots(package) == order.map_values(|q: int| roots[q]));
    let keep = |target: TargetView| target.product();
    assert forall|i: int| 0 <= i < kept.len() implies (#[trigger] kept[i]).product() by {
        package.targets.lemma_filter_pred(keep, i);
    }
    assert forall|i: int|
        0 <= i < package.targets.len() && package.targets[i].product() implies kept.contains(
        #[trigger] package.targets[i],
    ) by {
        package.targets.lemma_filter_contains(keep, i);
    }
}

/// The library of a package is read before its binaries, so that a module that
/// both declare belongs to the library.
pub proof fn law_libraries_are_read_first(package: PackageView, i: int, j: int)
    requires
        0 <= i < j < products(package.targets).len(),
    ensures
        ({
            let kept = products(package.targets);
            let order = crate::order::ordering(target_keys(kept));
            &&& package_roots(package)[i] == root_of(kept[order[i]])
            &&& package_roots(package)[j] == root_of(kept[order[j]])
            &&& kept[order[i]].kind.contains("bin"@) ==> kept[order[j]].kind.contains("bin"@)
        }),
{
    let kept = products(package.targets);
    let keys = target_keys(kept);
    let order = crate::order::ordering(keys);
    crate::order::law_every_list_has_an_order(keys);
    assert(crate::order::earlier(keys, order[i], order[j]));
    assert(keys[order[i]] == kept[order[i]].key());
    assert(keys[order[j]] == kept[order[j]].key());
}

/// A target is product unless it is a test, a benchmark, an example or a build
/// script, whatever else it is.
pub proof fn law_what_is_product(
    target: TargetView,
    before: Seq<Seq<char>>,
    kind: Seq<char>,
    after: Seq<Seq<char>>,
)
    ensures
        ({
            let with = TargetView { kind: before.push(kind) + after, ..target };
            let without = TargetView { kind: before + after, ..target };
            with.product() <==> without.product() && kind != "test"@ && kind != "bench"@ && kind
                != "example"@ && kind != "custom-build"@
        }),
        (TargetView { kind: Seq::empty(), ..target }).product(),
{
    let with = TargetView { kind: before.push(kind) + after, ..target };
    let without = TargetView { kind: before + after, ..target };
    let at = before.len() as int;
    assert(with.kind[at] == kind);
    assert forall|i: int| 0 <= i < without.kind.len() implies #[trigger] without.kind[i]
        == with.kind[if i < at { i } else { i + 1 }] by {}
    assert forall|i: int| 0 <= i < with.kind.len() && i != at implies #[trigger] with.kind[i]
        == without.kind[if i < at { i } else { i - 1 }] by {}
    if with.product() {
        assert(!beside_product(with.kind[at]));
        assert forall|i: int| 0 <= i < without.kind.len() implies !beside_product(
            #[trigger] without.kind[i],
        ) by {
            assert(!beside_product(with.kind[if i < at { i } else { i + 1 }]));
        }
    }
    if without.product() && !beside_product(kind) {
        assert forall|i: int| 0 <= i < with.kind.len() implies !beside_product(
            #[trigger] with.kind[i],
        ) by {
            if i != at {
                assert(!beside_product(without.kind[if i < at { i } else { i - 1 }]));
            }
        }
    }
}

/// A crate is called as its target, with underscores for hyphens and nothing else
/// changed.
pub proof fn law_only_hyphens_change_in_a_name(target: TargetView, i: int)
    requires
        0 <= i < target.name.len(),
    ensures
        target.ident().len() == target.name.len(),
        target.name[i] == '-' ==> target.ident()[i] == '_',
        target.name[i] != '-' ==> target.ident()[i] == target.name[i],
        root_of(target).src_path == target.src_path,
        root_of(target).crate_ident == target.ident(),
{
}

/// Of targets that are both binaries, or both none, the one whose name comes first is
/// read first.
pub proof fn law_targets_are_read_by_name(package: PackageView, i: int, j: int)
    requires
        0 <= i < j < products(package.targets).len(),
    ensures
        ({
            let kept = products(package.targets);
            let order = crate::order::ordering(target_keys(kept));
            let (a, b) = (kept[order[i]], kept[order[j]]);
            &&& package_roots(package)[i] == root_of(a)
            &&& package_roots(package)[j] == root_of(b)
            &&& a.kind.contains("bin"@) == b.kind.contains("bin"@) ==> !text::before(b.name, a.name)
        }),
{
    let kept = products(package.targets);
    let keys = target_keys(kept);
    let order = crate::order::ordering(keys);
    crate::order::law_what_is_sorted_ascends(keys, i, j);
    assert(keys[order[i]] == kept[order[i]].key());
    assert(keys[order[j]] == kept[order[j]].key());
}

/// The crates of every member are read, one member after the other, and the members
/// in the order of their names.
pub proof fn law_members_are_read_by_name(
    packages: Seq<PackageView>,
    order: Seq<int>,
    p: int,
    i: int,
    j: int,
)
    requires
        0 <= i < j < packages.len(),
    ensures
        roots_in(packages, order.push(p)) == roots_in(packages, order) + package_roots(packages[p]),
        roots_in(packages, Seq::<int>::empty()) == Seq::<CrateRootView>::empty(),
        ({
            let order = crate::order::ordering(package_keys(packages));
            &&& workspace_roots(packages) == roots_in(packages, order)
            &&& order.len() == packages.len()
            &&& order.no_duplicates()
            &&& !text::before(packages[order[j]].name, packages[order[i]].name)
        }),
{
    assert(order.push(p).drop_last() == order);
    let keys = package_keys(packages);
    crate::order::law_what_is_sorted_ascends(keys, i, j);
    crate::order::law_every_position_is_named_once(keys, i);
    let sorted = crate::order::ordering(keys);
    assert(keys[sorted[i]].name == packages[sorted[i]].name);
    assert(keys[sorted[j]].name == packages[sorted[j]].name);
}

} // verus!

//! Path fragments that narrow a report.
//!
//! A fragment matches a path when its segments are a consecutive run of the
//! segments of the path: `crates/alpha` selects `crates/alpha/src/lib.rs` and
//! not `crates/alpha-utils/src/lib.rs`. Upper and lower case are told apart.
//! Nothing here decides what is measured; it decides what is shown.

use vstd::prelude::*;

use crate::text;

verus! {

/// The segments by which a fragment is matched. Backslashes separate too.
pub open spec fn fragment_segments(fragment: Seq<char>) -> Seq<Seq<char>> {
    text::segments(text::slashed(fragment))
}

/// Whether `needle` stands in `haystack` at `at`.
pub open spec fn stands_at(haystack: Seq<Seq<char>>, needle: Seq<Seq<char>>, at: int) -> bool {
    0 <= at <= haystack.len() - needle.len() && haystack.subrange(at, at + needle.len()) == needle
}

/// Whether `needle` has a segment, and is a consecutive run of `haystack`.
pub open spec fn is_run(haystack: Seq<Seq<char>>, needle: Seq<Seq<char>>) -> bool {
    needle.len() > 0 && exists|at: int| #[trigger] stands_at(haystack, needle, at)
}

/// Whether a fragment matches a path.
pub open spec fn matches_path(fragment: Seq<char>, path: Seq<char>) -> bool {
    is_run(text::segments(path), fragment_segments(fragment))
}

/// The positions of the fragments that match a path, in ascending order.
pub open spec fn matching(fragments: Seq<Seq<char>>, path: Seq<char>) -> Seq<int>
    decreases fragments.len(),
{
    if fragments.len() == 0 {
        Seq::empty()
    } else {
        let rest = matching(fragments.drop_last(), path);
        if matches_path(fragments.last(), path) {
            rest.push(fragments.len() - 1)
        } else {
            rest
        }
    }
}

/// Whether a path is selected: there is no fragment at all, or one matches it.
pub open spec fn selects(fragments: Seq<Seq<char>>, path: Seq<char>) -> bool {
    fragments.len() == 0 || matching(fragments, path).len() > 0
}

/// The fragments whose positions are not in `matched`, in order.
pub open spec fn unmatched_of(fragments: Seq<Seq<char>>, matched: Set<int>) -> Seq<Seq<char>>
    decreases fragments.len(),
{
    if fragments.len() == 0 {
        Seq::empty()
    } else {
        let rest = unmatched_of(fragments.drop_last(), matched);
        if matched.contains(fragments.len() - 1) {
            rest
        } else {
            rest.push(fragments.last())
        }
    }
}

/// The positions that a list holds.
pub open spec fn position_set(positions: Seq<usize>) -> Set<int> {
    Set::new(|i: int| 0 <= i <= usize::MAX && positions.contains(i as usize))
}

/// One fragment: as it is spelled, and the segments that it is matched by.
#[derive(Debug, PartialEq, Eq)]
struct Fragment {
    text: String,
    segments: Vec<String>,
}

/// The fragments that a run was given.
#[derive(Debug, PartialEq, Eq)]
pub struct Filters {
    fragments: Vec<Fragment>,
}

/// The view of some filters is the fragments as they are spelled.
impl View for Filters {
    type V = Seq<Seq<char>>;

    closed spec fn view(&self) -> Seq<Seq<char>> {
        self.fragments@.map_values(|fragment: Fragment| fragment.text@)
    }
}

/// What filters have to say about one path.
#[derive(Debug, PartialEq, Eq)]
pub struct Selection {
    selected: bool,
    matched: Vec<usize>,
}

impl Selection {
    /// Whether the path reaches the report.
    pub closed spec fn selected(self) -> bool {
        self.selected
    }

    /// The positions of the fragments that matched it.
    pub closed spec fn positions(self) -> Seq<usize> {
        self.matched@
    }

    /// Whether the path reaches the report.
    pub fn is_selected(&self) -> (r: bool)
        ensures
            r == self.selected(),
    {
        self.selected
    }

    /// The positions of the fragments that matched it, in ascending order.
    pub fn matched(&self) -> (out: &Vec<usize>)
        ensures
            out@ == self.positions(),
    {
        &self.matched
    }
}

/// Whether `needle` stands in `haystack` at `at`.
fn fits_at(haystack: &Vec<String>, needle: &Vec<String>, at: usize) -> (r: bool)
    requires
        at + needle.len() <= haystack.len(),
    ensures
        r == stands_at(text::views(haystack@), text::views(needle@), at as int),
{
    let ghost hay = text::views(haystack@);
    let ghost wanted = text::views(needle@);
    let mut i: usize = 0;
    while i < needle.len()
        invariant
            i <= needle.len(),
            at + needle.len() <= haystack.len(),
            hay == text::views(haystack@),
            wanted == text::views(needle@),
            forall|k: int| 0 <= k < i ==> hay[at + k] == wanted[k],
        decreases needle.len() - i,
    {
        assert(hay[at + i] == haystack@[at + i]@);
        assert(wanted[i as int] == needle@[i as int]@);
        if !text::same(&haystack[at + i], &needle[i]) {
            assert(hay.subrange(at as int, at + wanted.len())[i as int] != wanted[i as int]);
            return false;
        }
        i += 1;
    }
    assert(hay.subrange(at as int, at + wanted.len()) == wanted);
    true
}

/// Whether `needle` is a consecutive run of `haystack`. An empty one is not: it
/// expresses no intent.
fn contains(haystack: &Vec<String>, needle: &Vec<String>) -> (r: bool)
    ensures
        r == is_run(text::views(haystack@), text::views(needle@)),
{
    let ghost hay = text::views(haystack@);
    let ghost wanted = text::views(needle@);
    if needle.len() == 0 || needle.len() > haystack.len() {
        return false;
    }
    let last: usize = haystack.len() - needle.len();
    let mut at: usize = 0;
    loop
        invariant
            at <= last,
            last == haystack.len() - needle.len(),
            0 < needle.len() <= haystack.len(),
            hay == text::views(haystack@),
            wanted == text::views(needle@),
            forall|k: int| 0 <= k < at ==> !#[trigger] stands_at(hay, wanted, k),
        decreases last - at,
    {
        let fits = fits_at(haystack, needle, at);
        if fits {
            return true;
        }
        if at == last {
            assert(!is_run(hay, wanted));
            return false;
        }
        at += 1;
    }
}

impl Filters {
    /// The segments of each fragment are those that it is matched by.
    #[verifier::type_invariant]
    spec fn well_formed(self) -> bool {
        forall|i: int|
            0 <= i < self.fragments@.len() ==> text::views(
                (#[trigger] self.fragments@[i]).segments@,
            ) == fragment_segments(self.fragments@[i].text@)
    }

    /// Takes the fragments as given.
    pub fn new(fragments: &Vec<String>) -> (out: Filters)
        ensures
            out@ == text::views(fragments@),
    {
        let mut kept: Vec<Fragment> = Vec::new();
        let mut i: usize = 0;
        while i < fragments.len()
            invariant
                i <= fragments.len(),
                kept@.len() == i,
                forall|k: int|
                    0 <= k < i ==> (#[trigger] kept@[k]).text@ == fragments@[k]@ && text::views(
                        kept@[k].segments@,
                    ) == fragment_segments(kept@[k].text@),
            decreases fragments.len() - i,
        {
            let spelled = fragments[i].clone();
            let segments = text::segments_of(&text::with_slashes(&spelled));
            kept.push(Fragment { text: spelled, segments });
            i += 1;
        }
        let out = Filters { fragments: kept };
        assert(out@ == text::views(fragments@));
        out
    }

    /// Whether no filter was given, so that every file is selected.
    pub fn is_empty(&self) -> (r: bool)
        ensures
            r == (self@.len() == 0),
    {
        self.fragments.len() == 0
    }

    /// The fragments as they are spelled, in the order given.
    pub fn fragments(&self) -> (out: Vec<String>)
        ensures
            text::views(out@) == self@,
    {
        let mut out: Vec<String> = Vec::new();
        let mut i: usize = 0;
        while i < self.fragments.len()
            invariant
                i <= self.fragments.len(),
                out@.len() == i,
                forall|k: int| 0 <= k < i ==> (#[trigger] out@[k])@ == self.fragments@[k].text@,
            decreases self.fragments.len() - i,
        {
            out.push(self.fragments[i].text.clone());
            i += 1;
        }
        out
    }

    /// What the filters have to say about a path. Several fragments are
    /// alternatives: one that matches is enough.
    pub fn select(&self, path: &str) -> (out: Selection)
        ensures
            out.selected() == selects(self@, path@),
            out.positions().map_values(|i: usize| i as int) == matching(self@, path@),
    {
        let segments = text::segments_of(path);
        let mut matched: Vec<usize> = Vec::new();
        let mut i: usize = 0;
        proof {
            use_type_invariant(self);
        }
        assert(self@.take(0) == Seq::<Seq<char>>::empty());
        while i < self.fragments.len()
            invariant
                i <= self.fragments.len(),
                self.well_formed(),
                text::views(segments@) == text::segments(path@),
                matched@.map_values(|i: usize| i as int) == matching(self@.take(i as int), path@),
            decreases self.fragments.len() - i,
        {
            let ghost before = matched@;
            assert(self@.take(i + 1).drop_last() == self@.take(i as int));
            assert(self@.take(i + 1).last() == self.fragments@[i as int].text@);
            if contains(&segments, &self.fragments[i].segments) {
                matched.push(i);
                assert(matched@.map_values(|i: usize| i as int) == before.map_values(
                    |i: usize| i as int,
                ).push(i as int));
            }
            i += 1;
        }
        assert(self@.take(i as int) == self@);
        assert(matched@.len() == matching(self@, path@).len());
        Selection { selected: self.fragments.len() == 0 || matched.len() > 0, matched }
    }

    /// The fragments that selected nothing, as they are spelled, given the
    /// positions of those that did.
    pub fn unmatched(&self, matched: &Vec<usize>) -> (out: Vec<String>)
        ensures
            text::views(out@) == unmatched_of(self@, position_set(matched@)),
    {
        let mut out: Vec<String> = Vec::new();
        let mut i: usize = 0;
        assert(self@.take(0) == Seq::<Seq<char>>::empty());
        while i < self.fragments.len()
            invariant
                i <= self.fragments.len(),
                text::views(out@) == unmatched_of(self@.take(i as int), position_set(matched@)),
            decreases self.fragments.len() - i,
        {
            let ghost before = out@;
            assert(self@.take(i + 1).drop_last() == self@.take(i as int));
            assert(self@.take(i + 1).last() == self.fragments@[i as int].text@);
            if !holds_position(matched, i) {
                out.push(self.fragments[i].text.clone());
                assert(text::views(out@) == text::views(before).push(
                    self.fragments@[i as int].text@,
                ));
            }
            i += 1;
        }
        assert(self@.take(i as int) == self@);
        out
    }
}

/// Whether a list holds a position.
fn holds_position(positions: &Vec<usize>, wanted: usize) -> (r: bool)
    ensures
        r == position_set(positions@).contains(wanted as int),
{
    let mut i: usize = 0;
    while i < positions.len()
        invariant
            i <= positions.len(),
            forall|k: int| 0 <= k < i ==> positions@[k] != wanted,
        decreases positions.len() - i,
    {
        if positions[i] == wanted {
            assert(positions@.contains(wanted));
            return true;
        }
        i += 1;
    }
    assert(!positions@.contains(wanted));
    false
}

/// The positions of the matching fragments are positions of fragments that
/// match.
pub proof fn lemma_matching(fragments: Seq<Seq<char>>, path: Seq<char>)
    ensures
        forall|k: int|
            0 <= k < matching(fragments, path).len() ==> 0 <= #[trigger] matching(
                fragments,
                path,
            )[k] < fragments.len() && matches_path(fragments[matching(fragments, path)[k]], path),
        forall|i: int|
            0 <= i < fragments.len() && matches_path(#[trigger] fragments[i], path) ==> matching(
                fragments,
                path,
            ).contains(i),
    decreases fragments.len(),
{
    if fragments.len() > 0 {
        let rest = fragments.drop_last();
        let known = matching(rest, path);
        let all = matching(fragments, path);
        lemma_matching(rest, path);
        assert forall|k: int| 0 <= k < all.len() implies 0 <= #[trigger] all[k] < fragments.len()
            && matches_path(fragments[all[k]], path) by {
            if k < known.len() {
                assert(known[k] == all[k]);
                assert(rest[known[k]] == fragments[all[k]]);
            }
        }
        assert forall|i: int|
            0 <= i < fragments.len() && matches_path(
                #[trigger] fragments[i],
                path,
            ) implies all.contains(i) by {
            if i < fragments.len() - 1 {
                assert(rest[i] == fragments[i]);
                assert(known.contains(i));
                let k = choose|k: int| 0 <= k < known.len() && known[k] == i;
                assert(all[k] == i);
            } else {
                assert(all[all.len() - 1] == i);
            }
        }
    }
}

/// Several fragments are alternatives: a path is selected exactly if there is
/// no fragment or one of them matches it.
pub proof fn law_fragments_are_alternatives(fragments: Seq<Seq<char>>, path: Seq<char>)
    ensures
        selects(fragments, path) <==> fragments.len() == 0 || exists|i: int|
            0 <= i < fragments.len() && matches_path(#[trigger] fragments[i], path),
{
    lemma_matching(fragments, path);
    if exists|i: int| 0 <= i < fragments.len() && matches_path(#[trigger] fragments[i], path) {
        let i = choose|i: int| 0 <= i < fragments.len() && matches_path(#[trigger] fragments[i], path);
        assert(matching(fragments, path).contains(i));
    }
    if matching(fragments, path).len() > 0 {
        assert(matches_path(fragments[matching(fragments, path)[0]], path));
    }
}

/// An empty fragment, or one of separators alone, selects nothing.
pub proof fn law_an_empty_fragment_selects_nothing(fragment: Seq<char>, path: Seq<char>)
    requires
        fragment_segments(fragment).len() == 0,
    ensures
        !matches_path(fragment, path),
        !selects(seq![fragment], path),
{
    law_fragments_are_alternatives(seq![fragment], path);
}

/// The separators of a fragment make no difference.
pub proof fn law_separators_make_no_difference(a: Seq<char>, b: Seq<char>, path: Seq<char>)
    requires
        text::slashed(a) == text::slashed(b),
    ensures
        matches_path(a, path) == matches_path(b, path),
{
}

/// A run of segments is found wherever it stands, whatever is before it and after
/// it; and what is found stands somewhere, with all of its segments side by side.
pub proof fn law_a_run_is_found_wherever_it_stands(
    before: Seq<Seq<char>>,
    needle: Seq<Seq<char>>,
    after: Seq<Seq<char>>,
    haystack: Seq<Seq<char>>,
)
    ensures
        needle.len() > 0 ==> is_run(before + needle + after, needle),
        is_run(haystack, needle) ==> needle.len() > 0 && exists|x: Seq<Seq<char>>, y: Seq<Seq<char>>|
            #[trigger] (x + needle + y) == haystack,
{
    let whole = before + needle + after;
    let at = before.len() as int;
    assert(whole.subrange(at, at + needle.len()) == needle);
    assert(stands_at(whole, needle, at));
    if is_run(haystack, needle) {
        let k = choose|k: int| #[trigger] stands_at(haystack, needle, k);
        let x = haystack.take(k);
        let y = haystack.skip(k + needle.len());
        assert(haystack.subrange(k, k + needle.len()) == needle);
        assert(x + haystack.subrange(k, k + needle.len()) + y == haystack);
        assert(x + needle + y == haystack);
    }
}

/// Directories in front of a path and segments behind it take no match away.
pub proof fn law_more_around_a_path_keeps_a_match(
    fragment: Seq<char>,
    front: Seq<char>,
    path: Seq<char>,
    back: Seq<char>,
)
    requires
        matches_path(fragment, path),
    ensures
        matches_path(fragment, front.push('/') + path),
        matches_path(fragment, path.push('/') + back),
        matches_path(fragment, front.push('/') + path.push('/') + back),
{
    let needle = fragment_segments(fragment);
    let middle = text::segments(path);
    let none = Seq::<Seq<char>>::empty();
    law_a_run_is_found_wherever_it_stands(none, needle, none, middle);
    let (x, y) = choose|x: Seq<Seq<char>>, y: Seq<Seq<char>>|
        #[trigger] (x + needle + y) == middle;
    let a = text::segments(front);
    let b = text::segments(back);
    text::law_segments_stand_between_slashes(front, path);
    text::law_segments_stand_between_slashes(path, back);
    text::law_segments_stand_between_slashes(front, path.push('/') + back);
    assert(front.push('/') + (path.push('/') + back) == front.push('/') + path.push('/') + back);
    law_a_run_is_found_wherever_it_stands(a + x, needle, y, middle);
    assert(a + x + needle + y == a + middle);
    law_a_run_is_found_wherever_it_stands(x, needle, y + b, middle);
    assert(x + needle + (y + b) == middle + b);
    law_a_run_is_found_wherever_it_stands(a + x, needle, y + b, middle);
    assert(a + x + needle + (y + b) == a + (middle + b));
}

/// Whether texts are segments of a path: none is empty or holds a separator.
pub open spec fn are_segments(parts: Seq<Seq<char>>) -> bool {
    forall|i: int|
        0 <= i < parts.len() ==> (#[trigger] parts[i]).len() > 0 && !parts[i].contains('/')
            && !parts[i].contains('\\')
}

proof fn lemma_no_backslash(parts: Seq<Seq<char>>)
    requires
        are_segments(parts),
    ensures
        !text::joined(parts, seq!['/']).contains('\\'),
    decreases parts.len(),
{
    let whole = text::joined(parts, seq!['/']);
    if parts.len() > 0 {
        let last = parts[parts.len() - 1];
        assert(!last.contains('\\'));
        if parts.len() > 1 {
            let rest = parts.drop_last();
            assert forall|i: int| 0 <= i < rest.len() implies (#[trigger] rest[i]).len() > 0
                && !rest[i].contains('/') && !rest[i].contains('\\') by {
                assert(rest[i] == parts[i]);
            }
            lemma_no_backslash(rest);
            let before = text::joined(rest, seq!['/']);
            if whole.contains('\\') {
                let k = choose|k: int| 0 <= k < whole.len() && whole[k] == '\\';
                if k < before.len() {
                    assert(before[k] == '\\');
                } else if k > before.len() {
                    assert(last[k - before.len() - 1] == '\\');
                }
            }
        }
    }
}

/// Segments written down with slashes between them match the paths in which they
/// stand side by side, and no others; in a path, only slashes separate. A path that is
/// matched reaches the report, and one that no fragment matches does not.
pub proof fn law_a_fragment_matches_where_its_segments_stand(
    needle: Seq<Seq<char>>,
    parts: Seq<Seq<char>>,
    fragments: Seq<Seq<char>>,
)
    requires
        are_segments(needle),
        forall|i: int|
            0 <= i < parts.len() ==> (#[trigger] parts[i]).len() > 0 && !parts[i].contains('/'),
        needle.len() > 0,
    ensures
        ({
            let fragment = text::joined(needle, seq!['/']);
            let path = text::joined(parts, seq!['/']);
            let stands = exists|x: Seq<Seq<char>>, y: Seq<Seq<char>>|
                #[trigger] (x + needle + y) == parts;
            &&& matches_path(fragment, path) <==> stands
            &&& stands ==> selects(fragments.push(fragment), path)
            &&& selects(seq![fragment], path) ==> stands
        }),
{
    let fragment = text::joined(needle, seq!['/']);
    let path = text::joined(parts, seq!['/']);
    lemma_no_backslash(needle);
    assert(text::slashed(fragment) == fragment) by {
        assert forall|i: int| 0 <= i < fragment.len() implies text::slashed(fragment)[i]
            == fragment[i] by {
            assert(fragment.contains(fragment[i]));
        }
        assert(text::slashed(fragment) =~= fragment);
    }
    text::law_segments_undo_joining(needle);
    text::law_segments_undo_joining(parts);
    let none = Seq::<Seq<char>>::empty();
    law_a_run_is_found_wherever_it_stands(none, needle, none, parts);
    if exists|x: Seq<Seq<char>>, y: Seq<Seq<char>>| #[trigger] (x + needle + y) == parts {
        let (x, y) = choose|x: Seq<Seq<char>>, y: Seq<Seq<char>>|
            #[trigger] (x + needle + y) == parts;
        law_a_run_is_found_wherever_it_stands(x, needle, y, parts);
    }
    let more = fragments.push(fragment);
    law_fragments_are_alternatives(more, path);
    assert(more[fragments.len() as int] == fragment);
    law_fragments_are_alternatives(seq![fragment], path);
}

/// A backslash in a fragment separates as a slash does.
pub proof fn law_a_backslash_separates(a: Seq<char>, b: Seq<char>, path: Seq<char>)
    ensures
        matches_path(a.push('\\') + b, path) == matches_path(a.push('/') + b, path),
        fragment_segments(a.push('\\') + b) == fragment_segments(a) + fragment_segments(b),
{
    assert(text::slashed(a.push('\\') + b) == text::slashed(a).push('/') + text::slashed(b));
    assert(text::slashed(a.push('/') + b) == text::slashed(a).push('/') + text::slashed(b));
    text::law_segments_stand_between_slashes(text::slashed(a), text::slashed(b));
}

/// The positions that match a path are told each once and in ascending order, and
/// a position is told exactly if its fragment matches.
pub proof fn law_positions_are_those_that_match(fragments: Seq<Seq<char>>, path: Seq<char>, i: int)
    requires
        0 <= i < fragments.len(),
    ensures
        matching(fragments, path).contains(i) <==> matches_path(fragments[i], path),
        forall|j: int, k: int|
            0 <= j < k < matching(fragments, path).len() ==> (#[trigger] matching(
                fragments,
                path,
            )[j]) < (#[trigger] matching(fragments, path)[k]),
{
    lemma_matching(fragments, path);
    lemma_matching_ascends(fragments, path);
    if matching(fragments, path).contains(i) {
        let k = choose|k: int|
            0 <= k < matching(fragments, path).len() && matching(fragments, path)[k] == i;
        assert(matches_path(fragments[matching(fragments, path)[k]], path));
    }
}

proof fn lemma_matching_ascends(fragments: Seq<Seq<char>>, path: Seq<char>)
    ensures
        forall|j: int, k: int|
            0 <= j < k < matching(fragments, path).len() ==> (#[trigger] matching(
                fragments,
                path,
            )[j]) < (#[trigger] matching(fragments, path)[k]),
    decreases fragments.len(),
{
    if fragments.len() > 0 {
        let rest = fragments.drop_last();
        let known = matching(rest, path);
        let all = matching(fragments, path);
        lemma_matching_ascends(rest, path);
        lemma_matching(rest, path);
        assert forall|j: int, k: int| 0 <= j < k < all.len() implies (#[trigger] all[j]) < (
        #[trigger] all[k]) by {
            assert(all[j] == known[j]);
            if k < known.len() {
                assert(all[k] == known[k]);
            }
        }
    }
}

/// The fragments that are left unmatched are told as they stand, in their order:
/// what two lists of fragments leave is what the one leaves, and then the other.
pub proof fn law_unmatched_fragments_keep_their_order(
    a: Seq<Seq<char>>,
    b: Seq<Seq<char>>,
    fragment: Seq<char>,
    matched: Set<int>,
)
    ensures
        unmatched_of(a + b, matched) == unmatched_of(a, matched) + unmatched_of(
            b,
            Set::new(|i: int| matched.contains(i + a.len())),
        ),
        unmatched_of(seq![fragment], matched) == (if matched.contains(0) {
            Seq::<Seq<char>>::empty()
        } else {
            seq![fragment]
        }),
    decreases b.len(),
{
    let later = Set::new(|i: int| matched.contains(i + a.len()));
    assert(seq![fragment].drop_last() == Seq::<Seq<char>>::empty());
    assert(unmatched_of(seq![fragment].drop_last(), matched) == Seq::<Seq<char>>::empty());
    assert(Seq::<Seq<char>>::empty().push(fragment) == seq![fragment]);
    if b.len() == 0 {
        assert(a + b == a);
        assert(unmatched_of(b, later) == Seq::<Seq<char>>::empty());
        assert(unmatched_of(a, matched) + Seq::<Seq<char>>::empty() == unmatched_of(a, matched));
    } else {
        assert((a + b).drop_last() == a + b.drop_last());
        law_unmatched_fragments_keep_their_order(a, b.drop_last(), fragment, matched);
        assert(later.contains(b.len() - 1) == matched.contains((a + b).len() - 1));
        let x = unmatched_of(a, matched);
        let y = unmatched_of(b.drop_last(), later);
        assert((x + y).push(b.last()) == x + y.push(b.last()));
    }
}

} // verus!

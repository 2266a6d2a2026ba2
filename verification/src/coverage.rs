//! Line coverage read from LCOV text.
//!
//! Only `SF` (source file) and `DA` (line hits) records count; every other
//! record is skipped. Source paths are kept exactly as written, and a path that
//! is asked for is matched against them up to its separators, a leading `./`,
//! and the directories in front of it.

use std::collections::BTreeMap;

use vstd::prelude::*;
use vstd::std_specs::iter::IteratorSpec;

use crate::text;

verus! {

/// What a profile holds: for each source path, the hits of each instrumented
/// line.
pub type Profile = Map<Seq<char>, Map<u32, u64>>;

/// Why LCOV text is no profile.
#[derive(Debug, PartialEq, Eq)]
pub enum LcovError {
    /// A `DA` record that is not `DA:<line>,<hits>[,<checksum>]` with a numeric
    /// line and numeric hits; the record as it stands.
    MalformedDa(String),
    /// A `DA` record with no `SF` record open before it.
    DaBeforeSf,
}

/// What an `LcovError` says.
#[verifier::ext_equal]
pub enum LcovFault {
    /// See `LcovError::MalformedDa`.
    MalformedDa(Seq<char>),
    /// See `LcovError::DaBeforeSf`.
    DaBeforeSf,
}

impl View for LcovError {
    type V = LcovFault;

    open spec fn view(&self) -> LcovFault {
        match self {
            LcovError::MalformedDa(line) => LcovFault::MalformedDa(line@),
            LcovError::DaBeforeSf => LcovFault::DaBeforeSf,
        }
    }
}

/// What has been read of some records: the profile so far, and the path whose
/// section is open.
#[verifier::ext_equal]
pub struct Reading {
    /// The profile so far.
    pub files: Profile,
    /// The path whose section is open, if one is.
    pub open: Option<Seq<char>>,
}

/// The hits of the lines with one more record: the larger count stays.
pub open spec fn raised(hits: Map<u32, u64>, line: u32, count: u64) -> Map<u32, u64> {
    if hits.dom().contains(line) && hits[line] >= count {
        hits
    } else {
        hits.insert(line, count)
    }
}

/// The line and the hits of a `DA` record, from what follows its `DA:`: the
/// first two fields between commas, both decimal numbers that fit.
pub open spec fn da_fields(rest: Seq<char>) -> Option<(u32, u64)> {
    let fields = text::split(rest, ',');
    if fields.len() < 2 {
        None
    } else {
        match (text::parsed(fields[0]), text::parsed(fields[1])) {
            (Some(line), Some(count)) => if line <= u32::MAX && count <= u64::MAX {
                Some((line as u32, count as u64))
            } else {
                None
            },
            _ => None,
        }
    }
}

/// What one more record makes of a reading. `SF` opens the section of its path,
/// which resumes what the path already had; `DA` raises a line of the open
/// section; `end_of_record` closes it; anything else changes nothing.
pub open spec fn record(reading: Reading, line: Seq<char>) -> Result<Reading, LcovFault> {
    if text::has_prefix(line, "SF:"@) {
        let path = line.skip(3);
        Ok(
            Reading {
                files: if reading.files.dom().contains(path) {
                    reading.files
                } else {
                    reading.files.insert(path, Map::empty())
                },
                open: Some(path),
            },
        )
    } else if text::has_prefix(line, "DA:"@) {
        match reading.open {
            None => Err(LcovFault::DaBeforeSf),
            Some(path) => match da_fields(line.skip(3)) {
                None => Err(LcovFault::MalformedDa(line)),
                Some((number, count)) => Ok(
                    Reading {
                        files: reading.files.insert(
                            path,
                            raised(reading.files[path], number, count),
                        ),
                        open: Some(path),
                    },
                ),
            },
        }
    } else if line == "end_of_record"@ {
        Ok(Reading { files: reading.files, open: None })
    } else {
        Ok(reading)
    }
}

/// What the records make, one after the other. The first record that is at
/// fault decides.
pub open spec fn records(lines: Seq<Seq<char>>) -> Result<Reading, LcovFault>
    decreases lines.len(),
{
    if lines.len() == 0 {
        Ok(Reading { files: Map::empty(), open: None })
    } else {
        match records(lines.drop_last()) {
            Ok(reading) => record(reading, lines.last()),
            Err(fault) => Err(fault),
        }
    }
}

/// The profile that LCOV text describes.
pub open spec fn profile(input: Seq<char>) -> Result<Profile, LcovFault> {
    match records(text::lines(input)) {
        Ok(reading) => Ok(reading.files),
        Err(fault) => Err(fault),
    }
}

/// The map that a list of entries writes down.
pub open spec fn as_map<K, V>(entries: Seq<(K, V)>) -> Map<K, V>
    decreases entries.len(),
{
    if entries.len() == 0 {
        Map::empty()
    } else {
        as_map(entries.drop_last()).insert(entries.last().0, entries.last().1)
    }
}

/// Whether no two entries have the same key.
spec fn distinct<K, V>(entries: Seq<(K, V)>) -> bool {
    forall|i: int, j: int|
        0 <= i < j < entries.len() ==> (#[trigger] entries[i]).0 != (#[trigger] entries[j]).0
}

/// A list of entries with different keys writes down each of them, and nothing
/// else.
proof fn lemma_as_map<K, V>(entries: Seq<(K, V)>)
    requires
        distinct(entries),
    ensures
        forall|i: int|
            0 <= i < entries.len() ==> as_map(entries).dom().contains((#[trigger] entries[i]).0)
                && as_map(entries)[entries[i].0] == entries[i].1,
        forall|key: K| #[trigger]
            as_map(entries).dom().contains(key) ==> exists|i: int|
                0 <= i < entries.len() && (#[trigger] entries[i]).0 == key,
        as_map(entries).dom().finite(),
    decreases entries.len(),
{
    if entries.len() > 0 {
        let rest = entries.drop_last();
        lemma_as_map(rest);
        assert forall|i: int| 0 <= i < entries.len() implies as_map(entries).dom().contains(
            (#[trigger] entries[i]).0,
        ) && as_map(entries)[entries[i].0] == entries[i].1 by {
            if i < entries.len() - 1 {
                assert(rest[i] == entries[i]);
                assert(entries[i].0 != entries[entries.len() - 1].0);
            }
        }
        assert forall|key: K| #[trigger] as_map(entries).dom().contains(key) implies exists|i: int|
            0 <= i < entries.len() && (#[trigger] entries[i]).0 == key by {
            if key == entries.last().0 {
                assert(entries[entries.len() - 1].0 == key);
            } else {
                assert(as_map(rest).dom().contains(key));
                let i = choose|i: int| 0 <= i < rest.len() && (#[trigger] rest[i]).0 == key;
                assert(entries[i].0 == key);
            }
        }
    }
}

/// Adding an entry at any position adds it to the map.
proof fn lemma_as_map_insert<K, V>(entries: Seq<(K, V)>, at: int, key: K, value: V)
    requires
        0 <= at <= entries.len(),
        distinct(entries),
        forall|i: int| 0 <= i < entries.len() ==> (#[trigger] entries[i]).0 != key,
    ensures
        distinct(entries.insert(at, (key, value))),
        as_map(entries.insert(at, (key, value))) == as_map(entries).insert(key, value),
        !as_map(entries).dom().contains(key),
{
    let more = entries.insert(at, (key, value));
    assert forall|i: int, j: int| 0 <= i < j < more.len() implies (#[trigger] more[i]).0
        != (#[trigger] more[j]).0 by {
        let a = if i < at { i } else { i - 1 };
        let b = if j < at { j } else { j - 1 };
        if i == at {
            assert(entries[b].0 != key);
        } else if j == at {
            assert(entries[a].0 != key);
        } else {
            assert(entries[a].0 != entries[b].0);
        }
    }
    lemma_as_map(entries);
    lemma_as_map(more);
    let target = as_map(entries).insert(key, value);
    assert forall|k: K| as_map(more).dom().contains(k) == target.dom().contains(k) by {
        if as_map(more).dom().contains(k) {
            let i = choose|i: int| 0 <= i < more.len() && (#[trigger] more[i]).0 == k;
            if i != at {
                let a = if i < at { i } else { i - 1 };
                assert(more[i] == entries[a]);
                assert(as_map(entries).dom().contains(entries[a].0));
            }
        }
        if target.dom().contains(k) {
            if k == key {
                assert(more[at].0 == k);
            } else {
                let a = choose|a: int| 0 <= a < entries.len() && (#[trigger] entries[a]).0 == k;
                let i = if a < at { a } else { a + 1 };
                assert(more[i] == entries[a]);
            }
        }
    }
    assert forall|k: K| #[trigger] target.dom().contains(k) implies as_map(more)[k] == target[k] by {
        if k == key {
            assert(more[at] == (key, value));
        } else {
            let a = choose|a: int| 0 <= a < entries.len() && (#[trigger] entries[a]).0 == k;
            let i = if a < at { a } else { a + 1 };
            assert(more[i] == entries[a]);
        }
    }
    assert(as_map(more) =~= target);
}

/// Replacing the value of an entry replaces it in the map.
proof fn lemma_as_map_update<K, V>(entries: Seq<(K, V)>, at: int, value: V)
    requires
        0 <= at < entries.len(),
        distinct(entries),
    ensures
        distinct(entries.update(at, (entries[at].0, value))),
        as_map(entries.update(at, (entries[at].0, value))) == as_map(entries).insert(
            entries[at].0,
            value,
        ),
        as_map(entries).dom().contains(entries[at].0),
{
    let key = entries[at].0;
    let other = entries.update(at, (key, value));
    assert forall|i: int, j: int| 0 <= i < j < other.len() implies (#[trigger] other[i]).0
        != (#[trigger] other[j]).0 by {
        assert(entries[i].0 != entries[j].0);
    }
    lemma_as_map(entries);
    lemma_as_map(other);
    let target = as_map(entries).insert(key, value);
    assert forall|k: K| as_map(other).dom().contains(k) == target.dom().contains(k) by {
        if as_map(other).dom().contains(k) {
            let i = choose|i: int| 0 <= i < other.len() && (#[trigger] other[i]).0 == k;
            assert(entries[i].0 == k);
        }
        if target.dom().contains(k) {
            if k == key {
                assert(other[at].0 == k);
            } else {
                let a = choose|a: int| 0 <= a < entries.len() && (#[trigger] entries[a]).0 == k;
                assert(other[a].0 == k);
            }
        }
    }
    assert forall|k: K| #[trigger] target.dom().contains(k) implies as_map(other)[k]
        == target[k] by {
        if k == key {
            assert(other[at] == (key, value));
        } else {
            let a = choose|a: int| 0 <= a < entries.len() && (#[trigger] entries[a]).0 == k;
            assert(other[a] == entries[a]);
        }
    }
    assert(as_map(other) =~= target);
}

/// Whether texts stand in strictly ascending order.
pub open spec fn ascending(keys: Seq<Seq<char>>) -> bool {
    forall|i: int, j: int|
        0 <= i < j < keys.len() ==> text::before(#[trigger] keys[i], #[trigger] keys[j])
}

/// Whether `keys` lists a set of texts in ascending order.
pub open spec fn lists(keys: Seq<Seq<char>>, set: Set<Seq<char>>) -> bool {
    &&& ascending(keys)
    &&& forall|key: Seq<char>| #[trigger] keys.contains(key) <==> set.contains(key)
}

/// The source paths of a profile, in ascending order.
pub open spec fn paths(profile: Profile) -> Seq<Seq<char>> {
    choose|keys: Seq<Seq<char>>| lists(keys, profile.dom())
}

/// Two ascending lists of one set agree up to `n`.
proof fn lemma_lists_agree(a: Seq<Seq<char>>, b: Seq<Seq<char>>, set: Set<Seq<char>>, n: int)
    requires
        lists(a, set),
        lists(b, set),
        0 <= n <= a.len(),
        n <= b.len(),
    ensures
        forall|i: int| 0 <= i < n ==> a[i] == b[i],
    decreases n,
{
    if n > 0 {
        let m = n - 1;
        lemma_lists_agree(a, b, set, m);
        if a[m] != b[m] {
            assert(a.contains(a[m]));
            assert(b.contains(a[m]));
            let j = choose|j: int| 0 <= j < b.len() && b[j] == a[m];
            assert(b.contains(b[m]));
            assert(a.contains(b[m]));
            let k = choose|k: int| 0 <= k < a.len() && a[k] == b[m];
            if j < m {
                assert(text::before(a[j], a[m]));
                text::lemma_before_irreflexive(a[m]);
            } else if k < m {
                assert(text::before(b[k], b[m]));
                text::lemma_before_irreflexive(b[m]);
            } else {
                assert(text::before(b[m], b[j]));
                assert(text::before(a[m], a[k]));
                text::lemma_before_transitive(a[m], b[m], a[m]);
                text::lemma_before_irreflexive(a[m]);
            }
        }
    }
}

/// An ascending list of a set is no longer than another one of it.
proof fn lemma_lists_length(a: Seq<Seq<char>>, b: Seq<Seq<char>>, set: Set<Seq<char>>)
    requires
        lists(a, set),
        lists(b, set),
    ensures
        a.len() <= b.len(),
{
    if a.len() > b.len() {
        let n = b.len() as int;
        lemma_lists_agree(a, b, set, n);
        assert(a.contains(a[n]));
        assert(b.contains(a[n]));
        let j = choose|j: int| 0 <= j < b.len() && b[j] == a[n];
        assert(text::before(a[j], a[n]));
        text::lemma_before_irreflexive(a[n]);
    }
}

/// A set of texts has only one ascending list.
pub proof fn lemma_paths(profile: Profile, keys: Seq<Seq<char>>)
    requires
        lists(keys, profile.dom()),
    ensures
        paths(profile) == keys,
{
    let other = paths(profile);
    lemma_lists_length(keys, other, profile.dom());
    lemma_lists_length(other, keys, profile.dom());
    lemma_lists_agree(keys, other, profile.dom(), keys.len() as int);
    assert(keys =~= other);
}

/// The section of one source path.
#[derive(Debug)]
struct Section {
    path: String,
    hits: BTreeMap<u32, u64>,
}

/// The entries that sections write down.
spec fn entries(sections: Seq<Section>) -> Seq<(Seq<char>, Map<u32, u64>)> {
    sections.map_values(|section: Section| (section.path@, section.hits@))
}

/// Whether sections stand in ascending order of their paths.
spec fn arranged(sections: Seq<Section>) -> bool {
    forall|i: int, j: int|
        0 <= i < j < sections.len() ==> text::before(
            (#[trigger] sections[i]).path@,
            (#[trigger] sections[j]).path@,
        )
}

/// Sections in order have different paths.
proof fn lemma_arranged_distinct(sections: Seq<Section>)
    requires
        arranged(sections),
    ensures
        distinct(entries(sections)),
{
    assert forall|i: int, j: int| 0 <= i < j < sections.len() implies (#[trigger] entries(
        sections,
    )[i]).0 != (#[trigger] entries(sections)[j]).0 by {
        assert(text::before(sections[i].path@, sections[j].path@));
        text::lemma_before_irreflexive(sections[i].path@);
    }
}

/// The paths of sections in order are the paths of their map.
proof fn lemma_arranged_paths(sections: Seq<Section>)
    requires
        arranged(sections),
    ensures
        paths(as_map(entries(sections))) == sections.map_values(|section: Section| section.path@),
        lists(paths(as_map(entries(sections))), as_map(entries(sections)).dom()),
{
    let keys = sections.map_values(|section: Section| section.path@);
    let map = as_map(entries(sections));
    lemma_arranged_distinct(sections);
    lemma_as_map(entries(sections));
    assert forall|key: Seq<char>| #[trigger] keys.contains(key) <==> map.dom().contains(key) by {
        if keys.contains(key) {
            let i = choose|i: int| 0 <= i < keys.len() && keys[i] == key;
            assert(entries(sections)[i].0 == key);
        }
        if map.dom().contains(key) {
            let i = choose|i: int|
                0 <= i < entries(sections).len() && (#[trigger] entries(sections)[i]).0 == key;
            assert(keys[i] == key);
        }
    }
    assert forall|i: int, j: int| 0 <= i < j < keys.len() implies text::before(
        #[trigger] keys[i],
        #[trigger] keys[j],
    ) by {
        assert(text::before(sections[i].path@, sections[j].path@));
    }
    lemma_paths(map, keys);
}

/// Raises a line of a section to at least `count` hits.
fn raise(hits: &mut BTreeMap<u32, u64>, line: u32, count: u64)
    ensures
        final(hits)@ == raised(old(hits)@, line, count),
{
    broadcast use vstd::std_specs::btree::group_btree_axioms;

    let known = match hits.get(&line) {
        Some(before) => *before >= count,
        None => false,
    };
    if !known {
        hits.insert(line, count);
    }
}

/// The position at which the section of `path` stands, or belongs.
fn locate(sections: &Vec<Section>, path: &str) -> (at: usize)
    requires
        arranged(sections@),
    ensures
        at <= sections.len(),
        forall|k: int| 0 <= k < at ==> text::before((#[trigger] sections@[k]).path@, path@),
        forall|k: int|
            at <= k < sections.len() ==> !text::before((#[trigger] sections@[k]).path@, path@),
{
    let mut at: usize = 0;
    while at < sections.len() && text::comes_before(&sections[at].path, path)
        invariant
            at <= sections.len(),
            forall|k: int| 0 <= k < at ==> text::before((#[trigger] sections@[k]).path@, path@),
        decreases sections.len() - at,
    {
        at += 1;
    }
    assert forall|k: int| at <= k < sections.len() implies !text::before(
        (#[trigger] sections@[k]).path@,
        path@,
    ) by {
        if k > at && text::before(sections@[k].path@, path@) {
            text::lemma_before_transitive(
                sections@[at as int].path@,
                sections@[k].path@,
                path@,
            );
        }
    }
    at
}

/// Opens the section of a path, which starts out empty where the path is new,
/// and tells where it stands.
fn open(sections: &mut Vec<Section>, path: String) -> (at: usize)
    requires
        arranged(old(sections)@),
    ensures
        arranged(final(sections)@),
        at < final(sections).len(),
        final(sections)@[at as int].path@ == path@,
        as_map(entries(final(sections)@)) == (if as_map(
            entries(old(sections)@),
        ).dom().contains(path@) {
            as_map(entries(old(sections)@))
        } else {
            as_map(entries(old(sections)@)).insert(path@, Map::empty())
        }),
{
    let at: usize = locate(sections, &path);
    let ghost all = entries(sections@);
    proof {
        lemma_arranged_distinct(sections@);
        lemma_as_map(all);
    }
    if at < sections.len() && text::same(&sections[at].path, &path) {
        assert(all[at as int].0 == path@);
        return at;
    }
    let ghost wanted = path@;
    proof {
        assert forall|k: int| 0 <= k < all.len() implies (#[trigger] all[k]).0 != wanted by {
            if k < at {
                assert(text::before(sections@[k].path@, wanted));
                text::lemma_before_irreflexive(wanted);
            } else if k > at {
                text::lemma_before_total(sections@[at as int].path@, wanted);
                assert(text::before(sections@[at as int].path@, sections@[k].path@));
                text::lemma_before_irreflexive(wanted);
                if sections@[k].path@ == wanted {
                    assert(text::before(sections@[at as int].path@, wanted));
                }
            }
        }
        lemma_as_map_insert(all, at as int, wanted, Map::<u32, u64>::empty());
    }
    let section = Section { path, hits: BTreeMap::new() };
    let ghost before = sections@;
    sections.insert(at, section);
    proof {
        assert(entries(sections@) == all.insert(at as int, (wanted, Map::<u32, u64>::empty())));
        assert forall|i: int, j: int| 0 <= i < j < sections@.len() implies text::before(
            (#[trigger] sections@[i]).path@,
            (#[trigger] sections@[j]).path@,
        ) by {
            if i == at {
                text::lemma_before_total(before[j - 1].path@, wanted);
                assert(all[j - 1].0 == before[j - 1].path@);
            } else if j == at {
                assert(text::before(before[i].path@, wanted));
            } else {
                let a = if i < at { i } else { i - 1 };
                let b = if j < at { j } else { j - 1 };
                assert(text::before(before[a].path@, before[b].path@));
            }
        }
    }
    at
}

/// Parsed line coverage: for each source path, exactly as its `SF` record
/// writes it, the hits of its instrumented lines. No hits mean that the line is
/// instrumented and was never run.
#[derive(Debug)]
pub struct LcovData {
    sections: Vec<Section>,
}

impl View for LcovData {
    type V = Profile;

    closed spec fn view(&self) -> Profile {
        as_map(entries(self.sections@))
    }
}

/// Reads a `DA` record from what follows its `DA:`. A checksum in a third field
/// is ignored.
fn parse_da(rest: &Vec<char>) -> (out: Option<(u32, u64)>)
    ensures
        out == da_fields(rest@),
{
    let fields = text::split_at(rest, ',');
    if fields.len() < 2 {
        return None;
    }
    assert(text::split(rest@, ',')[0] == fields@[0]@);
    assert(text::split(rest@, ',')[1] == fields@[1]@);
    let line = text::parse(&fields[0], u32::MAX as u64);
    let count = text::parse(&fields[1], u64::MAX);
    match (line, count) {
        (Some(line), Some(count)) => Some((line as u32, count)),
        _ => None,
    }
}

/// What follows the first three characters.
fn after_tag(line: &Vec<char>) -> (out: Vec<char>)
    requires
        line.len() >= 3,
    ensures
        out@ == line@.skip(3),
{
    let mut out: Vec<char> = Vec::new();
    let mut i: usize = 3;
    while i < line.len()
        invariant
            3 <= i <= line.len(),
            out@ == line@.subrange(3, i as int),
        decreases line.len() - i,
    {
        out.push(line[i]);
        i += 1;
    }
    out
}

/// Parses LCOV text.
///
/// Where a line has several `DA` records its largest count stands, and a path
/// whose section is opened again goes on filling it. A `DA` record that is
/// malformed, or that no `SF` record precedes, is an error; the first such
/// record decides.
#[verifier::rlimit(40)]
pub fn parse_lcov(input: &str) -> (out: Result<LcovData, LcovError>)
    ensures
        match out {
            Ok(data) => profile(input@) == Ok::<Profile, LcovFault>(data@),
            Err(error) => profile(input@) == Err::<Profile, LcovFault>(error@),
        },
{
    let lines = text::lines_of(input);
    let file_tag = text::chars("SF:");
    let line_tag = text::chars("DA:");
    proof {
        reveal_strlit("SF:");
        reveal_strlit("DA:");
    }
    let mut sections: Vec<Section> = Vec::new();
    let mut open_at: Option<usize> = None;
    let ghost all = text::lines(input@);
    let ghost mut reading = Reading { files: Map::empty(), open: None };
    assert(all.take(0) == Seq::<Seq<char>>::empty());
    let mut i: usize = 0;
    while i < lines.len()
        invariant
            i <= lines.len(),
            text::views(lines@) == all,
            all == text::lines(input@),
            file_tag@ == "SF:"@,
            line_tag@ == "DA:"@,
            file_tag@.len() == 3,
            line_tag@.len() == 3,
            arranged(sections@),
            reading.files == as_map(entries(sections@)),
            match open_at {
                Some(at) => at < sections.len() && reading.open == Some(sections@[at as int].path@),
                None => reading.open is None,
            },
            records(all.take(i as int)) == Ok::<Reading, LcovFault>(reading),
        decreases lines.len() - i,
    {
        let line = text::chars(&lines[i]);
        assert(all[i as int] == line@);
        assert(all.take(i + 1).drop_last() == all.take(i as int));
        assert(all.take(i + 1).last() == line@);
        let ghost next = record(reading, line@);
        if text::starts_with(&line, &file_tag) {
            let path = text::slice(&line, 3, line.len());
            assert(path@ == line@.skip(3));
            open_at = Some(open(&mut sections, path));
            proof {
                reading = next->Ok_0;
            }
        } else if text::starts_with(&line, &line_tag) {
            match open_at {
                None => {
                    proof {
                        lemma_fault_stands(all, i + 1);
                    }
                    return Err(LcovError::DaBeforeSf);
                },
                Some(at) => match parse_da(&after_tag(&line)) {
                    None => {
                        proof {
                            lemma_fault_stands(all, i + 1);
                        }
                        return Err(LcovError::MalformedDa(lines[i].clone()));
                    },
                    Some((number, count)) => {
                        raise_at(&mut sections, at, number, count);
                        proof {
                            reading = next->Ok_0;
                        }
                    },
                },
            }
        } else if text::same(&lines[i], "end_of_record") {
            open_at = None;
            proof {
                reading = next->Ok_0;
            }
        }
        i += 1;
    }
    assert(all.take(i as int) == all);
    Ok(LcovData { sections })
}

/// A fault among the first records is the fault of all of them.
proof fn lemma_fault_stands(lines: Seq<Seq<char>>, n: int)
    requires
        0 <= n <= lines.len(),
        records(lines.take(n)) is Err,
    ensures
        records(lines) == records(lines.take(n)),
    decreases lines.len(),
{
    if n < lines.len() {
        assert(lines.drop_last().take(n) == lines.take(n));
        lemma_fault_stands(lines.drop_last(), n);
    } else {
        assert(lines.take(n) == lines);
    }
}

/// Raises a line of the section at `at`.
fn raise_at(sections: &mut Vec<Section>, at: usize, line: u32, count: u64)
    requires
        arranged(old(sections)@),
        at < old(sections).len(),
    ensures
        arranged(final(sections)@),
        final(sections).len() == old(sections).len(),
        final(sections)@[at as int].path@ == old(sections)@[at as int].path@,
        as_map(entries(final(sections)@)) == as_map(entries(old(sections)@)).insert(
            old(sections)@[at as int].path@,
            raised(
                as_map(entries(old(sections)@))[old(sections)@[at as int].path@],
                line,
                count,
            ),
        ),
{
    let ghost before = sections@;
    let ghost all = entries(before);
    let ghost path = before[at as int].path@;
    let ghost hits = raised(before[at as int].hits@, line, count);
    proof {
        lemma_arranged_distinct(before);
        lemma_as_map(all);
        lemma_as_map_update(all, at as int, hits);
        assert(all[at as int] == (path, before[at as int].hits@));
    }
    let section = &mut sections[at];
    raise(&mut section.hits, line, count);
    proof {
        assert(entries(sections@) == all.update(at as int, (path, hits)));
        assert forall|i: int, j: int| 0 <= i < j < sections@.len() implies text::before(
            (#[trigger] sections@[i]).path@,
            (#[trigger] sections@[j]).path@,
        ) by {
            assert(text::before(before[i].path@, before[j].path@));
        }
    }
}

/// How a source path was matched against the paths of a profile.
#[derive(Debug, PartialEq, Eq)]
pub enum Resolution {
    /// The path of the profile is the one asked for, up to separators and a
    /// leading `./`.
    Exact(String),
    /// The one path of the profile that shares the most trailing segments with
    /// the one asked for, with one of the two a suffix of the other.
    Suffix(String),
    /// Several paths of the profile share the most trailing segments. Choosing
    /// one would be arbitrary, so none is.
    Ambiguous(Vec<String>),
    /// No path of the profile covers the one asked for.
    Unresolved,
}

/// What a `Resolution` says.
#[verifier::ext_equal]
pub enum ResolutionView {
    /// See `Resolution::Exact`.
    Exact(Seq<char>),
    /// See `Resolution::Suffix`.
    Suffix(Seq<char>),
    /// See `Resolution::Ambiguous`.
    Ambiguous(Seq<Seq<char>>),
    /// See `Resolution::Unresolved`.
    Unresolved,
}

impl View for Resolution {
    type V = ResolutionView;

    open spec fn view(&self) -> ResolutionView {
        match self {
            Resolution::Exact(key) => ResolutionView::Exact(key@),
            Resolution::Suffix(key) => ResolutionView::Suffix(key@),
            Resolution::Ambiguous(keys) => ResolutionView::Ambiguous(text::views(keys@)),
            Resolution::Unresolved => ResolutionView::Unresolved,
        }
    }
}

impl ResolutionView {
    /// The path of the profile that coverage may be read from.
    pub open spec fn key(self) -> Option<Seq<char>> {
        match self {
            ResolutionView::Exact(key) => Some(key),
            ResolutionView::Suffix(key) => Some(key),
            ResolutionView::Ambiguous(_) => None,
            ResolutionView::Unresolved => None,
        }
    }
}

impl Resolution {
    /// The path of the profile that coverage may be read from; none where no
    /// single path is defensible.
    pub fn key(&self) -> (out: Option<&str>)
        ensures
            match out {
                Some(key) => self@.key() == Some(key@),
                None => self@.key() is None,
            },
    {
        match self {
            Resolution::Exact(key) => Some(key.as_str()),
            Resolution::Suffix(key) => Some(key.as_str()),
            Resolution::Ambiguous(_) => None,
            Resolution::Unresolved => None,
        }
    }
}

impl Clone for Resolution {
    fn clone(&self) -> (out: Resolution)
        ensures
            out@ == self@,
    {
        match self {
            Resolution::Exact(key) => Resolution::Exact(key.clone()),
            Resolution::Suffix(key) => Resolution::Suffix(key.clone()),
            Resolution::Ambiguous(keys) => Resolution::Ambiguous(text::copies(keys)),
            Resolution::Unresolved => Resolution::Unresolved,
        }
    }
}

/// A path as it is matched: every separator a slash, and without one leading
/// `./`.
pub open spec fn normalized(path: Seq<char>) -> Seq<char> {
    let slashed = text::slashed(path);
    if text::has_prefix(slashed, seq!['.', '/']) {
        slashed.skip(2)
    } else {
        slashed
    }
}

/// Normalizes a path for matching.
fn normalize_path(path: &str) -> (out: String)
    ensures
        out@ == normalized(path@),
{
    let slashed = text::with_slashes(path);
    let all = text::chars(&slashed);
    if all.len() >= 2 && all[0] == '.' && all[1] == '/' {
        assert(all@.take(2) == seq!['.', '/']);
        text::slice(&all, 2, all.len())
    } else {
        proof {
            if text::has_prefix(all@, seq!['.', '/']) {
                assert(all@.take(2)[0] == '.');
                assert(all@.take(2)[1] == '/');
            }
        }
        slashed
    }
}

/// How many trailing segments two paths share, where the shorter one is a
/// suffix of the longer; nothing where it is not, or has no segment.
pub open spec fn overlap(a: Seq<Seq<char>>, b: Seq<Seq<char>>) -> Option<nat> {
    let shared = if a.len() <= b.len() {
        a.len()
    } else {
        b.len()
    };
    if shared > 0 && a.skip(a.len() - shared) == b.skip(b.len() - shared) {
        Some(shared)
    } else {
        None
    }
}

/// How many trailing segments two paths share, in either direction.
fn suffix_overlap(a: &Vec<String>, b: &Vec<String>) -> (out: Option<usize>)
    ensures
        match out {
            Some(n) => overlap(text::views(a@), text::views(b@)) == Some(n as nat),
            None => overlap(text::views(a@), text::views(b@)) is None,
        },
{
    let shared: usize = if a.len() <= b.len() {
        a.len()
    } else {
        b.len()
    };
    if shared == 0 {
        return None;
    }
    let ghost left = text::views(a@).skip(a@.len() - shared);
    let ghost right = text::views(b@).skip(b@.len() - shared);
    let mut i: usize = 0;
    while i < shared
        invariant
            i <= shared <= a.len(),
            shared <= b.len(),
            left == text::views(a@).skip(a@.len() - shared),
            right == text::views(b@).skip(b@.len() - shared),
            left.take(i as int) == right.take(i as int),
            shared > 0,
            shared == a.len() || shared == b.len(),
        decreases shared - i,
    {
        let x = &a[a.len() - shared + i];
        let y = &b[b.len() - shared + i];
        assert(left[i as int] == x@);
        assert(right[i as int] == y@);
        if !text::same(x, y) {
            return None;
        }
        assert(left.take(i + 1) == left.take(i as int).push(x@));
        assert(right.take(i + 1) == right.take(i as int).push(y@));
        i += 1;
    }
    assert(left.take(i as int) == left);
    assert(right.take(i as int) == right);
    Some(shared)
}

/// The segments by which a path is matched.
pub open spec fn match_segments(path: Seq<char>) -> Seq<Seq<char>> {
    text::segments(normalized(path))
}

/// The longest overlap of a path with any of `keys`; zero where it overlaps
/// none of them.
pub open spec fn longest(path: Seq<char>, keys: Seq<Seq<char>>) -> nat
    decreases keys.len(),
{
    if keys.len() == 0 {
        0
    } else {
        let rest = longest(path, keys.drop_last());
        match overlap(match_segments(path), match_segments(keys.last())) {
            Some(n) => if n > rest {
                n
            } else {
                rest
            },
            None => rest,
        }
    }
}

/// The keys that overlap a path by exactly `n` segments, in order.
pub open spec fn overlapping(path: Seq<char>, keys: Seq<Seq<char>>, n: nat) -> Seq<Seq<char>> {
    keys.filter(
        |key: Seq<char>| overlap(match_segments(path), match_segments(key)) == Some(n),
    )
}

/// The keys that are the path itself once both are normalized, in order.
pub open spec fn identical(path: Seq<char>, keys: Seq<Seq<char>>) -> Seq<Seq<char>> {
    keys.filter(|key: Seq<char>| normalized(key) == normalized(path))
}

/// How a path is matched against keys in ascending order: by the first one that
/// is the path itself; else by the one with the longest overlap; and where
/// several have it, by none of them.
pub open spec fn resolved(path: Seq<char>, keys: Seq<Seq<char>>) -> ResolutionView {
    let exact = identical(path, keys);
    let best = overlapping(path, keys, longest(path, keys));
    if exact.len() > 0 {
        ResolutionView::Exact(exact[0])
    } else if best.len() == 0 {
        ResolutionView::Unresolved
    } else if best.len() == 1 {
        ResolutionView::Suffix(best[0])
    } else {
        ResolutionView::Ambiguous(best)
    }
}

/// No key overlaps by more than the longest overlap.
proof fn lemma_longest(path: Seq<char>, keys: Seq<Seq<char>>)
    ensures
        forall|i: int|
            0 <= i < keys.len() ==> match overlap(
                match_segments(path),
                match_segments(#[trigger] keys[i]),
            ) {
                Some(n) => n <= longest(path, keys),
                None => true,
            },
    decreases keys.len(),
{
    if keys.len() > 0 {
        lemma_longest(path, keys.drop_last());
        assert forall|i: int| 0 <= i < keys.len() implies match overlap(
            match_segments(path),
            match_segments(#[trigger] keys[i]),
        ) {
            Some(n) => n <= longest(path, keys),
            None => true,
        } by {
            if i < keys.len() - 1 {
                assert(keys.drop_last()[i] == keys[i]);
            }
        }
    }
}

/// No key overlaps by more than the longest overlap, so none overlaps by
/// exactly so much.
proof fn lemma_none_longer(path: Seq<char>, keys: Seq<Seq<char>>, n: nat)
    requires
        n > longest(path, keys),
    ensures
        overlapping(path, keys, n) == Seq::<Seq<char>>::empty(),
    decreases keys.len(),
{
    reveal(Seq::filter);
    if keys.len() > 0 {
        lemma_longest(path, keys);
        assert(match overlap(match_segments(path), match_segments(keys[keys.len() - 1])) {
            Some(m) => m <= longest(path, keys),
            None => true,
        });
        lemma_none_longer(path, keys.drop_last(), n);
    }
}

/// The lines of a range that hits tell of.
pub open spec fn lines_within(hits: Map<u32, u64>, first: u32, last: u32) -> Set<u32> {
    hits.dom().filter(|line: u32| first <= line <= last)
}

/// The lines of a range that were run.
pub open spec fn lines_run(hits: Map<u32, u64>, first: u32, last: u32) -> Set<u32> {
    hits.dom().filter(|line: u32| first <= line <= last && hits[line] > 0)
}

/// How many of the instrumented lines of a range were run, and how many there
/// are; none where the profile has no section for the path.
pub open spec fn range_counts(profile: Profile, path: Seq<char>, first: u32, last: u32) -> (
    nat,
    nat,
) {
    if profile.dom().contains(path) {
        (
            lines_run(profile[path], first, last).len(),
            lines_within(profile[path], first, last).len(),
        )
    } else {
        (0, 0)
    }
}

/// The entries of a map, each once, write it down.
proof fn lemma_entries_of_a_map(hits: Map<u32, u64>, entries: Seq<(u32, u64)>)
    requires
        distinct(entries),
        forall|i: int|
            0 <= i < entries.len() ==> hits.dom().contains((#[trigger] entries[i]).0)
                && hits[entries[i].0] == entries[i].1,
        forall|line: u32| #[trigger]
            hits.dom().contains(line) ==> entries.contains((line, hits[line])),
    ensures
        as_map(entries) == hits,
{
    lemma_as_map(entries);
    assert forall|line: u32| as_map(entries).dom().contains(line) == hits.dom().contains(
        line,
    ) by {
        if as_map(entries).dom().contains(line) {
            let i = choose|i: int| 0 <= i < entries.len() && (#[trigger] entries[i]).0 == line;
            assert(hits.dom().contains(entries[i].0));
        }
        if hits.dom().contains(line) {
            let i = choose|i: int| 0 <= i < entries.len() && entries[i] == (line, hits[line]);
            assert(as_map(entries).dom().contains(entries[i].0));
        }
    }
    assert forall|line: u32| #[trigger] hits.dom().contains(line) implies as_map(entries)[line]
        == hits[line] by {
        let i = choose|i: int| 0 <= i < entries.len() && entries[i] == (line, hits[line]);
        assert(as_map(entries)[entries[i].0] == entries[i].1);
    }
    assert(as_map(entries) =~= hits);
}

/// What one more entry adds to the lines of a range.
proof fn lemma_one_more_line(
    entries: Seq<(u32, u64)>,
    i: int,
    first: u32,
    last: u32,
)
    requires
        distinct(entries),
        0 <= i < entries.len(),
        lines_run(as_map(entries.take(i)), first, last).finite(),
        lines_within(as_map(entries.take(i)), first, last).finite(),
    ensures
        lines_run(as_map(entries.take(i + 1)), first, last).finite(),
        lines_within(as_map(entries.take(i + 1)), first, last).finite(),
        lines_within(as_map(entries.take(i + 1)), first, last).len() == lines_within(
            as_map(entries.take(i)),
            first,
            last,
        ).len() + (if first <= entries[i].0 <= last { 1int } else { 0int }),
        lines_run(as_map(entries.take(i + 1)), first, last).len() == lines_run(
            as_map(entries.take(i)),
            first,
            last,
        ).len() + (if first <= entries[i].0 <= last && entries[i].1 > 0 { 1int } else { 0int }),
{
    let (line, count) = entries[i];
    let seen = entries.take(i);
    let more = entries.take(i + 1);
    let before = as_map(seen);
    let after = as_map(more);
    assert(more.drop_last() == seen);
    assert(after == before.insert(line, count));
    assert forall|a: int, b: int| 0 <= a < b < seen.len() implies (#[trigger] seen[a]).0 != (
    #[trigger] seen[b]).0 by {
        assert(entries[a].0 != entries[b].0);
    }
    lemma_as_map(seen);
    if before.dom().contains(line) {
        let k = choose|k: int| 0 <= k < seen.len() && (#[trigger] seen[k]).0 == line;
        assert(entries[k].0 != entries[i].0);
    }
    let run = lines_run(before, first, last);
    let within = lines_within(before, first, last);
    assert(lines_within(after, first, last) =~= (if first <= line <= last {
        within.insert(line)
    } else {
        within
    }));
    assert(lines_run(after, first, last) =~= (if first <= line <= last && count > 0 {
        run.insert(line)
    } else {
        run
    }));
}

/// Counts the instrumented lines of a range.
fn count_lines(hits: &BTreeMap<u32, u64>, first: u32, last: u32) -> (out: (u64, u64))
    ensures
        out.0 == lines_run(hits@, first, last).len(),
        out.1 == lines_within(hits@, first, last).len(),
        out.0 <= out.1,
{
    broadcast use vstd::std_specs::btree::group_btree_axioms;

    let lines = hits.iter();
    let ghost pairs = lines.remaining();
    let ghost all = pairs.unref();
    proof {
        assert forall|a: int, b: int| 0 <= a < b < all.len() implies (#[trigger] all[a]).0 != (
        #[trigger] all[b]).0 by {
            assert(hits@.contains_key(*pairs[a].0) && hits@[*pairs[a].0] == *pairs[a].1);
            assert(hits@.contains_key(*pairs[b].0) && hits@[*pairs[b].0] == *pairs[b].1);
            assert(pairs[a] != pairs[b]);
        }
        assert forall|a: int| 0 <= a < all.len() implies hits@.dom().contains(
            (#[trigger] all[a]).0,
        ) && hits@[all[a].0] == all[a].1 by {
            assert(hits@.contains_key(*pairs[a].0) && hits@[*pairs[a].0] == *pairs[a].1);
        }
        assert forall|line: u32| #[trigger] hits@.dom().contains(line) implies all.contains(
            (line, hits@[line]),
        ) by {
            assert(hits@.contains_key(line));
            let a = choose|a: int| 0 <= a < pairs.len() && pairs[a] == (&line, &hits@[line]);
            assert(all[a] == (line, hits@[line]));
        }
        lemma_entries_of_a_map(hits@, all);
        assert(all.len() == hits.len());
        assert(lines_run(as_map(all.take(0)), first, last) =~= Set::<u32>::empty());
        assert(lines_within(as_map(all.take(0)), first, last) =~= Set::<u32>::empty());
    }
    let mut covered: u64 = 0;
    let mut total: u64 = 0;
    for (line, count) in it: lines
        invariant
            it.seq() == pairs,
            all == pairs.unref(),
            all.len() <= usize::MAX,
            distinct(all),
            covered <= total <= it.index(),
            covered == lines_run(as_map(all.take(it.index())), first, last).len(),
            total == lines_within(as_map(all.take(it.index())), first, last).len(),
            lines_run(as_map(all.take(it.index())), first, last).finite(),
            lines_within(as_map(all.take(it.index())), first, last).finite(),
    {
        proof {
            lemma_one_more_line(all, it.index(), first, last);
            assert(all[it.index()] == (*line, *count));
        }
        if first <= *line && *line <= last {
            total += 1;
            if *count > 0 {
                covered += 1;
            }
        }
    }
    assert(all.take(all.len() as int) == all);
    (covered, total)
}

impl LcovData {
    /// The paths of the sections ascend.
    #[verifier::type_invariant]
    spec fn well_formed(self) -> bool {
        arranged(self.sections@)
    }

    /// The lines of one source path with their hits, if the profile has a section
    /// of exactly that path.
    pub fn file(&self, path: &str) -> (out: Option<&BTreeMap<u32, u64>>)
        ensures
            match out {
                Some(hits) => self@.dom().contains(path@) && hits@ == self@[path@],
                None => !self@.dom().contains(path@),
            },
    {
        proof {
            use_type_invariant(self);
            lemma_arranged_distinct(self.sections@);
            lemma_as_map(entries(self.sections@));
        }
        let at: usize = locate(&self.sections, path);
        if at < self.sections.len() && text::same(&self.sections[at].path, path) {
            assert(entries(self.sections@)[at as int].0 == path@);
            return Some(&self.sections[at].hits);
        }
        proof {
            if self@.dom().contains(path@) {
                let all = entries(self.sections@);
                let k = choose|k: int| 0 <= k < all.len() && (#[trigger] all[k]).0 == path@;
                text::lemma_before_irreflexive(path@);
                assert(self.sections@[k].path@ == path@);
                if k > at {
                    text::lemma_before_total(self.sections@[at as int].path@, path@);
                    assert(text::before(self.sections@[at as int].path@, path@));
                }
            }
        }
        None
    }

    /// Coverage over the lines from `start_line` to `end_line`, both of them
    /// counted: how many of the instrumented ones were run, and how many there
    /// are. A path without a section has none, nor has a range that ends before it
    /// starts.
    pub fn coverage_in_range(&self, file: &str, start_line: u32, end_line: u32) -> (out: (
        u64,
        u64,
    ))
        ensures
            (out.0 as nat, out.1 as nat) == range_counts(self@, file@, start_line, end_line),
            out.0 <= out.1,
    {
        match self.file(file) {
            Some(hits) => count_lines(hits, start_line, end_line),
            None => (0, 0),
        }
    }

    /// Matches a source path against the paths of the profile.
    ///
    /// Separators and a leading `./` make no difference. An exact match wins;
    /// else the longest overlap of trailing segments does, in either direction,
    /// and a tie is no match.
    pub fn resolve_path(&self, path: &str) -> (out: Resolution)
        ensures
            out@ == resolved(path@, paths(self@)),
            lists(paths(self@), self@.dom()),
    {
        let ghost keys = paths(self@);
        proof {
            use_type_invariant(self);
            lemma_arranged_paths(self.sections@);
        }
        let query = normalize_path(path);
        let mut i: usize = 0;
        proof {
            reveal(Seq::filter);
        }
        while i < self.sections.len()
            invariant
                i <= self.sections.len(),
                keys == self.sections@.map_values(|section: Section| section.path@),
                keys == paths(self@),
                lists(keys, self@.dom()),
                query@ == normalized(path@),
                identical(path@, keys.take(i as int)) == Seq::<Seq<char>>::empty(),
            decreases self.sections.len() - i,
        {
            let key = &self.sections[i].path;
            assert(keys.take(i + 1).drop_last() == keys.take(i as int));
            proof {
                reveal(Seq::filter);
            }
            if text::same(&normalize_path(key), &query) {
                proof {
                    assert(identical(path@, keys.take(i + 1)) == seq![key@]);
                    lemma_first_stays(path@, keys, i + 1);
                }
                return Resolution::Exact(key.clone());
            }
            i += 1;
        }
        assert(keys.take(i as int) == keys);
        let wanted = text::segments_of(&query);
        let mut best: Vec<String> = Vec::new();
        let mut best_overlap: usize = 0;
        let mut j: usize = 0;
        proof {
            reveal(Seq::filter);
        }
        while j < self.sections.len()
            invariant
                j <= self.sections.len(),
                keys == self.sections@.map_values(|section: Section| section.path@),
                text::views(wanted@) == match_segments(path@),
                best_overlap == longest(path@, keys.take(j as int)),
                text::views(best@) == overlapping(path@, keys.take(j as int), best_overlap as nat),
            decreases self.sections.len() - j,
        {
            let key = &self.sections[j].path;
            let ghost seen = keys.take(j as int);
            let ghost more = keys.take(j + 1);
            assert(more.drop_last() == seen);
            assert(more.last() == key@);
            let segments = text::segments_of(&normalize_path(key));
            proof {
                reveal(Seq::filter);
            }
            match suffix_overlap(&wanted, &segments) {
                Some(shared) => {
                    if shared > best_overlap {
                        proof {
                            lemma_none_longer(path@, seen, shared as nat);
                        }
                        best_overlap = shared;
                        best.clear();
                    }
                    if shared == best_overlap {
                        let ghost before = best@;
                        best.push(key.clone());
                        assert(text::views(best@) == text::views(before).push(key@));
                    }
                },
                None => {},
            }
            j += 1;
        }
        assert(keys.take(j as int) == keys);
        if best.len() == 0 {
            Resolution::Unresolved
        } else if best.len() == 1 {
            assert(text::views(best@)[0] == best@[0]@);
            Resolution::Suffix(best[0].clone())
        } else {
            Resolution::Ambiguous(best)
        }
    }
}

/// The first match among the first keys is the first match among all of them.
proof fn lemma_first_stays(path: Seq<char>, keys: Seq<Seq<char>>, n: int)
    requires
        0 <= n <= keys.len(),
        identical(path, keys.take(n)).len() > 0,
    ensures
        identical(path, keys).len() > 0,
        identical(path, keys)[0] == identical(path, keys.take(n))[0],
    decreases keys.len(),
{
    reveal(Seq::filter);
    if n < keys.len() {
        assert(keys.drop_last().take(n) == keys.take(n));
        lemma_first_stays(path, keys.drop_last(), n);
    } else {
        assert(keys.take(n) == keys);
    }
}


/// Whether a record opens the section of `path`.
pub open spec fn opens(line: Seq<char>, path: Seq<char>) -> bool {
    text::has_prefix(line, "SF:"@) && line.skip(3) == path
}

/// Whether the record at `i` tells of `count` hits of a line of `path`: it is a
/// `DA` record with those fields, and the section of the path is open.
pub open spec fn tells(
    lines: Seq<Seq<char>>,
    i: int,
    path: Seq<char>,
    number: u32,
    count: u64,
) -> bool {
    &&& 0 <= i < lines.len()
    &&& !text::has_prefix(lines[i], "SF:"@)
    &&& text::has_prefix(lines[i], "DA:"@)
    &&& da_fields(lines[i].skip(3)) == Some((number, count))
    &&& match records(lines.take(i)) {
        Ok(reading) => reading.open == Some(path),
        Err(_) => false,
    }
}

/// The open section is one that the profile has.
proof fn lemma_open_is_known(lines: Seq<Seq<char>>)
    ensures
        match records(lines) {
            Ok(reading) => match reading.open {
                Some(path) => reading.files.dom().contains(path),
                None => true,
            },
            Err(_) => true,
        },
    decreases lines.len(),
{
    if lines.len() > 0 {
        lemma_open_is_known(lines.drop_last());
    }
}

/// A profile has a section for exactly the paths that an `SF` record names,
/// letter for letter: one without any `DA` record has an empty one.
pub proof fn law_paths_are_those_of_the_records(input: Seq<char>, path: Seq<char>)
    requires
        profile(input) is Ok,
    ensures
        profile(input)->Ok_0.dom().contains(path) <==> exists|i: int|
            0 <= i < text::lines(input).len() && opens(#[trigger] text::lines(input)[i], path),
{
    lemma_paths_of_records(text::lines(input), path);
}

proof fn lemma_paths_of_records(lines: Seq<Seq<char>>, path: Seq<char>)
    requires
        records(lines) is Ok,
    ensures
        records(lines)->Ok_0.files.dom().contains(path) <==> exists|i: int|
            0 <= i < lines.len() && opens(#[trigger] lines[i], path),
    decreases lines.len(),
{
    if lines.len() > 0 {
        let rest = lines.drop_last();
        lemma_paths_of_records(rest, path);
        lemma_open_is_known(rest);
        let n = lines.len() - 1;
        if records(lines)->Ok_0.files.dom().contains(path) {
            if records(rest)->Ok_0.files.dom().contains(path) {
                let i = choose|i: int| 0 <= i < rest.len() && opens(#[trigger] rest[i], path);
                assert(opens(lines[i], path));
            } else {
                assert(opens(lines[n], path));
            }
        }
        if exists|i: int| 0 <= i < lines.len() && opens(#[trigger] lines[i], path) {
            let i = choose|i: int| 0 <= i < lines.len() && opens(#[trigger] lines[i], path);
            if i < n {
                assert(opens(rest[i], path));
            }
        }
    }
}

/// Nothing that a record told of is lost: whichever other records name the same
/// line, in the same section or in one opened again, the hits of the line are at
/// least those that this record gives it.
pub proof fn law_no_hit_is_lost(
    input: Seq<char>,
    i: int,
    path: Seq<char>,
    number: u32,
    count: u64,
)
    requires
        profile(input) is Ok,
        tells(text::lines(input), i, path, number, count),
    ensures
        profile(input)->Ok_0.dom().contains(path),
        profile(input)->Ok_0[path].dom().contains(number),
        profile(input)->Ok_0[path][number] >= count,
{
    lemma_no_hit_is_lost(text::lines(input), i, path, number, count);
}

proof fn lemma_no_hit_is_lost(
    lines: Seq<Seq<char>>,
    i: int,
    path: Seq<char>,
    number: u32,
    count: u64,
)
    requires
        records(lines) is Ok,
        tells(lines, i, path, number, count),
    ensures
        records(lines)->Ok_0.files.dom().contains(path),
        records(lines)->Ok_0.files[path].dom().contains(number),
        records(lines)->Ok_0.files[path][number] >= count,
    decreases lines.len(),
{
    let rest = lines.drop_last();
    if i < lines.len() - 1 {
        assert(rest.take(i) == lines.take(i));
        assert(rest[i] == lines[i]);
        lemma_no_hit_is_lost(rest, i, path, number, count);
    } else {
        assert(lines.take(i) == rest);
    }
}

/// Nothing is made up: the hits of a line are those that some record gives it.
pub proof fn law_every_hit_was_told(input: Seq<char>, path: Seq<char>, number: u32)
    requires
        profile(input) is Ok,
        profile(input)->Ok_0.dom().contains(path),
        profile(input)->Ok_0[path].dom().contains(number),
    ensures
        exists|i: int| #[trigger]
            tells(text::lines(input), i, path, number, profile(input)->Ok_0[path][number]),
{
    lemma_every_hit_was_told(text::lines(input), path, number);
}

proof fn lemma_every_hit_was_told(lines: Seq<Seq<char>>, path: Seq<char>, number: u32)
    requires
        records(lines) is Ok,
        records(lines)->Ok_0.files.dom().contains(path),
        records(lines)->Ok_0.files[path].dom().contains(number),
    ensures
        exists|i: int| #[trigger]
            tells(lines, i, path, number, records(lines)->Ok_0.files[path][number]),
    decreases lines.len(),
{
    let rest = lines.drop_last();
    let n = lines.len() - 1;
    let count = records(lines)->Ok_0.files[path][number];
    let known = records(rest)->Ok_0.files;
    if known.dom().contains(path) && known[path].dom().contains(number) && known[path][number]
        == count {
        lemma_every_hit_was_told(rest, path, number);
        let i = choose|i: int| #[trigger] tells(rest, i, path, number, count);
        assert(rest.take(i) == lines.take(i));
        assert(tells(lines, i, path, number, count));
    } else {
        assert(lines.take(n) == rest);
        lemma_open_is_known(rest);
        let line = lines[n];
        if text::has_prefix(line, "SF:"@) {
            assert(records(lines)->Ok_0.files == known || records(lines)->Ok_0.files
                == known.insert(line.skip(3), Map::empty()));
            assert(false);
        }
        assert(text::has_prefix(line, "DA:"@));
        assert(tells(lines, n, path, number, count));
    }
}

/// Two spellings of a path that differ only in their separators or in a leading
/// `./` are matched the same way.
pub proof fn law_spelling_makes_no_difference(
    a: Seq<char>,
    b: Seq<char>,
    keys: Seq<Seq<char>>,
)
    requires
        normalized(a) == normalized(b),
    ensures
        resolved(a, keys) == resolved(b, keys),
{
    let same_a = |key: Seq<char>| normalized(key) == normalized(a);
    let same_b = |key: Seq<char>| normalized(key) == normalized(b);
    assert(same_a =~= same_b);
    assert(identical(a, keys) == identical(b, keys)) by {
        assert(identical(a, keys) == keys.filter(same_a));
        assert(identical(b, keys) == keys.filter(same_b));
    }
    lemma_longest_alike(a, b, keys);
    let n = longest(a, keys);
    let by_a = |key: Seq<char>| overlap(match_segments(a), match_segments(key)) == Some(n);
    let by_b = |key: Seq<char>| overlap(match_segments(b), match_segments(key)) == Some(n);
    assert(by_a =~= by_b);
    assert(overlapping(a, keys, n) == overlapping(b, keys, n)) by {
        assert(overlapping(a, keys, n) == keys.filter(by_a));
        assert(overlapping(b, keys, n) == keys.filter(by_b));
    }
}

proof fn lemma_longest_alike(a: Seq<char>, b: Seq<char>, keys: Seq<Seq<char>>)
    requires
        normalized(a) == normalized(b),
    ensures
        longest(a, keys) == longest(b, keys),
    decreases keys.len(),
{
    if keys.len() > 0 {
        lemma_longest_alike(a, b, keys.drop_last());
    }
}

/// An exact match wins, however well other keys overlap.
pub proof fn law_an_exact_match_wins(path: Seq<char>, keys: Seq<Seq<char>>, i: int)
    requires
        0 <= i < keys.len(),
        normalized(keys[i]) == normalized(path),
    ensures
        resolved(path, keys) matches ResolutionView::Exact(key) && normalized(key) == normalized(
            path,
        ) && keys.contains(key),
{
    let same = |key: Seq<char>| normalized(key) == normalized(path);
    keys.lemma_filter_contains(same, i);
    assert(keys.filter(same) == identical(path, keys));
    assert(identical(path, keys).contains(keys[i]));
    keys.lemma_filter_pred(same, 0);
    assert(keys.filter(same).contains(keys.filter(same)[0]));
    keys.lemma_filter_contains_rev(same, keys.filter(same)[0]);
}

/// A suffix match overlaps by more segments than every other key does, and no
/// key is the path itself.
pub proof fn law_a_suffix_match_is_the_longest(path: Seq<char>, keys: Seq<Seq<char>>, i: int)
    requires
        0 <= i < keys.len(),
        resolved(path, keys) is Suffix,
        keys[i] != resolved(path, keys)->Suffix_0,
    ensures
        normalized(keys[i]) != normalized(path),
        overlap(match_segments(path), match_segments(keys[i])) matches Some(n) ==> n < overlap(
            match_segments(path),
            match_segments(resolved(path, keys)->Suffix_0),
        )->Some_0,
        overlap(match_segments(path), match_segments(resolved(path, keys)->Suffix_0)) is Some,
        keys.contains(resolved(path, keys)->Suffix_0),
{
    let n = longest(path, keys);
    let fits = |key: Seq<char>| overlap(match_segments(path), match_segments(key)) == Some(n);
    let same = |key: Seq<char>| normalized(key) == normalized(path);
    assert(keys.filter(fits) == overlapping(path, keys, n));
    assert(keys.filter(same) == identical(path, keys));
    keys.lemma_filter_pred(fits, 0);
    assert(keys.filter(fits).contains(keys.filter(fits)[0]));
    keys.lemma_filter_contains_rev(fits, keys.filter(fits)[0]);
    lemma_longest(path, keys);
    if normalized(keys[i]) == normalized(path) {
        keys.lemma_filter_contains(same, i);
    }
    if fits(keys[i]) {
        keys.lemma_filter_contains(fits, i);
    }
}

/// A tie is never decided: an ambiguous match names at least two keys, gives
/// none of them, and every one it names overlaps by the same longest run.
pub proof fn law_a_tie_is_not_decided(path: Seq<char>, keys: Seq<Seq<char>>, j: int)
    requires
        resolved(path, keys) is Ambiguous,
        0 <= j < resolved(path, keys)->Ambiguous_0.len(),
    ensures
        resolved(path, keys)->Ambiguous_0.len() >= 2,
        resolved(path, keys).key() is None,
        overlap(match_segments(path), match_segments(resolved(path, keys)->Ambiguous_0[j]))
            == Some(longest(path, keys)),
{
    let n = longest(path, keys);
    let fits = |key: Seq<char>| overlap(match_segments(path), match_segments(key)) == Some(n);
    assert(keys.filter(fits) == overlapping(path, keys, n));
    keys.lemma_filter_pred(fits, j);
}

proof fn lemma_range_is_finite(first: u32, last: u32)
    ensures
        Set::new(|line: u32| first <= line <= last).finite(),
    decreases last,
{
    let all = Set::new(|line: u32| first <= line <= last);
    if last < first {
        assert(all =~= Set::<u32>::empty());
    } else if last == 0 {
        assert(all =~= Set::<u32>::empty().insert(0));
    } else {
        let m = (last - 1) as u32;
        lemma_range_is_finite(first, m);
        let rest = Set::new(|line: u32| first <= line <= m);
        assert(all =~= rest.insert(last));
    }
}

/// No range has more lines that were run than it has lines.
pub proof fn law_lines_run_are_lines(profile: Profile, path: Seq<char>, first: u32, last: u32)
    ensures
        range_counts(profile, path, first, last).0 <= range_counts(profile, path, first, last).1,
{
    lemma_range_is_finite(first, last);
    let all = Set::new(|line: u32| first <= line <= last);
    let hits = profile[path];
    vstd::set_lib::lemma_len_subset(lines_within(hits, first, last), all);
    vstd::set_lib::lemma_len_subset(
        lines_run(hits, first, last),
        lines_within(hits, first, last),
    );
}

/// How the lines of LCOV text end makes no difference.
pub proof fn law_line_endings_make_no_difference(input: Seq<char>)
    requires
        !input.contains('\r'),
    ensures
        profile(text::with_returns(input)) == profile(input),
{
    text::law_line_endings_make_no_difference(input);
}

/// An ascending list of a finite set of texts.
proof fn lemma_listable(set: Set<Seq<char>>) -> (keys: Seq<Seq<char>>)
    requires
        set.finite(),
    ensures
        lists(keys, set),
    decreases set.len(),
{
    if set.len() == 0 {
        assert(set =~= Set::<Seq<char>>::empty());
        Seq::empty()
    } else {
        let key = set.choose();
        let rest = lemma_listable(set.remove(key));
        let at = lemma_place(rest, key);
        let keys = rest.insert(at, key);
        assert forall|i: int, j: int| 0 <= i < j < keys.len() implies text::before(
            #[trigger] keys[i],
            #[trigger] keys[j],
        ) by {
            let a = if i < at { i } else { i - 1 };
            let b = if j < at { j } else { j - 1 };
            if i != at && j != at {
                assert(text::before(rest[a], rest[b]));
            }
        }
        assert forall|other: Seq<char>| #[trigger] keys.contains(other) <==> set.contains(
            other,
        ) by {
            if keys.contains(other) {
                let i = choose|i: int| 0 <= i < keys.len() && keys[i] == other;
                if i != at {
                    assert(rest.contains(rest[if i < at { i } else { i - 1 }]));
                }
            }
            if set.contains(other) {
                if other == key {
                    assert(keys[at] == other);
                } else {
                    assert(rest.contains(other));
                    let i = choose|i: int| 0 <= i < rest.len() && rest[i] == other;
                    assert(keys[if i < at { i } else { i + 1 }] == other);
                }
            }
        }
        keys
    }
}

/// Where a text that is not among ascending ones has its place.
proof fn lemma_place(keys: Seq<Seq<char>>, key: Seq<char>) -> (at: int)
    requires
        ascending(keys),
        !keys.contains(key),
    ensures
        0 <= at <= keys.len(),
        forall|i: int| 0 <= i < at ==> text::before(#[trigger] keys[i], key),
        forall|i: int| at <= i < keys.len() ==> text::before(key, #[trigger] keys[i]),
    decreases keys.len(),
{
    if keys.len() == 0 {
        0
    } else {
        let n = keys.len() - 1;
        let last = keys[n];
        let rest = keys.drop_last();
        text::lemma_before_total(last, key);
        if text::before(last, key) {
            assert forall|i: int| 0 <= i < n implies text::before(#[trigger] keys[i], key) by {
                text::lemma_before_transitive(keys[i], last, key);
            }
            n + 1
        } else {
            assert forall|i: int, j: int| 0 <= i < j < rest.len() implies text::before(
                #[trigger] rest[i],
                #[trigger] rest[j],
            ) by {
                assert(text::before(keys[i], keys[j]));
            }
            if rest.contains(key) {
                let i = choose|i: int| 0 <= i < rest.len() && rest[i] == key;
                assert(keys[i] == key);
            }
            let at = lemma_place(rest, key);
            assert forall|i: int| 0 <= i < at implies text::before(#[trigger] keys[i], key) by {
                assert(rest[i] == keys[i]);
            }
            assert forall|i: int| at <= i < keys.len() implies text::before(
                key,
                #[trigger] keys[i],
            ) by {
                if i < n {
                    assert(rest[i] == keys[i]);
                }
            }
            at
        }
    }
}

/// The paths of a profile with finitely many sections are just those that it has
/// a section for.
pub proof fn law_paths_list_the_sections(profile: Profile)
    requires
        profile.dom().finite(),
    ensures
        lists(paths(profile), profile.dom()),
{
    let keys = lemma_listable(profile.dom());
    lemma_paths(profile, keys);
}

/// The profile of a text has finitely many sections, so that its paths are just
/// those that it has a section for.
pub proof fn law_a_profile_has_a_list_of_paths(input: Seq<char>)
    requires
        profile(input) is Ok,
    ensures
        profile(input)->Ok_0.dom().finite(),
        lists(paths(profile(input)->Ok_0), profile(input)->Ok_0.dom()),
{
    lemma_records_are_finite(text::lines(input));
    law_paths_list_the_sections(profile(input)->Ok_0);
}

proof fn lemma_records_are_finite(lines: Seq<Seq<char>>)
    requires
        records(lines) is Ok,
    ensures
        records(lines)->Ok_0.files.dom().finite(),
    decreases lines.len(),
{
    if lines.len() > 0 {
        lemma_records_are_finite(lines.drop_last());
    }
}

/// The hits of two lists of lines taken together: the larger count of a line
/// stays.
pub open spec fn merged_hits(a: Map<u32, u64>, b: Map<u32, u64>) -> Map<u32, u64> {
    Map::new(
        |line: u32| a.dom().contains(line) || b.dom().contains(line),
        |line: u32|
            if a.dom().contains(line) && (b.dom().contains(line) ==> a[line] >= b[line]) {
                a[line]
            } else {
                b[line]
            },
    )
}

/// The hits of the lines of a path, none where the profile has no section for it.
pub open spec fn hits_of(profile: Profile, path: Seq<char>) -> Map<u32, u64> {
    if profile.dom().contains(path) {
        profile[path]
    } else {
        Map::empty()
    }
}

/// Two profiles taken together.
pub open spec fn merged(a: Profile, b: Profile) -> Profile {
    Map::new(
        |path: Seq<char>| a.dom().contains(path) || b.dom().contains(path),
        |path: Seq<char>| merged_hits(hits_of(a, path), hits_of(b, path)),
    )
}

/// Whether records can be read by themselves and leave no section open.
pub open spec fn complete(lines: Seq<Seq<char>>) -> bool {
    records(lines) matches Ok(reading) && reading.open is None
}

proof fn lemma_merged_hits_swap(x: Map<u32, u64>, a: Map<u32, u64>, b: Map<u32, u64>)
    ensures
        merged_hits(merged_hits(x, a), b) == merged_hits(merged_hits(x, b), a),
{
    assert(merged_hits(merged_hits(x, a), b) =~= merged_hits(merged_hits(x, b), a));
}

proof fn lemma_merged_swap(x: Profile, a: Profile, b: Profile)
    ensures
        merged(merged(x, a), b) == merged(merged(x, b), a),
{
    let one = merged(merged(x, a), b);
    let other = merged(merged(x, b), a);
    assert forall|path: Seq<char>| #[trigger] one.dom().contains(path) implies one[path]
        == other[path] by {
        let (h, i, j) = (hits_of(x, path), hits_of(a, path), hits_of(b, path));
        let none = Map::<u32, u64>::empty();
        assert(merged_hits(none, none) =~= none);
        assert(hits_of(merged(x, a), path) == merged_hits(h, i));
        assert(hits_of(merged(x, b), path) == merged_hits(h, j));
        lemma_merged_hits_swap(h, i, j);
    }
    assert(one =~= other);
}

/// Complete records that follow others add what they make by themselves.
proof fn lemma_records_follow(before: Seq<Seq<char>>, lines: Seq<Seq<char>>)
    requires
        complete(before),
        records(lines) is Ok,
    ensures
        records(before + lines) == Ok::<Reading, LcovFault>(
            Reading {
                files: merged(records(before)->Ok_0.files, records(lines)->Ok_0.files),
                open: records(lines)->Ok_0.open,
            },
        ),
    decreases lines.len(),
{
    let x = records(before)->Ok_0.files;
    let none = Map::<u32, u64>::empty();
    if lines.len() == 0 {
        assert(before + lines == before);
        assert forall|path: Seq<char>| #[trigger] x.dom().contains(path) implies merged(
            x,
            Map::empty(),
        )[path] == x[path] by {
            assert(merged_hits(x[path], none) =~= x[path]);
        }
        assert(merged(x, Map::empty()) =~= x);
    } else {
        let rest = lines.drop_last();
        let line = lines.last();
        assert((before + lines).drop_last() == before + rest);
        assert((before + lines).last() == line);
        lemma_records_follow(before, rest);
        lemma_open_is_known(rest);
        let y = records(rest)->Ok_0.files;
        let z = records(lines)->Ok_0.files;
        let both = merged(x, y);
        if text::has_prefix(line, "SF:"@) {
            let path = line.skip(3);
            let after = if both.dom().contains(path) { both } else { both.insert(path, none) };
            assert forall|other: Seq<char>| #[trigger] after.dom().contains(other) implies merged(
                x,
                z,
            )[other] == after[other] by {
                assert(hits_of(z, other) == hits_of(y, other));
                if other == path && !both.dom().contains(path) {
                    assert(merged_hits(none, none) =~= none);
                }
            }
            assert(merged(x, z) =~= after);
        } else if text::has_prefix(line, "DA:"@) {
            let path = records(rest)->Ok_0.open->Some_0;
            let (number, count) = da_fields(line.skip(3))->Some_0;
            let after = both.insert(path, raised(both[path], number, count));
            assert(raised(both[path], number, count) =~= merged_hits(
                hits_of(x, path),
                raised(y[path], number, count),
            ));
            assert forall|other: Seq<char>| #[trigger] after.dom().contains(other) implies merged(
                x,
                z,
            )[other] == after[other] by {
                if other != path {
                    assert(hits_of(z, other) == hits_of(y, other));
                }
            }
            assert(merged(x, z) =~= after);
        }
    }
}

/// What is read before a record matters only by what it makes.
proof fn lemma_records_go_on(a: Seq<Seq<char>>, b: Seq<Seq<char>>, after: Seq<Seq<char>>)
    requires
        records(a) == records(b),
    ensures
        records(a + after) == records(b + after),
    decreases after.len(),
{
    if after.len() == 0 {
        assert(a + after == a);
        assert(b + after == b);
    } else {
        assert((a + after).drop_last() == a + after.drop_last());
        assert((b + after).drop_last() == b + after.drop_last());
        lemma_records_go_on(a, b, after.drop_last());
    }
}

/// Complete records can change places, whatever stands before and after them.
proof fn lemma_complete_records_swap(
    before: Seq<Seq<char>>,
    a: Seq<Seq<char>>,
    b: Seq<Seq<char>>,
    after: Seq<Seq<char>>,
)
    requires
        complete(before),
        complete(a),
        complete(b),
    ensures
        records(before + a + b + after) == records(before + b + a + after),
{
    lemma_records_follow(before, a);
    lemma_records_follow(before, b);
    lemma_records_follow(before + a, b);
    lemma_records_follow(before + b, a);
    lemma_merged_swap(
        records(before)->Ok_0.files,
        records(a)->Ok_0.files,
        records(b)->Ok_0.files,
    );
    lemma_records_go_on(before + a + b, before + b + a, after);
}

/// The order of complete records makes no difference: two of them, each of one
/// section or of several, can change places wherever they stand, and the profile,
/// or the fault that is found, stays the same. So all of them can, in any order.
pub proof fn law_the_order_of_records_makes_no_difference(
    before: Seq<char>,
    a: Seq<char>,
    b: Seq<char>,
    after: Seq<char>,
)
    requires
        text::whole_lines(before),
        text::whole_lines(a),
        text::whole_lines(b),
        complete(text::lines(before)),
        complete(text::lines(a)),
        complete(text::lines(b)),
    ensures
        profile(before + a + b + after) == profile(before + b + a + after),
{
    text::law_lines_follow_whole_lines(before, a);
    text::law_lines_follow_whole_lines(before, b);
    text::law_lines_follow_whole_lines(before + a, b);
    text::law_lines_follow_whole_lines(before + b, a);
    text::law_lines_follow_whole_lines(before + a + b, after);
    text::law_lines_follow_whole_lines(before + b + a, after);
    lemma_complete_records_swap(
        text::lines(before),
        text::lines(a),
        text::lines(b),
        text::lines(after),
    );
}

/// Two paths overlap by all the segments of the shorter one, if it has any, and if
/// every one of them is the segment of the other that stands as far from the end.
pub proof fn law_paths_overlap_by_the_shorter_one(a: Seq<Seq<char>>, b: Seq<Seq<char>>, n: nat)
    ensures
        overlap(a, b) == Some(n) <==> {
            &&& n > 0
            &&& (n == a.len() && n <= b.len()) || (n == b.len() && n <= a.len())
            &&& forall|k: int| 0 <= k < n ==> #[trigger] a[a.len() - 1 - k] == b[b.len() - 1 - k]
        },
{
    let x = a.skip(a.len() - n);
    let y = b.skip(b.len() - n);
    if n <= a.len() && n <= b.len() {
        if forall|k: int| 0 <= k < n ==> #[trigger] a[a.len() - 1 - k] == b[b.len() - 1 - k] {
            assert forall|i: int| 0 <= i < n implies x[i] == y[i] by {
                let k = n - 1 - i;
                assert(a[a.len() - 1 - k] == b[b.len() - 1 - k]);
            }
            assert(x == y);
        }
        if x == y {
            assert forall|k: int| 0 <= k < n implies #[trigger] a[a.len() - 1 - k] == b[b.len() - 1
                - k] by {
                assert(x[n - 1 - k] == y[n - 1 - k]);
            }
        }
    }
}

/// Whether the shorter of two paths has segments, `n` of them, and the longer one
/// ends with them.
pub open spec fn ends_alike(a: Seq<Seq<char>>, b: Seq<Seq<char>>, n: nat) -> bool {
    &&& n > 0
    &&& (n == a.len() && n <= b.len()) || (n == b.len() && n <= a.len())
    &&& forall|k: int| 0 <= k < n ==> #[trigger] a[a.len() - 1 - k] == b[b.len() - 1 - k]
}

proof fn lemma_filter_ascends(keys: Seq<Seq<char>>, keep: spec_fn(Seq<char>) -> bool)
    requires
        ascending(keys),
    ensures
        ascending(keys.filter(keep)),
    decreases keys.len(),
{
    reveal(Seq::filter);
    if keys.len() > 0 {
        let rest = keys.drop_last();
        let last = keys[keys.len() - 1];
        assert forall|i: int, j: int| 0 <= i < j < rest.len() implies text::before(
            #[trigger] rest[i],
            #[trigger] rest[j],
        ) by {
            assert(text::before(keys[i], keys[j]));
        }
        lemma_filter_ascends(rest, keep);
        let kept = rest.filter(keep);
        if keep(last) {
            let all = keys.filter(keep);
            assert(all == kept.push(last));
            assert forall|i: int, j: int| 0 <= i < j < all.len() implies text::before(
                #[trigger] all[i],
                #[trigger] all[j],
            ) by {
                if j < kept.len() {
                    assert(text::before(kept[i], kept[j]));
                } else {
                    assert(kept.contains(kept[i]));
                    rest.lemma_filter_contains_rev(keep, kept[i]);
                    let k = choose|k: int| 0 <= k < rest.len() && rest[k] == kept[i];
                    assert(text::before(keys[k], keys[keys.len() - 1]));
                }
            }
        }
    }
}

/// A path is matched by what its segments are. Some key is the path itself, and
/// then the first such key is the match. Or none is: then the key that ends as the
/// path does, in either direction and over more segments than any other, is the
/// match; where several do so over equally many, they are all named, in order, and
/// none is chosen; and where no key ends so, there is no match. A key that differs
/// from the path in any segment that is compared is never named.
pub proof fn law_a_match_ends_as_the_path_does(path: Seq<char>, keys: Seq<Seq<char>>)
    requires
        ascending(keys),
    ensures
        ({
            let own = match_segments(path);
            let same = |key: Seq<char>| normalized(key) == normalized(path);
            match resolved(path, keys) {
                ResolutionView::Exact(key) => exists|i: int|
                    0 <= i < keys.len() && #[trigger] keys[i] == key && same(key) && forall|j: int|
                        0 <= j < i ==> !same(#[trigger] keys[j]),
                ResolutionView::Suffix(key) => {
                    let n = if own.len() <= match_segments(key).len() {
                        own.len()
                    } else {
                        match_segments(key).len()
                    };
                    &&& keys.contains(key)
                    &&& ends_alike(own, match_segments(key), n)
                    &&& forall|i: int, m: nat|
                        0 <= i < keys.len() && keys[i] != key && #[trigger] ends_alike(
                            own,
                            match_segments(keys[i]),
                            m,
                        ) ==> m < n
                    &&& forall|i: int| 0 <= i < keys.len() ==> !same(#[trigger] keys[i])
                },
                ResolutionView::Ambiguous(named) => {
                    let n = if own.len() <= match_segments(named[0]).len() {
                        own.len()
                    } else {
                        match_segments(named[0]).len()
                    };
                    &&& named.len() >= 2
                    &&& ascending(named)
                    &&& forall|key: Seq<char>| #[trigger]
                        named.contains(key) <==> keys.contains(key) && ends_alike(
                            own,
                            match_segments(key),
                            n,
                        )
                    &&& forall|i: int, m: nat|
                        0 <= i < keys.len() && #[trigger] ends_alike(
                            own,
                            match_segments(keys[i]),
                            m,
                        ) ==> m <= n
                    &&& forall|i: int| 0 <= i < keys.len() ==> !same(#[trigger] keys[i])
                },
                ResolutionView::Unresolved => {
                    &&& forall|i: int, m: nat|
                        0 <= i < keys.len() ==> !#[trigger] ends_alike(
                            own,
                            match_segments(keys[i]),
                            m,
                        )
                    &&& forall|i: int| 0 <= i < keys.len() ==> !same(#[trigger] keys[i])
                },
            }
        }),
{
    let own = match_segments(path);
    let same = |key: Seq<char>| normalized(key) == normalized(path);
    let n = longest(path, keys);
    let fits = |key: Seq<char>| overlap(own, match_segments(key)) == Some(n);
    let exact = identical(path, keys);
    let best = overlapping(path, keys, n);
    assert(exact == keys.filter(same));
    assert(best == keys.filter(fits));
    lemma_longest(path, keys);
    lemma_filter_ascends(keys, fits);
    assert forall|i: int, m: nat|
        0 <= i < keys.len() && #[trigger] ends_alike(own, match_segments(keys[i]), m) implies m
        <= n && (m == n ==> best.contains(keys[i])) by {
        law_paths_overlap_by_the_shorter_one(own, match_segments(keys[i]), m);
        assert(overlap(own, match_segments(keys[i])) == Some(m));
        if m == n {
            keys.lemma_filter_contains(fits, i);
        }
    }
    assert forall|key: Seq<char>| #[trigger] best.contains(key) implies keys.contains(key)
        && ends_alike(own, match_segments(key), n) by {
        keys.lemma_filter_contains_rev(fits, key);
        let k = choose|k: int| 0 <= k < best.len() && best[k] == key;
        keys.lemma_filter_pred(fits, k);
        law_paths_overlap_by_the_shorter_one(own, match_segments(key), n);
    }
    assert forall|key: Seq<char>|
        keys.contains(key) && ends_alike(own, match_segments(key), n) implies #[trigger] best.contains(
        key,
    ) by {
        let i = choose|i: int| 0 <= i < keys.len() && keys[i] == key;
        assert(ends_alike(own, match_segments(keys[i]), n));
    }
    if exact.len() > 0 {
        lemma_first_of_a_filter(keys, same);
        let i = choose|i: int|
            0 <= i < keys.len() && #[trigger] keys[i] == exact[0] && same(exact[0]) && forall|j: int|
                0 <= j < i ==> !same(#[trigger] keys[j]);
        assert(keys[i] == exact[0]);
    } else {
        assert forall|i: int| 0 <= i < keys.len() implies !same(#[trigger] keys[i]) by {
            if same(keys[i]) {
                keys.lemma_filter_contains(same, i);
            }
        }
        if best.len() == 1 {
            assert(best.contains(best[0]));
            assert forall|i: int, m: nat|
                0 <= i < keys.len() && keys[i] != best[0] && #[trigger] ends_alike(
                    own,
                    match_segments(keys[i]),
                    m,
                ) implies m < n by {
                if m == n {
                    assert(best.contains(keys[i]));
                }
            }
        } else if best.len() > 1 {
            assert(best.contains(best[0]));
        } else {
            assert forall|i: int, m: nat|
                0 <= i < keys.len() implies !#[trigger] ends_alike(
                own,
                match_segments(keys[i]),
                m,
            ) by {
                if ends_alike(own, match_segments(keys[i]), m) {
                    lemma_longest_is_reached(path, keys, i);
                }
            }
        }
    }
}

proof fn lemma_first_of_a_filter(keys: Seq<Seq<char>>, keep: spec_fn(Seq<char>) -> bool)
    requires
        keys.filter(keep).len() > 0,
    ensures
        exists|i: int|
            0 <= i < keys.len() && #[trigger] keys[i] == keys.filter(keep)[0] && keep(
                keys.filter(keep)[0],
            ) && forall|j: int| 0 <= j < i ==> !keep(#[trigger] keys[j]),
    decreases keys.len(),
{
    reveal(Seq::filter);
    if keys.len() > 0 {
        let rest = keys.drop_last();
        if rest.filter(keep).len() > 0 {
            lemma_first_of_a_filter(rest, keep);
            let i = choose|i: int|
                0 <= i < rest.len() && #[trigger] rest[i] == rest.filter(keep)[0] && keep(
                    rest.filter(keep)[0],
                ) && forall|j: int| 0 <= j < i ==> !keep(#[trigger] rest[j]);
            assert(keys[i] == keys.filter(keep)[0]);
            assert forall|j: int| 0 <= j < i implies !keep(#[trigger] keys[j]) by {
                assert(rest[j] == keys[j]);
            }
        } else {
            let n = keys.len() - 1;
            assert(keys[n] == keys.filter(keep)[0]);
            assert forall|j: int| 0 <= j < n implies !keep(#[trigger] keys[j]) by {
                if keep(keys[j]) {
                    assert(rest[j] == keys[j]);
                    rest.lemma_filter_contains(keep, j);
                }
            }
        }
    }
}

/// Where some key overlaps, some key overlaps by the longest overlap.
proof fn lemma_longest_is_reached(path: Seq<char>, keys: Seq<Seq<char>>, i: int)
    requires
        0 <= i < keys.len(),
        exists|m: nat| #[trigger]
            ends_alike(match_segments(path), match_segments(keys[i]), m),
    ensures
        overlapping(path, keys, longest(path, keys)).len() > 0,
    decreases keys.len(),
{
    let own = match_segments(path);
    let m = choose|m: nat| #[trigger] ends_alike(own, match_segments(keys[i]), m);
    law_paths_overlap_by_the_shorter_one(own, match_segments(keys[i]), m);
    lemma_longest(path, keys);
    let n = longest(path, keys);
    assert(n > 0);
    lemma_some_key_is_longest(path, keys);
    let k = choose|k: int|
        0 <= k < keys.len() && overlap(own, match_segments(#[trigger] keys[k])) == Some(n);
    keys.lemma_filter_contains(
        |key: Seq<char>| overlap(match_segments(path), match_segments(key)) == Some(n),
        k,
    );
}

proof fn lemma_some_key_is_longest(path: Seq<char>, keys: Seq<Seq<char>>)
    requires
        longest(path, keys) > 0,
    ensures
        exists|k: int|
            0 <= k < keys.len() && overlap(match_segments(path), match_segments(#[trigger] keys[k]))
                == Some(longest(path, keys)),
    decreases keys.len(),
{
    let rest = keys.drop_last();
    let n = longest(path, keys);
    if n == longest(path, rest) {
        lemma_some_key_is_longest(path, rest);
        let k = choose|k: int|
            0 <= k < rest.len() && overlap(
                match_segments(path),
                match_segments(#[trigger] rest[k]),
            ) == Some(n);
        assert(keys[k] == rest[k]);
    } else {
        assert(overlap(match_segments(path), match_segments(keys[keys.len() - 1])) == Some(n));
    }
}

/// A path is normalized by its separators and by one `./` in front, and by nothing
/// else.
pub proof fn law_only_separators_and_a_leading_dot_are_normalized(path: Seq<char>)
    ensures
        normalized(seq!['.', '/'] + path) == text::slashed(path),
        normalized(seq!['.', '\\'] + path) == text::slashed(path),
        path.len() < 2 || path[0] != '.' || (path[1] != '/' && path[1] != '\\') ==> normalized(path)
            == text::slashed(path),
        normalized(path).len() <= path.len(),
{
    let slash = seq!['.', '/'];
    let a = text::slashed(slash + path);
    let b = text::slashed(seq!['.', '\\'] + path);
    assert(a.take(2) == slash);
    assert(a.skip(2) == text::slashed(path));
    assert(b.take(2) == slash);
    assert(b.skip(2) == text::slashed(path));
    let c = text::slashed(path);
    if text::has_prefix(c, slash) {
        assert(c.take(2)[0] == slash[0]);
        assert(c.take(2)[1] == slash[1]);
    }
}

/// A path is found under more directories: a record of the same path behind some
/// directory overlaps by all of the segments of the path, and so does the path
/// with the record.
pub proof fn law_a_path_is_found_under_more_directories(front: Seq<char>, path: Seq<char>)
    requires
        front.len() > 0 && front[0] != '.',
        normalized(path) == path,
        text::slashed(path) == path,
        text::segments(path).len() > 0,
    ensures
        overlap(match_segments(path), match_segments(front.push('/') + path)) == Some(
            text::segments(path).len(),
        ),
        overlap(match_segments(front.push('/') + path), match_segments(path)) == Some(
            text::segments(path).len(),
        ),
{
    let key = front.push('/') + path;
    let parts = text::segments(path);
    law_only_separators_and_a_leading_dot_are_normalized(key);
    assert(text::slashed(key) == text::slashed(front).push('/') + path);
    text::law_segments_stand_between_slashes(text::slashed(front), path);
    let longer = match_segments(key);
    let head = text::segments(text::slashed(front));
    assert(longer == head + parts);
    assert(longer.skip(longer.len() - parts.len()) == parts);
    assert(parts.skip(0) == parts);
    law_paths_overlap_by_the_shorter_one(parts, longer, parts.len());
    law_paths_overlap_by_the_shorter_one(longer, parts, parts.len());
    assert forall|k: int| 0 <= k < parts.len() implies #[trigger] parts[parts.len() - 1 - k]
        == longer[longer.len() - 1 - k] by {}
    assert forall|k: int| 0 <= k < parts.len() implies #[trigger] longer[longer.len() - 1 - k]
        == parts[parts.len() - 1 - k] by {}
}

/// The counts of a range are those of its parts together, each line by itself: an
/// instrumented line counts once, and as run if it has a hit. A line that is not
/// instrumented does not count, and neither does anything where the profile has no
/// section for the path. A range that ends before it starts is empty.
pub proof fn law_ranges_add_up(
    profile: Profile,
    path: Seq<char>,
    first: u32,
    middle: u32,
    last: u32,
)
    ensures
        first <= middle && middle < last ==> {
            let whole = range_counts(profile, path, first, last);
            let low = range_counts(profile, path, first, middle);
            let high = range_counts(profile, path, (middle + 1) as u32, last);
            whole.0 == low.0 + high.0 && whole.1 == low.1 + high.1
        },
        profile.dom().contains(path) && profile[path].dom().contains(middle) ==> range_counts(
            profile,
            path,
            middle,
            middle,
        ) == (if profile[path][middle] > 0 {
            1nat
        } else {
            0nat
        }, 1nat),
        profile.dom().contains(path) && !profile[path].dom().contains(middle) ==> range_counts(
            profile,
            path,
            middle,
            middle,
        ) == (0nat, 0nat),
        !profile.dom().contains(path) ==> range_counts(profile, path, first, last) == (0nat, 0nat),
        last < first ==> range_counts(profile, path, first, last) == (0nat, 0nat),
{
    let hits = profile[path];
    if first <= middle && middle < last {
        let next = (middle + 1) as u32;
        lemma_parts_are_finite(hits, first, middle);
        lemma_parts_are_finite(hits, next, last);
        let a = lines_within(hits, first, middle);
        let b = lines_within(hits, next, last);
        assert(lines_within(hits, first, last) =~= a.union(b));
        assert(a.disjoint(b));
        vstd::set_lib::lemma_set_disjoint_lens(a, b);
        let c = lines_run(hits, first, middle);
        let d = lines_run(hits, next, last);
        assert(lines_run(hits, first, last) =~= c.union(d));
        assert(c.disjoint(d));
        vstd::set_lib::lemma_set_disjoint_lens(c, d);
    }
    let one = Set::<u32>::empty().insert(middle);
    if hits.dom().contains(middle) {
        assert(lines_within(hits, middle, middle) =~= one);
        if hits[middle] > 0 {
            assert(lines_run(hits, middle, middle) =~= one);
        } else {
            assert(lines_run(hits, middle, middle) =~= Set::<u32>::empty());
        }
    } else {
        assert(lines_within(hits, middle, middle) =~= Set::<u32>::empty());
        assert(lines_run(hits, middle, middle) =~= Set::<u32>::empty());
    }
    if last < first {
        assert(lines_within(hits, first, last) =~= Set::<u32>::empty());
        assert(lines_run(hits, first, last) =~= Set::<u32>::empty());
    }
}

proof fn lemma_parts_are_finite(hits: Map<u32, u64>, first: u32, last: u32)
    ensures
        lines_within(hits, first, last).finite(),
        lines_run(hits, first, last).finite(),
{
    lemma_range_is_finite(first, last);
    let all = Set::new(|line: u32| first <= line <= last);
    vstd::set_lib::lemma_len_subset(lines_within(hits, first, last), all);
    vstd::set_lib::lemma_len_subset(lines_run(hits, first, last), all);
}

/// A `DA` record as it is written: the line and the hits in decimal, with a comma
/// between them, and maybe something more behind another comma.
pub open spec fn da_line(number: nat, count: nat, more: Option<Seq<char>>) -> Seq<char> {
    "DA:"@ + text::decimal(number) + seq![','] + text::decimal(count) + (match more {
        Some(checksum) => seq![','] + checksum,
        None => Seq::empty(),
    })
}

proof fn lemma_decimal_has_no_comma(n: nat)
    ensures
        !text::decimal(n).contains(','),
    decreases n,
{
    if n < 10 {
        assert(text::digit(n) as int == 48 + n);
    } else {
        lemma_decimal_has_no_comma(n / 10);
        let rest = text::decimal(n / 10);
        assert(text::digit(n % 10) as int == 48 + n % 10);
        if text::decimal(n).contains(',') {
            let i = choose|i: int|
                0 <= i < text::decimal(n).len() && text::decimal(n)[i] == ',';
            if i < rest.len() {
                assert(rest[i] == ',');
            }
        }
    }
    assert(',' as int == 44);
}

proof fn lemma_da_line(number: u32, count: u64, more: Option<Seq<char>>)
    ensures
        text::has_prefix(da_line(number as nat, count as nat, more), "DA:"@),
        !text::has_prefix(da_line(number as nat, count as nat, more), "SF:"@),
        da_fields(da_line(number as nat, count as nat, more).skip(3)) == Some((number, count)),
{
    reveal_strlit("DA:");
    reveal_strlit("SF:");
    let line = da_line(number as nat, count as nat, more);
    let a = text::decimal(number as nat);
    let b = text::decimal(count as nat);
    let rest = line.skip(3);
    assert(line.take(3) == "DA:"@);
    assert("DA:"@[0] != "SF:"@[0]);
    assert(line.take(3)[0] != "SF:"@[0]);
    text::law_reading_undoes_writing(number as nat);
    text::law_reading_undoes_writing(count as nat);
    lemma_decimal_has_no_comma(number as nat);
    lemma_decimal_has_no_comma(count as nat);
    match more {
        Some(checksum) => {
            assert(rest == a.push(',') + (b.push(',') + checksum));
            text::law_a_separator_separates(a, b.push(',') + checksum, ',');
            text::law_a_separator_separates(b, checksum, ',');
        },
        None => {
            assert(rest == a.push(',') + b);
            text::law_a_separator_separates(a, b, ',');
            text::law_a_separator_separates(b, b, ',');
        },
    }
    let fields = text::split(rest, ',');
    assert(fields[0] == a && fields[1] == b && fields.len() >= 2);
}

/// A record is read as it is written. `SF:` and a path, then `DA:` with a line and
/// its hits, then `end_of_record`, make the line of the path have at least those
/// hits, and no more than it had before or the record says. Nothing else changes,
/// no section stays open, and what follows the hits behind a comma is ignored.
pub proof fn law_a_record_is_read_as_it_is_written(
    before: Seq<Seq<char>>,
    path: Seq<char>,
    number: u32,
    count: u64,
    more: Option<Seq<char>>,
    other: Seq<char>,
    line: u32,
)
    requires
        records(before) is Ok,
    ensures
        ({
            let lines = before.push("SF:"@ + path).push(
                da_line(number as nat, count as nat, more),
            ).push("end_of_record"@);
            let known = records(before)->Ok_0.files;
            let known_hits = if known.dom().contains(path) {
                known[path]
            } else {
                Map::empty()
            };
            &&& records(lines) is Ok
            &&& records(lines)->Ok_0.open is None
            &&& records(lines)->Ok_0.files.dom().contains(other) <==> known.dom().contains(other)
                || other == path
            &&& other != path && known.dom().contains(other) ==> records(lines)->Ok_0.files[other]
                == known[other]
            &&& records(lines)->Ok_0.files[path].dom().contains(line) <==> known_hits.dom().contains(
                line,
            ) || line == number
            &&& line != number && known_hits.dom().contains(line)
                ==> records(lines)->Ok_0.files[path][line] == known_hits[line]
            &&& records(lines)->Ok_0.files[path][number] == (if known_hits.dom().contains(number)
                && known_hits[number] > count {
                known_hits[number]
            } else {
                count
            })
        }),
{
    reveal_strlit("SF:");
    reveal_strlit("DA:");
    reveal_strlit("end_of_record");
    let opening = "SF:"@ + path;
    let telling = da_line(number as nat, count as nat, more);
    let closing = "end_of_record"@;
    lemma_da_line(number, count, more);
    assert(opening.take(3) == "SF:"@);
    assert(opening.skip(3) == path);
    assert(closing.take(3)[0] == 'e');
    assert("SF:"@[0] == 'S' && "DA:"@[0] == 'D');
    let one = before.push(opening);
    let two = one.push(telling);
    let three = two.push(closing);
    assert(one.drop_last() == before && two.drop_last() == one && three.drop_last() == two);
    assert(records(one) == record(records(before)->Ok_0, opening));
    assert(records(two) == record(records(one)->Ok_0, telling));
    assert(records(three) == record(records(two)->Ok_0, closing));
}

/// Every other line is skipped: one that starts with neither `SF:` nor `DA:` and is
/// not `end_of_record` changes nothing.
pub proof fn law_other_lines_are_skipped(before: Seq<Seq<char>>, line: Seq<char>)
    requires
        line.len() < 3 || (line.take(3) != seq!['S', 'F', ':'] && line.take(3) != seq![
            'D',
            'A',
            ':',
        ]),
        line != "end_of_record"@,
    ensures
        records(before.push(line)) == records(before),
{
    reveal_strlit("SF:");
    reveal_strlit("DA:");
    assert("SF:"@ == seq!['S', 'F', ':']);
    assert("DA:"@ == seq!['D', 'A', ':']);
    assert(before.push(line).drop_last() == before);
}

/// A `DA` record is a fault where no section is open, and where its line or its
/// hits are missing, are no number, or are too large. The first fault decides,
/// whatever follows it.
pub proof fn law_faults_are_told(
    before: Seq<Seq<char>>,
    rest: Seq<char>,
    first: Seq<char>,
    second: Seq<char>,
    after: Seq<Seq<char>>,
)
    requires
        records(before) is Ok,
        !first.contains(','),
        !second.contains(','),
        rest == first || rest == first.push(',') + second,
    ensures
        records(before)->Ok_0.open is None ==> records(before.push("DA:"@ + rest) + after) == Err::<
            Reading,
            LcovFault,
        >(LcovFault::DaBeforeSf),
        records(before)->Ok_0.open is Some && (rest == first || text::parsed(first) is None
            || text::parsed(first)->Some_0 > 4_294_967_295 || text::parsed(second) is None
            || text::parsed(second)->Some_0 > 18_446_744_073_709_551_615) ==> records(
            before.push("DA:"@ + rest) + after,
        ) == Err::<Reading, LcovFault>(LcovFault::MalformedDa("DA:"@ + rest)),
{
    reveal_strlit("SF:");
    reveal_strlit("DA:");
    let line = "DA:"@ + rest;
    let lines = before.push(line);
    assert(line.take(3) == "DA:"@);
    assert(line.skip(3) == rest);
    assert(line.take(3)[0] == 'D' && "SF:"@[0] == 'S');
    assert(lines.drop_last() == before);
    text::law_a_separator_separates(first, second, ',');
    text::law_a_separator_separates(second, second, ',');
    if rest != first {
        let fields = text::split(rest, ',');
        assert(fields == seq![first] + seq![second]);
        assert(fields[0] == first && fields[1] == second);
    }
    if records(lines) is Err {
        assert((lines + after).take(lines.len() as int) == lines);
        lemma_fault_stands(lines + after, lines.len() as int);
    }
}

} // verus!

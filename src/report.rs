use vstd::prelude::*;

use crate::aggregate::{Aggregator, Group, GroupsView};

verus! {

/// The shapes in which the finished map can be handed to an output.
#[derive(Clone, Copy, Debug, PartialEq, Eq, Structural)]
pub enum OutputFormat {
    Text,
    Csv,
    Db,
}

/// One row of the tabular output: a fingerprint, a path of its duplicate set,
/// and the number of that set, counted from 1.
pub struct DuplicateRecord {
    pub fingerprint: u64,
    pub path: String,
    pub group_id: u64,
}

/// What an output writes: plain text lines, tabular rows, or the duplicate
/// sets to be stored one table row per set and one per path.
pub enum Rendered {
    Text(Vec<String>),
    Csv(Vec<DuplicateRecord>),
    Db(Vec<Group>),
}

/// The groups of two or more members, in the order of the listing.
pub open spec fn dup_sets(gs: GroupsView) -> GroupsView
    decreases gs.len(),
{
    if gs.len() == 0 {
        Seq::empty()
    } else if gs.last().1.len() >= 2 {
        dup_sets(gs.drop_last()).push(gs.last())
    } else {
        dup_sets(gs.drop_last())
    }
}

/// The rows of duplicate sets: each path with its fingerprint and the number
/// of its set, counted from 1.
pub open spec fn records_of(ds: GroupsView) -> Seq<(u64, Seq<char>, nat)>
    decreases ds.len(),
{
    if ds.len() == 0 {
        Seq::empty()
    } else {
        records_of(ds.drop_last()) + ds.last().1.map_values(row_of(ds.last().0, ds.len()))
    }
}

/// The row of one path of the duplicate set numbered `id`.
pub open spec fn row_of(k: u64, id: nat) -> spec_fn(Seq<char>) -> (u64, Seq<char>, nat) {
    |p: Seq<char>| (k, p, id)
}

/// The text blocks of duplicate sets: a `-` line, then one path per line.
pub open spec fn text_body(ds: GroupsView) -> Seq<Seq<char>>
    decreases ds.len(),
{
    if ds.len() == 0 {
        Seq::empty()
    } else {
        text_body(ds.drop_last()) + seq!["-"@] + ds.last().1
    }
}

/// The banner that opens the text output unless it is quiet.
pub open spec fn text_banner(any_duplicates: bool) -> Seq<Seq<char>> {
    if any_duplicates {
        seq![""@, "DUPLICATES FOUND!"@]
    } else {
        seq![""@, "No Duplicates Found!"@]
    }
}

/// The whole text output of a listing.
pub open spec fn text_lines(gs: GroupsView, quiet: bool) -> Seq<Seq<char>> {
    if quiet {
        text_body(dup_sets(gs))
    } else {
        text_banner(dup_sets(gs).len() > 0) + text_body(dup_sets(gs))
    }
}

pub open spec fn strings_view(v: Seq<String>) -> Seq<Seq<char>> {
    v.map_values(|s: String| s@)
}

pub open spec fn records_view(v: Seq<DuplicateRecord>) -> Seq<(u64, Seq<char>, nat)> {
    v.map_values(|r: DuplicateRecord| (r.fingerprint, r.path@, r.group_id as nat))
}

pub open spec fn groups_view(v: Seq<Group>) -> GroupsView {
    v.map_values(|g: Group| g@)
}

/// A copy of a list of paths.
fn clone_paths(paths: &Vec<String>) -> (r: Vec<String>)
    ensures
        strings_view(r@) == strings_view(paths@),
{
    let mut r: Vec<String> = Vec::new();
    let mut i: usize = 0;
    while i < paths.len()
        invariant
            i <= paths.len(),
            strings_view(r@) == strings_view(paths@.take(i as int)),
        decreases paths.len() - i,
    {
        let s = paths[i].clone();
        assert(s == paths@[i as int]);
        let ghost prev = r@;
        r.push(s);
        assert(strings_view(r@) =~= strings_view(prev).push(s@));
        assert(paths@.take(i + 1) =~= paths@.take(i as int).push(s));
        assert(strings_view(paths@.take(i + 1)) =~= strings_view(paths@.take(i as int)).push(s@));
        assert(strings_view(r@) =~= strings_view(paths@.take(i + 1)));
        i = i + 1;
    }
    assert(paths@.take(paths.len() as int) =~= paths@);
    r
}

/// The duplicate sets of the map, copied out in the order of the listing.
pub fn duplicate_sets(agg: &Aggregator) -> (r: Vec<Group>)
    ensures
        groups_view(r@) == dup_sets(agg@),
{
    let groups = agg.groups();
    let ghost gs = agg@;
    let mut r: Vec<Group> = Vec::new();
    let mut i: usize = 0;
    while i < groups.len()
        invariant
            i <= groups.len(),
            groups_view(groups@) == gs,
            groups_view(r@) == dup_sets(gs.take(i as int)),
        decreases groups.len() - i,
    {
        let g = &groups[i];
        proof {
            assert(gs.take(i + 1).drop_last() =~= gs.take(i as int));
            assert(gs[i as int] == g@);
        }
        if g.paths.len() >= 2 {
            let paths = clone_paths(&g.paths);
            r.push(Group { fingerprint: g.fingerprint, paths });
            proof {
                assert(r@.last()@.1 =~= g@.1);
                assert(groups_view(r@) =~= dup_sets(gs.take(i + 1)));
            }
        }
        i = i + 1;
    }
    assert(gs.take(groups.len() as int) =~= gs);
    r
}

/// The text output: unless quiet, a blank line and a banner that says whether
/// duplicates were found; then, for each duplicate set, a `-` line followed by
/// its paths, one per line.
pub fn print_results_text(agg: &Aggregator, quiet: bool) -> (lines: Vec<String>)
    ensures
        strings_view(lines@) == text_lines(agg@, quiet),
{
    let sets = duplicate_sets(agg);
    let ghost ds = dup_sets(agg@);
    let mut lines: Vec<String> = Vec::new();
    let ghost head: Seq<Seq<char>> = Seq::empty();
    if !quiet {
        lines.push("".to_owned());
        if sets.len() > 0 {
            lines.push("DUPLICATES FOUND!".to_owned());
        } else {
            lines.push("No Duplicates Found!".to_owned());
        }
        proof {
            head = text_banner(ds.len() > 0);
            assert(groups_view(sets@).len() == sets@.len());
            assert(strings_view(lines@) =~= head);
        }
    } else {
        assert(strings_view(lines@) =~= head);
    }
    let mut i: usize = 0;
    while i < sets.len()
        invariant
            i <= sets.len(),
            groups_view(sets@) == ds,
            strings_view(lines@) == head + text_body(ds.take(i as int)),
        decreases sets.len() - i,
    {
        let g = &sets[i];
        let ghost before = strings_view(lines@);
        lines.push("-".to_owned());
        let mut j: usize = 0;
        while j < g.paths.len()
            invariant
                j <= g.paths.len(),
                strings_view(lines@) == before + seq!["-"@] + strings_view(g.paths@.take(
                    j as int,
                )),
            decreases g.paths.len() - j,
        {
            let s = g.paths[j].clone();
            assert(s == g.paths@[j as int]);
            let ghost prev = lines@;
            lines.push(s);
            assert(strings_view(lines@) =~= strings_view(prev).push(s@));
            assert(g.paths@.take(j + 1) =~= g.paths@.take(j as int).push(s));
            assert(strings_view(g.paths@.take(j + 1)) =~= strings_view(g.paths@.take(j as int)).push(
                s@,
            ));
            assert(strings_view(lines@) =~= before + seq!["-"@] + strings_view(g.paths@.take(
                j + 1,
            )));
            j = j + 1;
        }
        proof {
            assert(g.paths@.take(g.paths.len() as int) =~= g.paths@);
            assert(ds.take(i + 1).drop_last() =~= ds.take(i as int));
            assert(ds[i as int] == g@);
            assert(strings_view(lines@) =~= head + text_body(ds.take(i + 1)));
        }
        i = i + 1;
    }
    assert(ds.take(sets.len() as int) =~= ds);
    lines
}

/// The tabular output: one row per path of each duplicate set, with the set's
/// fingerprint and its number, counted from 1.
pub fn print_results_csv(agg: &Aggregator) -> (rows: Vec<DuplicateRecord>)
    ensures
        records_view(rows@) == records_of(dup_sets(agg@)),
{
    let sets = duplicate_sets(agg);
    let ghost ds = dup_sets(agg@);
    let mut rows: Vec<DuplicateRecord> = Vec::new();
    let mut i: usize = 0;
    while i < sets.len()
        invariant
            i <= sets.len(),
            groups_view(sets@) == ds,
            records_view(rows@) == records_of(ds.take(i as int)),
        decreases sets.len() - i,
    {
        let g = &sets[i];
        let id = (i + 1) as u64;
        let ghost before = records_view(rows@);
        let ghost mk = row_of(g.fingerprint, (i + 1) as nat);
        let mut j: usize = 0;
        while j < g.paths.len()
            invariant
                j <= g.paths.len(),
                id == i + 1,
                mk == row_of(g.fingerprint, (i + 1) as nat),
                records_view(rows@) == before + strings_view(g.paths@.take(j as int)).map_values(
                    mk,
                ),
            decreases g.paths.len() - j,
        {
            let s = g.paths[j].clone();
            assert(s == g.paths@[j as int]);
            let ghost prev = rows@;
            rows.push(DuplicateRecord { fingerprint: g.fingerprint, path: s, group_id: id });
            assert(records_view(rows@) =~= records_view(prev).push((g.fingerprint, s@, (i + 1) as nat)));
            assert(g.paths@.take(j + 1) =~= g.paths@.take(j as int).push(s));
            assert(strings_view(g.paths@.take(j + 1)) =~= strings_view(g.paths@.take(j as int)).push(
                s@,
            ));
            assert(id as nat == (i + 1) as nat);
            assert(strings_view(g.paths@.take(j + 1)).map_values(mk) =~= strings_view(
                g.paths@.take(j as int),
            ).map_values(mk).push(mk(s@)));
            assert(records_view(rows@) =~= before + strings_view(g.paths@.take(j + 1)).map_values(
                mk,
            ));
            j = j + 1;
        }
        proof {
            assert(g.paths@.take(g.paths.len() as int) =~= g.paths@);
            assert(ds.take(i + 1).drop_last() =~= ds.take(i as int));
            assert(ds[i as int] == g@);
            assert(ds.take(i + 1).len() == i + 1);
            assert(records_view(rows@) =~= records_of(ds.take(i + 1)));
        }
        i = i + 1;
    }
    assert(ds.take(sets.len() as int) =~= ds);
    rows
}

/// The relational output: the duplicate sets, each to become one row of the
/// groups table and one row per path in the files table.
pub fn print_results_db(agg: &Aggregator) -> (sets: Vec<Group>)
    ensures
        groups_view(sets@) == dup_sets(agg@),
{
    duplicate_sets(agg)
}

/// The finished map in the shape that the chosen output writes.
pub fn print_results(agg: &Aggregator, format: OutputFormat, quiet: bool) -> (r: Rendered)
    ensures
        format == OutputFormat::Text ==> (r matches Rendered::Text(lines) && strings_view(lines@)
            == text_lines(agg@, quiet)),
        format == OutputFormat::Csv ==> (r matches Rendered::Csv(rows) && records_view(rows@)
            == records_of(dup_sets(agg@))),
        format == OutputFormat::Db ==> (r matches Rendered::Db(sets) && groups_view(sets@)
            == dup_sets(agg@)),
{
    match format {
        OutputFormat::Text => Rendered::Text(print_results_text(agg, quiet)),
        OutputFormat::Csv => Rendered::Csv(print_results_csv(agg)),
        OutputFormat::Db => Rendered::Db(print_results_db(agg)),
    }
}

} // verus!

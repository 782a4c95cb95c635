//! Folding groups of duplicated code into one record per source file.
use vstd::prelude::*;

use crate::counter::{SourceCode, SourceCodeView};
use crate::runner::{
    group_views, parse_lines, report_groups, Duplication, DuplicationView, Runner, fresh_group,
};

verus! {

/// A group that counts: it has a source and at least one destination.
pub open spec fn is_billable(g: DuplicationView) -> bool {
    g.source.file.len() > 0 && g.destination.len() > 0
}

/// The source paths of the billable groups, each once, in the order of their
/// first group.
pub open spec fn source_keys(gs: Seq<DuplicationView>) -> Seq<Seq<char>>
    decreases gs.len(),
{
    if gs.len() == 0 {
        Seq::empty()
    } else {
        let ks = source_keys(gs.drop_last());
        let g = gs.last();
        if is_billable(g) && !ks.contains(g.source.file) {
            ks.push(g.source.file)
        } else {
            ks
        }
    }
}

/// The sum of the declared lines of the billable groups whose source is `key`.
pub open spec fn lines_for(gs: Seq<DuplicationView>, key: Seq<char>) -> nat
    decreases gs.len(),
{
    if gs.len() == 0 {
        0
    } else {
        lines_for(gs.drop_last(), key) + if is_billable(gs.last()) && gs.last().source.file == key {
            gs.last().lines
        } else {
            0nat
        }
    }
}

/// The first billable group whose source is `key`.
pub open spec fn first_group(gs: Seq<DuplicationView>, key: Seq<char>) -> DuplicationView
    decreases gs.len(),
{
    if gs.len() == 0 {
        fresh_group(0)
    } else if source_keys(gs.drop_last()).contains(key) {
        first_group(gs.drop_last(), key)
    } else {
        gs.last()
    }
}

/// The record of source file `key`: the source and first destination of its
/// first group, and the lines of all its groups.
pub open spec fn record_of(gs: Seq<DuplicationView>, key: Seq<char>) -> DuplicationView {
    let f = first_group(gs, key);
    DuplicationView { lines: lines_for(gs, key), source: f.source, destination: seq![f.destination[0]] }
}

/// One record per source file of a billable group, in the order of first sight.
pub open spec fn aggregated(gs: Seq<DuplicationView>) -> Seq<DuplicationView> {
    source_keys(gs).map_values(|k: Seq<char>| record_of(gs, k))
}

/// The lines of each source file fit in `usize`.
pub open spec fn lines_fit(gs: Seq<DuplicationView>) -> bool {
    forall|k: Seq<char>| #[trigger] source_keys(gs).contains(k) ==> lines_for(gs, k) <= usize::MAX
}

/// The keys are distinct, and the first group of each key is billable and has
/// that key as its source.
pub proof fn lemma_keys_well_formed(gs: Seq<DuplicationView>)
    ensures
        source_keys(gs).no_duplicates(),
        forall|k: Seq<char>| #[trigger] source_keys(gs).contains(k) ==> first_group(gs, k).source.file == k
            && is_billable(first_group(gs, k)),
    decreases gs.len(),
{
    if gs.len() > 0 {
        let pre = gs.drop_last();
        lemma_keys_well_formed(pre);
        let ks = source_keys(pre);
        let g = gs.last();
        if is_billable(g) && !ks.contains(g.source.file) {
            assert forall|a: int, b: int| 0 <= a < b < ks.push(g.source.file).len() implies ks.push(
                g.source.file,
            )[a] != ks.push(g.source.file)[b] by {
                if b == ks.len() {
                    assert(ks.contains(ks[a]));
                }
            }
            assert forall|k: Seq<char>| #[trigger] source_keys(gs).contains(k) implies first_group(gs, k).source.file == k
                && is_billable(first_group(gs, k)) by {
                if !ks.contains(k) {
                    let m = choose|m: int| 0 <= m < source_keys(gs).len() && source_keys(gs)[m] == k;
                    assert(m == ks.len());
                }
            }
        }
    }
}

/// A path that is no key has no lines.
pub proof fn lemma_absent_key(gs: Seq<DuplicationView>, key: Seq<char>)
    requires
        !source_keys(gs).contains(key),
    ensures
        lines_for(gs, key) == 0,
    decreases gs.len(),
{
    if gs.len() > 0 {
        let pre = gs.drop_last();
        let ks = source_keys(pre);
        let g = gs.last();
        if ks.contains(key) {
            let m = choose|m: int| 0 <= m < ks.len() && ks[m] == key;
            if is_billable(g) && !ks.contains(g.source.file) {
                assert(ks.push(g.source.file)[m] == key);
            }
        }
        if is_billable(g) && g.source.file == key && !ks.contains(key) {
            assert(ks.push(g.source.file)[ks.len() as int] == key);
        }
        lemma_absent_key(pre, key);
    }
}

/// A prefix of the groups gives no more lines to a path, and no key that all
/// of them do not give.
pub proof fn lemma_prefix(gs: Seq<DuplicationView>, n: int, key: Seq<char>)
    requires
        0 <= n <= gs.len(),
    ensures
        lines_for(gs.subrange(0, n), key) <= lines_for(gs, key),
        source_keys(gs.subrange(0, n)).contains(key) ==> source_keys(gs).contains(key),
    decreases gs.len() - n,
{
    if n == gs.len() {
        assert(gs.subrange(0, n) =~= gs);
    } else {
        lemma_prefix(gs, n + 1, key);
        let post = gs.subrange(0, n + 1);
        assert(post.drop_last() =~= gs.subrange(0, n));
        let ks = source_keys(gs.subrange(0, n));
        if ks.contains(key) {
            let m = choose|m: int| 0 <= m < ks.len() && ks[m] == key;
            let g = post.last();
            if is_billable(g) && !ks.contains(g.source.file) {
                assert(ks.push(g.source.file)[m] == key);
            }
        }
    }
}

/// A group that is not billable changes no record.
proof fn lemma_step_skipped(pre: Seq<DuplicationView>, g: DuplicationView)
    requires
        !is_billable(g),
    ensures
        aggregated(pre.push(g)) == aggregated(pre),
        source_keys(pre.push(g)) == source_keys(pre),
{
    let post = pre.push(g);
    assert(post.drop_last() =~= pre);
    assert(aggregated(post) =~= aggregated(pre));
}

/// A billable group whose source has a record adds its lines to that record.
proof fn lemma_step_known(pre: Seq<DuplicationView>, g: DuplicationView, j: int)
    requires
        is_billable(g),
        0 <= j < source_keys(pre).len(),
        source_keys(pre)[j] == g.source.file,
    ensures
        source_keys(pre.push(g)) == source_keys(pre),
        aggregated(pre.push(g)) == aggregated(pre).update(
            j,
            DuplicationView { lines: aggregated(pre)[j].lines + g.lines, ..aggregated(pre)[j] },
        ),
{
    let post = pre.push(g);
    let ks = source_keys(pre);
    assert(post.drop_last() =~= pre);
    assert(ks.contains(g.source.file));
    lemma_keys_well_formed(pre);
    assert forall|m: int| 0 <= m < ks.len() implies aggregated(post)[m] == aggregated(pre).update(
        j,
        DuplicationView { lines: aggregated(pre)[j].lines + g.lines, ..aggregated(pre)[j] },
    )[m] by {
        assert(ks.contains(ks[m]));
        if m != j {
            assert(ks[m] != ks[j]);
        }
    }
    assert(aggregated(post) =~= aggregated(pre).update(
        j,
        DuplicationView { lines: aggregated(pre)[j].lines + g.lines, ..aggregated(pre)[j] },
    ));
}

/// A billable group whose source has no record yet starts one.
proof fn lemma_step_new(pre: Seq<DuplicationView>, g: DuplicationView)
    requires
        is_billable(g),
        !source_keys(pre).contains(g.source.file),
    ensures
        source_keys(pre.push(g)) == source_keys(pre).push(g.source.file),
        aggregated(pre.push(g)) == aggregated(pre).push(
            DuplicationView { lines: g.lines, source: g.source, destination: seq![g.destination[0]] },
        ),
{
    let post = pre.push(g);
    let ks = source_keys(pre);
    assert(post.drop_last() =~= pre);
    lemma_absent_key(pre, g.source.file);
    assert forall|m: int| 0 <= m < ks.len() implies aggregated(post)[m] == aggregated(pre)[m] by {
        assert(ks.contains(ks[m]));
        assert(ks.push(g.source.file)[m] == ks[m]);
    }
    assert(ks.push(g.source.file)[ks.len() as int] == g.source.file);
    assert(aggregated(post) =~= aggregated(pre).push(
        DuplicationView { lines: g.lines, source: g.source, destination: seq![g.destination[0]] },
    ));
}

/// Every group that a report gives has a source, and so does every record
/// folded from those groups, with exactly one destination.
pub proof fn lemma_groups_have_sources(
    source: Seq<char>,
    destination: Seq<char>,
    files: Seq<SourceCodeView>,
    lines: Seq<Seq<char>>,
)
    ensures
        forall|i: int|
            0 <= i < report_groups(source, destination, files, lines).len() ==> (#[trigger] report_groups(
                source,
                destination,
                files,
                lines,
            )[i]).source.file.len() > 0,
        forall|j: int|
            0 <= j < aggregated(report_groups(source, destination, files, lines)).len() ==> {
                let d = #[trigger] aggregated(report_groups(source, destination, files, lines))[j];
                d.source.file.len() > 0 && d.destination.len() == 1
            },
    decreases lines.len(),
{
    if lines.len() > 0 {
        lemma_groups_have_sources(source, destination, files, lines.drop_last());
        let st = parse_lines(source, destination, files, lines.drop_last());
        assert forall|i: int|
            0 <= i < report_groups(source, destination, files, lines).len() implies (#[trigger] report_groups(
                source,
                destination,
                files,
                lines,
            )[i]).source.file.len() > 0 by {
            if i < st.groups.len() {
                assert(report_groups(source, destination, files, lines.drop_last())[i] == st.groups[i]);
            }
        }
    }
    let gs = report_groups(source, destination, files, lines);
    lemma_keys_well_formed(gs);
    assert forall|j: int| 0 <= j < aggregated(gs).len() implies {
        let d = #[trigger] aggregated(gs)[j];
        d.source.file.len() > 0 && d.destination.len() == 1
    } by {
        assert(source_keys(gs).contains(source_keys(gs)[j]));
    }
}

/// The lines of each record are the sum of the declared lines of exactly the
/// billable groups whose source is the record's file.
pub proof fn lemma_record_lines(gs: Seq<DuplicationView>)
    ensures
        forall|j: int|
            0 <= j < aggregated(gs).len() ==> (#[trigger] aggregated(gs)[j]).lines == lines_for(
                gs,
                aggregated(gs)[j].source.file,
            ),
{
    lemma_keys_well_formed(gs);
    assert forall|j: int| 0 <= j < aggregated(gs).len() implies (#[trigger] aggregated(gs)[j]).lines
        == lines_for(gs, aggregated(gs)[j].source.file) by {
        assert(source_keys(gs).contains(source_keys(gs)[j]));
    }
}

/// Every group with a source and a destination has a record for its source.
pub proof fn lemma_every_source_has_record(gs: Seq<DuplicationView>)
    ensures
        forall|i: int|
            0 <= i < gs.len() && is_billable(#[trigger] gs[i]) ==> source_keys(gs).contains(
                gs[i].source.file,
            ),
    decreases gs.len(),
{
    if gs.len() > 0 {
        let pre = gs.drop_last();
        lemma_every_source_has_record(pre);
        let ks = source_keys(pre);
        let g = gs.last();
        assert forall|i: int| 0 <= i < gs.len() && is_billable(#[trigger] gs[i]) implies source_keys(
            gs,
        ).contains(gs[i].source.file) by {
            if i < pre.len() {
                assert(pre[i] == gs[i]);
                let m = choose|m: int| 0 <= m < ks.len() && ks[m] == gs[i].source.file;
                if is_billable(g) && !ks.contains(g.source.file) {
                    assert(ks.push(g.source.file)[m] == gs[i].source.file);
                }
            } else if !ks.contains(g.source.file) {
                assert(ks.push(g.source.file)[ks.len() as int] == g.source.file);
            }
        }
    }
}

/// The record of a source file keeps the source and the first destination of
/// the earliest group that has that source and a destination; later groups of
/// the file give it only their lines.
pub proof fn lemma_first_group_is_earliest(gs: Seq<DuplicationView>, k: Seq<char>)
    requires
        source_keys(gs).contains(k),
    ensures
        exists|i: int|
            0 <= i < gs.len() && first_group(gs, k) == #[trigger] gs[i] && is_billable(gs[i])
                && gs[i].source.file == k && record_of(gs, k).source == gs[i].source
                && record_of(gs, k).destination == seq![gs[i].destination[0]] && forall|j: int|
                0 <= j < i ==> !(is_billable(#[trigger] gs[j]) && gs[j].source.file == k),
    decreases gs.len(),
{
    let pre = gs.drop_last();
    let ks = source_keys(pre);
    let g = gs.last();
    if ks.contains(k) {
        lemma_first_group_is_earliest(pre, k);
        let i = choose|i: int|
            0 <= i < pre.len() && first_group(pre, k) == #[trigger] pre[i] && is_billable(pre[i])
                && pre[i].source.file == k && record_of(pre, k).source == pre[i].source
                && record_of(pre, k).destination == seq![pre[i].destination[0]] && forall|j: int|
                0 <= j < i ==> !(is_billable(#[trigger] pre[j]) && pre[j].source.file == k);
        assert(pre[i] == gs[i]);
        assert forall|j: int| 0 <= j < i implies !(is_billable(#[trigger] gs[j]) && gs[j].source.file == k) by {
            assert(pre[j] == gs[j]);
        }
    } else {
        let m = choose|m: int| 0 <= m < source_keys(gs).len() && source_keys(gs)[m] == k;
        assert(is_billable(g) && !ks.contains(g.source.file));
        assert(m == ks.len());
        assert(ks.push(g.source.file)[m] == g.source.file);
        lemma_every_source_has_record(pre);
        let i = gs.len() - 1;
        assert forall|j: int| 0 <= j < i implies !(is_billable(#[trigger] gs[j]) && gs[j].source.file == k) by {
            assert(pre[j] == gs[j]);
        }
        assert(gs[i] == g);
    }
}

/// The groups that have a source and a destination, in order.
pub open spec fn billable_only(gs: Seq<DuplicationView>) -> Seq<DuplicationView>
    decreases gs.len(),
{
    if gs.len() == 0 {
        Seq::empty()
    } else {
        let r = billable_only(gs.drop_last());
        if is_billable(gs.last()) {
            r.push(gs.last())
        } else {
            r
        }
    }
}

/// Groups without a source or without a destination change nothing: folding
/// all groups gives the records that folding only the others gives.
pub proof fn lemma_unbillable_groups_ignored(gs: Seq<DuplicationView>)
    ensures
        source_keys(billable_only(gs)) == source_keys(gs),
        forall|k: Seq<char>| #[trigger] lines_for(gs, k) == lines_for(billable_only(gs), k),
        forall|k: Seq<char>| #[trigger] source_keys(gs).contains(k) ==> first_group(billable_only(gs), k) == first_group(gs, k),
        aggregated(billable_only(gs)) == aggregated(gs),
    decreases gs.len(),
{
    if gs.len() > 0 {
        let pre = gs.drop_last();
        let g = gs.last();
        lemma_unbillable_groups_ignored(pre);
        let bp = billable_only(pre);
        if is_billable(g) {
            assert(billable_only(gs).drop_last() =~= bp);
            assert(billable_only(gs).last() == g);
        }
        assert forall|k: Seq<char>| #[trigger] lines_for(gs, k) == lines_for(billable_only(gs), k) by {
            assert(lines_for(pre, k) == lines_for(bp, k));
        }
        assert forall|k: Seq<char>| #[trigger] source_keys(gs).contains(k) implies first_group(billable_only(gs), k) == first_group(gs, k) by {
            if source_keys(pre).contains(k) {
                assert(first_group(pre, k) == first_group(bp, k));
            } else {
                let m = choose|m: int| 0 <= m < source_keys(gs).len() && source_keys(gs)[m] == k;
                assert(is_billable(g));
            }
        }
    }
    let b = billable_only(gs);
    assert forall|m: int| 0 <= m < source_keys(gs).len() implies aggregated(b)[m] == aggregated(gs)[m] by {
        let k = source_keys(gs)[m];
        assert(source_keys(gs).contains(k));
        assert(lines_for(gs, k) == lines_for(b, k));
    }
    assert(aggregated(b) =~= aggregated(gs));
}

/// Reading the same report twice, with the same settings and line counts,
/// gives the same groups and the same records.
pub proof fn lemma_reading_is_repeatable(
    source: Seq<char>,
    destination: Seq<char>,
    files: Seq<SourceCodeView>,
    first: Seq<Seq<char>>,
    second: Seq<Seq<char>>,
)
    requires
        first == second,
    ensures
        report_groups(source, destination, files, first) == report_groups(
            source,
            destination,
            files,
            second,
        ),
        aggregated(report_groups(source, destination, files, first)) == aggregated(
            report_groups(source, destination, files, second),
        ),
{
}

/// The index of the record whose source is `key`, or the number of records.
fn find_record(records: &Vec<Duplication>, key: &String) -> (r: usize)
    ensures
        r <= records@.len(),
        r < records@.len() ==> records@[r as int]@.source.file == key@,
        forall|m: int| 0 <= m < r ==> records@[m]@.source.file != key@,
{
    let mut j: usize = 0;
    while j < records.len()
        invariant
            j <= records@.len(),
            forall|m: int| 0 <= m < j ==> records@[m]@.source.file != key@,
        decreases records@.len() - j,
    {
        if records[j].source.file == *key {
            return j;
        }
        j += 1;
    }
    j
}

impl Runner {
    /// Folds groups into one record per source file, in the order in which the
    /// files are first seen. Only groups with a source and a destination count.
    /// A record keeps the source and first destination of its file's first
    /// group and sums the declared lines of all its file's groups. `None` where
    /// such a sum does not fit in `usize`.
    pub fn aggregate(dups: &[Duplication]) -> (r: Option<Vec<Duplication>>)
        ensures
            r is Some <==> lines_fit(group_views(dups@)),
            r matches Some(v) ==> group_views(v@) == aggregated(group_views(dups@)),
            r matches Some(v) ==> forall|j: int|
                0 <= j < v@.len() ==> {
                    let d = (#[trigger] v@[j])@;
                    &&& d.source.file.len() > 0
                    &&& d.destination.len() == 1
                    &&& d.lines == lines_for(group_views(dups@), d.source.file)
                },
    {
        let ghost gs = group_views(dups@);
        let mut out: Vec<Duplication> = Vec::new();
        let mut i: usize = 0;
        assert(group_views(out@) =~= aggregated(gs.subrange(0, 0)));
        while i < dups.len()
            invariant
                i <= dups@.len(),
                gs == group_views(dups@),
                group_views(out@) == aggregated(gs.subrange(0, i as int)),
                lines_fit(gs.subrange(0, i as int)),
            decreases dups@.len() - i,
        {
            let ghost pre = gs.subrange(0, i as int);
            let ghost post = gs.subrange(0, i + 1);
            let g = &dups[i];
            assert(post =~= pre.push(g@));
            proof {
                lemma_keys_well_formed(pre);
            }
            if !g.source.is_empty() && g.destination.len() > 0 {
                let j = find_record(&out, &g.source.file);
                assert(group_views(out@).len() == out@.len());
                assert(aggregated(pre).len() == source_keys(pre).len());
                if j < out.len() {
                    assert(group_views(out@)[j as int] == out@[j as int]@);
                    assert(aggregated(pre)[j as int] == record_of(pre, source_keys(pre)[j as int]));
                    assert(source_keys(pre).contains(source_keys(pre)[j as int]));
                    proof {
                        lemma_step_known(pre, g@, j as int);
                    }
                    match out[j].lines.checked_add(g.lines) {
                        Some(t) => {
                            let ghost before = out@;
                            out[j].lines = t;
                            assert(group_views(out@) =~= group_views(before).update(
                                j as int,
                                out@[j as int]@,
                            ));
                            assert(post.drop_last() =~= pre);
                            assert forall|k: Seq<char>| #[trigger] source_keys(post).contains(k) implies lines_for(post, k) <= usize::MAX by {
                                if k == g@.source.file {
                                    assert(lines_for(post, k) == t);
                                }
                            }
                        },
                        None => {
                            assert(post.drop_last() =~= pre);
                            proof {
                                lemma_prefix(gs, i + 1, g@.source.file);
                                assert(gs.subrange(0, i + 1) == post);
                                assert(source_keys(post).contains(g@.source.file));
                            }
                            return None;
                        },
                    }
                } else {
                    assert(!source_keys(pre).contains(g@.source.file)) by {
                        if source_keys(pre).contains(g@.source.file) {
                            let m = choose|m: int| 0 <= m < source_keys(pre).len() && source_keys(pre)[m] == g@.source.file;
                            assert(group_views(out@)[m] == out@[m]@);
                            assert(aggregated(pre)[m] == record_of(pre, source_keys(pre)[m]));
                        }
                    }
                    proof {
                        lemma_step_new(pre, g@);
                        lemma_absent_key(pre, g@.source.file);
                    }
                    let mut dest: Vec<SourceCode> = Vec::new();
                    dest.push(g.destination[0].copied());
                    let rec = Duplication { lines: g.lines, source: g.source.copied(), destination: dest };
                    assert(rec@.destination =~= seq![g@.destination[0]]);
                    let ghost before = out@;
                    out.push(rec);
                    assert(group_views(out@) =~= group_views(before).push(rec@));
                    assert(post.drop_last() =~= pre);
                    assert forall|k: Seq<char>| #[trigger] source_keys(post).contains(k) implies lines_for(post, k) <= usize::MAX by {
                        if k == g@.source.file {
                            assert(lines_for(post, k) == g.lines);
                        } else {
                            let m = choose|m: int| 0 <= m < source_keys(post).len() && source_keys(post)[m] == k;
                            assert(source_keys(pre)[m] == k);
                            assert(source_keys(pre).contains(k));
                        }
                    }
                }
            } else {
                proof {
                    lemma_step_skipped(pre, g@);
                }
                assert(post.drop_last() =~= pre);
                assert forall|k: Seq<char>| #[trigger] source_keys(post).contains(k) implies lines_for(post, k) <= usize::MAX by {
                    assert(source_keys(pre).contains(k));
                }
            }
            i += 1;
        }
        assert(gs.subrange(0, i as int) =~= gs);
        proof {
            lemma_keys_well_formed(gs);
            assert forall|j: int| 0 <= j < out@.len() implies {
                let d = (#[trigger] out@[j])@;
                &&& d.source.file.len() > 0
                &&& d.destination.len() == 1
                &&& d.lines == lines_for(gs, d.source.file)
            } by {
                assert(out@[j]@ == aggregated(gs)[j]);
                assert(source_keys(gs).contains(source_keys(gs)[j]));
            }
        }
        Some(out)
    }
}

} // verus!

//! Reading a detector report into groups of duplicated code, and folding the
//! groups into one record per source file.
use vstd::prelude::*;
use vstd::string::*;

use crate::analyzer::{header_result, match_group_header, match_location_path};
use crate::counter::{views_of, SourceCode, SourceCodeView};
use crate::text::{chars_of, contains_chars, contains_seq};

verus! {

/// The settings of one run.
pub struct Args {
    /// The directory that the detector scans.
    pub root: String,
    /// Files whose path holds this text are source files.
    pub source: String,
    /// The directory whose last segment marks destination files.
    pub destination: String,
    /// The language the detector compares.
    pub language: String,
    /// The smallest number of tokens the detector reports.
    pub minimum_tokens: usize,
}

/// Where the segment of `p` that ends at index `e` begins: just after the
/// last `/` before `e`, or at the start.
pub open spec fn segment_start(p: Seq<char>, e: int) -> int
    decreases e,
{
    if e <= 0 {
        0
    } else if p[e - 1] == '/' {
        e
    } else {
        segment_start(p, e - 1)
    }
}

/// The last component of `p.subrange(0, e)` taken as a name, read from its
/// end: separators and `.` components are passed over; a `..` component, or
/// nothing left, gives none.
pub open spec fn final_segment_upto(p: Seq<char>, e: int) -> Option<Seq<char>>
    decreases e,
{
    if e <= 0 {
        None
    } else if p[e - 1] == '/' {
        final_segment_upto(p, e - 1)
    } else if p[e - 1] == '.' && (e == 1 || p[e - 2] == '/') {
        final_segment_upto(p, e - 1)
    } else if e >= 2 && p[e - 1] == '.' && p[e - 2] == '.' && (e == 2 || p[e - 3] == '/') {
        None
    } else {
        Some(p.subrange(segment_start(p, e), e))
    }
}

/// The name of the directory that path `p` ends in, as a file system gives
/// it: trailing `/` and `.` components do not count; none for a path that
/// ends in `..`, or that is only `/` or `.` components, or empty.
pub open spec fn final_segment(p: Seq<char>) -> Option<Seq<char>> {
    final_segment_upto(p, p.len() as int)
}

/// `file` lies in a directory named as the final segment of `destination`:
/// that name occurs in `file` between two `/`.
pub open spec fn is_destination_path(destination: Seq<char>, file: Seq<char>) -> bool {
    match final_segment(destination) {
        Some(name) => contains_seq(file, seq!['/'] + name + seq!['/']),
        None => false,
    }
}

/// Where the final segment of `p` begins and ends, if it has one.
fn final_segment_bounds(p: &Vec<char>) -> (r: Option<(usize, usize)>)
    ensures
        match final_segment(p@) {
            None => r is None,
            Some(seg) => match r {
                Some((a, b)) => a <= b <= p@.len() && p@.subrange(a as int, b as int) == seg,
                None => false,
            },
        },
{
    let mut e: usize = p.len();
    while e > 0 && (p[e - 1] == '/' || (p[e - 1] == '.' && (e == 1 || p[e - 2] == '/')))
        invariant
            e <= p@.len(),
            final_segment(p@) == final_segment_upto(p@, e as int),
        decreases e,
    {
        e -= 1;
    }
    if e == 0 {
        return None;
    }
    if e >= 2 && p[e - 1] == '.' && p[e - 2] == '.' && (e == 2 || p[e - 3] == '/') {
        return None;
    }
    let mut s: usize = e;
    while s > 0 && p[s - 1] != '/'
        invariant
            s <= e <= p@.len(),
            segment_start(p@, e as int) == segment_start(p@, s as int),
        decreases s,
    {
        s -= 1;
    }
    Some((s, e))
}

impl Args {
    /// The final segment of the destination directory, which marks destination files.
    pub fn destination_name(&self) -> (r: Option<String>)
        ensures
            match final_segment(self.destination@) {
                None => r is None,
                Some(seg) => r matches Some(n) && n@ == seg,
            },
    {
        let p = chars_of(self.destination.as_str());
        match final_segment_bounds(&p) {
            Some((a, b)) => Some(self.destination.as_str().substring_char(a, b).to_owned()),
            None => None,
        }
    }

    /// Whether `file` lies in the destination directory, judged by the
    /// directory's final segment standing between two `/` in `file`. The
    /// destination must end in a directory name.
    pub fn is_destination_soruce_file(&self, file: &str) -> (r: bool)
        requires
            final_segment(self.destination@) is Some,
        ensures
            r == is_destination_path(self.destination@, file@),
    {
        let p = chars_of(self.destination.as_str());
        match final_segment_bounds(&p) {
            Some((a, b)) => {
                let mut pat: Vec<char> = Vec::new();
                pat.push('/');
                let mut i: usize = a;
                while i < b
                    invariant
                        a <= i <= b <= p@.len(),
                        pat@ == seq!['/'] + p@.subrange(a as int, i as int),
                    decreases b - i,
                {
                    pat.push(p[i]);
                    i += 1;
                    assert(pat@ =~= seq!['/'] + p@.subrange(a as int, i as int));
                }
                pat.push('/');
                assert(pat@ =~= seq!['/'] + p@.subrange(a as int, b as int) + seq!['/']);
                let f = chars_of(file);
                contains_chars(&f, &pat)
            },
            None => false,
        }
    }
}

/// The clamped rate `min(1, n / d)` as a fraction with a positive
/// denominator; no lines duplicated is a rate of zero.
pub open spec fn clamped_rate(n: nat, d: nat) -> (nat, nat) {
    if n == 0 {
        (0, 1)
    } else if n >= d {
        (1, 1)
    } else {
        (n, d)
    }
}

/// A rate in `[0, 1]`, as the fraction `num / den`.
#[derive(Debug, Clone, Copy, PartialEq, Eq, Structural)]
pub struct Rate {
    pub num: usize,
    pub den: usize,
}

impl Rate {
    /// `min(1, n / d)`; zero where `n` is zero.
    pub fn clamped(n: usize, d: usize) -> (r: Rate)
        ensures
            (r.num as nat, r.den as nat) == clamped_rate(n as nat, d as nat),
            r.den > 0,
            r.num <= r.den,
    {
        if n == 0 {
            Rate { num: 0, den: 1 }
        } else if n >= d {
            Rate { num: 1, den: 1 }
        } else {
            Rate { num: n, den: d }
        }
    }
}

/// A group of duplicated code: the lines it declares, the occurrence in the
/// source set, and those in the destination set.
pub struct DuplicationView {
    pub lines: nat,
    pub source: SourceCodeView,
    pub destination: Seq<SourceCodeView>,
}

/// A group of duplicated code, or the record of one source file.
#[derive(Debug, Clone)]
pub struct Duplication {
    pub lines: usize,
    pub source: SourceCode,
    pub destination: Vec<SourceCode>,
}

impl View for Duplication {
    type V = DuplicationView;

    open spec fn view(&self) -> DuplicationView {
        DuplicationView {
            lines: self.lines as nat,
            source: self.source@,
            destination: views_of(self.destination@),
        }
    }
}

/// The view of each group of a sequence.
pub open spec fn group_views(s: Seq<Duplication>) -> Seq<DuplicationView> {
    s.map_values(|d: Duplication| d@)
}

/// The characters of each string of a sequence.
pub open spec fn texts_of(s: Seq<String>) -> Seq<Seq<char>> {
    s.map_values(|l: String| l@)
}

/// A group that declares `lines` and has found no occurrence yet.
pub open spec fn fresh_group(lines: nat) -> DuplicationView {
    DuplicationView {
        lines,
        source: SourceCodeView { file: Seq::empty(), lines: 0 },
        destination: Seq::empty(),
    }
}

impl Duplication {
    pub fn new(lines: usize) -> (r: Duplication)
        ensures
            r@ == fresh_group(lines as nat),
    {
        let r = Duplication { lines, source: SourceCode::new(), destination: Vec::new() };
        assert(r@.destination =~= Seq::<SourceCodeView>::empty());
        assert(r@.source.file =~= Seq::<char>::empty());
        r
    }

    pub fn add_destination(&mut self, des: SourceCode)
        ensures
            final(self)@ == (DuplicationView {
                destination: old(self)@.destination.push(des@),
                ..old(self)@
            }),
    {
        self.destination.push(des);
        assert(views_of(self.destination@) =~= old(self)@.destination.push(des@));
    }

    pub fn clear_destination(&mut self)
        ensures
            final(self)@ == (DuplicationView { destination: Seq::empty(), ..old(self)@ }),
    {
        self.destination.clear();
        assert(views_of(self.destination@) =~= Seq::<SourceCodeView>::empty());
    }

    pub fn add_lines(&mut self, line: usize)
        requires
            old(self).lines + line <= usize::MAX,
        ensures
            final(self)@ == (DuplicationView { lines: old(self)@.lines + line as nat, ..old(self)@ }),
    {
        self.lines = self.lines + line;
    }

    /// The share of the first destination's lines that the duplicated lines
    /// make up, at most one; zero where there is no destination.
    pub fn dup_rate(&self) -> (r: Rate)
        ensures
            r.den > 0,
            r.num <= r.den,
            (r.num as nat, r.den as nat) == (if self@.destination.len() == 0 {
                (0nat, 1nat)
            } else {
                clamped_rate(self@.lines, self@.destination[0].lines)
            }),
    {
        if self.destination.len() == 0 {
            return Rate { num: 0, den: 1 };
        }
        Rate::clamped(self.lines, self.destination[0].lines)
    }

    /// The share of the source file's lines that the duplicated lines make
    /// up, at most one.
    pub fn rate_of_source_code(&self) -> (r: Rate)
        ensures
            r.den > 0,
            r.num <= r.den,
            (r.num as nat, r.den as nat) == clamped_rate(self@.lines, self@.source.lines),
    {
        Rate::clamped(self.lines, self.source.lines)
    }
}

/// The number of lines counted among `lines`: all of them, or only those that
/// are not empty.
pub open spec fn counted_lines(lines: Seq<Seq<char>>, ignore_blank: bool) -> nat
    decreases lines.len(),
{
    if lines.len() == 0 {
        0
    } else {
        counted_lines(lines.drop_last(), ignore_blank) + if lines.last().len() > 0 || !ignore_blank {
            1nat
        } else {
            0nat
        }
    }
}

/// Counts the lines of a file, or only those that are not empty.
pub fn count_lines(lines: &[String], ignore_blank: bool) -> (r: usize)
    ensures
        r == counted_lines(texts_of(lines@), ignore_blank),
{
    let mut n: usize = 0;
    let mut i: usize = 0;
    while i < lines.len()
        invariant
            i <= lines@.len(),
            n <= i,
            n == counted_lines(texts_of(lines@.subrange(0, i as int)), ignore_blank),
        decreases lines@.len() - i,
    {
        assert(texts_of(lines@.subrange(0, i + 1)).drop_last() =~= texts_of(
            lines@.subrange(0, i as int),
        ));
        assert(texts_of(lines@.subrange(0, i + 1)).last() == lines@[i as int]@);
        if !lines[i].as_str().is_empty() || !ignore_blank {
            n += 1;
        }
        i += 1;
    }
    assert(lines@.subrange(0, i as int) =~= lines@);
    n
}

/// The line count that `files` gives for `path`: that of the first entry
/// naming it, zero where none does.
pub open spec fn line_count_in(files: Seq<SourceCodeView>, path: Seq<char>) -> nat
    decreases files.len(),
{
    if files.len() == 0 {
        0
    } else if files[0].file == path {
        files[0].lines
    } else {
        line_count_in(files.drop_first(), path)
    }
}

/// Looks up the line count of `path` among known files.
pub fn line_count_of(files: &[SourceCode], path: &String) -> (r: usize)
    ensures
        r == line_count_in(views_of(files@), path@),
{
    let mut i: usize = 0;
    assert(views_of(files@).subrange(0, files@.len() as int) =~= views_of(files@));
    while i < files.len()
        invariant
            i <= files@.len(),
            line_count_in(views_of(files@), path@) == line_count_in(
                views_of(files@).subrange(i as int, files@.len() as int),
                path@,
            ),
        decreases files@.len() - i,
    {
        assert(views_of(files@).subrange(i as int, files@.len() as int).drop_first() =~= views_of(
            files@,
        ).subrange(i + 1, files@.len() as int));
        if files[i].file == *path {
            return files[i].lines;
        }
        i += 1;
    }
    0
}

/// The path of the location that a line gives, when the line is a location.
pub open spec fn location_path(line: Seq<char>) -> Option<Seq<char>> {
    match crate::analyzer::file_location(line) {
        Some((_, p)) => Some(p),
        None => None,
    }
}

/// The state of a pass over a report: whether a group is open, the group
/// being read, and the groups read so far.
pub struct ParseState {
    pub in_group: bool,
    pub current: DuplicationView,
    pub groups: Seq<DuplicationView>,
}

/// The occurrence of `path` with its line count.
pub open spec fn occurrence(files: Seq<SourceCodeView>, path: Seq<char>) -> SourceCodeView {
    SourceCodeView { file: path, lines: line_count_in(files, path) }
}

/// A group after one more occurrence: the first under the source directory
/// becomes its source; one in the destination directory is added to its
/// destinations; any other, or one without a path, clears its destinations.
pub open spec fn classify(
    source: Seq<char>,
    destination: Seq<char>,
    files: Seq<SourceCodeView>,
    g: DuplicationView,
    path: Seq<char>,
) -> DuplicationView {
    if path.len() > 0 && contains_seq(path, source) && g.source.file.len() == 0 {
        DuplicationView { source: occurrence(files, path), ..g }
    } else if path.len() > 0 && is_destination_path(destination, path) {
        DuplicationView { destination: g.destination.push(occurrence(files, path)), ..g }
    } else {
        DuplicationView { destination: Seq::empty(), ..g }
    }
}

/// A group after each of `paths`, in order, has been classified.
pub open spec fn classify_all(
    source: Seq<char>,
    destination: Seq<char>,
    files: Seq<SourceCodeView>,
    g: DuplicationView,
    paths: Seq<Seq<char>>,
) -> DuplicationView
    decreases paths.len(),
{
    if paths.len() == 0 {
        g
    } else {
        classify(
            source,
            destination,
            files,
            classify_all(source, destination, files, g, paths.drop_last()),
            paths.last(),
        )
    }
}

/// `path` is a usable occurrence in the destination directory.
pub open spec fn is_destination_occurrence(destination: Seq<char>, path: Seq<char>) -> bool {
    path.len() > 0 && is_destination_path(destination, path)
}

/// The destination occurrences among `paths` that come after the last path
/// that is not one, in order.
pub open spec fn trailing_destinations(
    destination: Seq<char>,
    files: Seq<SourceCodeView>,
    paths: Seq<Seq<char>>,
) -> Seq<SourceCodeView>
    decreases paths.len(),
{
    if paths.len() == 0 {
        Seq::empty()
    } else if is_destination_occurrence(destination, paths.last()) {
        trailing_destinations(destination, files, paths.drop_last()).push(
            occurrence(files, paths.last()),
        )
    } else {
        Seq::empty()
    }
}

/// Once a group has its source, each later occurrence that is not in the
/// destination directory clears its destinations: they are then exactly the
/// destination occurrences after the last such one, in report order, and the
/// source stays as it was.
pub proof fn lemma_destinations_after_last_disqualifying(
    source: Seq<char>,
    destination: Seq<char>,
    files: Seq<SourceCodeView>,
    g: DuplicationView,
    paths: Seq<Seq<char>>,
)
    requires
        g.source.file.len() > 0,
    ensures
        classify_all(source, destination, files, g, paths).source == g.source,
        classify_all(source, destination, files, g, paths).lines == g.lines,
        classify_all(source, destination, files, g, paths).destination == (if forall|i: int|
            0 <= i < paths.len() ==> is_destination_occurrence(destination, #[trigger] paths[i]) {
            g.destination
        } else {
            Seq::empty()
        }) + trailing_destinations(destination, files, paths),
    decreases paths.len(),
{
    if paths.len() == 0 {
        assert(g.destination + Seq::<SourceCodeView>::empty() =~= g.destination);
    } else {
        let pre = paths.drop_last();
        let p = paths.last();
        lemma_destinations_after_last_disqualifying(source, destination, files, g, pre);
        let all_pre = forall|i: int|
            0 <= i < pre.len() ==> is_destination_occurrence(destination, #[trigger] pre[i]);
        let all = forall|i: int|
            0 <= i < paths.len() ==> is_destination_occurrence(destination, #[trigger] paths[i]);
        let base: Seq<SourceCodeView> = if all_pre {
            g.destination
        } else {
            Seq::empty()
        };
        if is_destination_occurrence(destination, p) {
            assert(all == all_pre) by {
                if all_pre {
                    assert forall|i: int| 0 <= i < paths.len() implies is_destination_occurrence(
                        destination,
                        #[trigger] paths[i],
                    ) by {
                        if i < pre.len() {
                            assert(pre[i] == paths[i]);
                        }
                    }
                }
                if all {
                    assert forall|i: int| 0 <= i < pre.len() implies is_destination_occurrence(
                        destination,
                        #[trigger] pre[i],
                    ) by {
                        assert(pre[i] == paths[i]);
                    }
                }
            }
            assert((base + trailing_destinations(destination, files, pre)).push(occurrence(files, p))
                =~= base + trailing_destinations(destination, files, paths));
        } else {
            assert(!all) by {
                assert(paths[paths.len() - 1] == p);
            }
            assert(Seq::<SourceCodeView>::empty() + Seq::<SourceCodeView>::empty() =~= Seq::<
                SourceCodeView,
            >::empty());
        }
    }
}

/// The state before any line.
pub open spec fn start_state() -> ParseState {
    ParseState { in_group: false, current: fresh_group(0), groups: Seq::empty() }
}

/// The state after one more line. An empty line closes an open group, which
/// is kept when it has a source. A header opens a group (or sets the count of
/// the open one). Inside a group, a location is classified.
pub open spec fn parse_step(
    source: Seq<char>,
    destination: Seq<char>,
    files: Seq<SourceCodeView>,
    st: ParseState,
    line: Seq<char>,
) -> ParseState {
    if line.len() == 0 && st.in_group {
        ParseState {
            in_group: false,
            current: fresh_group(0),
            groups: if st.current.source.file.len() > 0 {
                st.groups.push(st.current)
            } else {
                st.groups
            },
        }
    } else if header_result(line) is Some {
        ParseState {
            in_group: true,
            current: DuplicationView { lines: header_result(line)->0 as nat, ..st.current },
            groups: st.groups,
        }
    } else if st.in_group && location_path(line) is Some {
        ParseState {
            current: classify(source, destination, files, st.current, location_path(line)->0),
            ..st
        }
    } else {
        st
    }
}

/// The state after all of `lines`.
pub open spec fn parse_lines(
    source: Seq<char>,
    destination: Seq<char>,
    files: Seq<SourceCodeView>,
    lines: Seq<Seq<char>>,
) -> ParseState
    decreases lines.len(),
{
    if lines.len() == 0 {
        start_state()
    } else {
        parse_step(
            source,
            destination,
            files,
            parse_lines(source, destination, files, lines.drop_last()),
            lines.last(),
        )
    }
}

/// The groups that a report gives.
pub open spec fn report_groups(
    source: Seq<char>,
    destination: Seq<char>,
    files: Seq<SourceCodeView>,
    lines: Seq<Seq<char>>,
) -> Seq<DuplicationView> {
    parse_lines(source, destination, files, lines).groups
}

/// The paths, in order, of the lines of a report that are locations with a path.
pub open spec fn located_paths(lines: Seq<Seq<char>>) -> Seq<Seq<char>>
    decreases lines.len(),
{
    if lines.len() == 0 {
        Seq::empty()
    } else {
        let rest = located_paths(lines.drop_last());
        match location_path(lines.last()) {
            Some(p) => if p.len() > 0 {
                rest.push(p)
            } else {
                rest
            },
            None => rest,
        }
    }
}

/// Runs the detector and reports what it found.
pub struct Runner;

/// How a run of the detector ended.
#[derive(Debug, Clone, Copy, PartialEq, Eq, Structural)]
pub enum CpdOutcome {
    /// No duplicated code was found.
    NoDuplicates,
    /// Duplicated code was found, and the report is to be read.
    Duplicates,
    /// The detector failed.
    Failed,
}

impl Runner {
    /// The outcome that the detector's exit status stands for: 0 for none
    /// found, 4 for some found, anything else for a failure.
    pub fn outcome_of(code: i32) -> (r: CpdOutcome)
        ensures
            code == 0 ==> r == CpdOutcome::NoDuplicates,
            code == 4 ==> r == CpdOutcome::Duplicates,
            code != 0 && code != 4 ==> r == CpdOutcome::Failed,
    {
        if code == 0 {
            CpdOutcome::NoDuplicates
        } else if code == 4 {
            CpdOutcome::Duplicates
        } else {
            CpdOutcome::Failed
        }
    }

    /// The files that the location lines of a report name, in order, whose
    /// line counts the report's reading needs.
    pub fn located_files(report: &[String]) -> (r: Vec<String>)
        ensures
            texts_of(r@) == located_paths(texts_of(report@)),
    {
        let mut r: Vec<String> = Vec::new();
        let mut i: usize = 0;
        while i < report.len()
            invariant
                i <= report@.len(),
                texts_of(r@) == located_paths(texts_of(report@.subrange(0, i as int))),
            decreases report@.len() - i,
        {
            assert(texts_of(report@.subrange(0, i + 1)).drop_last() =~= texts_of(
                report@.subrange(0, i as int),
            ));
            assert(texts_of(report@.subrange(0, i + 1)).last() == report@[i as int]@);
            match match_location_path(report[i].as_str()) {
                Some(p) => {
                    if !p.as_str().is_empty() {
                        let ghost before = r@;
                        r.push(p);
                        assert(texts_of(r@) =~= texts_of(before).push(r@.last()@));
                    }
                },
                None => {},
            }
            i += 1;
        }
        assert(report@.subrange(0, i as int) =~= report@);
        r
    }

    /// Reads the groups of a report, one line after another, with the line
    /// counts of the files it names taken from `files` (zero for a file not
    /// there). Each group that a blank line closes is kept when it has a source.
    /// The destination must end in a directory name.
    pub fn analyze(report: &[String], args: &Args, files: &[SourceCode]) -> (r: Vec<Duplication>)
        requires
            final_segment(args.destination@) is Some,
        ensures
            group_views(r@) == report_groups(
                args.source@,
                args.destination@,
                views_of(files@),
                texts_of(report@),
            ),
            forall|i: int| 0 <= i < r@.len() ==> (#[trigger] r@[i])@.source.file.len() > 0,
    {
        let ghost src = args.source@;
        let ghost dst = args.destination@;
        let ghost fs = views_of(files@);
        let source = chars_of(args.source.as_str());
        let mut in_group = false;
        let mut result: Vec<Duplication> = Vec::new();
        let mut dup = Duplication::new(0);
        let mut i: usize = 0;
        assert(group_views(result@) =~= Seq::<DuplicationView>::empty());
        while i < report.len()
            invariant
                i <= report@.len(),
                final_segment(args.destination@) is Some,
                source@ == src,
                src == args.source@,
                dst == args.destination@,
                fs == views_of(files@),
                ({
                    let st = parse_lines(src, dst, fs, texts_of(report@.subrange(0, i as int)));
                    &&& in_group == st.in_group
                    &&& dup@ == st.current
                    &&& group_views(result@) == st.groups
                }),
                forall|j: int| 0 <= j < result@.len() ==> (#[trigger] result@[j])@.source.file.len() > 0,
            decreases report@.len() - i,
        {
            let ghost pre = texts_of(report@.subrange(0, i as int));
            assert(texts_of(report@.subrange(0, i + 1)).drop_last() =~= pre);
            assert(texts_of(report@.subrange(0, i + 1)).last() == report@[i as int]@);
            let line = report[i].as_str();
            if line.is_empty() && in_group {
                if !dup.source.is_empty() {
                    let ghost before = result@;
                    result.push(dup);
                    assert(group_views(result@) =~= group_views(before).push(result@.last()@));
                }
                dup = Duplication::new(0);
                in_group = false;
            } else {
                match match_group_header(line) {
                    Some(value) => {
                        in_group = true;
                        dup.lines = value;
                    },
                    None => {
                        if in_group {
                            match match_location_path(line) {
                                Some(path) => {
                                    Self::place(&mut dup, &source, args, files, path);
                                },
                                None => {},
                            }
                        }
                    },
                }
            }
            i += 1;
        }
        assert(report@.subrange(0, i as int) =~= report@);
        result
    }

    /// Classifies one occurrence of the open group.
    fn place(dup: &mut Duplication, source: &Vec<char>, args: &Args, files: &[SourceCode], path: String)
        requires
            source@ == args.source@,
            final_segment(args.destination@) is Some,
        ensures
            final(dup)@ == classify(
                args.source@,
                args.destination@,
                views_of(files@),
                old(dup)@,
                path@,
            ),
    {
        let p = chars_of(path.as_str());
        if path.as_str().is_empty() {
            dup.clear_destination();
            return;
        }
        let is_source = contains_chars(&p, source);
        let is_dest = args.is_destination_soruce_file(path.as_str());
        let lines = line_count_of(files, &path);
        let sc = SourceCode { file: path, lines };
        if is_source && dup.source.is_empty() {
            dup.source = sc;
        } else if is_dest {
            dup.add_destination(sc);
        } else {
            dup.clear_destination();
        }
    }
}

} // verus!

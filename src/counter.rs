//! Languages, source files with their line counts, and the set of files found
//! under a directory tree.
use vstd::prelude::*;
use vstd::string::*;

use crate::text::{chars_of, occurs_at, occurs_at_index};

verus! {

/// A language the detector can compare.
#[derive(Debug, Clone, Copy, PartialEq, Eq, Structural)]
pub enum Lang {
    Swift,
    Java,
    Html,
    Kotlin,
    Rust,
}

impl Lang {
    /// The file extension of the language's sources.
    pub open spec fn spec_extension(self) -> Seq<char> {
        match self {
            Lang::Swift => "swift"@,
            Lang::Java => "java"@,
            Lang::Html => "html"@,
            Lang::Kotlin => "kt"@,
            Lang::Rust => "rs"@,
        }
    }

    /// The name under which the detector knows the language.
    pub open spec fn spec_lang(self) -> Seq<char> {
        match self {
            Lang::Swift => "swift"@,
            Lang::Java => "java"@,
            Lang::Html => "html"@,
            Lang::Kotlin => "kotlin"@,
            Lang::Rust => "rust"@,
        }
    }

    pub fn extension(&self) -> (r: &'static str)
        ensures
            r@ == self.spec_extension(),
    {
        match *self {
            Lang::Swift => "swift",
            Lang::Java => "java",
            Lang::Html => "html",
            Lang::Kotlin => "kt",
            Lang::Rust => "rs",
        }
    }

    pub fn lang(&self) -> (r: &'static str)
        ensures
            r@ == self.spec_lang(),
    {
        match *self {
            Lang::Swift => "swift",
            Lang::Java => "java",
            Lang::Html => "html",
            Lang::Kotlin => "kotlin",
            Lang::Rust => "rust",
        }
    }

    /// The language the detector knows under `name`, if any.
    pub fn from_name(name: &str) -> (r: Option<Lang>)
        ensures
            r matches Some(l) ==> l.spec_lang() == name@,
            r is None <==> forall|l: Lang| l.spec_lang() != name@,
    {
        let all = [Lang::Swift, Lang::Java, Lang::Html, Lang::Kotlin, Lang::Rust];
        let mut i: usize = 0;
        while i < 5
            invariant
                i <= 5,
                all@ == seq![Lang::Swift, Lang::Java, Lang::Html, Lang::Kotlin, Lang::Rust],
                forall|j: int| 0 <= j < i ==> all@[j].spec_lang() != name@,
            decreases 5 - i,
        {
            let l = all[i];
            if same_text(l.lang(), name) {
                return Some(l);
            }
            i += 1;
        }
        assert forall|l: Lang| l.spec_lang() != name@ by {
            match l {
                Lang::Swift => assert(all@[0] == l),
                Lang::Java => assert(all@[1] == l),
                Lang::Html => assert(all@[2] == l),
                Lang::Kotlin => assert(all@[3] == l),
                Lang::Rust => assert(all@[4] == l),
            }
        }
        None
    }
}

/// Whether two strings hold the same characters.
fn same_text(a: &str, b: &str) -> (r: bool)
    ensures
        r == (a@ == b@),
{
    let x = chars_of(a);
    let y = chars_of(b);
    if x.len() != y.len() {
        return false;
    }
    assert(x@.subrange(0, y@.len() as int) =~= x@);
    occurs_at_index(&x, &y, 0)
}

/// A file and its count of lines.
pub struct SourceCodeView {
    pub file: Seq<char>,
    pub lines: nat,
}

/// A file and its count of lines.
#[derive(Debug, Clone)]
pub struct SourceCode {
    pub file: String,
    pub lines: usize,
}

impl View for SourceCode {
    type V = SourceCodeView;

    open spec fn view(&self) -> SourceCodeView {
        SourceCodeView { file: self.file@, lines: self.lines as nat }
    }
}

/// The view of each file of a sequence.
pub open spec fn views_of(s: Seq<SourceCode>) -> Seq<SourceCodeView> {
    s.map_values(|c: SourceCode| c@)
}

impl SourceCode {
    /// No file, no lines.
    pub fn new() -> (r: SourceCode)
        ensures
            r@.file.len() == 0,
            r@.lines == 0,
    {
        SourceCode { file: String::new(), lines: 0 }
    }

    /// Whether no file is named.
    pub fn is_empty(&self) -> (r: bool)
        ensures
            r == (self@.file.len() == 0),
    {
        self.file.as_str().is_empty()
    }

    /// A copy with the same file and count.
    pub fn copied(&self) -> (r: SourceCode)
        ensures
            r@ == self@,
    {
        SourceCode { file: self.file.clone(), lines: self.lines }
    }
}

/// `path` names a file with extension `ext`: its last segment ends in `.` and
/// `ext`, with at least one character before the dot.
pub open spec fn has_extension(path: Seq<char>, ext: Seq<char>) -> bool {
    let p = path.len() - ext.len() - 1;
    &&& p >= 1
    &&& path[p] == '.'
    &&& path[p - 1] != '/'
    &&& path.subrange(p + 1, path.len() as int) == ext
}

/// `path` has the extension of one of the languages `includes`.
pub open spec fn is_included_path(path: Seq<char>, includes: Seq<Lang>) -> bool {
    exists|i: int| 0 <= i < includes.len() && has_extension(path, #[trigger] includes[i].spec_extension())
}

/// The files of `files` whose extension is one of `includes`, in order.
pub open spec fn kept_files(files: Seq<SourceCodeView>, includes: Seq<Lang>) -> Seq<SourceCodeView>
    decreases files.len(),
{
    if files.len() == 0 {
        Seq::empty()
    } else {
        let rest = kept_files(files.drop_last(), includes);
        if is_included_path(files.last().file, includes) {
            rest.push(files.last())
        } else {
            rest
        }
    }
}

/// The sum of the line counts of `files`.
pub open spec fn total_lines(files: Seq<SourceCodeView>) -> nat
    decreases files.len(),
{
    if files.len() == 0 {
        0
    } else {
        total_lines(files.drop_last()) + files.last().lines
    }
}

/// Whether `path` has the extension `ext`.
fn has_extension_chars(path: &Vec<char>, ext: &Vec<char>) -> (r: bool)
    ensures
        r == has_extension(path@, ext@),
{
    if path.len() < 2 || path.len() - 2 < ext.len() {
        return false;
    }
    let p = path.len() - ext.len() - 1;
    let r = path[p] == '.' && path[p - 1] != '/' && occurs_at_index(path, ext, p + 1);
    proof {
        if occurs_at(path@, ext@, p + 1) {
            assert(p + 1 + ext@.len() == path@.len());
        }
    }
    r
}

/// Whether `path` has the extension of one of the languages `includes`.
pub fn is_included(path: &str, includes: &[Lang]) -> (r: bool)
    ensures
        r == is_included_path(path@, includes@),
{
    let s = chars_of(path);
    let mut i: usize = 0;
    while i < includes.len()
        invariant
            s@ == path@,
            i <= includes@.len(),
            forall|j: int| 0 <= j < i ==> !has_extension(path@, #[trigger] includes@[j].spec_extension()),
        decreases includes@.len() - i,
    {
        let ext = chars_of(includes[i].extension());
        if has_extension_chars(&s, &ext) {
            return true;
        }
        i += 1;
    }
    false
}

/// The source files found under a directory tree, in the order of the walk.
#[derive(Debug)]
pub struct Scanner {
    sources: Vec<SourceCode>,
}

impl View for Scanner {
    type V = Seq<SourceCodeView>;

    closed spec fn view(&self) -> Seq<SourceCodeView> {
        views_of(self.sources@)
    }
}

impl Scanner {
    /// Keeps, in order, the files of a walk whose extension belongs to one of
    /// the languages `includes`.
    pub fn scan(files: &[SourceCode], includes: &[Lang]) -> (r: Scanner)
        ensures
            r@ == kept_files(views_of(files@), includes@),
    {
        let mut sources: Vec<SourceCode> = Vec::new();
        let mut i: usize = 0;
        while i < files.len()
            invariant
                i <= files@.len(),
                views_of(sources@) == kept_files(views_of(files@.subrange(0, i as int)), includes@),
            decreases files@.len() - i,
        {
            let f = &files[i];
            assert(views_of(files@.subrange(0, i + 1)).drop_last() =~= views_of(
                files@.subrange(0, i as int),
            ));
            assert(views_of(files@.subrange(0, i + 1)).last() == f@);
            if is_included(f.file.as_str(), includes) {
                sources.push(f.copied());
                assert(views_of(sources@) =~= kept_files(
                    views_of(files@.subrange(0, i as int)),
                    includes@,
                ).push(f@));
            }
            i += 1;
        }
        assert(files@.subrange(0, files@.len() as int) =~= files@);
        Scanner { sources }
    }

    pub fn source_codes(&self) -> (r: &[SourceCode])
        ensures
            views_of(r@) == self@,
    {
        self.sources.as_slice()
    }

    pub fn num_of_files(&self) -> (r: usize)
        ensures
            r == self@.len(),
    {
        self.sources.len()
    }

    /// The listing of the files: a line break, then for each file its path
    /// padded with spaces to the longest path, a tab and its line count.
    pub fn pretty_printed(&self) -> (r: String)
        ensures
            r@ == "\n"@ + listing_rows(self@, max_width(self@)),
    {
        let n = self.sources.len();
        let mut width: usize = 0;
        let mut i: usize = 0;
        while i < n
            invariant
                n == self@.len(),
                i <= n,
                width == max_width(self@.subrange(0, i as int)),
            decreases n - i,
        {
            assert(self@.subrange(0, i + 1).drop_last() =~= self@.subrange(0, i as int));
            let len = self.sources[i].file.as_str().unicode_len();
            if len > width {
                width = len;
            }
            i += 1;
        }
        assert(self@.subrange(0, n as int) =~= self@);
        let mut out = String::from_str("\n");
        let mut i: usize = 0;
        assert(self@.subrange(0, 0) =~= Seq::<SourceCodeView>::empty());
        while i < n
            invariant
                n == self@.len(),
                i <= n,
                width == max_width(self@),
                out@ == "\n"@ + listing_rows(self@.subrange(0, i as int), width as nat),
            decreases n - i,
        {
            let f = &self.sources[i];
            proof {
                lemma_max_width(self@, i as int);
            }
            assert(self@.subrange(0, i + 1).drop_last() =~= self@.subrange(0, i as int));
            let ghost before = out@;
            out.append(f.file.as_str());
            let pad = width - f.file.as_str().unicode_len();
            let mut k: usize = 0;
            while k < pad
                invariant
                    k <= pad,
                    out@ == before + f.file@ + spaces(k as nat),
                decreases pad - k,
            {
                out.append(" ");
                k += 1;
                assert(out@ =~= before + f.file@ + spaces(k as nat));
            }
            out.append("\t");
            push_decimal(&mut out, f.lines);
            out.append("\n");
            assert(out@ =~= "\n"@ + listing_rows(self@.subrange(0, i + 1), width as nat));
            i += 1;
        }
        out
    }

    /// The sum of the line counts of the files.
    pub fn all_lines(&self) -> (r: usize)
        requires
            total_lines(self@) <= usize::MAX,
        ensures
            r == total_lines(self@),
    {
        let mut sum: usize = 0;
        let mut i: usize = 0;
        while i < self.sources.len()
            invariant
                i <= self@.len(),
                total_lines(self@) <= usize::MAX,
                sum == total_lines(self@.subrange(0, i as int)),
            decreases self@.len() - i,
        {
            assert(self@.subrange(0, i + 1).drop_last() =~= self@.subrange(0, i as int));
            proof {
                lemma_total_lines_prefix(self@, i + 1);
            }
            sum = sum + self.sources[i].lines;
            i += 1;
        }
        assert(self@.subrange(0, i as int) =~= self@);
        sum
    }
}

/// No path is longer than the longest.
proof fn lemma_max_width(files: Seq<SourceCodeView>, i: int)
    requires
        0 <= i < files.len(),
    ensures
        files[i].file.len() <= max_width(files),
    decreases files.len(),
{
    if i < files.len() - 1 {
        lemma_max_width(files.drop_last(), i);
    }
}

/// The lines of a prefix of `files` sum to no more than those of all of them.
proof fn lemma_total_lines_prefix(files: Seq<SourceCodeView>, n: int)
    requires
        0 <= n <= files.len(),
    ensures
        total_lines(files.subrange(0, n)) <= total_lines(files),
    decreases files.len() - n,
{
    if n < files.len() {
        lemma_total_lines_prefix(files, n + 1);
        assert(files.subrange(0, n + 1).drop_last() =~= files.subrange(0, n));
    } else {
        assert(files.subrange(0, n) =~= files);
    }
}

/// The text of a decimal digit.
pub open spec fn digit_text(d: nat) -> Seq<char> {
    if d == 0 {
        "0"@
    } else if d == 1 {
        "1"@
    } else if d == 2 {
        "2"@
    } else if d == 3 {
        "3"@
    } else if d == 4 {
        "4"@
    } else if d == 5 {
        "5"@
    } else if d == 6 {
        "6"@
    } else if d == 7 {
        "7"@
    } else if d == 8 {
        "8"@
    } else {
        "9"@
    }
}

/// `n` written in decimal, without leading zeros.
pub open spec fn decimal(n: nat) -> Seq<char>
    decreases n,
{
    if n < 10 {
        digit_text(n)
    } else {
        decimal(n / 10) + digit_text(n % 10)
    }
}

/// `k` spaces.
pub open spec fn spaces(k: nat) -> Seq<char>
    decreases k,
{
    if k == 0 {
        Seq::empty()
    } else {
        spaces((k - 1) as nat) + " "@
    }
}

/// The length of the longest path among `files`.
pub open spec fn max_width(files: Seq<SourceCodeView>) -> nat
    decreases files.len(),
{
    if files.len() == 0 {
        0
    } else {
        let w = max_width(files.drop_last());
        if files.last().file.len() > w {
            files.last().file.len()
        } else {
            w
        }
    }
}

/// One line of the listing: the path padded with spaces to `width`, a tab,
/// the line count, a line break.
pub open spec fn listing_row(f: SourceCodeView, width: nat) -> Seq<char> {
    f.file + spaces((width - f.file.len()) as nat) + "\t"@ + decimal(f.lines) + "\n"@
}

/// The lines of the listing of `files`.
pub open spec fn listing_rows(files: Seq<SourceCodeView>, width: nat) -> Seq<char>
    decreases files.len(),
{
    if files.len() == 0 {
        Seq::empty()
    } else {
        listing_rows(files.drop_last(), width) + listing_row(files.last(), width)
    }
}

/// Appends the text of a decimal digit.
fn push_digit(out: &mut String, d: usize)
    requires
        d < 10,
    ensures
        final(out)@ == old(out)@ + digit_text(d as nat),
{
    let s = if d == 0 {
        "0"
    } else if d == 1 {
        "1"
    } else if d == 2 {
        "2"
    } else if d == 3 {
        "3"
    } else if d == 4 {
        "4"
    } else if d == 5 {
        "5"
    } else if d == 6 {
        "6"
    } else if d == 7 {
        "7"
    } else if d == 8 {
        "8"
    } else {
        "9"
    };
    out.append(s);
}

/// Appends `n` written in decimal.
fn push_decimal(out: &mut String, n: usize)
    ensures
        final(out)@ == old(out)@ + decimal(n as nat),
    decreases n,
{
    if n >= 10 {
        push_decimal(out, n / 10);
    }
    push_digit(out, n % 10);
    assert(final(out)@ =~= old(out)@ + decimal(n as nat));
}

/// Groups the files of a project.
pub struct Counter {}

} // verus!

//! Recognisers for the two line shapes of a detector report: the header that
//! opens a group of duplicated lines, and a line that locates one occurrence.
use vstd::prelude::*;
use vstd::string::*;

use crate::text::{
    chars_of, digit_run, digits_value, lemma_digit_run, occurs_at, occurs_at_index, scan_digits,
};

verus! {

/// The words that open a group header.
pub open spec fn header_prefix() -> Seq<char> {
    "Found a "@
}

/// The word that follows the count in a group header.
pub open spec fn header_suffix() -> Seq<char> {
    " line"@
}

/// The words that open a location line.
pub open spec fn location_prefix() -> Seq<char> {
    "Starting at line "@
}

/// The word between the starting line and the path of a location line.
pub open spec fn location_infix() -> Seq<char> {
    " of "@
}

/// The count declared by a group header: the line starts with `Found a `, then a
/// positive decimal number without a leading zero, then ` line`.
pub open spec fn header_count(s: Seq<char>) -> Option<nat> {
    let a = header_prefix().len() as int;
    let k = digit_run(s, a);
    if occurs_at(s, header_prefix(), 0) && k > 0 && s[a] != '0' && occurs_at(
        s,
        header_suffix(),
        a + k,
    ) {
        Some(digits_value(s.subrange(a, a + k)))
    } else {
        None
    }
}

/// The path that follows ` of `: the rest of the line when it is `/` and at least
/// one more character, else empty (a location whose path cannot be used).
pub open spec fn located_path(rest: Seq<char>) -> Seq<char> {
    if rest.len() >= 2 && rest[0] == '/' {
        rest
    } else {
        Seq::empty()
    }
}

/// The location that begins at index `i` of `s`, if one does:
/// `Starting at line `, a positive number without a leading zero, ` of `, a path.
pub open spec fn location_at(s: Seq<char>, i: int) -> Option<(nat, Seq<char>)> {
    let a = i + location_prefix().len();
    let k = digit_run(s, a);
    if occurs_at(s, location_prefix(), i) && k > 0 && s[a] != '0' && occurs_at(
        s,
        location_infix(),
        a + k,
    ) {
        let rest = s.subrange(a + k + location_infix().len(), s.len() as int);
        Some((digits_value(s.subrange(a, a + k)), located_path(rest)))
    } else {
        None
    }
}

/// The leftmost location in `s` at or after index `i`.
pub open spec fn location_from(s: Seq<char>, i: int) -> Option<(nat, Seq<char>)>
    decreases s.len() - i,
{
    if i < 0 || i >= s.len() {
        None
    } else if location_at(s, i) is Some {
        location_at(s, i)
    } else {
        location_from(s, i + 1)
    }
}

/// The leftmost location in a line.
pub open spec fn file_location(s: Seq<char>) -> Option<(nat, Seq<char>)> {
    location_from(s, 0)
}

/// What the header recogniser returns: the declared count when the line is a
/// header whose count fits in `usize`.
pub open spec fn header_result(s: Seq<char>) -> Option<usize> {
    match header_count(s) {
        Some(n) => if n <= usize::MAX {
            Some(n as usize)
        } else {
            None
        },
        None => None,
    }
}

/// Whether `r` is what the location recogniser returns for line `s`: the
/// starting line and the path of its leftmost location, when the starting line
/// fits in `u32`.
pub open spec fn is_location_result(s: Seq<char>, r: Option<(u32, String)>) -> bool {
    match file_location(s) {
        Some((n, p)) => if n <= u32::MAX {
            match r {
                Some((m, q)) => m as nat == n && q@ == p,
                None => false,
            }
        } else {
            r is None
        },
        None => r is None,
    }
}

/// Recognises a group header and returns the count of lines it declares.
/// A count of zero, or one that does not fit in `usize`, is no header.
pub fn match_group_header(line: &str) -> (r: Option<usize>)
    ensures
        r == header_result(line@),
        r matches Some(n) ==> n > 0,
{
    let s = chars_of(line);
    let prefix = chars_of("Found a ");
    let suffix = chars_of(" line");
    if !occurs_at_index(&s, &prefix, 0) {
        return None;
    }
    let a = prefix.len();
    let (end, value) = scan_digits(&s, a, usize::MAX as u64);
    if end == a || s[a] == '0' || !occurs_at_index(&s, &suffix, end) {
        return None;
    }
    proof {
        lemma_digit_run(s@, a as int);
        lemma_leading_digit_positive(s@.subrange(a as int, end as int));
    }
    match value {
        Some(v) => Some(v as usize),
        None => None,
    }
}

/// A run of digits that does not start with zero has a positive value.
proof fn lemma_leading_digit_positive(d: Seq<char>)
    requires
        d.len() > 0,
        forall|i: int| 0 <= i < d.len() ==> crate::text::is_digit(#[trigger] d[i]),
        d[0] != '0',
    ensures
        digits_value(d) > 0,
    decreases d.len(),
{
    if d.len() > 1 {
        lemma_leading_digit_positive(d.drop_last());
    }
}

/// Whether a location begins at index `i` of `s`; when one does, the value of
/// its starting line (if it fits in `u32`) and the index where the rest of the
/// line begins.
fn location_at_index(s: &Vec<char>, prefix: &Vec<char>, infix: &Vec<char>, i: usize) -> (r: Option<(Option<u32>, usize)>)
    requires
        prefix@ == location_prefix(),
        infix@ == location_infix(),
        i <= s@.len() <= usize::MAX,
    ensures
        r is Some <==> location_at(s@, i as int) is Some,
        r matches Some((v, b)) ==> ({
            let a = i + location_prefix().len();
            let k = digit_run(s@, a);
            let n = digits_value(s@.subrange(a, a + k));
            &&& b == a + k + location_infix().len()
            &&& b <= s@.len()
            &&& location_at(s@, i as int) == Some((n, located_path(s@.subrange(b as int, s@.len() as int))))
            &&& if n <= u32::MAX { v == Some(n as u32) } else { v is None }
        }),
{
    if !occurs_at_index(s, prefix, i) {
        return None;
    }
    let a = i + prefix.len();
    let (end, value) = scan_digits(s, a, u32::MAX as u64);
    if end == a || s[a] == '0' || !occurs_at_index(s, infix, end) {
        return None;
    }
    let v = match value {
        Some(n) => Some(n as u32),
        None => None,
    };
    Some((v, end + infix.len()))
}

/// The path of the leftmost location of a line, if it has one, with its
/// starting line where that fits in `u32`.
fn leftmost_location(line: &str) -> (r: Option<(Option<u32>, String)>)
    ensures
        match file_location(line@) {
            Some((n, p)) => match r {
                Some((v, q)) => q@ == p && if n <= u32::MAX {
                    v == Some(n as u32)
                } else {
                    v is None
                },
                None => false,
            },
            None => r is None,
        },
{
    let s = chars_of(line);
    let prefix = chars_of("Starting at line ");
    let infix = chars_of(" of ");
    let n = s.len();
    let mut i: usize = 0;
    while i < n
        invariant
            n == s@.len(),
            s@ == line@,
            prefix@ == location_prefix(),
            infix@ == location_infix(),
            i <= n,
            file_location(s@) == location_from(s@, i as int),
        decreases n - i,
    {
        match location_at_index(&s, &prefix, &infix, i) {
            Some((v, b)) => {
                let path = if n - b >= 2 && s[b] == '/' {
                    line.substring_char(b, n).to_owned()
                } else {
                    String::new()
                };
                proof {
                    let rest = s@.subrange(b as int, n as int);
                    if n - b >= 2 && s@[b as int] == '/' {
                        assert(rest[0] == '/');
                    }
                }
                return Some((v, path));
            },
            None => {},
        }
        i += 1;
    }
    None
}

/// Recognises a location line and returns its starting line and path, taken
/// from the leftmost location on the line. The path is empty where the line
/// names none that starts with `/`. A starting line that does not fit in `u32`
/// gives no result here.
pub fn match_file_location(line: &str) -> (r: Option<(u32, String)>)
    ensures
        is_location_result(line@, r),
{
    match leftmost_location(line) {
        Some((Some(m), path)) => Some((m, path)),
        _ => None,
    }
}

/// Recognises a location line and returns the path of its leftmost location,
/// whatever its starting line. The path is empty where the line names none
/// that starts with `/`.
pub fn match_location_path(line: &str) -> (r: Option<String>)
    ensures
        match file_location(line@) {
            Some((_, p)) => r matches Some(q) && q@ == p,
            None => r is None,
        },
{
    match leftmost_location(line) {
        Some((_, path)) => Some(path),
        None => None,
    }
}

/// A recogniser of one line shape of a report.
pub trait PmdAnalyzer {
    type Result;

    fn analyze(&self, source: &str) -> Self::Result;
}

/// Recognises group headers.
pub struct LinesAnalyzer;

impl LinesAnalyzer {
    pub fn new() -> (r: Self) {
        LinesAnalyzer
    }
}

impl PmdAnalyzer for LinesAnalyzer {
    type Result = Option<usize>;

    fn analyze(&self, source: &str) -> (r: Option<usize>)
        ensures
            r == header_result(source@),
    {
        match_group_header(source)
    }
}

/// Recognises location lines.
pub struct DuplicationAnalyzer;

impl DuplicationAnalyzer {
    pub fn new() -> (r: Self) {
        DuplicationAnalyzer
    }
}

impl PmdAnalyzer for DuplicationAnalyzer {
    type Result = Option<(u32, String)>;

    fn analyze(&self, source: &str) -> (r: Option<(u32, String)>)
        ensures
            is_location_result(source@, r),
    {
        match_file_location(source)
    }
}

} // verus!

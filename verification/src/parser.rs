//! The database parser: scans the input lines for the database header and
//! the files section, then collects one record per dependency line.

use vstd::prelude::*;
use vstd::string::{StrSliceExecFns, StringExecFns};

use crate::text::{
    find_char, find_char_in, spec_starts_with, split_names, split_names_exec, str_eq,
    str_starts_with,
};

verus! {

/// The two ways parsing can fail.
#[derive(Clone, Copy, Debug, PartialEq, Eq, Structural)]
pub enum ParseError {
    /// The database header line never appeared.
    NotMakeDatabase,
    /// The header appeared, but no files-section line followed it.
    NoFilesSection,
}

impl ParseError {
    /// The one-line description reported to the user.
    pub fn message(&self) -> (m: String)
        ensures
            *self == ParseError::NotMakeDatabase ==> m@
                == "Input seems not compatible with `LANG=C make -p`."@,
            *self == ParseError::NoFilesSection ==> m@ == "No files defined in Makefile."@,
    {
        match self {
            ParseError::NotMakeDatabase => String::from_str(
                "Input seems not compatible with `LANG=C make -p`.",
            ),
            ParseError::NoFilesSection => String::from_str("No files defined in Makefile."),
        }
    }
}

/// One dependency record: a target name and its prerequisite names, in the
/// order the input gave them.
pub struct Record {
    pub target: String,
    pub prereqs: Vec<String>,
}

impl View for Record {
    type V = (Seq<char>, Seq<Seq<char>>);

    open spec fn view(&self) -> (Seq<char>, Seq<Seq<char>>) {
        (self.target@, self.prereqs.deep_view())
    }
}

impl DeepView for Record {
    type V = (Seq<char>, Seq<Seq<char>>);

    open spec fn deep_view(&self) -> (Seq<char>, Seq<Seq<char>>) {
        self.view()
    }
}

/// The database header: the line that a printed database starts with.
pub open spec fn is_header_line(l: Seq<char>) -> bool {
    spec_starts_with(l, "# Make data base, printed on "@)
}

/// The start of the files section.
pub open spec fn is_files_line(l: Seq<char>) -> bool {
    spec_starts_with(l, "# Files"@)
}

/// The statistics trailer that ends the targets section.
pub open spec fn is_stats_line(l: Seq<char>) -> bool {
    spec_starts_with(l, "# files hash-table stats:"@)
}

/// The marker that opens a block of non-target lines.
pub open spec fn is_not_target_line(l: Seq<char>) -> bool {
    l == "# Not a target:"@
}

/// A comment or unrelated metadata line.
pub open spec fn is_comment_line(l: Seq<char>) -> bool {
    spec_starts_with(l, "#"@)
}

/// Index of the first header line at or after `i`; negative when none is left.
pub open spec fn first_header_from(lines: Seq<Seq<char>>, i: int) -> int
    decreases lines.len() - i,
{
    if i < 0 || i >= lines.len() {
        -1
    } else if is_header_line(lines[i]) {
        i
    } else {
        first_header_from(lines, i + 1)
    }
}

/// Index of the first files-section line at or after `i`; negative when none
/// is left.
pub open spec fn first_files_from(lines: Seq<Seq<char>>, i: int) -> int
    decreases lines.len() - i,
{
    if i < 0 || i >= lines.len() {
        -1
    } else if is_files_line(lines[i]) {
        i
    } else {
        first_files_from(lines, i + 1)
    }
}

/// A negative result means no header line at or after `i`; otherwise the
/// result is the least header position at or after `i`.
pub proof fn lemma_first_header_from(lines: Seq<Seq<char>>, i: int)
    requires
        0 <= i <= lines.len(),
    ensures
        first_header_from(lines, i) == -1 ==> forall|j: int|
            i <= j < lines.len() ==> !is_header_line(lines[j]),
        first_header_from(lines, i) != -1 ==> i <= first_header_from(lines, i) < lines.len()
            && is_header_line(lines[first_header_from(lines, i)]) && (forall|j: int|
            i <= j < first_header_from(lines, i) ==> !is_header_line(lines[j])),
    decreases lines.len() - i,
{
    if i < lines.len() && !is_header_line(lines[i]) {
        lemma_first_header_from(lines, i + 1);
    }
}

/// A negative result means no files-section line at or after `i`; otherwise
/// the result is the least such position at or after `i`.
pub proof fn lemma_first_files_from(lines: Seq<Seq<char>>, i: int)
    requires
        0 <= i <= lines.len(),
    ensures
        first_files_from(lines, i) == -1 ==> forall|j: int|
            i <= j < lines.len() ==> !is_files_line(lines[j]),
        first_files_from(lines, i) != -1 ==> i <= first_files_from(lines, i) < lines.len()
            && is_files_line(lines[first_files_from(lines, i)]) && (forall|j: int|
            i <= j < first_files_from(lines, i) ==> !is_files_line(lines[j])),
    decreases lines.len() - i,
{
    if i < lines.len() && !is_files_line(lines[i]) {
        lemma_first_files_from(lines, i + 1);
    }
}

/// Position of the first line at or after `from` that begins with `p`.
fn find_line_with_prefix(lines: &Vec<String>, from: usize, p: &str) -> (r: Option<usize>)
    requires
        from <= lines@.len(),
    ensures
        match r {
            Some(k) => from <= k < lines@.len() && spec_starts_with(lines.deep_view()[k as int], p@)
                && (forall|j: int|
                from <= j < k ==> !spec_starts_with(lines.deep_view()[j], p@)),
            None => forall|j: int|
                from <= j < lines@.len() ==> !spec_starts_with(lines.deep_view()[j], p@),
        },
{
    let n = lines.len();
    let mut i: usize = from;
    while i < n
        invariant
            from <= i <= n,
            n == lines@.len(),
            forall|j: int| from <= j < i ==> !spec_starts_with(lines.deep_view()[j], p@),
        decreases n - i,
    {
        if str_starts_with(lines[i].as_str(), p) {
            return Some(i);
        }
        i = i + 1;
    }
    None
}

/// The record a dependency line stands for: the text before the first colon
/// is the target name, the text after it splits into prerequisite names.
pub open spec fn record_of_line(l: Seq<char>) -> (Seq<char>, Seq<Seq<char>>) {
    let k = find_char(l, ':');
    (l.subrange(0, k), split_names(l.subrange(k + 1, l.len() as int)))
}

/// The records collected from position `i` on. `skipping` says whether the
/// scan stands inside a non-target block, which runs to the next empty line.
pub open spec fn spec_records(lines: Seq<Seq<char>>, i: int, skipping: bool) -> Seq<
    (Seq<char>, Seq<Seq<char>>),
>
    decreases lines.len() - i,
{
    if i < 0 || i >= lines.len() {
        Seq::empty()
    } else if skipping {
        spec_records(lines, i + 1, lines[i].len() != 0)
    } else if is_not_target_line(lines[i]) {
        spec_records(lines, i + 1, true)
    } else if is_stats_line(lines[i]) {
        Seq::empty()
    } else if find_char(lines[i], ':') == -1 || is_comment_line(lines[i]) {
        spec_records(lines, i + 1, false)
    } else {
        seq![record_of_line(lines[i])] + spec_records(lines, i + 1, false)
    }
}

/// What parsing returns on the given lines: the records that follow the
/// first files-section line after the first header line, or the error that
/// says which marker was missing.
pub open spec fn spec_parse(lines: Seq<Seq<char>>) -> Result<
    Seq<(Seq<char>, Seq<Seq<char>>)>,
    ParseError,
> {
    let h = first_header_from(lines, 0);
    if h == -1 {
        Err(ParseError::NotMakeDatabase)
    } else {
        let f = first_files_from(lines, h + 1);
        if f == -1 {
            Err(ParseError::NoFilesSection)
        } else {
            Ok(spec_records(lines, f + 1, false))
        }
    }
}

/// Parses a printed database into dependency records.
///
/// The result is exactly `spec_parse` of the lines; in particular parsing
/// fails with `NotMakeDatabase` precisely when no line carries the database
/// header, and with `NoFilesSection` precisely when a header exists but no
/// files-section line follows the first header.
pub fn parse_make_p(lines: &Vec<String>) -> (res: Result<Vec<Record>, ParseError>)
    ensures
        ({
            let lv = lines.deep_view();
            &&& match res {
                Ok(recs) => spec_parse(lv) == Ok::<_, ParseError>(recs.deep_view()),
                Err(e) => spec_parse(lv) == Err::<Seq<(Seq<char>, Seq<Seq<char>>)>, _>(e),
            }
            &&& (res == Err::<Vec<Record>, _>(ParseError::NotMakeDatabase) <==> (forall|j: int|
                0 <= j < lv.len() ==> !is_header_line(lv[j])))
            &&& (res == Err::<Vec<Record>, _>(ParseError::NoFilesSection) <==> ({
                let h = first_header_from(lv, 0);
                h != -1 && (forall|j: int| h < j < lv.len() ==> !is_files_line(lv[j]))
            }))
        }),
{
    let ghost lv = lines.deep_view();
    let n = lines.len();

    let hh: usize = match find_line_with_prefix(lines, 0, "# Make data base, printed on ") {
        None => {
            proof {
                lemma_first_header_from(lv, 0);
            }
            return Err(ParseError::NotMakeDatabase);
        },
        Some(k) => k,
    };
    proof {
        lemma_first_header_from(lv, 0);
        assert(first_header_from(lv, 0) == hh as int);
    }

    let ff: usize = match find_line_with_prefix(lines, hh + 1, "# Files") {
        None => {
            proof {
                lemma_first_files_from(lv, hh + 1);
            }
            return Err(ParseError::NoFilesSection);
        },
        Some(k) => k,
    };
    proof {
        lemma_first_files_from(lv, hh + 1);
        assert(first_files_from(lv, hh + 1) == ff as int);
    }

    // Collect the records that follow the files-section line.
    let f = ff;
    let mut out: Vec<Record> = Vec::new();
    let mut cur: usize = f + 1;
    let mut skipping: bool = false;
    let mut done: bool = false;
    while cur < n && !done
        invariant
            f + 1 <= cur <= n,
            n == lines@.len(),
            lv == lines.deep_view(),
            !done ==> out.deep_view() + spec_records(lv, cur as int, skipping) == spec_records(
                lv,
                f + 1,
                false,
            ),
            done ==> out.deep_view() == spec_records(lv, f + 1, false),
        decreases n - cur, (if done { 0int } else { 1int }),
    {
        let ghost prev = out.deep_view();
        let line = &lines[cur];
        if skipping {
            if line.as_str().is_empty() {
                skipping = false;
            } else {
                skipping = true;
            }
            cur = cur + 1;
        } else if str_eq(line.as_str(), "# Not a target:") {
            skipping = true;
            cur = cur + 1;
        } else if str_starts_with(line.as_str(), "# files hash-table stats:") {
            proof {
                assert(spec_records(lv, cur as int, false) =~= Seq::empty());
                assert(prev + spec_records(lv, cur as int, false) =~= prev);
            }
            done = true;
        } else {
            let colon = find_char_in(line.as_str(), ':');
            let is_comment = str_starts_with(line.as_str(), "#");
            match colon {
                None => {
                    cur = cur + 1;
                },
                Some(k) => {
                    if is_comment {
                        cur = cur + 1;
                    } else {
                        let ln = line.as_str().unicode_len();
                        let target = line.as_str().substring_char(0, k).to_owned();
                        let tail = line.as_str().substring_char(k + 1, ln);
                        let prereqs = split_names_exec(tail);
                        let rec = Record { target, prereqs };
                        proof {
                            assert(rec.deep_view() == record_of_line(lv[cur as int]));
                        }
                        out.push(rec);
                        proof {
                            assert(out.deep_view() =~= prev.push(record_of_line(lv[cur as int])));
                            assert(prev.push(record_of_line(lv[cur as int])) + spec_records(
                                lv,
                                cur + 1,
                                false,
                            ) =~= prev + (seq![record_of_line(lv[cur as int])] + spec_records(
                                lv,
                                cur + 1,
                                false,
                            )));
                        }
                        cur = cur + 1;
                    }
                },
            }
        }
    }
    proof {
        if !done {
            assert(spec_records(lv, cur as int, skipping) =~= Seq::empty());
            assert(out.deep_view() + spec_records(lv, cur as int, skipping) =~= out.deep_view());
        }
        assert(spec_parse(lv) == Ok::<_, ParseError>(out.deep_view()));
    }
    Ok(out)
}

} // verus!

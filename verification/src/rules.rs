//! Ignore rules, as gitignore files write them.

use bstr::ByteSlice;
use ignore::gitignore::{Gitignore, GitignoreBuilder};
use vstd::prelude::*;
use vstd::string::*;

use crate::encoding::path_bytes;
use crate::path::relative_path;
use crate::path::{PathView, SyncPath};
use crate::rule_laws::law_faults_are_the_refused_lines;

verus! {

/// The builder of the `ignore` crate, which takes the lines of gitignore files.
#[verifier::external_type_specification]
#[verifier::external_body]
pub struct ExGitignoreBuilder(GitignoreBuilder);

/// The matcher of the `ignore` crate.
#[verifier::external_type_specification]
#[verifier::external_body]
pub struct ExGitignore(Gitignore);

/// The bytes of the paths that rules ignore, each with whether it is a directory.
pub type IgnoredSet = Set<(Seq<u8>, bool)>;

/// What becomes of a set of rules: the paths that they ignore, or why they cannot be used.
pub type Compiled = Result<IgnoredSet, Seq<char>>;

/// The root of a builder, as bytes: its field `root`.
pub uninterp spec fn builder_root(b: GitignoreBuilder) -> Seq<u8>;

/// The rules that a builder holds, in order: its field `globs`, each by its text `original`.
pub uninterp spec fn builder_lines(b: GitignoreBuilder) -> Seq<Seq<char>>;

/// A builder on which no option was changed: its fields `case_insensitive` and
/// `allow_unclosed_class` are at their defaults.
pub uninterp spec fn builder_is_plain(b: GitignoreBuilder) -> bool;

/// The paths that a matcher ignores, each with whether it is a directory.
pub uninterp spec fn ignored_paths(g: Gitignore) -> IgnoredSet;

/// Why `GitignoreBuilder::add_line` refuses a line, if it does.
pub uninterp spec fn line_fault(line: Seq<char>) -> Option<Seq<char>>;

/// What `GitignoreBuilder::build` makes of these rules at this root: the paths ignored, each
/// with whether it is a directory, or why it fails.
pub uninterp spec fn compiled_rules(root: Seq<u8>, lines: Seq<Seq<char>>) -> Compiled;

/// A character with the Unicode property White_Space.
pub open spec fn is_blank(c: char) -> bool {
    ||| '\u{9}' <= c <= '\u{d}'
    ||| c == ' '
    ||| c == '\u{85}'
    ||| c == '\u{a0}'
    ||| c == '\u{1680}'
    ||| '\u{2000}' <= c <= '\u{200a}'
    ||| c == '\u{2028}'
    ||| c == '\u{2029}'
    ||| c == '\u{202f}'
    ||| c == '\u{205f}'
    ||| c == '\u{3000}'
}

/// `s` without the white space at its end.
pub open spec fn without_end_blanks(s: Seq<char>) -> Seq<char>
    decreases s.len(),
{
    if s.len() > 0 && is_blank(s.last()) {
        without_end_blanks(s.drop_last())
    } else {
        s
    }
}

/// The line ends in a backslash and a blank.
pub open spec fn ends_escaped(line: Seq<char>) -> bool {
    line.len() >= 2 && line[line.len() - 2] == '\\' && line.last() == ' '
}

/// The rule that a line holds: none if it is a comment or blank, else the line without the white
/// space at its end, which an escaped blank there keeps.
pub open spec fn rule_text(line: Seq<char>) -> Option<Seq<char>> {
    let text = if ends_escaped(line) {
        line
    } else {
        without_end_blanks(line)
    };
    if line.len() > 0 && line[0] == '#' || text.len() == 0 {
        None
    } else {
        Some(text)
    }
}

/// The bytes of a path without a leading `./`.
pub open spec fn bare(root: Seq<u8>) -> Seq<u8> {
    if root.len() >= 2 && root[0] == 0x2e && root[1] == 0x2f {
        root.skip(2)
    } else {
        root
    }
}

/// Calls `GitignoreBuilder::new` on the path that `ByteSlice::to_path_lossy` of the `bstr` crate
/// makes of the bytes. Where any bytes can be a path, as on Unix, that is the path of these bytes.
/// Elsewhere bytes that are not UTF-8 are replaced, and the leading `./` is dropped by component,
/// so that a root `.` is dropped too.
///
/// Claimed: the builder has these bytes as its root, but for a leading `./`, which it drops; it
/// holds no rule, and has its default options.
#[verifier::external_body]
fn new_builder(root: &Vec<u8>) -> (b: GitignoreBuilder)
    ensures
        builder_root(b) == bare(root@),
        builder_lines(b) == Seq::<Seq<char>>::empty(),
        builder_is_plain(b),
{
    GitignoreBuilder::new(root.to_path_lossy())
}

/// Calls `GitignoreBuilder::add_line`, without the path of the file that the line came from,
/// which the builder keeps for reports only.
///
/// Claimed: whether a builder with default options refuses a line, and with what message,
/// depends on the line alone. A comment or a blank line is not refused, and leaves the builder as
/// it was, and so does a line that is refused. Of any other line the builder takes the rule,
/// behind those that it holds. Which lines are refused is not stated.
#[verifier::external_body]
fn add_line(b: &mut GitignoreBuilder, line: &str) -> (r: Result<(), String>)
    requires
        builder_is_plain(*old(b)),
    ensures
        builder_is_plain(*final(b)),
        builder_root(*final(b)) == builder_root(*old(b)),
        match r {
            Ok(_) => line_fault(line@) is None && match rule_text(line@) {
                None => *final(b) == *old(b),
                Some(text) => builder_lines(*final(b)) == builder_lines(*old(b)).push(text),
            },
            Err(m) => line_fault(line@) == Some(m@) && *final(b) == *old(b),
        },
        r is Err ==> rule_text(line@) is Some,
{
    match b.add_line(None, line) {
        Ok(_) => Ok(()),
        Err(e) => Err(e.to_string()),
    }
}

/// Calls `GitignoreBuilder::build`.
///
/// Claimed: for a builder with default options the outcome depends on the root and the rules
/// alone, and a builder without rules gives a matcher that ignores nothing. Which paths rules
/// ignore is not stated.
#[verifier::external_body]
fn build_matcher(b: &GitignoreBuilder) -> (r: Result<Gitignore, String>)
    requires
        builder_is_plain(*b),
    ensures
        r matches Ok(g) ==> compiled_rules(builder_root(*b), builder_lines(*b)) == Compiled::Ok(
            ignored_paths(g),
        ),
        r matches Err(m) ==> compiled_rules(builder_root(*b), builder_lines(*b)) == Compiled::Err(
            m@,
        ),
        r matches Ok(g) ==> (builder_lines(*b).len() == 0 ==> ignored_paths(g)
            == IgnoredSet::empty()),
        r is Err ==> builder_lines(*b).len() > 0,
{
    match b.build() {
        Ok(g) => Ok(g),
        Err(e) => Err(e.to_string()),
    }
}

/// Calls `Gitignore::matched` and asks the outcome, by `Match::is_ignore`, whether the path is to
/// be ignored. The path is made of the bytes as in `new_builder`.
///
/// Claimed: the answer depends on the matcher, the path and whether it is a directory alone.
#[verifier::external_body]
fn matched(g: &Gitignore, path: &Vec<u8>, is_dir: bool) -> (r: bool)
    ensures
        r == ignored_paths(*g).contains((path@, is_dir)),
{
    g.matched(path.to_path_lossy(), is_dir).is_ignore()
}

/// Rules that tell which paths below a root are ignored.
pub struct IgnoreRules {
    matcher: Gitignore,
}

impl View for IgnoreRules {
    type V = IgnoredSet;

    /// The bytes of the paths ignored, each with whether it is a directory.
    closed spec fn view(&self) -> IgnoredSet {
        ignored_paths(self.matcher)
    }
}

/// A gitignore file, as far as it could be read.
#[derive(Debug)]
pub enum IgnoreFile {
    /// Its lines, without their ends.
    Lines(Vec<String>),
    /// It could not be read.
    Unreadable,
}

/// A line that is no rule.
#[derive(Debug, PartialEq, Eq)]
pub struct LineFault {
    /// The number of the line, from 1.
    pub line: usize,
    /// What is wrong with it.
    pub message: String,
}

/// Why there are no rules.
#[derive(Debug, PartialEq, Eq)]
pub enum IgnoreError {
    /// The file at this position could not be read.
    Unreadable { file: usize },
    /// The file at this position has lines that are no rules.
    BadLines { file: usize, faults: Vec<LineFault> },
    /// The rules cannot be used together.
    Rejected { message: String },
}

/// The lines that the sequence `s` holds.
pub open spec fn lines_view(s: Seq<String>) -> Seq<Seq<char>> {
    s.map_values(|l: String| l@)
}

/// The faults that the sequence `s` holds.
pub open spec fn faults_view(s: Seq<LineFault>) -> Seq<(int, Seq<char>)> {
    s.map_values(|f: LineFault| (f.line as int, f.message@))
}

/// `s` without its leading byte-order marks.
pub open spec fn without_marks(s: Seq<char>) -> Seq<char>
    decreases s.len(),
{
    if s.len() > 0 && s[0] == '\u{feff}' {
        without_marks(s.skip(1))
    } else {
        s
    }
}

/// The line at position `i` of a file: the first is read without byte-order marks.
pub open spec fn line_at(lines: Seq<Seq<char>>, i: int) -> Seq<char> {
    if i == 0 {
        without_marks(lines[i])
    } else {
        lines[i]
    }
}

/// The rules among the first `n` lines of a file, in order.
pub open spec fn taken_rules(lines: Seq<Seq<char>>, n: nat) -> Seq<Seq<char>>
    decreases n,
{
    if n == 0 {
        Seq::empty()
    } else {
        let rest = taken_rules(lines, (n - 1) as nat);
        match rule_text(line_at(lines, n - 1)) {
            Some(text) => rest.push(text),
            None => rest,
        }
    }
}

/// The numbers of the refused lines among the first `n`, each with the reason.
pub open spec fn line_faults(lines: Seq<Seq<char>>, n: nat) -> Seq<(int, Seq<char>)>
    decreases n,
{
    if n == 0 {
        Seq::empty()
    } else {
        let rest = line_faults(lines, (n - 1) as nat);
        match line_fault(line_at(lines, n - 1)) {
            Some(message) => rest.push((n as int, message)),
            None => rest,
        }
    }
}

/// The file could be read and all its lines are taken.
pub open spec fn is_clean(file: IgnoreFile) -> bool {
    match file {
        IgnoreFile::Lines(lines) => line_faults(lines_view(lines@), lines@.len()).len() == 0,
        IgnoreFile::Unreadable => false,
    }
}

/// The rules that a file contributes.
pub open spec fn file_rules(file: IgnoreFile) -> Seq<Seq<char>> {
    match file {
        IgnoreFile::Lines(lines) => taken_rules(lines_view(lines@), lines@.len()),
        IgnoreFile::Unreadable => Seq::empty(),
    }
}

/// The rules of the first `n` files, in order.
pub open spec fn all_rules(files: Seq<IgnoreFile>, n: nat) -> Seq<Seq<char>>
    decreases n,
{
    if n == 0 {
        Seq::empty()
    } else {
        all_rules(files, (n - 1) as nat) + file_rules(files[n - 1])
    }
}

/// All files before position `n` are clean.
pub open spec fn clean_before(files: Seq<IgnoreFile>, n: int) -> bool {
    forall|i: int| 0 <= i < n ==> is_clean(#[trigger] files[i])
}

/// The file could be read and holds no rule.
pub open spec fn holds_no_rule(file: IgnoreFile) -> bool {
    file is Lines && file_rules(file).len() == 0
}

/// The rules of files are those of each, one file after the other.
pub proof fn law_files_are_put_together(files: Seq<IgnoreFile>)
    ensures
        all_rules(files, files.len()) == files.map_values(|f: IgnoreFile| file_rules(f)).flatten(),
    decreases files.len(),
{
    let each = files.map_values(|f: IgnoreFile| file_rules(f));
    if files.len() > 0 {
        let (rest, last) = (files.drop_last(), files.last());
        let start = rest.map_values(|f: IgnoreFile| file_rules(f));
        law_files_are_put_together(rest);
        lemma_rules_of_first_files(files, rest, rest.len());
        start.lemma_flatten_push(file_rules(last));
        assert(each =~= start.push(file_rules(last)));
    }
}

/// The rules of the first files do not depend on those behind them.
pub proof fn lemma_rules_of_first_files(a: Seq<IgnoreFile>, b: Seq<IgnoreFile>, n: nat)
    requires
        n <= a.len(),
        n <= b.len(),
        forall|i: int| 0 <= i < n ==> a[i] == b[i],
    ensures
        all_rules(a, n) == all_rules(b, n),
    decreases n,
{
    if n > 0 {
        lemma_rules_of_first_files(a, b, (n - 1) as nat);
    }
}

/// The line without its leading byte-order marks.
fn strip_marks(line: &str) -> (r: &str)
    ensures
        r@ == without_marks(line@),
{
    let n = line.unicode_len();
    let mut i: usize = 0;
    assert(line@.skip(0) =~= line@);
    while i < n && line.get_char(i) == '\u{feff}'
        invariant
            i <= n,
            n == line@.len(),
            without_marks(line@.skip(i as int)) == without_marks(line@),
        decreases n - i,
    {
        assert(line@.skip(i as int).skip(1) =~= line@.skip(i + 1));
        i += 1;
    }
    assert(line@.skip(i as int) =~= line@.subrange(i as int, n as int));
    line.substring_char(i, n)
}

/// Hands the lines of one file to the builder, and collects those that it refuses.
fn add_lines(b: &mut GitignoreBuilder, lines: &Vec<String>) -> (faults: Vec<LineFault>)
    requires
        builder_is_plain(*old(b)),
    ensures
        builder_is_plain(*final(b)),
        builder_root(*final(b)) == builder_root(*old(b)),
        faults_view(faults@) == line_faults(lines_view(lines@), lines@.len()),
        faults@.len() == 0 ==> builder_lines(*final(b)) == builder_lines(*old(b)) + taken_rules(
            lines_view(lines@),
            lines@.len(),
        ),
        taken_rules(lines_view(lines@), lines@.len()).len() == 0 ==> faults@.len() == 0,
{
    let ghost view = lines_view(lines@);
    let ghost start = builder_lines(*b);
    let ghost root = builder_root(*b);
    let mut faults: Vec<LineFault> = Vec::new();
    let mut i: usize = 0;
    assert(faults_view(faults@) =~= line_faults(view, 0));
    assert(start + taken_rules(view, 0) =~= start);
    while i < lines.len()
        invariant
            view == lines_view(lines@),
            i <= lines.len(),
            builder_is_plain(*b),
            builder_root(*b) == root,
            faults_view(faults@) == line_faults(view, i as nat),
            faults@.len() == 0 ==> builder_lines(*b) == start + taken_rules(view, i as nat),
            taken_rules(view, i as nat).len() == 0 ==> faults@.len() == 0,
        decreases lines.len() - i,
    {
        let ghost held = faults@;
        assert(view[i as int] == lines@[i as int]@);
        let line = if i == 0 {
            strip_marks(lines[i].as_str())
        } else {
            lines[i].as_str()
        };
        assert(line@ == line_at(view, i as int));
        let ghost rules = taken_rules(view, i as nat);
        match add_line(b, line) {
            Ok(_) => {
                assert(rule_text(line@) matches Some(text) ==> start + rules.push(text) =~= (start
                    + rules).push(text));
            },
            Err(message) => {
                let fault = LineFault { line: i + 1, message };
                faults.push(fault);
                assert(faults_view(faults@) =~= faults_view(held).push(((i + 1) as int, fault.message@)));
            },
        }
        i += 1;
    }
    faults
}

/// The rules that these files hold for the tree at `walk_root`; none where there is no file.
///
/// The files are gone through in order, and the first that could not be read or has a line that
/// is no rule ends it.
pub fn build_gitignore_for_root(walk_root: &SyncPath, ignore_files: &Vec<IgnoreFile>) -> (r: Result<
    Option<IgnoreRules>,
    IgnoreError,
>)
    ensures
        match r {
            Ok(None) => ignore_files@.len() == 0,
            Ok(Some(rules)) => {
                &&& ignore_files@.len() > 0
                &&& clean_before(ignore_files@, ignore_files@.len() as int)
                &&& compiled_rules(
                    bare(path_bytes(walk_root@)),
                    all_rules(ignore_files@, ignore_files@.len()),
                ) == Compiled::Ok(rules@)
            },
            Err(IgnoreError::Unreadable { file }) => {
                &&& file < ignore_files@.len()
                &&& clean_before(ignore_files@, file as int)
                &&& ignore_files@[file as int] is Unreadable
            },
            Err(IgnoreError::BadLines { file, faults }) => {
                &&& file < ignore_files@.len()
                &&& clean_before(ignore_files@, file as int)
                &&& ignore_files@[file as int] matches IgnoreFile::Lines(lines)
                    && faults_view(faults@) == line_faults(lines_view(lines@), lines@.len())
                &&& faults@.len() > 0
                &&& forall|k: int|
                    0 <= k < faults@.len() ==> {
                        let (n, lines) = (
                            (#[trigger] faults@[k]).line,
                            ignore_files@[file as int]->Lines_0@,
                        );
                        &&& 1 <= n <= lines.len()
                        &&& line_fault(
                            if n == 1 {
                                without_marks(lines[0]@)
                            } else {
                                lines[n - 1]@
                            },
                        ) == Some(faults@[k].message@)
                    }
            },
            Err(IgnoreError::Rejected { message }) => {
                &&& ignore_files@.len() > 0
                &&& clean_before(ignore_files@, ignore_files@.len() as int)
                &&& compiled_rules(
                    bare(path_bytes(walk_root@)),
                    all_rules(ignore_files@, ignore_files@.len()),
                ) == Compiled::Err(message@)
            },
        },
        match r {
            Ok(Some(rules)) => compiled_rules(
                bare(path_bytes(walk_root@)),
                ignore_files@.map_values(|f: IgnoreFile| file_rules(f)).flatten(),
            ) == Compiled::Ok(rules@),
            Err(IgnoreError::Rejected { message }) => compiled_rules(
                bare(path_bytes(walk_root@)),
                ignore_files@.map_values(|f: IgnoreFile| file_rules(f)).flatten(),
            ) == Compiled::Err(message@),
            _ => true,
        },
        ignore_files@.len() > 0 && (forall|i: int|
            0 <= i < ignore_files@.len() ==> holds_no_rule(#[trigger] ignore_files@[i])) ==> (
        r matches Ok(Some(rules)) && rules@ == IgnoredSet::empty()),
{
    if ignore_files.len() == 0 {
        return Ok(None);
    }
    let mut builder = new_builder(&walk_root.to_bytes());
    let mut i: usize = 0;
    while i < ignore_files.len()
        invariant
            i <= ignore_files.len(),
            builder_is_plain(builder),
            builder_root(builder) == bare(path_bytes(walk_root@)),
            builder_lines(builder) == all_rules(ignore_files@, i as nat),
            clean_before(ignore_files@, i as int),
            (forall|j: int| 0 <= j < i ==> holds_no_rule(#[trigger] ignore_files@[j]))
                ==> builder_lines(builder).len() == 0,
        decreases ignore_files.len() - i,
    {
        match &ignore_files[i] {
            IgnoreFile::Unreadable => {
                return Err(IgnoreError::Unreadable { file: i });
            },
            IgnoreFile::Lines(lines) => {
                let faults = add_lines(&mut builder, lines);
                assert(faults_view(faults@).len() == faults@.len());
                if faults.len() > 0 {
                    proof {
                        let view = lines_view(lines@);
                        let all = line_faults(view, view.len());
                        law_faults_are_the_refused_lines(view, view.len());
                        assert forall|k: int| 0 <= k < faults@.len() implies {
                            let n = (#[trigger] faults@[k]).line;
                            &&& 1 <= n <= lines@.len()
                            &&& line_fault(
                                if n == 1 {
                                    without_marks(lines@[0]@)
                                } else {
                                    lines@[n - 1]@
                                },
                            ) == Some(faults@[k].message@)
                        } by {
                            let f = faults@[k];
                            assert(all[k] == (f.line as int, f.message@));
                            assert(all.contains((f.line as int, f.message@)));
                        }
                    }
                    return Err(IgnoreError::BadLines { file: i, faults });
                }
            },
        }
        i += 1;
    }
    proof {
        law_files_are_put_together(ignore_files@);
    }
    match build_matcher(&builder) {
        Ok(matcher) => Ok(Some(IgnoreRules { matcher })),
        Err(message) => Err(IgnoreError::Rejected { message }),
    }
}

/// The rules ignore `path`, which is a directory or not. A path that is not below `root` is not
/// ignored, nor is any without rules.
pub open spec fn ignored(
    rules: Option<IgnoredSet>,
    root: PathView,
    path: PathView,
    is_dir: bool,
) -> bool {
    match rules {
        None => false,
        Some(set) => root.is_prefix_of(path) && set.contains(
            (path_bytes(path.skip(root.len() as int)), is_dir),
        ),
    }
}

/// What optional rules mean.
pub open spec fn rules_view(gi: Option<&IgnoreRules>) -> Option<IgnoredSet> {
    match gi {
        None => None,
        Some(rules) => Some(rules@),
    }
}

/// Whether the rules ignore `path`, by its path below `root`.
pub fn ignored_by_gitignore(
    gi: Option<&IgnoreRules>,
    root: &SyncPath,
    path: &SyncPath,
    is_dir: bool,
) -> (r: bool)
    ensures
        r == ignored(rules_view(gi), root@, path@, is_dir),
        r == match gi {
            None => false,
            Some(rules) => root@.len() <= path@.len() && path@.take(root@.len() as int) == root@
                && rules@.contains((path_bytes(path@.skip(root@.len() as int)), is_dir)),
        },
{
    match gi {
        None => false,
        Some(rules) => match relative_path(root, path) {
            Err(_) => false,
            Ok(rel) => matched(&rules.matcher, &rel.to_bytes(), is_dir),
        },
    }
}

} // verus!

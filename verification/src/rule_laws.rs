//! What ignore rules mean, from the lines of the files to the paths.

use vstd::prelude::*;

use crate::encoding::path_bytes;
use crate::path::PathView;
use crate::rules::{
    all_rules, clean_before, file_rules, ignored, is_blank, is_clean, lemma_rules_of_first_files,
    line_fault, line_faults, lines_view, rule_text, taken_rules, without_end_blanks, without_marks,
};
use crate::rules::{IgnoreFile, IgnoredSet};

verus! {

/// What lies below the root is ignored exactly when the matcher ignores the bytes of its path
/// below the root, at every depth.
pub proof fn law_ignored_goes_by_the_relative_path(
    set: IgnoredSet,
    root: PathView,
    rel: PathView,
    is_dir: bool,
)
    ensures
        ignored(Some(set), root, root + rel, is_dir) <==> set.contains((path_bytes(rel), is_dir)),
{
    assert((root + rel).skip(root.len() as int) =~= rel);
    assert((root + rel).subrange(0, root.len() as int) =~= root);
}

/// Where the tree lies does not matter.
pub proof fn law_ignored_does_not_depend_on_the_root(
    rules: Option<IgnoredSet>,
    here: PathView,
    there: PathView,
    rel: PathView,
    is_dir: bool,
)
    ensures
        ignored(rules, here, here + rel, is_dir) == ignored(rules, there, there + rel, is_dir),
{
    if rules is Some {
        law_ignored_goes_by_the_relative_path(rules->0, here, rel, is_dir);
        law_ignored_goes_by_the_relative_path(rules->0, there, rel, is_dir);
    }
}

/// What is ignored is ignored by rules, and lies at or below the root.
pub proof fn law_ignored_lies_below_the_root(
    rules: Option<IgnoredSet>,
    root: PathView,
    path: PathView,
    is_dir: bool,
)
    requires
        ignored(rules, root, path, is_dir),
    ensures
        rules is Some,
        root.len() <= path.len(),
        path == root + path.skip(root.len() as int),
{
    assert(path =~= root + path.skip(root.len() as int));
}

/// Rules that ignore more make more ignored.
pub proof fn law_ignored_is_monotone(
    a: IgnoredSet,
    b: IgnoredSet,
    root: PathView,
    path: PathView,
    is_dir: bool,
)
    requires
        a.subset_of(b),
        ignored(Some(a), root, path, is_dir),
    ensures
        ignored(Some(b), root, path, is_dir),
{
}

/// The rules of two lists of files are those of the first and then those of the second; those of
/// one file are its own.
pub proof fn law_rules_of_files_add_up(a: Seq<IgnoreFile>, b: Seq<IgnoreFile>, file: IgnoreFile)
    ensures
        all_rules(a + b, (a + b).len()) == all_rules(a, a.len()) + all_rules(b, b.len()),
        all_rules(a.push(file), a.push(file).len()) == all_rules(a, a.len()) + file_rules(file),
        all_rules(seq![file], 1) == file_rules(file),
        all_rules(Seq::empty(), 0) == Seq::<Seq<char>>::empty(),
    decreases b.len(),
{
    lemma_rules_of_first_files(a.push(file), a, a.len());
    reveal_with_fuel(all_rules, 2);
    assert(all_rules(seq![file], 1) =~= file_rules(file));
    if b.len() == 0 {
        assert(a + b =~= a);
        assert(all_rules(a, a.len()) + all_rules(b, 0) =~= all_rules(a, a.len()));
    } else {
        let (rest, last) = (b.drop_last(), b.last());
        let whole = a + rest;
        law_rules_of_files_add_up(a, rest, last);
        lemma_rules_of_first_files(b, rest, rest.len());
        lemma_rules_of_first_files(a + b, whole, whole.len());
        assert((a + b)[whole.len() as int] == last);
        assert((all_rules(a, a.len()) + all_rules(rest, rest.len())) + file_rules(last)
            =~= all_rules(a, a.len()) + (all_rules(rest, rest.len()) + file_rules(last)));
    }
}

/// Every file has its place among the rules: behind the rules of the files before it stand its
/// own, whole and in order.
pub proof fn law_every_file_has_its_place(files: Seq<IgnoreFile>, i: int)
    requires
        0 <= i < files.len(),
    ensures
        ({
            let all = all_rules(files, files.len());
            let start = all_rules(files.take(i), i as nat).len() as int;
            let end = start + file_rules(files[i]).len();
            &&& end <= all.len()
            &&& all.subrange(0, start) == all_rules(files.take(i), i as nat)
            &&& all.subrange(start, end) == file_rules(files[i])
            &&& all.subrange(end, all.len() as int) == all_rules(
                files.skip(i + 1),
                files.skip(i + 1).len(),
            )
        }),
{
    let all = all_rules(files, files.len());
    let (before, here, after) = (files.take(i), files[i], files.skip(i + 1));
    let (x, y, z) = (all_rules(before, i as nat), file_rules(here), all_rules(after, after.len()));
    assert(files =~= before.push(here) + after);
    law_rules_of_files_add_up(before.push(here), after, here);
    law_rules_of_files_add_up(before, after, here);
    assert(all == x + y + z);
    assert(all.subrange(0, x.len() as int) =~= x);
    assert(all.subrange(x.len() as int, (x.len() + y.len()) as int) =~= y);
    assert(all.subrange((x.len() + y.len()) as int, all.len() as int) =~= z);
}

/// What reading drops of the first line of a file is byte-order marks, all that lead it, and no
/// more.
pub proof fn law_only_leading_marks_are_dropped(s: Seq<char>)
    ensures
        ({
            let r = without_marks(s);
            &&& r.len() <= s.len()
            &&& r == s.skip(s.len() - r.len())
            &&& forall|i: int| 0 <= i < s.len() - r.len() ==> #[trigger] s[i] == '\u{feff}'
            &&& r.len() > 0 ==> r[0] != '\u{feff}'
        }),
    decreases s.len(),
{
    let r = without_marks(s);
    if s.len() > 0 && s[0] == '\u{feff}' {
        let t = s.skip(1);
        law_only_leading_marks_are_dropped(t);
        assert(r =~= s.skip(s.len() - r.len()));
        assert forall|i: int| 0 <= i < s.len() - r.len() implies #[trigger] s[i] == '\u{feff}' by {
            if i > 0 {
                assert(t[i - 1] == s[i]);
            }
        }
    } else {
        assert(s.skip(0) =~= s);
    }
}

/// Only white space at the end of a line is dropped, and all of it.
pub proof fn law_only_end_blanks_are_dropped(s: Seq<char>)
    ensures
        ({
            let r = without_end_blanks(s);
            &&& r.len() <= s.len()
            &&& r == s.take(r.len() as int)
            &&& forall|i: int| r.len() <= i < s.len() ==> is_blank(#[trigger] s[i])
            &&& r.len() > 0 ==> !is_blank(r[r.len() - 1])
        }),
    decreases s.len(),
{
    let r = without_end_blanks(s);
    if s.len() > 0 && is_blank(s.last()) {
        let t = s.drop_last();
        law_only_end_blanks_are_dropped(t);
        assert(r =~= s.take(r.len() as int));
        assert forall|i: int| r.len() <= i < s.len() implies is_blank(#[trigger] s[i]) by {
            if i < t.len() {
                assert(t[i] == s[i]);
            }
        }
    } else {
        assert(s.take(s.len() as int) =~= s);
    }
}

proof fn lemma_taken_of_first_lines(a: Seq<Seq<char>>, b: Seq<Seq<char>>, n: nat)
    requires
        n <= a.len(),
        n <= b.len(),
        forall|i: int| 0 <= i < n ==> a[i] == b[i],
    ensures
        taken_rules(a, n) == taken_rules(b, n),
    decreases n,
{
    if n > 0 {
        lemma_taken_of_first_lines(a, b, (n - 1) as nat);
    }
}

/// The rules of a file are those of its lines, line by line: a file whose lines are parted in two
/// has the rules of the first part and then those of the second, if no byte-order mark leads the
/// second.
pub proof fn law_rules_of_lines_add_up(a: Seq<Seq<char>>, b: Seq<Seq<char>>)
    requires
        b.len() > 0 && b[0].len() > 0 ==> b[0][0] != '\u{feff}',
    ensures
        taken_rules(a + b, (a + b).len()) == taken_rules(a, a.len()) + taken_rules(b, b.len()),
    decreases b.len(),
{
    if b.len() == 0 {
        assert(a + b =~= a);
        assert(taken_rules(a, a.len()) + taken_rules(b, 0) =~= taken_rules(a, a.len()));
    } else {
        let (rest, last) = (b.drop_last(), b.last());
        let whole = a + rest;
        law_rules_of_lines_add_up(a, rest);
        lemma_taken_of_first_lines(b, rest, rest.len());
        lemma_taken_of_first_lines(a + b, whole, whole.len());
        assert((a + b)[whole.len() as int] == last);
        assert(without_marks(b[0]) == b[0]);
        let (x, y) = (taken_rules(a, a.len()), taken_rules(rest, rest.len()));
        if let Some(text) = rule_text(last) {
            assert((x + y).push(text) =~= x + y.push(text));
        }
    }
}

/// A line that is no comment and not blank is a rule, up to the white space at its end; a comment
/// or a blank line is none.
pub proof fn law_a_line_is_a_rule(line: Seq<char>)
    requires
        line.len() == 0 || line[0] != '\u{feff}',
    ensures
        line.len() > 0 && line[0] != '#' && !is_blank(line[line.len() - 1]) ==> taken_rules(
            seq![line],
            1,
        ) == seq![line],
        line.len() > 0 && line[0] == '#' ==> taken_rules(seq![line], 1).len() == 0,
        line.len() == 0 ==> taken_rules(seq![line], 1).len() == 0,
        taken_rules(seq![line], 1).len() <= 1,
{
    reveal_with_fuel(taken_rules, 2);
    assert(without_marks(line) == line);
    if line.len() > 0 && line[0] != '#' && !is_blank(line[line.len() - 1]) {
        assert(rule_text(line) == Some(line));
        assert(taken_rules(seq![line], 1) =~= seq![line]);
    }
}

/// One more line adds the rule that it holds, if any, behind the others, and nothing else. The
/// first line of a file is read without leading byte-order marks.
pub proof fn law_each_line_adds_its_rule(lines: Seq<Seq<char>>, line: Seq<char>)
    ensures
        lines.len() > 0 ==> taken_rules(lines.push(line), lines.len() + 1) == taken_rules(
            lines,
            lines.len(),
        ) + match rule_text(line) {
            Some(text) => seq![text],
            None => Seq::empty(),
        },
        taken_rules(seq![line], 1) == match rule_text(without_marks(line)) {
            Some(text) => seq![text],
            None => Seq::empty(),
        },
        taken_rules(lines, 0) == Seq::<Seq<char>>::empty(),
{
    let (start, all) = (taken_rules(lines, lines.len()), taken_rules(lines.push(line), lines.len() + 1));
    lemma_taken_of_first_lines(lines.push(line), lines, lines.len());
    if lines.len() > 0 {
        if let Some(text) = rule_text(line) {
            assert(all =~= start + seq![text]);
        } else {
            assert(all =~= start + Seq::empty());
        }
    }
    reveal_with_fuel(taken_rules, 2);
    assert(taken_rules(seq![line], 1) =~= match rule_text(without_marks(line)) {
        Some(text) => seq![text],
        None => Seq::empty(),
    });
}

/// White space at the end of a line is no part of its rule, but for a blank behind a backslash,
/// which is kept where it ends the line.
pub proof fn law_end_blanks_are_no_part_of_a_rule(x: Seq<char>, blanks: Seq<char>)
    requires
        x.len() > 0,
        x[0] != '#',
        !is_blank(x[x.len() - 1]),
        forall|i: int| 0 <= i < blanks.len() ==> is_blank(#[trigger] blanks[i]),
    ensures
        rule_text(x + blanks) == if x[x.len() - 1] == '\\' && blanks.len() == 1 && blanks[0] == ' ' {
            Some(x + blanks)
        } else {
            Some(x)
        },
{
    let line = x + blanks;
    lemma_drops_blanks(x, blanks);
    if blanks.len() >= 2 {
        assert(line[line.len() - 2] == blanks[blanks.len() - 2]);
        assert(!is_blank('\\'));
    }
    assert(line[0] == x[0]);
    if blanks.len() == 0 {
        assert(line =~= x);
        assert(is_blank(' '));
    }
}

proof fn lemma_drops_blanks(x: Seq<char>, blanks: Seq<char>)
    requires
        x.len() > 0,
        !is_blank(x[x.len() - 1]),
        forall|i: int| 0 <= i < blanks.len() ==> is_blank(#[trigger] blanks[i]),
    ensures
        without_end_blanks(x + blanks) == x,
    decreases blanks.len(),
{
    let line = x + blanks;
    if blanks.len() == 0 {
        assert(line =~= x);
    } else {
        let rest = blanks.drop_last();
        assert(line.drop_last() =~= x + rest);
        assert forall|i: int| 0 <= i < rest.len() implies is_blank(#[trigger] rest[i]) by {
            assert(rest[i] == blanks[i]);
        }
        lemma_drops_blanks(x, rest);
        assert(line.last() == blanks[blanks.len() - 1]);
    }
}

/// Every rule of every line of every file is among the rules, whatever else the files hold.
pub proof fn law_no_rule_is_lost(files: Seq<IgnoreFile>, i: int, j: int, text: Seq<char>)
    requires
        0 <= i < files.len(),
        files[i] is Lines,
        0 <= j < files[i]->Lines_0@.len(),
        rule_text(
            if j == 0 {
                without_marks(files[i]->Lines_0@[j]@)
            } else {
                files[i]->Lines_0@[j]@
            },
        ) == Some(text),
    ensures
        all_rules(files, files.len()).contains(text),
{
    let lines = lines_view(files[i]->Lines_0@);
    let k = taken_rules(lines, j as nat).len() as int;
    assert(lines[j] == files[i]->Lines_0@[j]@);
    assert(taken_rules(lines, (j + 1) as nat)[k] == text);
    lemma_taken_is_kept(lines, (j + 1) as nat, lines.len(), k);
    let (all, own) = (all_rules(files, files.len()), file_rules(files[i]));
    assert(own[k] == text);
    law_every_file_has_its_place(files, i);
    let start = all_rules(files.take(i), i as nat).len() as int;
    assert(all.subrange(start, start + own.len())[k] == text);
    assert(all[start + k] == text);
}

/// A line that is no comment and ends in no white space is among the rules as it is, in whichever
/// file and at whichever place it stands.
pub proof fn law_no_plain_line_is_lost(files: Seq<IgnoreFile>, i: int, j: int)
    requires
        0 <= i < files.len(),
        files[i] is Lines,
        0 <= j < files[i]->Lines_0@.len(),
        ({
            let line = files[i]->Lines_0@[j]@;
            &&& line.len() > 0
            &&& line[0] != '\u{feff}'
            &&& line[0] != '#'
            &&& !is_blank(line[line.len() - 1])
        }),
    ensures
        all_rules(files, files.len()).contains(files[i]->Lines_0@[j]@),
{
    let line = files[i]->Lines_0@[j]@;
    assert(rule_text(line) == Some(line));
    assert(without_marks(line) == line);
    law_no_rule_is_lost(files, i, j, line);
}

/// A rule that was taken stays in its place.
proof fn lemma_taken_is_kept(lines: Seq<Seq<char>>, n: nat, m: nat, k: int)
    requires
        n <= m,
        0 <= k < taken_rules(lines, n).len(),
    ensures
        taken_rules(lines, n).len() <= taken_rules(lines, m).len(),
        taken_rules(lines, m)[k] == taken_rules(lines, n)[k],
    decreases m,
{
    if n < m {
        lemma_taken_is_kept(lines, n, (m - 1) as nat, k);
    }
}

/// The faults of a file are its refused lines, each with its number and the reason; a file is
/// clean exactly when it could be read and no line is refused. The first line is read without
/// leading byte-order marks.
pub proof fn law_faults_are_the_refused_lines(lines: Seq<Seq<char>>, n: nat)
    requires
        n <= lines.len(),
    ensures
        forall|k: int, m: Seq<char>|
            #![trigger line_faults(lines, n).contains((k, m))]
            line_faults(lines, n).contains((k, m)) <==> 1 <= k <= n && line_fault(
                if k == 1 {
                    without_marks(lines[0])
                } else {
                    lines[k - 1]
                },
            ) == Some(m),
        forall|i: int, j: int|
            #![trigger line_faults(lines, n)[i], line_faults(lines, n)[j]]
            0 <= i < j < line_faults(lines, n).len() ==> line_faults(lines, n)[i].0 < line_faults(
                lines,
                n,
            )[j].0,
    decreases n,
{
    if n > 0 {
        let m = (n - 1) as nat;
        law_faults_are_the_refused_lines(lines, m);
        let (rest, all) = (line_faults(lines, m), line_faults(lines, n));
        let line = if n == 1 {
            without_marks(lines[0])
        } else {
            lines[n - 1]
        };
        assert forall|i: int| 0 <= i < rest.len() implies (#[trigger] rest[i]).0 <= m by {
            assert(rest[i] == (rest[i].0, rest[i].1));
            assert(rest.contains((rest[i].0, rest[i].1)));
        }
        assert forall|k: int, q: Seq<char>| #![trigger all.contains((k, q))] all.contains((k, q))
            <==> rest.contains((k, q)) || k == n && line_fault(line) == Some(q) by {
            if let Some(message) = line_fault(line) {
                crate::listing::lemma_push_contains(rest, (n as int, message), (k, q));
            }
        }
    }
}

/// A file is clean exactly when it could be read and no line of it is refused.
pub proof fn law_clean_files_have_no_refused_line(file: IgnoreFile)
    ensures
        is_clean(file) <==> file is Lines && forall|k: int|
            0 <= k < file->Lines_0@.len() ==> line_fault(
                if k == 0 {
                    without_marks((#[trigger] file->Lines_0@[k])@)
                } else {
                    file->Lines_0@[k]@
                },
            ) is None,
{
    if let IgnoreFile::Lines(v) = file {
        let lines = lines_view(v@);
        let faults = line_faults(lines, lines.len());
        law_faults_are_the_refused_lines(lines, lines.len());
        if faults.len() > 0 {
            let (k, m) = faults[0];
            assert(faults.contains((k, m)));
            assert(lines[k - 1] == v@[k - 1]@);
        } else {
            assert forall|k: int| 0 <= k < v@.len() implies line_fault(
                if k == 0 {
                    without_marks((#[trigger] v@[k])@)
                } else {
                    v@[k]@
                },
            ) is None by {
                let line = if k == 0 {
                    without_marks(lines[0])
                } else {
                    lines[k]
                };
                if let Some(m) = line_fault(line) {
                    assert(faults.contains((k + 1, m)));
                }
            }
        }
    }
}

/// More files are clean only if fewer are, and one more file is clean if it is clean itself.
pub proof fn law_clean_files_are_clean_one_by_one(files: Seq<IgnoreFile>, n: int)
    requires
        0 <= n < files.len(),
    ensures
        clean_before(files, n + 1) <==> clean_before(files, n) && is_clean(files[n]),
        clean_before(files, 0),
{
}

} // verus!

//! The change analyzer's precedent findings for added test-module
//! declarations.
use vstd::prelude::*;

use crate::changed_lines::ChangedLines;
use crate::finding::{AnalysisReport, Claim, ClaimKind, ClaimSpec, Evidence, Finding, FindingSpec, Location, ReportSpec};
use crate::precedent::{
    count_excluding, counts_summary, dominant_index, local_name_set, module_name_counts_excluding,
    occurrences_view, precedent_tension, same_file_names, sorted_names, strs_view, top_counts_summary,
    NameCounts, OccurrenceSpec, TestModuleOccurrence, TestModuleReport,
};
use crate::text::{chars_eq, chars_of, extend_str, push_decimal, slice_chars, starts_with, string_of};

verus! {

/// `Path::strip_prefix` for normalized `/`-separated paths: `path` relative
/// to `root`, when `root` is a component prefix of `path`.
pub open spec fn relative_to(root: Seq<char>, path: Seq<char>) -> Option<Seq<char>> {
    if path == root {
        Some(Seq::empty())
    } else if root.len() > 0 && root.last() == '/' && root.is_prefix_of(path) {
        Some(path.skip(root.len() as int))
    } else if root.push('/').is_prefix_of(path) {
        Some(path.skip(root.len() + 1int))
    } else {
        None
    }
}

/// `path` relative to `root`, or `path` itself outside `root`.
pub open spec fn relative_or_self(root: Seq<char>, path: Seq<char>) -> Seq<char> {
    match relative_to(root, path) {
        Some(r) => r,
        None => path,
    }
}

pub fn strip_root(root: &str, path: &str) -> (r: Option<String>)
    ensures
        match r {
            Some(s) => relative_to(root@, path@) == Some(s@),
            None => relative_to(root@, path@) is None,
        },
{
    let rc = chars_of(root);
    let pc = chars_of(path);
    if chars_eq(pc.as_slice(), rc.as_slice()) {
        return Some(String::new());
    }
    if rc.len() > 0 && rc[rc.len() - 1] == '/' && starts_with(pc.as_slice(), rc.as_slice()) {
        let rest = slice_chars(pc.as_slice(), rc.len(), pc.len());
        assert(rest@ == pc@.skip(rc@.len() as int));
        return Some(string_of(rest.as_slice()));
    }
    let mut rs = slice_chars(rc.as_slice(), 0, rc.len());
    assert(rc@.subrange(0, rc@.len() as int) == rc@);
    rs.push('/');
    if starts_with(pc.as_slice(), rs.as_slice()) {
        let rest = slice_chars(pc.as_slice(), rs.len(), pc.len());
        assert(rest@ == pc@.skip(rc@.len() + 1int));
        return Some(string_of(rest.as_slice()));
    }
    None
}

/// `path` relative to `root`, or `path` itself outside `root`.
pub fn relative_path(root: &str, path: &str) -> (r: String)
    ensures
        r@ == relative_or_self(root@, path@),
{
    match strip_root(root, path) {
        Some(s) => s,
        None => crate::text::owned(path),
    }
}

/// The declaration line of the occurrence was added by the change.
pub open spec fn declaration_added(root: Seq<char>, changed: ChangedLines, o: OccurrenceSpec) -> bool {
    match relative_to(root, o.path) {
        Some(rel) => changed.has_line(rel, o.line as int),
        None => false,
    }
}

/// The occurrences whose declaration line was added by the change, in report order.
pub fn changed_test_modules<'a>(
    root: &str,
    report: &'a TestModuleReport,
    changed: &ChangedLines,
) -> (r: Vec<&'a TestModuleOccurrence>)
    requires
        changed.wf(),
    ensures
        r@.map_values(|o: &TestModuleOccurrence| o@) == occurrences_view(report.occurrences@).filter(
            |o: OccurrenceSpec| declaration_added(root@, *changed, o),
        ),
{
    let ghost os = occurrences_view(report.occurrences@);
    let ghost pred = |o: OccurrenceSpec| declaration_added(root@, *changed, o);
    let mut out: Vec<&TestModuleOccurrence> = Vec::new();
    let mut i: usize = 0;
    while i < report.occurrences.len()
        invariant
            i <= report.occurrences@.len(),
            changed.wf(),
            os == occurrences_view(report.occurrences@),
            pred == (|o: OccurrenceSpec| declaration_added(root@, *changed, o)),
            out@.map_values(|o: &TestModuleOccurrence| o@) == os.take(i as int).filter(pred),
        decreases report.occurrences.len() - i,
    {
        let occ = &report.occurrences[i];
        let keep = match strip_root(root, occ.path.as_str()) {
            Some(rel) => changed.contains(rel.as_str(), occ.line),
            None => false,
        };
        assert(keep == pred(occ@));
        proof {
            reveal_with_fuel(Seq::filter, 1);
            assert(os.take(i + 1).drop_last() == os.take(i as int));
            assert(os.take(i + 1).last() == occ@);
        }
        if keep {
            out.push(occ);
        }
        i = i + 1;
        assert(out@.map_values(|o: &TestModuleOccurrence| o@) =~= os.take(i as int).filter(pred));
    }
    assert(os.take(i as int) == os);
    out
}

pub open spec fn appearance_message(name: Seq<char>, count: nat, total: nat) -> Seq<char> {
    "`"@ + name + "` appears "@ + crate::text::decimal(count) + " time(s) across "@
        + crate::text::decimal(total) + " existing test-gated modules, excluding the changed declaration."@
}

pub open spec fn governance_unknown() -> Seq<char> {
    "Repository evidence alone does not establish which naming scope should govern this change."@
}

pub open spec fn naming_question() -> Seq<char> {
    "Is the distinct module name intentional, or should it follow nearby precedent?"@
}

pub open spec fn precedent_matches() -> Seq<char> {
    "The changed test-module names match existing repository precedent."@
}

/// The facts every precedent finding states about its occurrence.
pub open spec fn precedent_finding_shape(
    root: Seq<char>,
    os: Seq<OccurrenceSpec>,
    o: OccurrenceSpec,
    f: FindingSpec,
) -> bool {
    &&& f.kind == "test-module-precedent"@ || f.kind == "test-module-precedent-tension"@
    &&& f.location == Some(
        crate::finding::LocationSpec { path: relative_or_self(root, o.path), line: Some(o.line) },
    )
    &&& f.claims.len() >= 3
    &&& f.claims[0].kind == ClaimKind::Observed
    &&& f.claims[0].message == appearance_message(
        o.name,
        count_excluding(os, o, o.name),
        if os.len() > 0 {
            (os.len() - 1) as nat
        } else {
            0
        },
    )
    &&& f.claims.last().kind == ClaimKind::Unknown
    &&& f.claims.last().message == governance_unknown()
    &&& f.question == Some(naming_question())
}

/// `f` is the precedent finding of some occurrence whose declaration the change added.
pub open spec fn finding_for_added_declaration(
    root: Seq<char>,
    changed: ChangedLines,
    os: Seq<OccurrenceSpec>,
    f: FindingSpec,
) -> bool {
    exists|o: OccurrenceSpec|
        #![trigger os.contains(o)]
        os.contains(o) && declaration_added(root, changed, o) && precedent_finding_shape(root, os, o, f)
}

/// The names other than `skip`, in order.
pub open spec fn others(names: Seq<Seq<char>>, skip: Seq<char>) -> Seq<Seq<char>> {
    names.filter(|n: Seq<char>| n != skip)
}

/// The names, each in backticks, separated by `, `.
pub open spec fn backticked(names: Seq<Seq<char>>) -> Seq<char>
    decreases names.len(),
{
    if names.len() == 0 {
        Seq::empty()
    } else if names.len() == 1 {
        "`"@ + names[0] + "`"@
    } else {
        backticked(names.drop_last()) + ", `"@ + names.last() + "`"@
    }
}

proof fn lemma_others_push(names: Seq<Seq<char>>, i: int, skip: Seq<char>)
    requires
        0 <= i < names.len(),
    ensures
        others(names.take(i + 1), skip) == if names[i] != skip {
            others(names.take(i), skip).push(names[i])
        } else {
            others(names.take(i), skip)
        },
{
    reveal_with_fuel(Seq::filter, 1);
    assert(names.take(i + 1).drop_last() =~= names.take(i));
}

fn backticked_list(names: &Vec<String>, skip: &str) -> (r: Vec<char>)
    ensures
        r@ == backticked(others(crate::precedent::strs_view(names@), skip@)),
{
    let ghost nv = crate::precedent::strs_view(names@);
    let sc = chars_of(skip);
    let mut out: Vec<char> = Vec::new();
    let mut first = true;
    let mut i: usize = 0;
    proof {
        reveal_with_fuel(Seq::filter, 1);
        assert(nv.take(0) =~= Seq::<Seq<char>>::empty());
    }
    while i < names.len()
        invariant
            i <= names@.len(),
            nv == crate::precedent::strs_view(names@),
            sc@ == skip@,
            out@ == backticked(others(nv.take(i as int), skip@)),
            first <==> others(nv.take(i as int), skip@).len() == 0,
        decreases names.len() - i,
    {
        let nc = chars_of(names[i].as_str());
        proof {
            lemma_others_push(nv, i as int, skip@);
        }
        assert(nv[i as int] == names@[i as int]@);
        if !chars_eq(nc.as_slice(), sc.as_slice()) {
            let ghost prev = others(nv.take(i as int), skip@);
            if !first {
                extend_str(&mut out, ", ");
            }
            extend_str(&mut out, "`");
            extend_str(&mut out, names[i].as_str());
            extend_str(&mut out, "`");
            first = false;
            proof {
                let now = prev.push(nv[i as int]);
                assert(now.drop_last() =~= prev);
                if prev.len() == 0 {
                    assert(out@ =~= backticked(now));
                } else {
                    reveal_strlit(", `");
                    reveal_strlit(", ");
                    reveal_strlit("`");
                    assert(now.len() > 1 && now.last() == nv[i as int]);
                    assert(out@ =~= backticked(now));
                }
            }
        }
        i = i + 1;
    }
    assert(nv.take(i as int) =~= nv);
    out
}

fn count_others(names: &Vec<String>, skip: &str) -> (n: usize)
    ensures
        n == others(crate::precedent::strs_view(names@), skip@).len(),
{
    let ghost nv = crate::precedent::strs_view(names@);
    let sc = chars_of(skip);
    let mut n: usize = 0;
    let mut i: usize = 0;
    proof {
        reveal_with_fuel(Seq::filter, 1);
        assert(nv.take(0) =~= Seq::<Seq<char>>::empty());
    }
    while i < names.len()
        invariant
            i <= names@.len(),
            nv == crate::precedent::strs_view(names@),
            sc@ == skip@,
            n == others(nv.take(i as int), skip@).len(),
            n <= i,
        decreases names.len() - i,
    {
        let nc = chars_of(names[i].as_str());
        proof {
            lemma_others_push(nv, i as int, skip@);
        }
        assert(nv[i as int] == names@[i as int]@);
        if !chars_eq(nc.as_slice(), sc.as_slice()) {
            n = n + 1;
        }
        i = i + 1;
    }
    assert(nv.take(i as int) =~= nv);
    n
}

/// The name with the strictly highest count, when there is one.
pub open spec fn dominant_name(c: NameCounts) -> Option<Seq<char>> {
    if exists|i: int| dominant_index(c, i) {
        Some(c.entries@[choose|i: int| dominant_index(c, i)].name@)
    } else {
        None
    }
}

proof fn lemma_dominant_unique(c: NameCounts, i: int, j: int)
    requires
        dominant_index(c, i),
        dominant_index(c, j),
    ensures
        i == j,
{
    if i != j {
        assert(c.entries@[j].count < c.entries@[i].count);
        assert(c.entries@[i].count < c.entries@[j].count);
    }
}

/// Repository-wide and file-local precedent disagree: the dominant name of
/// the repository and the single other name of the file, when they differ.
pub open spec fn tension_of(c: NameCounts, locals: Seq<Seq<char>>) -> Option<(Seq<char>, Seq<char>)> {
    match dominant_name(c) {
        Some(repo) => if locals.len() == 1 && repo != locals[0] {
            Some((repo, locals[0]))
        } else {
            None
        },
        None => None,
    }
}

pub open spec fn adds_message(name: Seq<char>) -> Seq<char> {
    "This change adds `mod "@ + name + "` behind a test cfg."@
}

pub open spec fn tension_message(repo: Seq<char>, file: Seq<char>) -> Seq<char> {
    "Repository-wide precedent favors `"@ + repo + "`, while existing file-local precedent favors `"@ + file
        + "`."@
}

/// The closing observation of a precedent finding.
pub open spec fn precedent_observation(
    name: Seq<char>,
    tension: Option<(Seq<char>, Seq<char>)>,
    different: nat,
    one_off: bool,
) -> Seq<char> {
    match tension {
        Some((repo, file)) => "Repository-wide and file-local precedent disagree. "@ + if name == repo {
            "The change follows repository-wide precedent and differs from file-local precedent."@
        } else if name == file {
            "The change follows file-local precedent and differs from repository-wide precedent."@
        } else {
            "The change follows neither of the two conflicting precedent scopes."@
        },
        None => if different > 0 && one_off {
            "The new name differs from this file's existing precedent and does not appear elsewhere in the repository."@
        } else if different > 0 {
            "The new name differs from this file's existing test-module precedent."@
        } else {
            "The new name does not appear among the repository's existing test-gated modules."@
        },
    }
}

pub open spec fn observed(message: Seq<char>) -> ClaimSpec {
    ClaimSpec { kind: ClaimKind::Observed, message, evidence: Seq::empty() }
}

/// The precedent finding of the occurrence `o` among `os`, given the other
/// names of its file in name order (`locals`) and the repository's counts
/// without it (`c`): none when the name is neither new to the file nor new
/// to the repository.
pub open spec fn precedent_finding_of(
    root: Seq<char>,
    os: Seq<OccurrenceSpec>,
    o: OccurrenceSpec,
    locals: Seq<Seq<char>>,
    c: NameCounts,
) -> Option<FindingSpec> {
    let different = others(locals, o.name).len();
    let count = c.count_of(o.name);
    let total: nat = if os.len() > 0 {
        (os.len() - 1) as nat
    } else {
        0
    };
    let one_off = count == 0 && total > 0;
    if different == 0 && !one_off {
        None
    } else {
        let loc = crate::finding::LocationSpec { path: relative_or_self(root, o.path), line: Some(o.line) };
        let first = ClaimSpec {
            kind: ClaimKind::Observed,
            message: appearance_message(o.name, count, total),
            evidence: seq![
                crate::finding::EvidenceSpec { message: adds_message(o.name), location: Some(loc) },
                crate::finding::EvidenceSpec {
                    message: "Repository precedent counts: "@ + counts_summary(c.entries@) + "."@,
                    location: None,
                },
            ],
        };
        let uses: Seq<ClaimSpec> = if different > 0 {
            seq![observed("The same file already uses: "@ + backticked(others(locals, o.name)) + "."@)]
        } else {
            Seq::empty()
        };
        let t = tension_of(c, locals);
        let disagreement: Seq<ClaimSpec> = match t {
            Some((repo, file)) => seq![observed(tension_message(repo, file))],
            None => Seq::empty(),
        };
        Some(
            FindingSpec {
                kind: if t is Some {
                    "test-module-precedent-tension"@
                } else {
                    "test-module-precedent"@
                },
                title: if t is Some {
                    "Test-module precedent tension"@
                } else {
                    "Test-module precedent"@
                },
                location: Some(loc),
                claims: seq![first] + uses + disagreement + seq![
                    observed(precedent_observation(o.name, t, different, one_off)),
                    ClaimSpec { kind: ClaimKind::Unknown, message: governance_unknown(), evidence: Seq::empty() },
                ],
                question: Some(naming_question()),
            },
        )
    }
}

/// `locals` is the other names of `o`'s file, in name order.
pub open spec fn file_names_of(os: Seq<OccurrenceSpec>, o: OccurrenceSpec, locals: Seq<Seq<char>>) -> bool {
    sorted_names(locals) && locals.to_set() == local_name_set(os, o)
}

/// `c` counts every name of `os` apart from `o`.
pub open spec fn counts_without(os: Seq<OccurrenceSpec>, o: OccurrenceSpec, c: NameCounts) -> bool {
    c.wf() && forall|n: Seq<char>| #[trigger] c.count_of(n) == count_excluding(os, o, n)
}

/// The precedent finding of `o` among `os`, if any.
pub open spec fn precedent_finding_spec(root: Seq<char>, os: Seq<OccurrenceSpec>, o: OccurrenceSpec) -> Option<
    FindingSpec,
> {
    precedent_finding_of(
        root,
        os,
        o,
        choose|l: Seq<Seq<char>>| file_names_of(os, o, l),
        choose|c: NameCounts| counts_without(os, o, c),
    )
}

proof fn lemma_same_counts_of(c1: NameCounts, c2: NameCounts)
    requires
        c1.wf(),
        c2.wf(),
        forall|n: Seq<char>| #[trigger] c1.count_of(n) == c2.count_of(n),
    ensures
        crate::precedent::same_counts(c1.entries@, c2.entries@),
{
    assert forall|n: Seq<char>| #[trigger] crate::precedent::seq_count(c1.entries@, n) == crate::precedent::seq_count(
        c2.entries@,
        n,
    ) by {
        assert(c1.count_of(n) == c2.count_of(n));
    }
}

proof fn lemma_dominant_transfer(c1: NameCounts, c2: NameCounts, i: int)
    requires
        c1.wf(),
        c2.wf(),
        forall|n: Seq<char>| #[trigger] c1.count_of(n) == c2.count_of(n),
        dominant_index(c1, i),
    ensures
        exists|j: int| dominant_index(c2, j) && c2.entries@[j].name@ == c1.entries@[i].name@,
{
    lemma_same_counts_of(c1, c2);
    let a = c1.entries@;
    let b = c2.entries@;
    let n = a[i].name@;
    crate::precedent::lemma_seq_count_at_pub(a, i);
    assert(crate::precedent::seq_count(b, n) > 0);
    let j = choose|j: int| 0 <= j < b.len() && (#[trigger] b[j]).name@ == n;
    crate::precedent::lemma_seq_count_at_pub(b, j);
    assert forall|k: int| 0 <= k < b.len() && k != j implies (#[trigger] b[k]).count < b[j].count by {
        let m = b[k].name@;
        assert(m != n) by {
            if k < j {
                assert(b[k].name@ != b[j].name@);
            } else {
                assert(b[j].name@ != b[k].name@);
            }
        }
        crate::precedent::lemma_seq_count_at_pub(b, k);
        assert(crate::precedent::seq_count(a, m) > 0);
        let ka = choose|x: int| 0 <= x < a.len() && (#[trigger] a[x]).name@ == m;
        crate::precedent::lemma_seq_count_at_pub(a, ka);
        assert(a[ka].count < a[i].count);
    }
    assert(dominant_index(c2, j));
}

proof fn lemma_dominant_name_same(c1: NameCounts, c2: NameCounts)
    requires
        c1.wf(),
        c2.wf(),
        forall|n: Seq<char>| #[trigger] c1.count_of(n) == c2.count_of(n),
    ensures
        dominant_name(c1) == dominant_name(c2),
{
    if exists|i: int| dominant_index(c1, i) {
        let i = choose|i: int| dominant_index(c1, i);
        lemma_dominant_transfer(c1, c2, i);
        let j = choose|j: int| dominant_index(c2, j) && c2.entries@[j].name@ == c1.entries@[i].name@;
        let j2 = choose|j: int| dominant_index(c2, j);
        lemma_dominant_unique(c2, j, j2);
    } else if exists|j: int| dominant_index(c2, j) {
        let j = choose|j: int| dominant_index(c2, j);
        lemma_dominant_transfer(c2, c1, j);
    }
}

/// The precedent finding does not depend on which order the file's names or
/// the repository's counts are listed in.
proof fn lemma_precedent_witness_free(
    root: Seq<char>,
    os: Seq<OccurrenceSpec>,
    o: OccurrenceSpec,
    l1: Seq<Seq<char>>,
    c1: NameCounts,
    l2: Seq<Seq<char>>,
    c2: NameCounts,
)
    requires
        file_names_of(os, o, l1),
        file_names_of(os, o, l2),
        counts_without(os, o, c1),
        counts_without(os, o, c2),
    ensures
        precedent_finding_of(root, os, o, l1, c1) == precedent_finding_of(root, os, o, l2, c2),
{
    crate::precedent::lemma_sorted_names_unique(l1, l2);
    assert forall|n: Seq<char>| #[trigger] c1.count_of(n) == c2.count_of(n) by {
        assert(c1.count_of(n) == count_excluding(os, o, n));
        assert(c2.count_of(n) == count_excluding(os, o, n));
    }
    lemma_same_counts_of(c1, c2);
    crate::precedent::lemma_counts_summary_same(c1.entries@, c2.entries@);
    lemma_dominant_name_same(c1, c2);
}

pub open spec fn opt_finding(r: Option<Finding>) -> Option<FindingSpec> {
    match r {
        Some(f) => Some(f@),
        None => None,
    }
}

/// The precedent finding for one changed declaration, when its name departs
/// from the file's other names or appears nowhere else in the repository.
pub fn precedent_finding(root: &str, report: &TestModuleReport, occurrence: &TestModuleOccurrence) -> (r:
    Option<Finding>)
    ensures
        r matches Some(f) ==> precedent_finding_shape(
            root@,
            occurrences_view(report.occurrences@),
            occurrence@,
            f@,
        ),
        opt_finding(r) == precedent_finding_spec(root@, occurrences_view(report.occurrences@), occurrence@),
{
    let local_names = same_file_names(report, occurrence);
    let different = count_others(&local_names, occurrence.name.as_str());
    let counts = module_name_counts_excluding(report, occurrence);
    let repository_count = match counts.get(occurrence.name.as_str()) {
        Some(c) => c,
        None => 0,
    };
    let precedent_total = if report.occurrences.len() > 0 {
        report.occurrences.len() - 1
    } else {
        0
    };
    let one_off = repository_count == 0 && precedent_total > 0;
    proof {
        crate::precedent::lemma_sorted_no_duplicates(strs_view(local_names@));
    }
    let tension = precedent_tension(&counts, &local_names);
    let ghost os = occurrences_view(report.occurrences@);
    let ghost lv = strs_view(local_names@);
    let ghost expected = precedent_finding_of(root@, os, occurrence@, lv, counts);
    proof {
        assert(file_names_of(os, occurrence@, lv));
        assert(counts_without(os, occurrence@, counts));
        lemma_precedent_witness_free(
            root@,
            os,
            occurrence@,
            lv,
            counts,
            choose|l: Seq<Seq<char>>| file_names_of(os, occurrence@, l),
            choose|c: NameCounts| counts_without(os, occurrence@, c),
        );
        assert(repository_count == counts.count_of(occurrence.name@));
        match &tension {
            Some((repo, file)) => {
                let i = choose|i: int| dominant_index(counts, i) && counts.entries@[i].name@ == repo@;
                let j = choose|j: int| dominant_index(counts, j);
                lemma_dominant_unique(counts, i, j);
                assert(lv[0] == local_names@[0]@);
                assert(tension_of(counts, lv) == Some((repo@, file@)));
            },
            None => {
                if exists|i: int| dominant_index(counts, i) {
                    let j = choose|j: int| dominant_index(counts, j);
                    if local_names@.len() == 1 && exists|i: int|
                        dominant_index(counts, i) && counts.entries@[i].name@ == local_names@[0]@ {
                        let i = choose|i: int|
                            dominant_index(counts, i) && counts.entries@[i].name@ == local_names@[0]@;
                        lemma_dominant_unique(counts, i, j);
                    }
                    assert(lv.len() == local_names@.len());
                }
                assert(tension_of(counts, lv) is None);
            },
        }
    }
    if different == 0 && !one_off {
        assert(opt_finding(None) == expected);
        return None;
    }
    let ghost ef = expected->Some_0;
    let ghost tspec = tension_of(counts, lv);
    let rel = relative_path(root, occurrence.path.as_str());
    let location = Location::new(rel.as_str(), Some(occurrence.line));

    let mut appears = chars_of("`");
    extend_str(&mut appears, occurrence.name.as_str());
    extend_str(&mut appears, "` appears ");
    push_decimal(&mut appears, repository_count);
    extend_str(&mut appears, " time(s) across ");
    push_decimal(&mut appears, precedent_total);
    extend_str(&mut appears, " existing test-gated modules, excluding the changed declaration.");
    let appears_s = string_of(appears.as_slice());

    let mut adds = chars_of("This change adds `mod ");
    extend_str(&mut adds, occurrence.name.as_str());
    extend_str(&mut adds, "` behind a test cfg.");
    let adds_s = string_of(adds.as_slice());

    let mut counts_text = chars_of("Repository precedent counts: ");
    let summary = top_counts_summary(&counts);
    extend_str(&mut counts_text, summary.as_str());
    extend_str(&mut counts_text, ".");
    let counts_s = string_of(counts_text.as_slice());

    let first = Claim::new(ClaimKind::Observed, appears_s.as_str()).with_evidence(
        Evidence::at(adds_s.as_str(), location.clone_location()),
    ).with_evidence(Evidence::new(counts_s.as_str()));
    let mut finding = Finding::new("test-module-precedent", "Test-module precedent").at(
        location,
    ).with_claim(first);
    assert(appears_s@ =~= appearance_message(
        occurrence.name@,
        counts.count_of(occurrence.name@),
        if os.len() > 0 {
            (os.len() - 1) as nat
        } else {
            0
        },
    ));
    assert(adds_s@ =~= adds_message(occurrence.name@));
    assert(counts_s@ =~= "Repository precedent counts: "@ + counts_summary(counts.entries@) + "."@);
    assert(first@.evidence =~= ef.claims[0].evidence);
    assert(first@ == ef.claims[0]);
    let ghost uses_spec: Seq<ClaimSpec> = if different > 0 {
        seq![observed("The same file already uses: "@ + backticked(others(lv, occurrence.name@)) + "."@)]
    } else {
        Seq::empty()
    };
    assert(finding@.claims =~= seq![ef.claims[0]]);

    if different > 0 {
        let mut uses = chars_of("The same file already uses: ");
        let list = backticked_list(&local_names, occurrence.name.as_str());
        crate::text::extend_chars(&mut uses, list.as_slice());
        extend_str(&mut uses, ".");
        let uses_s = string_of(uses.as_slice());
        finding = finding.with_claim(Claim::new(ClaimKind::Observed, uses_s.as_str()));
    }
    assert(finding@.claims =~= seq![ef.claims[0]] + uses_spec);
    let ghost disagreement: Seq<ClaimSpec> = match tspec {
        Some((repo, file)) => seq![observed(tension_message(repo, file))],
        None => Seq::empty(),
    };

    let observation: String = match &tension {
        Some((repository_name, file_name)) => {
            finding.kind = crate::text::owned("test-module-precedent-tension");
            finding.title = crate::text::owned("Test-module precedent tension");
            let mut t = chars_of("Repository-wide precedent favors `");
            extend_str(&mut t, repository_name.as_str());
            extend_str(&mut t, "`, while existing file-local precedent favors `");
            extend_str(&mut t, file_name.as_str());
            extend_str(&mut t, "`.");
            let t_s = string_of(t.as_slice());
            finding = finding.with_claim(Claim::new(ClaimKind::Observed, t_s.as_str()));
            let oc = chars_of(occurrence.name.as_str());
            let rn = chars_of(repository_name.as_str());
            let fname = chars_of(file_name.as_str());
            let alignment = if chars_eq(oc.as_slice(), rn.as_slice()) {
                "The change follows repository-wide precedent and differs from file-local precedent."
            } else if chars_eq(oc.as_slice(), fname.as_slice()) {
                "The change follows file-local precedent and differs from repository-wide precedent."
            } else {
                "The change follows neither of the two conflicting precedent scopes."
            };
            let mut m = chars_of("Repository-wide and file-local precedent disagree. ");
            extend_str(&mut m, alignment);
            assert(finding@.claims =~= seq![ef.claims[0]] + uses_spec + disagreement);
            string_of(m.as_slice())
        },
        None => {
            if different > 0 && one_off {
                crate::text::owned(
                    "The new name differs from this file's existing precedent and does not appear elsewhere in the repository.",
                )
            } else if different > 0 {
                crate::text::owned("The new name differs from this file's existing test-module precedent.")
            } else {
                crate::text::owned(
                    "The new name does not appear among the repository's existing test-gated modules.",
                )
            }
        },
    };

    assert(observation@ == precedent_observation(occurrence.name@, tspec, different as nat, one_off));
    assert(finding@.claims =~= seq![ef.claims[0]] + uses_spec + disagreement);
    assert(finding@.kind == ef.kind && finding@.title == ef.title && finding@.location == ef.location);
    let finding = finding.with_claim(Claim::new(ClaimKind::Observed, observation.as_str())).with_claim(
        Claim::new(
            ClaimKind::Unknown,
            "Repository evidence alone does not establish which naming scope should govern this change.",
        ),
    ).with_question("Is the distinct module name intentional, or should it follow nearby precedent?");
    assert(finding@.claims =~= ef.claims);
    assert(opt_finding(Some(finding)) == expected);
    Some(finding)
}

impl Location {
    fn clone_location(&self) -> (l: Location)
        ensures
            l@ == self@,
    {
        Location { path: self.path.clone(), line: self.line }
    }
}

/// The precedent findings of the declarations `added`, in order, skipping
/// those that have none.
pub open spec fn findings_of(root: Seq<char>, os: Seq<OccurrenceSpec>, added: Seq<OccurrenceSpec>) -> Seq<
    FindingSpec,
>
    decreases added.len(),
{
    if added.len() == 0 {
        Seq::empty()
    } else {
        let prev = findings_of(root, os, added.drop_last());
        match precedent_finding_spec(root, os, added.last()) {
            Some(f) => prev.push(f),
            None => prev,
        }
    }
}

/// The precedent findings of the declarations the change added, in report
/// order.
pub open spec fn added_findings(root: Seq<char>, changed: ChangedLines, os: Seq<OccurrenceSpec>) -> Seq<
    FindingSpec,
> {
    findings_of(root, os, os.filter(|o: OccurrenceSpec| declaration_added(root, changed, o)))
}

/// Adds one precedent finding per changed test-module declaration that
/// departs from nearby or repository precedent; when the report has no
/// finding at all afterwards, records that the names match precedent.
pub fn add_diff_findings(
    root: &str,
    report: &TestModuleReport,
    changed: &ChangedLines,
    analysis: &mut AnalysisReport,
)
    requires
        changed.wf(),
    ensures
        final(analysis)@.findings == old(analysis)@.findings + added_findings(
            root@,
            *changed,
            occurrences_view(report.occurrences@),
        ),
        final(analysis)@.findings.len() >= old(analysis)@.findings.len(),
        final(analysis)@.findings.subrange(0, old(analysis)@.findings.len() as int)
            == old(analysis)@.findings,
        forall|k: int|
            old(analysis)@.findings.len() <= k < final(analysis)@.findings.len()
                ==> finding_for_added_declaration(
                root@,
                *changed,
                occurrences_view(report.occurrences@),
                #[trigger] final(analysis)@.findings[k],
            ),
        final(analysis)@.claims == if final(analysis)@.findings.len() == 0 {
            old(analysis)@.claims.push(
                ClaimSpec { kind: ClaimKind::Observed, message: precedent_matches(), evidence: Seq::empty() },
            )
        } else {
            old(analysis)@.claims
        },
        final(analysis)@.schema_version == old(analysis)@.schema_version,
        final(analysis)@.analysis == old(analysis)@.analysis,
        final(analysis)@.repository == old(analysis)@.repository,
{
    let changed_modules = changed_test_modules(root, report, changed);
    let ghost os = occurrences_view(report.occurrences@);
    let ghost start = analysis@;
    let mut i: usize = 0;
    while i < changed_modules.len()
        invariant
            i <= changed_modules@.len(),
            changed_modules@.map_values(|o: &TestModuleOccurrence| o@) == os.filter(
                |o: OccurrenceSpec| declaration_added(root@, *changed, o),
            ),
            os == occurrences_view(report.occurrences@),
            analysis@.findings == start.findings + findings_of(
                root@,
                os,
                os.filter(|o: OccurrenceSpec| declaration_added(root@, *changed, o)).take(i as int),
            ),
            analysis@.findings.len() >= start.findings.len(),
            analysis@.findings.subrange(0, start.findings.len() as int) == start.findings,
            forall|k: int|
                start.findings.len() <= k < analysis@.findings.len() ==> finding_for_added_declaration(
                    root@,
                    *changed,
                    os,
                    #[trigger] analysis@.findings[k],
                ),
            analysis@.claims == start.claims,
            analysis@.schema_version == start.schema_version,
            analysis@.analysis == start.analysis,
            analysis@.repository == start.repository,
        decreases changed_modules.len() - i,
    {
        let occurrence = changed_modules[i];
        proof {
            let pred = |o: OccurrenceSpec| declaration_added(root@, *changed, o);
            let filtered = os.filter(pred);
            assert(filtered[i as int] == occurrence@);
            os.lemma_filter_contains_rev(pred, occurrence@);
            assert(filtered.contains(occurrence@));
            assert(os.contains(occurrence@));
            assert(pred(occurrence@));
            assert(filtered.take(i + 1).drop_last() =~= filtered.take(i as int));
            assert(filtered.take(i + 1).last() == occurrence@);
        }
        let ghost before_all = analysis@.findings;
        let result = precedent_finding(root, report, occurrence);
        proof {
            let filtered = os.filter(|o: OccurrenceSpec| declaration_added(root@, *changed, o));
            match &result {
                Some(f) => {
                    assert(start.findings + findings_of(root@, os, filtered.take(i + 1)) =~= before_all.push(f@));
                },
                None => {
                    assert(start.findings + findings_of(root@, os, filtered.take(i + 1)) =~= before_all);
                },
            }
        }
        match result {
            Some(f) => {
                let ghost before = analysis@.findings;
                analysis.findings.push(f);
                proof {
                    assert(analysis@.findings == before.push(f@));
                    assert forall|k: int|
                        start.findings.len() <= k < analysis@.findings.len()
                        implies finding_for_added_declaration(
                        root@,
                        *changed,
                        os,
                        #[trigger] analysis@.findings[k],
                    ) by {
                        if k < before.len() {
                            assert(analysis@.findings[k] == before[k]);
                        } else {
                            assert(analysis@.findings[k] == f@);
                            assert(os.contains(occurrence@));
                        }
                    }
                    assert(analysis@.findings.subrange(0, start.findings.len() as int) =~= start.findings);
                }
            },
            None => {},
        }
        i = i + 1;
    }
    proof {
        let filtered = os.filter(|o: OccurrenceSpec| declaration_added(root@, *changed, o));
        assert(filtered.take(i as int) =~= filtered);
    }
    let ghost mid = analysis@;
    if analysis.findings.len() == 0 {
        analysis.claims.push(
            Claim::new(
                ClaimKind::Observed,
                "The changed test-module names match existing repository precedent.",
            ),
        );
    }
    assert(analysis@.findings == mid.findings);
}

/// What the diff's scope claim says: how many Rust files gained lines, and
/// against what.
pub open spec fn diff_scope_message(base: Option<Seq<char>>, rust_files: nat) -> Seq<char> {
    match base {
        Some(b) => "The diff contains added lines in "@ + crate::text::decimal(rust_files)
            + " Rust file(s), measured from the merge base with `"@ + b + "`."@,
        None => "The working-tree diff contains added lines in "@ + crate::text::decimal(rust_files)
            + " Rust file(s) relative to HEAD."@,
    }
}

pub open spec fn no_declarations_message() -> Seq<char> {
    "No added or renamed test-gated module declarations were found in the diff."@
}

/// The diff report before any evidence: its scope claim.
pub fn begin_diff_report(repository: &str, base: Option<&str>, changed: &ChangedLines) -> (r: AnalysisReport)
    ensures
        r@ == (ReportSpec {
            schema_version: crate::finding::REPORT_SCHEMA_VERSION,
            analysis: "diff-precedent"@,
            repository: repository@,
            claims: seq![
                ClaimSpec {
                    kind: ClaimKind::Derived,
                    message: diff_scope_message(
                        match base {
                            Some(b) => Some(b@),
                            None => None,
                        },
                        changed.paths().filter(|p: Seq<char>| crate::rust_facts::rust_source_name(p)).len(),
                    ),
                    evidence: Seq::empty(),
                },
            ],
            findings: Seq::empty(),
        }),
{
    let count = changed.rust_file_count();
    let mut message: Vec<char> = Vec::new();
    match base {
        Some(b) => {
            extend_str(&mut message, "The diff contains added lines in ");
            push_decimal(&mut message, count);
            extend_str(&mut message, " Rust file(s), measured from the merge base with `");
            extend_str(&mut message, b);
            extend_str(&mut message, "`.");
        },
        None => {
            extend_str(&mut message, "The working-tree diff contains added lines in ");
            push_decimal(&mut message, count);
            extend_str(&mut message, " Rust file(s) relative to HEAD.");
        },
    }
    let text = string_of(message.as_slice());
    let mut analysis = AnalysisReport::new("diff-precedent", repository);
    let ghost before = analysis@;
    let claim = Claim::new(ClaimKind::Derived, text.as_str());
    analysis.claims.push(claim);
    assert(analysis@.claims =~= before.claims.push(claim@));
    assert(analysis@.findings =~= before.findings);
    analysis
}

/// Records that the diff adds no test-gated module declaration.
pub fn note_no_declarations(analysis: &mut AnalysisReport)
    ensures
        final(analysis)@ == (ReportSpec {
            claims: old(analysis)@.claims.push(
                ClaimSpec { kind: ClaimKind::Observed, message: no_declarations_message(), evidence: Seq::empty() },
            ),
            ..old(analysis)@
        }),
{
    let ghost before = analysis@;
    let claim = Claim::new(
        ClaimKind::Observed,
        "No added or renamed test-gated module declarations were found in the diff.",
    );
    analysis.claims.push(claim);
    assert(analysis@.claims =~= before.claims.push(claim@));
    assert(analysis@.findings =~= before.findings);
}

pub open spec fn unparsed_message() -> Seq<char> {
    "A changed Rust file could not be parsed, so diff relevance could not be determined."@
}

/// Records that a changed Rust file did not parse: an unknown, with the
/// parse error located at the file's repository-relative path.
pub fn note_parse_failure(analysis: &mut AnalysisReport, relative: &str, error: &str)
    ensures
        final(analysis)@ == (ReportSpec {
            claims: old(analysis)@.claims.push(
                ClaimSpec {
                    kind: ClaimKind::Unknown,
                    message: unparsed_message(),
                    evidence: seq![
                        crate::finding::EvidenceSpec {
                            message: error@,
                            location: Some(crate::finding::LocationSpec { path: relative@, line: None }),
                        },
                    ],
                },
            ),
            ..old(analysis)@
        }),
{
    let ghost before = analysis@;
    let claim = Claim::new(
        ClaimKind::Unknown,
        "A changed Rust file could not be parsed, so diff relevance could not be determined.",
    ).with_evidence(Evidence::at(error, Location::new(relative, None)));
    assert(claim@.evidence =~= seq![
        crate::finding::EvidenceSpec {
            message: error@,
            location: Some(crate::finding::LocationSpec { path: relative@, line: None }),
        },
    ]);
    analysis.claims.push(claim);
    assert(analysis@.claims =~= before.claims.push(claim@));
    assert(analysis@.findings =~= before.findings);
}

/// When the repository's counts without a new declaration have one name
/// strictly ahead of every other, and the declaration's file holds a single
/// other name that differs both from it and from the declaration, the
/// finding reports the tension: its kind is `test-module-precedent-tension`,
/// it claims that repository-wide precedent favours the one and file-local
/// precedent the other, and its closing observation says the two disagree.
pub proof fn lemma_precedent_tension_reported(
    root: Seq<char>,
    os: Seq<OccurrenceSpec>,
    o: OccurrenceSpec,
    locals: Seq<Seq<char>>,
    c: NameCounts,
    d: int,
)
    requires
        file_names_of(os, o, locals),
        counts_without(os, o, c),
        0 <= d < c.entries@.len(),
        forall|j: int| 0 <= j < c.entries@.len() && j != d ==> (#[trigger] c.entries@[j]).count < c.entries@[d].count,
        locals.len() == 1,
        locals[0] != c.entries@[d].name@,
        locals[0] != o.name,
    ensures
        ({
            let repo = c.entries@[d].name@;
            let file = locals[0];
            precedent_finding_spec(root, os, o) matches Some(f) && f.kind == "test-module-precedent-tension"@
                && f.title == "Test-module precedent tension"@ && f.claims.contains(
                ClaimSpec {
                    kind: ClaimKind::Observed,
                    message: "Repository-wide precedent favors `"@ + repo
                        + "`, while existing file-local precedent favors `"@ + file + "`."@,
                    evidence: Seq::empty(),
                },
            ) && f.claims[f.claims.len() - 2].message == "Repository-wide and file-local precedent disagree. "@
                + if o.name == repo {
                "The change follows repository-wide precedent and differs from file-local precedent."@
            } else {
                "The change follows neither of the two conflicting precedent scopes."@
            }
        }),
{
    let repo = c.entries@[d].name@;
    let l0 = choose|l: Seq<Seq<char>>| file_names_of(os, o, l);
    let c0 = choose|cc: NameCounts| counts_without(os, o, cc);
    lemma_precedent_witness_free(root, os, o, l0, c0, locals, c);
    assert(dominant_index(c, d));
    let k = choose|k: int| dominant_index(c, k);
    lemma_dominant_unique(c, d, k);
    assert(dominant_name(c) == Some(repo));
    assert(tension_of(c, locals) == Some((repo, locals[0])));
    assert(others(locals, o.name).len() > 0) by {
        reveal_with_fuel(Seq::filter, 2);
        assert(locals =~= Seq::<Seq<char>>::empty().push(locals[0]));
    }
    let f = precedent_finding_of(root, os, o, locals, c)->Some_0;
    let claim = observed(tension_message(repo, locals[0]));
    assert(f.claims.len() >= 3);
    let uses_len: int = 1;
    assert(f.claims[1 + uses_len] == claim);
}

/// Without such a tension (no name strictly ahead of all others, not
/// exactly one other name in the file, or that name is the one ahead), a
/// finding is a plain `test-module-precedent` finding.
pub proof fn lemma_precedent_without_tension(
    root: Seq<char>,
    os: Seq<OccurrenceSpec>,
    o: OccurrenceSpec,
    locals: Seq<Seq<char>>,
    c: NameCounts,
)
    requires
        file_names_of(os, o, locals),
        counts_without(os, o, c),
        (forall|d: int|
            #![trigger c.entries@[d]]
            0 <= d < c.entries@.len() ==> exists|j: int|
                #![trigger c.entries@[j]]
                0 <= j < c.entries@.len() && j != d && c.entries@[j].count >= c.entries@[d].count)
            || locals.len() != 1 || exists|d: int|
            0 <= d < c.entries@.len() && c.entries@[d].name@ == locals[0] && forall|j: int|
                0 <= j < c.entries@.len() && j != d ==> (#[trigger] c.entries@[j]).count < c.entries@[d].count,
    ensures
        precedent_finding_spec(root, os, o) matches Some(f) ==> f.kind == "test-module-precedent"@
            && f.title == "Test-module precedent"@,
{
    let l0 = choose|l: Seq<Seq<char>>| file_names_of(os, o, l);
    let c0 = choose|cc: NameCounts| counts_without(os, o, cc);
    lemma_precedent_witness_free(root, os, o, l0, c0, locals, c);
    if exists|i: int| dominant_index(c, i) {
        let k = choose|i: int| dominant_index(c, i);
        if locals.len() == 1 {
            if exists|d: int|
                0 <= d < c.entries@.len() && c.entries@[d].name@ == locals[0] && forall|j: int|
                    0 <= j < c.entries@.len() && j != d ==> (#[trigger] c.entries@[j]).count < c.entries@[d].count {
                let d = choose|d: int|
                    0 <= d < c.entries@.len() && c.entries@[d].name@ == locals[0] && forall|j: int|
                        0 <= j < c.entries@.len() && j != d ==> (#[trigger] c.entries@[j]).count
                            < c.entries@[d].count;
                assert(dominant_index(c, d));
                lemma_dominant_unique(c, d, k);
            } else {
                assert(c.entries@[k] == c.entries@[k]);
                let j = choose|j: int|
                    #![trigger c.entries@[j]]
                    0 <= j < c.entries@.len() && j != k && c.entries@[j].count >= c.entries@[k].count;
            }
        }
    }
    assert(tension_of(c, locals) is None);
}

} // verus!

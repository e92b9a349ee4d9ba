//! The text form of a history report: the cohort, the strongest companions
//! with their examples, a sample of counterexamples, the excluded commits
//! and the limitations.
use vstd::prelude::*;

use crate::companions::{HistoricalCompanion, HistoryCohort};
use crate::generated_diff::{short_sha, short_sha_exec};
use crate::history::{CommitSummary, ExcludedCommit, GeneratedMarkerEvidence};
use crate::text::{decimal, decimal_chars, extend_chars, extend_str, push_decimal, push_spaces, spaces, string_of};

verus! {

/// How many companions the text lists.
pub const TOP_COMPANIONS: usize = 15;

/// Among how many of the strongest companions the text samples
/// counterexamples.
pub const COUNTEREXAMPLE_SAMPLE: usize = 5;

/// How many excluded commits the text lists.
pub const EXCLUDED_SHOWN: usize = 10;

/// `s` padded with spaces on the right to `width` characters.
pub open spec fn pad_right(s: Seq<char>, width: nat) -> Seq<char> {
    if s.len() < width {
        s + spaces((width - s.len()) as nat)
    } else {
        s
    }
}

/// `s` padded with spaces on the left to `width` characters.
pub open spec fn pad_left(s: Seq<char>, width: nat) -> Seq<char> {
    if s.len() < width {
        spaces((width - s.len()) as nat) + s
    } else {
        s
    }
}

fn push_padded_right(out: &mut Vec<char>, s: &[char], width: usize)
    ensures
        final(out)@ == old(out)@ + pad_right(s@, width as nat),
{
    extend_chars(out, s);
    if s.len() < width {
        push_spaces(out, width - s.len());
    }
    assert(out@ =~= old(out)@ + pad_right(s@, width as nat));
}

fn push_padded_left(out: &mut Vec<char>, s: &[char], width: usize)
    ensures
        final(out)@ == old(out)@ + pad_left(s@, width as nat),
{
    if s.len() < width {
        push_spaces(out, width - s.len());
    }
    extend_chars(out, s);
    assert(out@ =~= old(out)@ + pad_left(s@, width as nat));
}

/// A share given in tenths of a percent, with one decimal.
pub open spec fn percent_text(per_mille: nat) -> Seq<char> {
    decimal(per_mille / 10) + "."@ + decimal(per_mille % 10)
}

pub open spec fn summary_line(word: Seq<char>, s: CommitSummary) -> Seq<char> {
    "    "@ + word + " "@ + short_sha(s.sha@) + "  "@ + s.date@ + "  "@ + s.subject@ + "\n"@
}

/// One line per commit, each opened by `word`.
pub open spec fn summary_lines(word: Seq<char>, ss: Seq<CommitSummary>) -> Seq<char>
    decreases ss.len(),
{
    if ss.len() == 0 {
        Seq::empty()
    } else {
        summary_lines(word, ss.drop_last()) + summary_line(word, ss.last())
    }
}

pub open spec fn marker_line(m: GeneratedMarkerEvidence) -> Seq<char> {
    "    generated marker "@ + m.path@ + ":"@ + decimal(m.line as nat) + "  "@ + m.marker@ + "\n"@
}

/// A companion's line: path, support out of opportunities, and share.
pub open spec fn companion_head(c: HistoricalCompanion, per_mille: nat) -> Seq<char> {
    "  "@ + pad_right(c.path@, 56) + " "@ + pad_left(decimal(c.support as nat), 3) + "/"@ + pad_right(
        decimal(c.opportunities as nat),
        3,
    ) + " "@ + pad_left(percent_text(per_mille), 5) + "%\n"@
}

pub open spec fn marker_part(m: Option<GeneratedMarkerEvidence>) -> Seq<char> {
    match m {
        Some(m) => marker_line(m),
        None => Seq::empty(),
    }
}

/// A companion's line, then its generated marker and its examples.
pub open spec fn companion_block(c: HistoricalCompanion, per_mille: nat) -> Seq<char> {
    companion_head(c, per_mille) + marker_part(c.generated_marker) + summary_lines("example"@, c.examples@)
}

pub open spec fn companion_blocks(cs: Seq<HistoricalCompanion>, pms: Seq<usize>) -> Seq<char>
    decreases cs.len(),
{
    if cs.len() == 0 {
        Seq::empty()
    } else {
        companion_blocks(cs.drop_last(), pms) + companion_block(cs.last(), pms[cs.len() - 1] as nat)
    }
}

/// The counterexamples of the companions that have some.
pub open spec fn counter_blocks(cs: Seq<HistoricalCompanion>) -> Seq<char>
    decreases cs.len(),
{
    if cs.len() == 0 {
        Seq::empty()
    } else {
        let c = cs.last();
        counter_blocks(cs.drop_last()) + if c.counterexamples@.len() == 0 {
            Seq::empty()
        } else {
            "  "@ + c.path@ + "\n"@ + summary_lines("absent"@, c.counterexamples@)
        }
    }
}

pub open spec fn first(n: nat, len: nat) -> int {
    if len < n {
        len as int
    } else {
        n as int
    }
}

pub open spec fn counter_section(cs: Seq<HistoricalCompanion>) -> Seq<char> {
    let sample = cs.take(first(COUNTEREXAMPLE_SAMPLE as nat, cs.len()));
    if forall|i: int| 0 <= i < sample.len() ==> (#[trigger] sample[i]).counterexamples@.len() == 0 {
        Seq::empty()
    } else {
        "\nCOUNTEREXAMPLE SAMPLE\n"@ + counter_blocks(sample)
    }
}

pub open spec fn excluded_line(e: ExcludedCommit) -> Seq<char> {
    "  "@ + short_sha(e.commit.sha@) + "  "@ + decimal(e.changed_paths as nat) + " path(s)  "@ + e.reason@
        + "  "@ + e.commit.subject@ + "\n"@
}

pub open spec fn excluded_lines(es: Seq<ExcludedCommit>) -> Seq<char>
    decreases es.len(),
{
    if es.len() == 0 {
        Seq::empty()
    } else {
        excluded_lines(es.drop_last()) + excluded_line(es.last())
    }
}

pub open spec fn excluded_section(es: Seq<ExcludedCommit>) -> Seq<char> {
    if es.len() == 0 {
        Seq::empty()
    } else {
        "\nEXCLUDED COMMITS\n"@ + excluded_lines(es.take(first(EXCLUDED_SHOWN as nat, es.len()))) + if es.len()
            > EXCLUDED_SHOWN {
            "  ... "@ + decimal((es.len() - EXCLUDED_SHOWN) as nat) + " more excluded commit(s)\n"@
        } else {
            Seq::empty()
        }
    }
}

/// What the history report does not establish.
pub open spec fn limitation_texts() -> Seq<Seq<char>> {
    seq![
        "Rename history uses the current path identity only."@,
        "The first cohort filter removes reverts and broad commits; subsystem and semantic cohort selection remain research work."@,
        "Co-change is correlation evidence. The explorer reports association without assigning correctness or intent."@,
        "Generated-marker evidence only reports self-identification found in a bounded current-file header; it does not establish source ownership, generator commands, derivation direction, or a regeneration requirement."@,
    ]
}

pub fn history_limitations() -> (r: Vec<String>)
    ensures
        crate::validate::strings_view(r@) == limitation_texts(),
{
    let mut r: Vec<String> = Vec::new();
    r.push(crate::text::owned("Rename history uses the current path identity only."));
    r.push(
        crate::text::owned(
            "The first cohort filter removes reverts and broad commits; subsystem and semantic cohort selection remain research work.",
        ),
    );
    r.push(
        crate::text::owned(
            "Co-change is correlation evidence. The explorer reports association without assigning correctness or intent.",
        ),
    );
    r.push(
        crate::text::owned(
            "Generated-marker evidence only reports self-identification found in a bounded current-file header; it does not establish source ownership, generator commands, derivation direction, or a regeneration requirement.",
        ),
    );
    assert(crate::validate::strings_view(r@) =~= limitation_texts());
    r
}

pub open spec fn limitation_lines(ls: Seq<Seq<char>>) -> Seq<char>
    decreases ls.len(),
{
    if ls.len() == 0 {
        Seq::empty()
    } else {
        limitation_lines(ls.drop_last()) + "  - "@ + ls.last() + "\n"@
    }
}

pub open spec fn limitations_section() -> Seq<char> {
    "\nLIMITATIONS\n"@ + limitation_lines(limitation_texts())
}

pub open spec fn history_header(anchor: Seq<char>, considered: nat, discovered: nat, threshold: nat) -> Seq<char> {
    "HISTORICAL COMPANIONS\n"@ + "  anchor: "@ + anchor + "\n"@ + "  cohort: "@ + decimal(considered)
        + " considered commit(s) from "@ + decimal(discovered) + " discovered non-merge commit(s)\n"@
        + "  broad-commit threshold: "@ + decimal(threshold) + " changed paths\n"@
}

/// The text of a history report; `per_mille[i]` is companion `i`'s share
/// of the considered commits in tenths of a percent.
pub open spec fn history_text(
    anchor: Seq<char>,
    cohort: HistoryCohort,
    threshold: nat,
    per_mille: Seq<usize>,
) -> Seq<char> {
    let head = history_header(anchor, cohort.considered_commits as nat, cohort.discovered_commits as nat, threshold);
    let tail = excluded_section(cohort.excluded_commits@) + limitations_section();
    let cs = cohort.companions@;
    if cohort.considered_commits == 0 {
        head + "\nOBSERVATION\n  No history remained after the current cohort filters.\n"@ + tail
    } else if cs.len() == 0 {
        head + "\nOBSERVATION\n  The considered commits contain no recurring companion paths.\n"@ + tail
    } else {
        head + "\nCOMPANIONS\n"@ + companion_blocks(cs.take(first(TOP_COMPANIONS as nat, cs.len())), per_mille)
            + counter_section(cs)
            + "\nOBSERVATION\n  These are historical co-change associations for the current path, before semantic cohort selection or finding thresholds.\n"@
            + "\nQUESTION\n  Which of these companions represent a repository custom worth comparing against a future diff?\n"@
            + tail
    }
}

fn push_short_sha(out: &mut Vec<char>, sha: &str)
    ensures
        final(out)@ == old(out)@ + short_sha(sha@),
{
    let short = short_sha_exec(sha);
    extend_chars(out, short.as_slice());
}

fn push_summary_lines(out: &mut Vec<char>, word: &str, ss: &Vec<CommitSummary>)
    ensures
        final(out)@ == old(out)@ + summary_lines(word@, ss@),
{
    let ghost start = out@;
    let mut i: usize = 0;
    assert(ss@.take(0) =~= Seq::<CommitSummary>::empty());
    assert(out@ =~= start + summary_lines(word@, ss@.take(0)));
    while i < ss.len()
        invariant
            i <= ss@.len(),
            out@ == start + summary_lines(word@, ss@.take(i as int)),
        decreases ss.len() - i,
    {
        let s = &ss[i];
        assert(ss@.take(i + 1).drop_last() =~= ss@.take(i as int));
        extend_str(out, "    ");
        extend_str(out, word);
        extend_str(out, " ");
        push_short_sha(out, s.sha.as_str());
        extend_str(out, "  ");
        extend_str(out, s.date.as_str());
        extend_str(out, "  ");
        extend_str(out, s.subject.as_str());
        extend_str(out, "\n");
        i = i + 1;
        assert(out@ =~= start + summary_lines(word@, ss@.take(i as int)));
    }
    assert(ss@.take(i as int) =~= ss@);
}

#[verifier::spinoff_prover]
fn push_companion_head(out: &mut Vec<char>, c: &HistoricalCompanion, per_mille: usize)
    ensures
        final(out)@ == old(out)@ + companion_head(*c, per_mille as nat),
{
    let ghost start = out@;
    extend_str(out, "  ");
    let path = crate::text::chars_of(c.path.as_str());
    push_padded_right(out, path.as_slice(), 56);
    let ghost a = out@;
    extend_str(out, " ");
    let support = decimal_chars(c.support);
    push_padded_left(out, support.as_slice(), 3);
    extend_str(out, "/");
    let opportunities = decimal_chars(c.opportunities);
    push_padded_right(out, opportunities.as_slice(), 3);
    let ghost b = out@;
    extend_str(out, " ");
    let mut pct: Vec<char> = Vec::new();
    push_decimal(&mut pct, per_mille / 10);
    extend_str(&mut pct, ".");
    push_decimal(&mut pct, per_mille % 10);
    assert(pct@ =~= percent_text(per_mille as nat));
    push_padded_left(out, pct.as_slice(), 5);
    extend_str(out, "%\n");
    assert(out@ =~= start + companion_head(*c, per_mille as nat));
}

fn push_companion_block(out: &mut Vec<char>, c: &HistoricalCompanion, per_mille: usize)
    ensures
        final(out)@ == old(out)@ + companion_block(*c, per_mille as nat),
{
    let ghost start = out@;
    push_companion_head(out, c, per_mille);
    let ghost mid = out@;
    match &c.generated_marker {
        Some(m) => {
            extend_str(out, "    generated marker ");
            extend_str(out, m.path.as_str());
            extend_str(out, ":");
            push_decimal(out, m.line);
            extend_str(out, "  ");
            extend_str(out, m.marker.as_str());
            extend_str(out, "\n");
            assert(out@ =~= mid + marker_line(*m));
        },
        None => {
            assert(out@ =~= mid + marker_part(c.generated_marker));
        },
    }
    let ghost marked = out@;
    push_summary_lines(out, "example", &c.examples);
    assert(out@ =~= start + companion_block(*c, per_mille as nat));
}

fn push_counter_blocks(out: &mut Vec<char>, cs: &Vec<HistoricalCompanion>, n: usize)
    requires
        n <= cs@.len(),
    ensures
        final(out)@ == old(out)@ + counter_blocks(cs@.take(n as int)),
{
    let ghost start = out@;
    let mut i: usize = 0;
    assert(cs@.take(0) =~= Seq::<HistoricalCompanion>::empty());
    assert(out@ =~= start + counter_blocks(cs@.take(0)));
    while i < n
        invariant
            i <= n <= cs@.len(),
            out@ == start + counter_blocks(cs@.take(i as int)),
        decreases n - i,
    {
        let c = &cs[i];
        assert(cs@.take(i + 1).drop_last() =~= cs@.take(i as int));
        if c.counterexamples.len() > 0 {
            extend_str(out, "  ");
            extend_str(out, c.path.as_str());
            extend_str(out, "\n");
            push_summary_lines(out, "absent", &c.counterexamples);
        }
        i = i + 1;
        assert(out@ =~= start + counter_blocks(cs@.take(i as int)));
    }
}

fn push_counter_section(out: &mut Vec<char>, cs: &Vec<HistoricalCompanion>)
    ensures
        final(out)@ == old(out)@ + counter_section(cs@),
{
    let n = if cs.len() < COUNTEREXAMPLE_SAMPLE {
        cs.len()
    } else {
        COUNTEREXAMPLE_SAMPLE
    };
    let ghost sample = cs@.take(n as int);
    let mut any = false;
    let mut i: usize = 0;
    while i < n
        invariant
            i <= n <= cs@.len(),
            sample == cs@.take(n as int),
            any <==> exists|k: int| 0 <= k < i && (#[trigger] sample[k]).counterexamples@.len() > 0,
        decreases n - i,
    {
        if cs[i].counterexamples.len() > 0 {
            assert(sample[i as int].counterexamples@.len() > 0);
            any = true;
        }
        i = i + 1;
    }
    if any {
        extend_str(out, "\nCOUNTEREXAMPLE SAMPLE\n");
        push_counter_blocks(out, cs, n);
    } else {
        assert(forall|k: int| 0 <= k < sample.len() ==> (#[trigger] sample[k]).counterexamples@.len() == 0);
        assert(out@ =~= old(out)@ + counter_section(cs@));
    }
}

fn push_excluded_section(out: &mut Vec<char>, es: &Vec<ExcludedCommit>)
    ensures
        final(out)@ == old(out)@ + excluded_section(es@),
{
    if es.len() == 0 {
        assert(out@ =~= old(out)@ + excluded_section(es@));
        return;
    }
    let ghost start = out@;
    extend_str(out, "\nEXCLUDED COMMITS\n");
    let ghost head = out@;
    let n = if es.len() < EXCLUDED_SHOWN {
        es.len()
    } else {
        EXCLUDED_SHOWN
    };
    let mut i: usize = 0;
    assert(es@.take(0) =~= Seq::<ExcludedCommit>::empty());
    assert(out@ =~= head + excluded_lines(es@.take(0)));
    while i < n
        invariant
            i <= n <= es@.len(),
            out@ == head + excluded_lines(es@.take(i as int)),
        decreases n - i,
    {
        let e = &es[i];
        assert(es@.take(i + 1).drop_last() =~= es@.take(i as int));
        extend_str(out, "  ");
        push_short_sha(out, e.commit.sha.as_str());
        extend_str(out, "  ");
        push_decimal(out, e.changed_paths);
        extend_str(out, " path(s)  ");
        extend_str(out, e.reason.as_str());
        extend_str(out, "  ");
        extend_str(out, e.commit.subject.as_str());
        extend_str(out, "\n");
        i = i + 1;
        assert(out@ =~= head + excluded_lines(es@.take(i as int)));
    }
    let ghost listed = out@;
    if es.len() > EXCLUDED_SHOWN {
        extend_str(out, "  ... ");
        push_decimal(out, es.len() - EXCLUDED_SHOWN);
        extend_str(out, " more excluded commit(s)\n");
    }
    assert(out@ =~= start + excluded_section(es@));
}

fn push_limitations_section(out: &mut Vec<char>)
    ensures
        final(out)@ == old(out)@ + limitations_section(),
{
    let ghost start = out@;
    extend_str(out, "\nLIMITATIONS\n");
    let ghost head = out@;
    let ls = history_limitations();
    let ghost lv = limitation_texts();
    let mut i: usize = 0;
    assert(lv.take(0) =~= Seq::<Seq<char>>::empty());
    assert(out@ =~= head + limitation_lines(lv.take(0)));
    while i < ls.len()
        invariant
            i <= ls@.len(),
            crate::validate::strings_view(ls@) == lv,
            lv == limitation_texts(),
            out@ == head + limitation_lines(lv.take(i as int)),
        decreases ls.len() - i,
    {
        assert(lv.take(i + 1).drop_last() =~= lv.take(i as int));
        assert(lv[i as int] == ls@[i as int]@);
        extend_str(out, "  - ");
        extend_str(out, ls[i].as_str());
        extend_str(out, "\n");
        i = i + 1;
        assert(out@ =~= head + limitation_lines(lv.take(i as int)));
    }
    assert(lv.take(i as int) =~= lv);
    assert(out@ =~= start + limitations_section());
}

/// The text of a history report (see [`history_text`]).
pub fn render_history_text(anchor: &str, cohort: &HistoryCohort, threshold: usize, per_mille: &Vec<usize>) -> (r:
    String)
    requires
        per_mille@.len() == cohort.companions@.len(),
    ensures
        r@ == history_text(anchor@, *cohort, threshold as nat, per_mille@),
{
    let mut out: Vec<char> = Vec::new();
    extend_str(&mut out, "HISTORICAL COMPANIONS\n");
    extend_str(&mut out, "  anchor: ");
    extend_str(&mut out, anchor);
    extend_str(&mut out, "\n");
    extend_str(&mut out, "  cohort: ");
    push_decimal(&mut out, cohort.considered_commits);
    extend_str(&mut out, " considered commit(s) from ");
    push_decimal(&mut out, cohort.discovered_commits);
    extend_str(&mut out, " discovered non-merge commit(s)\n");
    extend_str(&mut out, "  broad-commit threshold: ");
    push_decimal(&mut out, threshold);
    extend_str(&mut out, " changed paths\n");
    let ghost head = out@;
    assert(head =~= history_header(
        anchor@,
        cohort.considered_commits as nat,
        cohort.discovered_commits as nat,
        threshold as nat,
    ));
    let cs = &cohort.companions;
    if cohort.considered_commits == 0 {
        extend_str(&mut out, "\nOBSERVATION\n  No history remained after the current cohort filters.\n");
    } else if cs.len() == 0 {
        extend_str(&mut out, "\nOBSERVATION\n  The considered commits contain no recurring companion paths.\n");
    } else {
        extend_str(&mut out, "\nCOMPANIONS\n");
        let ghost top_start = out@;
        let n = if cs.len() < TOP_COMPANIONS {
            cs.len()
        } else {
            TOP_COMPANIONS
        };
        let mut i: usize = 0;
        assert(cs@.take(0) =~= Seq::<HistoricalCompanion>::empty());
        assert(out@ =~= top_start + companion_blocks(cs@.take(0), per_mille@));
        while i < n
            invariant
                i <= n <= cs@.len(),
                per_mille@.len() == cs@.len(),
                out@ == top_start + companion_blocks(cs@.take(i as int), per_mille@),
            decreases n - i,
        {
            assert(cs@.take(i + 1).drop_last() =~= cs@.take(i as int));
            push_companion_block(&mut out, &cs[i], per_mille[i]);
            i = i + 1;
            assert(out@ =~= top_start + companion_blocks(cs@.take(i as int), per_mille@));
        }
        push_counter_section(&mut out, cs);
        extend_str(
            &mut out,
            "\nOBSERVATION\n  These are historical co-change associations for the current path, before semantic cohort selection or finding thresholds.\n",
        );
        extend_str(
            &mut out,
            "\nQUESTION\n  Which of these companions represent a repository custom worth comparing against a future diff?\n",
        );
    }
    let ghost body = out@;
    push_excluded_section(&mut out, &cohort.excluded_commits);
    push_limitations_section(&mut out);
    assert(out@ =~= history_text(anchor@, *cohort, threshold as nat, per_mille@));
    string_of(out.as_slice())
}

} // verus!

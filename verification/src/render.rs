//! Text projections of an [`AnalysisReport`]: the canonical report text and
//! the terse agent-oriented form.
use vstd::prelude::*;

use crate::finding::{
    AnalysisReport, Claim, ClaimKind, ClaimSpec, Evidence, EvidenceSpec, Finding, FindingSpec,
    Location, LocationSpec, ReportSpec,
};
use crate::text::{
    chars_of, decimal, extend_chars, extend_str, push_decimal, push_spaces, spaces, string_of,
    upper, uppercase,
};

verus! {

pub open spec fn claim_label(kind: ClaimKind) -> Seq<char> {
    match kind {
        ClaimKind::Proven => "PROVEN"@,
        ClaimKind::Derived => "DERIVED"@,
        ClaimKind::Observed => "OBSERVED"@,
        ClaimKind::Inferred => "INFERRED"@,
        ClaimKind::Unknown => "UNKNOWN"@,
    }
}

pub open spec fn claim_token(kind: ClaimKind) -> Seq<char> {
    match kind {
        ClaimKind::Proven => "P"@,
        ClaimKind::Derived => "D"@,
        ClaimKind::Observed => "O"@,
        ClaimKind::Inferred => "I"@,
        ClaimKind::Unknown => "?"@,
    }
}

/// `path:line`, or just the path when the line is unknown.
pub open spec fn location_text(l: LocationSpec) -> Seq<char> {
    match l.line {
        Some(n) => l.path + ":"@ + decimal(n as nat),
        None => l.path,
    }
}

/// The output already ends in a blank line.
pub open spec fn ends_blank(out: Seq<char>) -> bool {
    out.len() >= 2 && out[out.len() - 1] == '\n' && out[out.len() - 2] == '\n'
}

/// A blank separator before a claim unless the output is empty or already
/// ends in a blank line.
pub open spec fn separated(out: Seq<char>) -> Seq<char> {
    if out.len() > 0 && !ends_blank(out) {
        out.push('\n')
    } else {
        out
    }
}

pub open spec fn evidence_line(e: EvidenceSpec, indent: nat) -> Seq<char> {
    match e.location {
        Some(l) => spaces(indent) + "- "@ + e.message + " ("@ + location_text(l) + ")\n"@,
        None => spaces(indent) + "- "@ + e.message + "\n"@,
    }
}

pub open spec fn evidence_lines(es: Seq<EvidenceSpec>, indent: nat) -> Seq<char>
    decreases es.len(),
{
    if es.len() == 0 {
        Seq::empty()
    } else {
        evidence_lines(es.drop_last(), indent) + evidence_line(es.last(), indent)
    }
}

pub open spec fn render_claim(out: Seq<char>, c: ClaimSpec, indent: nat) -> Seq<char> {
    separated(out) + spaces(indent) + claim_label(c.kind) + "\n"@ + spaces(indent) + "  "@
        + c.message + "\n"@ + evidence_lines(c.evidence, indent + 2)
}

pub open spec fn render_claims(out: Seq<char>, cs: Seq<ClaimSpec>, indent: nat) -> Seq<char>
    decreases cs.len(),
{
    if cs.len() == 0 {
        out
    } else {
        render_claim(render_claims(out, cs.drop_last(), indent), cs.last(), indent)
    }
}

pub open spec fn render_finding(out: Seq<char>, f: FindingSpec, number: nat) -> Seq<char> {
    let head = out + "\nFINDING "@ + decimal(number) + ": "@ + f.title + "\n"@;
    let located = match f.location {
        Some(l) => head + "  at "@ + location_text(l) + "\n"@,
        None => head,
    };
    let claimed = render_claims(located, f.claims, 2);
    match f.question {
        Some(q) => claimed + "\nQUESTION\n"@ + "  "@ + q + "\n"@,
        None => claimed,
    }
}

pub open spec fn render_findings(out: Seq<char>, fs: Seq<FindingSpec>) -> Seq<char>
    decreases fs.len(),
{
    if fs.len() == 0 {
        out
    } else {
        render_finding(render_findings(out, fs.drop_last()), fs.last(), fs.len())
    }
}

/// The pieces of `s` between `-` and `_` separators, keeping empty pieces.
pub open spec fn title_pieces(s: Seq<char>) -> Seq<Seq<char>>
    decreases s.len(),
{
    if s.len() == 0 {
        seq![Seq::<char>::empty()]
    } else {
        let rest = title_pieces(s.drop_last());
        if s.last() == '-' || s.last() == '_' {
            rest.push(Seq::<char>::empty())
        } else {
            rest.update(rest.len() - 1, rest.last().push(s.last()))
        }
    }
}

/// Non-empty pieces, upper-cased and joined by single spaces.
pub open spec fn join_title(ps: Seq<Seq<char>>) -> Seq<char>
    decreases ps.len(),
{
    if ps.len() == 0 {
        Seq::empty()
    } else {
        let acc = join_title(ps.drop_last());
        let w = ps.last();
        if w.len() == 0 {
            acc
        } else if acc.len() == 0 {
            upper(w)
        } else {
            acc + " "@ + upper(w)
        }
    }
}

/// `diff-precedent` becomes `DIFF PRECEDENT`.
pub open spec fn title_text(analysis: Seq<char>) -> Seq<char> {
    join_title(title_pieces(analysis))
}

/// The canonical text projection of a report.
pub open spec fn render_report(r: ReportSpec) -> Seq<char> {
    let titled = title_text(r.analysis) + "\n"@;
    render_findings(render_claims(titled, r.claims, 0), r.findings)
}

pub fn claim_kind_label(kind: ClaimKind) -> (s: &'static str)
    ensures
        s@ == claim_label(kind),
{
    match kind {
        ClaimKind::Proven => "PROVEN",
        ClaimKind::Derived => "DERIVED",
        ClaimKind::Observed => "OBSERVED",
        ClaimKind::Inferred => "INFERRED",
        ClaimKind::Unknown => "UNKNOWN",
    }
}

pub fn claim_kind_token(kind: ClaimKind) -> (s: &'static str)
    ensures
        s@ == claim_token(kind),
{
    match kind {
        ClaimKind::Proven => "P",
        ClaimKind::Derived => "D",
        ClaimKind::Observed => "O",
        ClaimKind::Inferred => "I",
        ClaimKind::Unknown => "?",
    }
}

fn push_location(out: &mut Vec<char>, location: &Location)
    ensures
        final(out)@ == old(out)@ + location_text(location@),
{
    extend_str(out, location.path.as_str());
    match location.line {
        Some(n) => {
            extend_str(out, ":");
            push_decimal(out, n);
            assert(out@ =~= old(out)@ + location_text(location@));
        },
        None => {},
    }
}

/// `path:line` or the path alone.
pub fn format_location(location: &Location) -> (s: String)
    ensures
        s@ == location_text(location@),
{
    let mut out: Vec<char> = Vec::new();
    push_location(&mut out, location);
    assert(out@ =~= location_text(location@));
    string_of(out.as_slice())
}

fn push_evidence(out: &mut Vec<char>, evidence: &Evidence, indent: usize)
    ensures
        final(out)@ == old(out)@ + evidence_line(evidence@, indent as nat),
{
    push_spaces(out, indent);
    extend_str(out, "- ");
    extend_str(out, evidence.message.as_str());
    match &evidence.location {
        Some(l) => {
            extend_str(out, " (");
            push_location(out, l);
            extend_str(out, ")\n");
        },
        None => {
            extend_str(out, "\n");
        },
    }
    assert(out@ =~= old(out)@ + evidence_line(evidence@, indent as nat));
}

fn push_claim(out: &mut Vec<char>, claim: &Claim, indent: usize)
    requires
        indent + 2 <= usize::MAX,
    ensures
        final(out)@ == render_claim(old(out)@, claim@, indent as nat),
{
    let n = out.len();
    if n > 0 && !(n >= 2 && out[n - 1] == '\n' && out[n - 2] == '\n') {
        out.push('\n');
    }
    assert(out@ == separated(old(out)@));
    push_spaces(out, indent);
    extend_str(out, claim_kind_label(claim.kind));
    extend_str(out, "\n");
    push_spaces(out, indent);
    extend_str(out, "  ");
    extend_str(out, claim.message.as_str());
    extend_str(out, "\n");
    let ghost head = out@;
    let mut i: usize = 0;
    let ghost es = claim@.evidence;
    while i < claim.evidence.len()
        invariant
            i <= claim.evidence@.len(),
            indent + 2 <= usize::MAX,
            es == claim@.evidence,
            es.len() == claim.evidence@.len(),
            out@ == head + evidence_lines(es.take(i as int), (indent + 2) as nat),
        decreases claim.evidence.len() - i,
    {
        push_evidence(out, &claim.evidence[i], indent + 2);
        assert(es.take(i + 1).drop_last() == es.take(i as int));
        assert(es[i as int] == claim.evidence@[i as int]@);
        i = i + 1;
    }
    assert(es.take(i as int) == es);
    assert(out@ =~= render_claim(old(out)@, claim@, indent as nat));
}

fn push_claims(out: &mut Vec<char>, claims: &Vec<Claim>, indent: usize)
    requires
        indent + 2 <= usize::MAX,
    ensures
        final(out)@ == render_claims(
            old(out)@,
            claims@.map_values(|c: Claim| c@),
            indent as nat,
        ),
{
    let ghost cs = claims@.map_values(|c: Claim| c@);
    let mut i: usize = 0;
    while i < claims.len()
        invariant
            i <= claims@.len(),
            indent + 2 <= usize::MAX,
            cs == claims@.map_values(|c: Claim| c@),
            out@ == render_claims(old(out)@, cs.take(i as int), indent as nat),
        decreases claims.len() - i,
    {
        push_claim(out, &claims[i], indent);
        assert(cs.take(i + 1).drop_last() == cs.take(i as int));
        i = i + 1;
    }
    assert(cs.take(i as int) == cs);
}

fn push_finding(out: &mut Vec<char>, finding: &Finding, number: usize)
    ensures
        final(out)@ == render_finding(old(out)@, finding@, number as nat),
{
    extend_str(out, "\nFINDING ");
    push_decimal(out, number);
    extend_str(out, ": ");
    extend_str(out, finding.title.as_str());
    extend_str(out, "\n");
    if let Some(location) = &finding.location {
        extend_str(out, "  at ");
        push_location(out, location);
        extend_str(out, "\n");
    }
    let ghost located = out@;
    push_claims(out, &finding.claims, 2);
    if let Some(question) = &finding.question {
        extend_str(out, "\nQUESTION\n");
        extend_str(out, "  ");
        extend_str(out, question.as_str());
        extend_str(out, "\n");
    }
    assert(out@ =~= render_finding(old(out)@, finding@, number as nat));
}

proof fn lemma_title_pieces_nonempty(s: Seq<char>)
    ensures
        title_pieces(s).len() >= 1,
    decreases s.len(),
{
    if s.len() > 0 {
        lemma_title_pieces_nonempty(s.drop_last());
    }
}

/// The report title: `-`/`_`-separated words, upper-cased, space-joined.
pub fn analysis_title(analysis: &str) -> (t: String)
    ensures
        t@ == title_text(analysis@),
{
    let cs = chars_of(analysis);
    let mut pieces: Vec<Vec<char>> = Vec::new();
    let mut cur: Vec<char> = Vec::new();
    let mut i: usize = 0;
    assert(cs@.take(0) =~= Seq::<char>::empty());
    while i < cs.len()
        invariant
            i <= cs.len(),
            crate::text::seqs_view(pieces@).push(cur@) == title_pieces(cs@.take(i as int)),
        decreases cs.len() - i,
    {
        let c = cs[i];
        let ghost prev = crate::text::seqs_view(pieces@);
        let ghost prev_cur = cur@;
        assert(cs@.take(i + 1).drop_last() == cs@.take(i as int));
        if c == '-' || c == '_' {
            pieces.push(cur);
            cur = Vec::new();
            assert(crate::text::seqs_view(pieces@) =~= prev.push(prev_cur));
        } else {
            cur.push(c);
        }
        i = i + 1;
        assert(crate::text::seqs_view(pieces@).push(cur@) =~= title_pieces(cs@.take(i as int)));
    }
    let ghost before_last = crate::text::seqs_view(pieces@);
    let ghost last = cur@;
    pieces.push(cur);
    assert(crate::text::seqs_view(pieces@) =~= before_last.push(last));
    assert(cs@.take(cs.len() as int) == cs@);
    let ghost ps = crate::text::seqs_view(pieces@);
    let mut out: Vec<char> = Vec::new();
    let mut k: usize = 0;
    while k < pieces.len()
        invariant
            k <= pieces@.len(),
            ps == crate::text::seqs_view(pieces@),
            out@ == join_title(ps.take(k as int)),
        decreases pieces.len() - k,
    {
        let w = &pieces[k];
        assert(ps.take(k + 1).drop_last() == ps.take(k as int));
        assert(ps.take(k + 1).last() == w@);
        if w.len() > 0 {
            if out.len() > 0 {
                extend_str(&mut out, " ");
            }
            let up = uppercase(w.as_slice());
            extend_chars(&mut out, up.as_slice());
        }
        k = k + 1;
    }
    assert(ps.take(k as int) == ps);
    string_of(out.as_slice())
}

/// Appends the canonical text projection of `report` to `writer`.
pub fn write_analysis_report(writer: &mut String, report: &AnalysisReport)
    ensures
        final(writer)@ == old(writer)@ + render_report(report@),
{
    let rendered = render_analysis_report(report);
    let mut out = chars_of(writer.as_str());
    let rc = chars_of(rendered.as_str());
    extend_chars(&mut out, rc.as_slice());
    *writer = string_of(out.as_slice());
}

/// Renders the canonical text projection into an owned string.
pub fn render_analysis_report(report: &AnalysisReport) -> (s: String)
    ensures
        s@ == render_report(report@),
{
    let title = analysis_title(report.analysis.as_str());
    let mut out = chars_of(title.as_str());
    extend_str(&mut out, "\n");
    push_claims(&mut out, &report.claims, 0);
    let ghost fs = report@.findings;
    let ghost claimed = out@;
    let mut i: usize = 0;
    while i < report.findings.len()
        invariant
            i <= report.findings@.len(),
            fs == report@.findings,
            fs.len() == report.findings@.len(),
            out@ == render_findings(claimed, fs.take(i as int)),
        decreases report.findings.len() - i,
    {
        push_finding(&mut out, &report.findings[i], i + 1);
        assert(fs.take(i + 1).drop_last() == fs.take(i as int));
        assert(fs[i as int] == report.findings@[i as int]@);
        i = i + 1;
    }
    assert(fs.take(i as int) == fs);
    string_of(out.as_slice())
}

/// One terse line per report-level `UNKNOWN` claim.
pub open spec fn terse_unknowns(cs: Seq<ClaimSpec>) -> Seq<char>
    decreases cs.len(),
{
    if cs.len() == 0 {
        Seq::empty()
    } else {
        let acc = terse_unknowns(cs.drop_last());
        if cs.last().kind == ClaimKind::Unknown {
            acc + "U C"@ + decimal(cs.len()) + " "@ + cs.last().message + "\n"@
        } else {
            acc
        }
    }
}

pub open spec fn has_unknown(cs: Seq<ClaimSpec>) -> bool {
    exists|i: int| 0 <= i < cs.len() && (#[trigger] cs[i]).kind == ClaimKind::Unknown
}

pub open spec fn terse_claims(cs: Seq<ClaimSpec>) -> Seq<char>
    decreases cs.len(),
{
    if cs.len() == 0 {
        Seq::empty()
    } else {
        terse_claims(cs.drop_last()) + "  C"@ + decimal(cs.len()) + " "@ + claim_token(
            cs.last().kind,
        ) + " "@ + cs.last().message + "\n"@
    }
}

pub open spec fn terse_finding(f: FindingSpec, number: nat) -> Seq<char> {
    let head = "F"@ + decimal(number) + " "@ + f.kind + match f.location {
        Some(l) => " @"@ + location_text(l),
        None => Seq::empty(),
    } + "\n"@;
    head + terse_claims(f.claims) + match f.question {
        Some(q) => "  Q "@ + q + "\n"@,
        None => Seq::empty(),
    }
}

pub open spec fn terse_findings(fs: Seq<FindingSpec>) -> Seq<char>
    decreases fs.len(),
{
    if fs.len() == 0 {
        Seq::empty()
    } else {
        terse_findings(fs.drop_last()) + terse_finding(fs.last(), fs.len())
    }
}

/// The terse projection: report-level unknowns, then each finding with its
/// report-local references; `NO_FINDINGS` when nothing was emitted.
pub open spec fn render_terse(r: ReportSpec) -> Seq<char> {
    if !has_unknown(r.claims) && r.findings.len() == 0 {
        "NO_FINDINGS\n"@
    } else {
        terse_unknowns(r.claims) + terse_findings(r.findings)
    }
}

proof fn lemma_no_unknown_is_silent(cs: Seq<ClaimSpec>)
    ensures
        !has_unknown(cs) ==> terse_unknowns(cs) == Seq::<char>::empty(),
    decreases cs.len(),
{
    if cs.len() > 0 && !has_unknown(cs) {
        assert(!has_unknown(cs.drop_last())) by {
            if has_unknown(cs.drop_last()) {
                let j = choose|j: int|
                    0 <= j < cs.drop_last().len() && (#[trigger] cs.drop_last()[j]).kind
                        == ClaimKind::Unknown;
                assert(cs[j] == cs.drop_last()[j]);
            }
        }
        lemma_no_unknown_is_silent(cs.drop_last());
        assert(cs[cs.len() - 1] == cs.last());
    }
}

#[verifier::spinoff_prover]
#[verifier::rlimit(40)]
fn push_terse_finding(out: &mut Vec<char>, finding: &Finding, number: usize)
    ensures
        final(out)@ == old(out)@ + terse_finding(finding@, number as nat),
{
    extend_str(out, "F");
    push_decimal(out, number);
    extend_str(out, " ");
    extend_str(out, finding.kind.as_str());
    if let Some(location) = &finding.location {
        extend_str(out, " @");
        push_location(out, location);
    }
    extend_str(out, "\n");
    let ghost head = out@;
    let ghost cs = finding@.claims;
    let mut i: usize = 0;
    while i < finding.claims.len()
        invariant
            i <= finding.claims@.len(),
            cs == finding@.claims,
            cs.len() == finding.claims@.len(),
            out@ == head + terse_claims(cs.take(i as int)),
        decreases finding.claims.len() - i,
    {
        let claim = &finding.claims[i];
        extend_str(out, "  C");
        push_decimal(out, i + 1);
        extend_str(out, " ");
        extend_str(out, claim_kind_token(claim.kind));
        extend_str(out, " ");
        extend_str(out, claim.message.as_str());
        extend_str(out, "\n");
        assert(cs.take(i + 1).drop_last() == cs.take(i as int));
        assert(cs[i as int] == claim@);
        i = i + 1;
        assert(out@ =~= head + terse_claims(cs.take(i as int)));
    }
    assert(cs.take(i as int) == cs);
    if let Some(question) = &finding.question {
        extend_str(out, "  Q ");
        extend_str(out, question.as_str());
        extend_str(out, "\n");
    }
    assert(out@ =~= old(out)@ + terse_finding(finding@, number as nat));
}

/// Experimental agent-oriented projection over the same report. References
/// are report-local: `F1` is the first finding, `F1.C2` its second claim,
/// `C1` the first report-level claim.
pub fn render_terse_analysis_report(report: &AnalysisReport) -> (s: String)
    ensures
        s@ == render_terse(report@),
{
    let mut out: Vec<char> = Vec::new();
    let mut emitted = false;
    let ghost cs = report@.claims;
    let mut i: usize = 0;
    while i < report.claims.len()
        invariant
            i <= report.claims@.len(),
            cs == report@.claims,
            cs.len() == report.claims@.len(),
            out@ == terse_unknowns(cs.take(i as int)),
            emitted == has_unknown(cs.take(i as int)),
        decreases report.claims.len() - i,
    {
        let claim = &report.claims[i];
        assert(cs.take(i + 1).drop_last() == cs.take(i as int));
        assert(cs[i as int] == claim@);
        assert(cs.take(i + 1).last() == claim@);
        if matches!(claim.kind, ClaimKind::Unknown) {
            extend_str(&mut out, "U C");
            push_decimal(&mut out, i + 1);
            extend_str(&mut out, " ");
            extend_str(&mut out, claim.message.as_str());
            extend_str(&mut out, "\n");
            emitted = true;
            assert(cs.take(i + 1)[i as int].kind == ClaimKind::Unknown);
        } else {
            proof {
                if has_unknown(cs.take(i + 1)) {
                    let j = choose|j: int|
                        0 <= j < cs.take(i + 1).len() && (#[trigger] cs.take(i + 1)[j]).kind
                            == ClaimKind::Unknown;
                    assert(cs.take(i as int)[j] == cs.take(i + 1)[j]);
                }
            }
        }
        i = i + 1;
        proof {
            if has_unknown(cs.take(i - 1)) {
                let j = choose|j: int|
                    0 <= j < cs.take(i - 1).len() && (#[trigger] cs.take(i - 1)[j]).kind
                        == ClaimKind::Unknown;
                assert(cs.take(i as int)[j] == cs.take(i - 1)[j]);
            }
        }
        assert(out@ =~= terse_unknowns(cs.take(i as int)));
    }
    assert(cs.take(i as int) == cs);
    let ghost fs = report@.findings;
    let ghost after_claims = out@;
    let mut k: usize = 0;
    while k < report.findings.len()
        invariant
            k <= report.findings@.len(),
            fs == report@.findings,
            fs.len() == report.findings@.len(),
            out@ == after_claims + terse_findings(fs.take(k as int)),
        decreases report.findings.len() - k,
    {
        push_terse_finding(&mut out, &report.findings[k], k + 1);
        assert(fs.take(k + 1).drop_last() == fs.take(k as int));
        assert(fs[k as int] == report.findings@[k as int]@);
        k = k + 1;
        assert(out@ =~= after_claims + terse_findings(fs.take(k as int)));
    }
    assert(fs.take(k as int) == fs);
    if report.findings.len() > 0 {
        emitted = true;
    }
    proof {
        lemma_no_unknown_is_silent(cs);
    }
    if !emitted {
        extend_str(&mut out, "NO_FINDINGS\n");
    }
    string_of(out.as_slice())
}

} // verus!

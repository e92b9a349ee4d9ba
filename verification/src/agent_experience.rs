//! Agent-experience episode batches: bounded, provenance-bearing records of
//! what an agent learned, validated before anything may rely on them.
use vstd::prelude::*;

use crate::text::{
    byte_len, byte_len_at_most, chars_of, decimal, extend_str, is_control, is_control_exec,
    is_ascii_hex, is_ascii_hex_exec, is_trimmed, is_ws, is_ws_exec, push_decimal, split_chars,
    split_on, trim,
};
use crate::validate::{
    contains_string, either, first_error, lemma_first_error_stable, lemma_first_error_step, msg, repeats_earlier,
    repeats_earlier_exec, strings_view,
};

verus! {

pub const AGENT_EXPERIENCE_SCHEMA_VERSION: u32 = 1;

pub const MAX_AGENT_EXPERIENCE_BATCH_BYTES: usize = 524288;

pub const MAX_EPISODES: usize = 128;

pub const MAX_ITEMS: usize = 256;

pub const MAX_ID_BYTES: usize = 512;

pub const MAX_TEXT_BYTES: usize = 16384;

#[derive(Debug)]
pub struct AgentExperienceBatch {
    pub schema_version: u32,
    pub episodes: Vec<AgentExperienceEpisode>,
}

#[derive(Debug)]
pub struct AgentExperienceEpisode {
    pub id: String,
    pub repository: String,
    pub revision: Option<String>,
    pub work: String,
    pub failure_class: Option<String>,
    pub roles: Vec<ExperienceRole>,
    pub discriminators: Vec<ExperienceDiscriminator>,
    pub evidence_refs: Vec<String>,
    pub counterexample_refs: Vec<String>,
    pub interventions: Vec<OperatorIntervention>,
    pub lessons: Vec<ExperienceLesson>,
    pub persistence: Vec<PersistenceArtifact>,
    pub cost: Option<ExactCost>,
    pub behavioral_evaluation_refs: Vec<String>,
    pub validated_repositories: Vec<String>,
    pub automatic_policy_authority: bool,
}

#[derive(Debug, Clone, Copy, Eq, PartialEq, Structural)]
pub enum ExperienceRole {
    ContextBriefDefect,
    EnvironmentDefect,
    WorkerCapabilityDefect,
    ReviewMiss,
    IntegrationOnlyDefect,
    RejectedLesson,
    PromotedDeterministicCheck,
    CounterexampleToRoutingHeuristic,
    CrossRepositoryReusableTechnique,
    OperatorIntervention,
    BehavioralNullResult,
}

#[derive(Debug)]
pub struct ExperienceDiscriminator {
    pub id: String,
    pub kind: DiscriminatorKind,
    pub key: String,
    pub value: String,
    pub source_ref: String,
}

#[derive(Debug, Clone, Copy, Eq, PartialEq, Structural)]
pub enum DiscriminatorKind {
    Applicability,
    Outcome,
}

#[derive(Debug)]
pub struct OperatorIntervention {
    pub actor: String,
    pub action: String,
    pub source_ref: String,
    pub outcome: String,
}

#[derive(Debug)]
pub struct ExperienceLesson {
    pub id: String,
    pub statement: String,
    pub status: LessonStatus,
    pub discriminator_refs: Vec<String>,
    pub counterexample_refs: Vec<String>,
    pub persistence_refs: Vec<String>,
    pub source_refs: Vec<String>,
}

#[derive(Debug, Clone, Copy, Eq, PartialEq, Structural)]
pub enum LessonStatus {
    Candidate,
    Retained,
    Weakened,
    Rejected,
    Promoted,
}

#[derive(Debug)]
pub struct PersistenceArtifact {
    pub id: String,
    pub kind: PersistenceKind,
    pub reference: String,
    pub effect: String,
}

#[derive(Debug, Clone, Copy, Eq, PartialEq, Structural)]
pub enum PersistenceKind {
    ResearchReceipt,
    BriefContract,
    ReviewCue,
    DeterministicCheck,
    CounterexampleTest,
    DecisionRecord,
    OperatingGuidance,
    ReusableTechnique,
}

#[derive(Debug)]
pub struct ExactCost {
    pub input_tokens: Option<u64>,
    pub output_tokens: Option<u64>,
    pub reasoning_tokens: Option<u64>,
    pub hosted_ci_runs: Option<u64>,
    pub repair_turns: Option<u64>,
}

/// Why a batch was refused.
#[derive(Debug)]
pub struct AgentExperienceError {
    message: String,
}

impl AgentExperienceError {
    pub closed spec fn spec_message(&self) -> Seq<char> {
        self.message@
    }

    fn new(message: Vec<char>) -> (e: AgentExperienceError)
        ensures
            e.spec_message() == message@,
    {
        AgentExperienceError { message: crate::text::string_of(message.as_slice()) }
    }

    /// The refusal's text.
    pub fn to_string(&self) -> (s: String)
        ensures
            s@ == self.spec_message(),
    {
        self.message.clone()
    }
}

// ---------------------------------------------------------------------------
// Field checks.

/// A character that text fields may not hold: NUL, or a control character
/// other than newline and tab.
pub open spec fn forbidden_control(c: char) -> bool {
    c == '\0' || (is_control(c) && c != '\n' && c != '\t')
}

/// A text field: non-empty, trimmed, at most `max` UTF-8 bytes, free of
/// forbidden control characters.
pub open spec fn text_error(v: Seq<char>, field: Seq<char>, max: nat) -> Option<Seq<char>> {
    if v.len() == 0 || byte_len(v) > max || trim(v) != v {
        Some(field + " must be non-empty, trimmed, and at most "@ + decimal(max) + " bytes"@)
    } else if exists|i: int| 0 <= i < v.len() && forbidden_control(#[trigger] v[i]) {
        Some(field + " contains unsupported control characters"@)
    } else {
        None
    }
}

/// An atom: a text field without whitespace.
pub open spec fn atom_error(v: Seq<char>, field: Seq<char>, max: nat) -> Option<Seq<char>> {
    either(
        text_error(v, field, max),
        if exists|i: int| 0 <= i < v.len() && is_ws(#[trigger] v[i]) {
            Some(field + " must be a whitespace-free atom"@)
        } else {
            None
        },
    )
}

/// `owner/repository`: exactly two non-empty `/`-separated components.
pub open spec fn owner_repository(v: Seq<char>) -> bool {
    let parts = split_on(v, '/');
    parts.len() == 2 && parts[0].len() > 0 && parts[1].len() > 0
}

pub open spec fn repository_error(v: Seq<char>, field: Seq<char>) -> Option<Seq<char>> {
    either(
        atom_error(v, field, MAX_ID_BYTES as nat),
        if !owner_repository(v) {
            Some(field + " must use owner/repository syntax"@)
        } else {
            None
        },
    )
}

/// An exact Git revision: forty ASCII hex digits (forty characters and
/// forty bytes alike, since every such character is one byte).
pub open spec fn revision_error(v: Seq<char>) -> Option<Seq<char>> {
    if v.len() == 40 && forall|i: int| 0 <= i < v.len() ==> is_ascii_hex(#[trigger] v[i]) {
        None
    } else {
        Some("revision must be an exact 40-hex Git revision"@)
    }
}

fn bad_control_exec(c: char) -> (r: bool)
    ensures
        r == forbidden_control(c),
{
    c == '\0' || (is_control_exec(c) && c != '\n' && c != '\t')
}

fn text_check(v: &str, field: &str, max: usize) -> (r: Option<Vec<char>>)
    ensures
        msg(r) == text_error(v@, field@, max as nat),
{
    let cs = chars_of(v);
    if cs.len() == 0 || !byte_len_at_most(cs.as_slice(), max) || !is_trimmed(cs.as_slice()) {
        let mut m = chars_of(field);
        extend_str(&mut m, " must be non-empty, trimmed, and at most ");
        push_decimal(&mut m, max);
        extend_str(&mut m, " bytes");
        return Some(m);
    }
    let mut i: usize = 0;
    while i < cs.len()
        invariant
            i <= cs@.len(),
            cs@ == v@,
            !(v@.len() == 0 || byte_len(v@) > max || trim(v@) != v@),
            forall|k: int| 0 <= k < i ==> !forbidden_control(#[trigger] cs@[k]),
        decreases cs.len() - i,
    {
        if bad_control_exec(cs[i]) {
            assert(forbidden_control(v@[i as int]));
            let mut m = chars_of(field);
            extend_str(&mut m, " contains unsupported control characters");
            return Some(m);
        }
        i = i + 1;
    }
    None
}

fn atom_check(v: &str, field: &str, max: usize) -> (r: Option<Vec<char>>)
    ensures
        msg(r) == atom_error(v@, field@, max as nat),
{
    match text_check(v, field, max) {
        Some(m) => return Some(m),
        None => {},
    }
    let cs = chars_of(v);
    let mut i: usize = 0;
    while i < cs.len()
        invariant
            i <= cs@.len(),
            cs@ == v@,
            text_error(v@, field@, max as nat) is None,
            forall|k: int| 0 <= k < i ==> !is_ws(#[trigger] cs@[k]),
        decreases cs.len() - i,
    {
        if is_ws_exec(cs[i]) {
            assert(is_ws(v@[i as int]));
            let mut m = chars_of(field);
            extend_str(&mut m, " must be a whitespace-free atom");
            return Some(m);
        }
        i = i + 1;
    }
    None
}

fn repository_check(v: &str, field: &str) -> (r: Option<Vec<char>>)
    ensures
        msg(r) == repository_error(v@, field@),
{
    match atom_check(v, field, MAX_ID_BYTES) {
        Some(m) => return Some(m),
        None => {},
    }
    let cs = chars_of(v);
    let parts = split_chars(cs.as_slice(), '/');
    proof {
        if parts@.len() == 2 {
            assert(split_on(v@, '/')[0] == parts@[0]@);
            assert(split_on(v@, '/')[1] == parts@[1]@);
        }
    }
    if parts.len() != 2 || parts[0].len() == 0 || parts[1].len() == 0 {
        let mut m = chars_of(field);
        extend_str(&mut m, " must use owner/repository syntax");
        return Some(m);
    }
    None
}

fn revision_check(v: &str) -> (r: Option<Vec<char>>)
    ensures
        msg(r) == revision_error(v@),
{
    let cs = chars_of(v);
    let mut ok = cs.len() == 40;
    let mut i: usize = 0;
    while i < cs.len() && ok
        invariant
            i <= cs@.len(),
            cs@ == v@,
            ok ==> cs@.len() == 40,
            ok ==> forall|k: int| 0 <= k < i ==> is_ascii_hex(#[trigger] cs@[k]),
            !ok ==> !(cs@.len() == 40 && forall|k: int|
                0 <= k < cs@.len() ==> is_ascii_hex(#[trigger] cs@[k])),
        decreases cs.len() - i,
    {
        if !is_ascii_hex_exec(cs[i]) {
            ok = false;
        }
        i = i + 1;
    }
    if ok {
        None
    } else {
        Some(chars_of("revision must be an exact 40-hex Git revision"))
    }
}

// ---------------------------------------------------------------------------
// Collections of references and repositories.

pub open spec fn reference_item_error(values: Seq<Seq<char>>, field: Seq<char>, i: int) -> Option<
    Seq<char>,
> {
    either(
        text_error(values[i], field, MAX_TEXT_BYTES as nat),
        if repeats_earlier(values, i) {
            Some(field + " must not contain duplicates"@)
        } else {
            None
        },
    )
}

/// A set of references: bounded (and non-empty unless `allow_empty`), each
/// a text field, none repeated.
pub open spec fn reference_set_error(values: Seq<Seq<char>>, field: Seq<char>, allow_empty: bool) -> Option<
    Seq<char>,
> {
    if (!allow_empty && values.len() == 0) || values.len() > MAX_ITEMS {
        Some(
            field + " must be bounded"@ + if allow_empty {
                Seq::<char>::empty()
            } else {
                " and non-empty"@
            },
        )
    } else {
        first_error(values.len(), |i: int| reference_item_error(values, field, i))
    }
}

pub open spec fn repository_item_error(values: Seq<Seq<char>>, field: Seq<char>, i: int) -> Option<
    Seq<char>,
> {
    either(
        repository_error(values[i], field),
        if repeats_earlier(values, i) {
            Some(field + " must not contain duplicates"@)
        } else {
            None
        },
    )
}

/// A non-empty bounded set of distinct `owner/repository` names.
pub open spec fn repository_set_error(values: Seq<Seq<char>>, field: Seq<char>) -> Option<Seq<char>> {
    if values.len() == 0 || values.len() > MAX_ITEMS {
        Some(field + " must be bounded and non-empty"@)
    } else {
        first_error(values.len(), |i: int| repository_item_error(values, field, i))
    }
}

fn duplicate_message(field: &str) -> (m: Vec<char>)
    ensures
        m@ == field@ + " must not contain duplicates"@,
{
    let mut m = chars_of(field);
    extend_str(&mut m, " must not contain duplicates");
    m
}

fn reference_set_check(values: &Vec<String>, field: &str, allow_empty: bool) -> (r: Option<Vec<char>>)
    ensures
        msg(r) == reference_set_error(strings_view(values@), field@, allow_empty),
{
    let ghost vs = strings_view(values@);
    if (!allow_empty && values.len() == 0) || values.len() > MAX_ITEMS {
        let mut m = chars_of(field);
        extend_str(&mut m, " must be bounded");
        if !allow_empty {
            extend_str(&mut m, " and non-empty");
        } else {
            assert(m@ == m@ + Seq::<char>::empty());
        }
        return Some(m);
    }
    let ghost check = |i: int| reference_item_error(vs, field@, i);
    let mut i: usize = 0;
    while i < values.len()
        invariant
            i <= values@.len(),
            vs == strings_view(values@),
            check == (|i: int| reference_item_error(vs, field@, i)),
            !((!allow_empty && values@.len() == 0) || values@.len() > MAX_ITEMS),
            first_error(i as nat, check) is None,
        decreases values.len() - i,
    {
        let item = match text_check(values[i].as_str(), field, MAX_TEXT_BYTES) {
            Some(m) => Some(m),
            None => if repeats_earlier_exec(values, i) {
                Some(duplicate_message(field))
            } else {
                None
            },
        };
        proof {
            lemma_first_error_step(i as nat, check);
            assert(msg(item) == check(i as int));
        }
        if let Some(m) = item {
            proof {
                lemma_first_error_stable((i + 1) as nat, values@.len(), check);
            }
            return Some(m);
        }
        i = i + 1;
    }
    None
}

fn repository_set_check(values: &Vec<String>, field: &str) -> (r: Option<Vec<char>>)
    ensures
        msg(r) == repository_set_error(strings_view(values@), field@),
{
    let ghost vs = strings_view(values@);
    if values.len() == 0 || values.len() > MAX_ITEMS {
        let mut m = chars_of(field);
        extend_str(&mut m, " must be bounded and non-empty");
        return Some(m);
    }
    let ghost check = |i: int| repository_item_error(vs, field@, i);
    let mut i: usize = 0;
    while i < values.len()
        invariant
            i <= values@.len(),
            vs == strings_view(values@),
            check == (|i: int| repository_item_error(vs, field@, i)),
            !(values@.len() == 0 || values@.len() > MAX_ITEMS),
            first_error(i as nat, check) is None,
        decreases values.len() - i,
    {
        let item = match repository_check(values[i].as_str(), field) {
            Some(m) => Some(m),
            None => if repeats_earlier_exec(values, i) {
                Some(duplicate_message(field))
            } else {
                None
            },
        };
        proof {
            lemma_first_error_step(i as nat, check);
            assert(msg(item) == check(i as int));
        }
        if let Some(m) = item {
            proof {
                lemma_first_error_stable((i + 1) as nat, values@.len(), check);
            }
            return Some(m);
        }
        i = i + 1;
    }
    None
}

// ---------------------------------------------------------------------------
// Identifier lists.

pub open spec fn discriminator_ids(ds: Seq<ExperienceDiscriminator>) -> Seq<Seq<char>> {
    ds.map_values(|d: ExperienceDiscriminator| d.id@)
}

pub open spec fn persistence_ids(ps: Seq<PersistenceArtifact>) -> Seq<Seq<char>> {
    ps.map_values(|p: PersistenceArtifact| p.id@)
}

pub open spec fn lesson_ids(ls: Seq<ExperienceLesson>) -> Seq<Seq<char>> {
    ls.map_values(|l: ExperienceLesson| l.id@)
}

pub open spec fn episode_ids(es: Seq<AgentExperienceEpisode>) -> Seq<Seq<char>> {
    es.map_values(|e: AgentExperienceEpisode| e.id@)
}

fn discriminator_id_list(ds: &Vec<ExperienceDiscriminator>) -> (r: Vec<String>)
    ensures
        strings_view(r@) == discriminator_ids(ds@),
        r@.len() == ds@.len(),
{
    let mut r: Vec<String> = Vec::new();
    let mut i: usize = 0;
    while i < ds.len()
        invariant
            i <= ds@.len(),
            strings_view(r@) == discriminator_ids(ds@).take(i as int),
            r@.len() == i,
        decreases ds.len() - i,
    {
        let ghost prev = r@;
        let id = ds[i].id.clone();
        r.push(id);
        assert(r@ == prev.push(id));
        assert(strings_view(r@)[i as int] == discriminator_ids(ds@)[i as int]);
        i = i + 1;
        assert(strings_view(r@) =~= discriminator_ids(ds@).take(i as int));
    }
    assert(discriminator_ids(ds@).take(i as int) =~= discriminator_ids(ds@));
    r
}

fn persistence_id_list(ps: &Vec<PersistenceArtifact>) -> (r: Vec<String>)
    ensures
        strings_view(r@) == persistence_ids(ps@),
        r@.len() == ps@.len(),
{
    let mut r: Vec<String> = Vec::new();
    let mut i: usize = 0;
    while i < ps.len()
        invariant
            i <= ps@.len(),
            strings_view(r@) == persistence_ids(ps@).take(i as int),
            r@.len() == i,
        decreases ps.len() - i,
    {
        let ghost prev = r@;
        let id = ps[i].id.clone();
        r.push(id);
        assert(r@ == prev.push(id));
        assert(strings_view(r@)[i as int] == persistence_ids(ps@)[i as int]);
        i = i + 1;
        assert(strings_view(r@) =~= persistence_ids(ps@).take(i as int));
    }
    assert(persistence_ids(ps@).take(i as int) =~= persistence_ids(ps@));
    r
}

fn lesson_id_list(ls: &Vec<ExperienceLesson>) -> (r: Vec<String>)
    ensures
        strings_view(r@) == lesson_ids(ls@),
        r@.len() == ls@.len(),
{
    let mut r: Vec<String> = Vec::new();
    let mut i: usize = 0;
    while i < ls.len()
        invariant
            i <= ls@.len(),
            strings_view(r@) == lesson_ids(ls@).take(i as int),
            r@.len() == i,
        decreases ls.len() - i,
    {
        let ghost prev = r@;
        let id = ls[i].id.clone();
        r.push(id);
        assert(r@ == prev.push(id));
        assert(strings_view(r@)[i as int] == lesson_ids(ls@)[i as int]);
        i = i + 1;
        assert(strings_view(r@) =~= lesson_ids(ls@).take(i as int));
    }
    assert(lesson_ids(ls@).take(i as int) =~= lesson_ids(ls@));
    r
}

fn episode_id_list(es: &Vec<AgentExperienceEpisode>) -> (r: Vec<String>)
    ensures
        strings_view(r@) == episode_ids(es@),
        r@.len() == es@.len(),
{
    let mut r: Vec<String> = Vec::new();
    let mut i: usize = 0;
    while i < es.len()
        invariant
            i <= es@.len(),
            strings_view(r@) == episode_ids(es@).take(i as int),
            r@.len() == i,
        decreases es.len() - i,
    {
        let ghost prev = r@;
        let id = es[i].id.clone();
        r.push(id);
        assert(r@ == prev.push(id));
        assert(strings_view(r@)[i as int] == episode_ids(es@)[i as int]);
        i = i + 1;
        assert(strings_view(r@) =~= episode_ids(es@).take(i as int));
    }
    assert(episode_ids(es@).take(i as int) =~= episode_ids(es@));
    r
}

fn prefixed(prefix: &str, value: &str) -> (m: Vec<char>)
    ensures
        m@ == prefix@ + value@,
{
    let mut m = chars_of(prefix);
    extend_str(&mut m, value);
    m
}

// ---------------------------------------------------------------------------
// Roles, discriminators, interventions, persistence.

/// Roles: bounded, non-empty, each at most once.
pub open spec fn roles_error(roles: Seq<ExperienceRole>) -> Option<Seq<char>> {
    if roles.len() == 0 || roles.len() > MAX_ITEMS {
        Some("roles must be bounded and non-empty"@)
    } else if exists|i: int, j: int| 0 <= i < j < roles.len() && roles[i] == roles[j] {
        Some("roles must be unique"@)
    } else {
        None
    }
}

fn roles_check(roles: &Vec<ExperienceRole>) -> (r: Option<Vec<char>>)
    ensures
        msg(r) == roles_error(roles@),
{
    if roles.len() == 0 || roles.len() > MAX_ITEMS {
        return Some(chars_of("roles must be bounded and non-empty"));
    }
    let mut j: usize = 0;
    while j < roles.len()
        invariant
            j <= roles@.len(),
            0 < roles@.len() <= MAX_ITEMS,
            forall|a: int, b: int| 0 <= a < b < j ==> roles@[a] != roles@[b],
        decreases roles.len() - j,
    {
        let mut i: usize = 0;
        while i < j
            invariant
                i <= j < roles@.len(),
                0 < roles@.len() <= MAX_ITEMS,
                forall|a: int| 0 <= a < i ==> roles@[a] != roles@[j as int],
            decreases j - i,
        {
            if roles[i] == roles[j] {
                assert(roles@[i as int] == roles@[j as int]);
                return Some(chars_of("roles must be unique"));
            }
            i = i + 1;
        }
        j = j + 1;
    }
    None
}

pub open spec fn discriminator_item_error(ds: Seq<ExperienceDiscriminator>, i: int) -> Option<
    Seq<char>,
> {
    let d = ds[i];
    either(
        atom_error(d.id@, "discriminator id"@, MAX_ID_BYTES as nat),
        either(
            atom_error(d.key@, "discriminator key"@, MAX_ID_BYTES as nat),
            either(
                text_error(d.value@, "discriminator value"@, MAX_TEXT_BYTES as nat),
                either(
                    text_error(d.source_ref@, "discriminator source_ref"@, MAX_TEXT_BYTES as nat),
                    if repeats_earlier(discriminator_ids(ds), i) {
                        Some("duplicate discriminator id "@ + d.id@)
                    } else {
                        None
                    },
                ),
            ),
        ),
    )
}

/// Discriminators: bounded, non-empty, well-formed, with distinct ids.
pub open spec fn discriminators_error(ds: Seq<ExperienceDiscriminator>) -> Option<Seq<char>> {
    if ds.len() == 0 || ds.len() > MAX_ITEMS {
        Some("discriminators must be bounded and non-empty"@)
    } else {
        first_error(ds.len(), |i: int| discriminator_item_error(ds, i))
    }
}

fn discriminators_check(ds: &Vec<ExperienceDiscriminator>) -> (r: Option<Vec<char>>)
    ensures
        msg(r) == discriminators_error(ds@),
{
    if ds.len() == 0 || ds.len() > MAX_ITEMS {
        return Some(chars_of("discriminators must be bounded and non-empty"));
    }
    let ids = discriminator_id_list(ds);
    let ghost check = |i: int| discriminator_item_error(ds@, i);
    let mut i: usize = 0;
    while i < ds.len()
        invariant
            i <= ds@.len(),
            !(ds@.len() == 0 || ds@.len() > MAX_ITEMS),
            strings_view(ids@) == discriminator_ids(ds@),
            ids@.len() == ds@.len(),
            check == (|i: int| discriminator_item_error(ds@, i)),
            first_error(i as nat, check) is None,
        decreases ds.len() - i,
    {
        let d = &ds[i];
        let item = match atom_check(d.id.as_str(), "discriminator id", MAX_ID_BYTES) {
            Some(m) => Some(m),
            None => match atom_check(d.key.as_str(), "discriminator key", MAX_ID_BYTES) {
                Some(m) => Some(m),
                None => match text_check(d.value.as_str(), "discriminator value", MAX_TEXT_BYTES) {
                    Some(m) => Some(m),
                    None => match text_check(
                        d.source_ref.as_str(),
                        "discriminator source_ref",
                        MAX_TEXT_BYTES,
                    ) {
                        Some(m) => Some(m),
                        None => if repeats_earlier_exec(&ids, i) {
                            Some(prefixed("duplicate discriminator id ", d.id.as_str()))
                        } else {
                            None
                        },
                    },
                },
            },
        };
        proof {
            lemma_first_error_step(i as nat, check);
            assert(msg(item) == check(i as int));
        }
        if let Some(m) = item {
            proof {
                lemma_first_error_stable((i + 1) as nat, ds@.len(), check);
            }
            return Some(m);
        }
        i = i + 1;
    }
    None
}

pub open spec fn intervention_item_error(xs: Seq<OperatorIntervention>, i: int) -> Option<Seq<char>> {
    let x = xs[i];
    either(
        text_error(x.actor@, "intervention actor"@, MAX_TEXT_BYTES as nat),
        either(
            text_error(x.action@, "intervention action"@, MAX_TEXT_BYTES as nat),
            either(
                text_error(x.source_ref@, "intervention source_ref"@, MAX_TEXT_BYTES as nat),
                text_error(x.outcome@, "intervention outcome"@, MAX_TEXT_BYTES as nat),
            ),
        ),
    )
}

/// Interventions: bounded, each a receipt of four text fields.
pub open spec fn interventions_error(xs: Seq<OperatorIntervention>) -> Option<Seq<char>> {
    if xs.len() > MAX_ITEMS {
        Some("too many interventions"@)
    } else {
        first_error(xs.len(), |i: int| intervention_item_error(xs, i))
    }
}

fn interventions_check(xs: &Vec<OperatorIntervention>) -> (r: Option<Vec<char>>)
    ensures
        msg(r) == interventions_error(xs@),
{
    if xs.len() > MAX_ITEMS {
        return Some(chars_of("too many interventions"));
    }
    let ghost check = |i: int| intervention_item_error(xs@, i);
    let mut i: usize = 0;
    while i < xs.len()
        invariant
            i <= xs@.len() <= MAX_ITEMS,
            check == (|i: int| intervention_item_error(xs@, i)),
            first_error(i as nat, check) is None,
        decreases xs.len() - i,
    {
        let x = &xs[i];
        let item = match text_check(x.actor.as_str(), "intervention actor", MAX_TEXT_BYTES) {
            Some(m) => Some(m),
            None => match text_check(x.action.as_str(), "intervention action", MAX_TEXT_BYTES) {
                Some(m) => Some(m),
                None => match text_check(
                    x.source_ref.as_str(),
                    "intervention source_ref",
                    MAX_TEXT_BYTES,
                ) {
                    Some(m) => Some(m),
                    None => text_check(x.outcome.as_str(), "intervention outcome", MAX_TEXT_BYTES),
                },
            },
        };
        proof {
            lemma_first_error_step(i as nat, check);
            assert(msg(item) == check(i as int));
        }
        if let Some(m) = item {
            proof {
                lemma_first_error_stable((i + 1) as nat, xs@.len(), check);
            }
            return Some(m);
        }
        i = i + 1;
    }
    None
}

pub open spec fn persistence_item_error(ps: Seq<PersistenceArtifact>, i: int) -> Option<Seq<char>> {
    let p = ps[i];
    either(
        atom_error(p.id@, "persistence id"@, MAX_ID_BYTES as nat),
        either(
            text_error(p.reference@, "persistence reference"@, MAX_TEXT_BYTES as nat),
            either(
                text_error(p.effect@, "persistence effect"@, MAX_TEXT_BYTES as nat),
                if repeats_earlier(persistence_ids(ps), i) {
                    Some("duplicate persistence id "@ + p.id@)
                } else {
                    None
                },
            ),
        ),
    )
}

/// Persistence artifacts: bounded, well-formed, with distinct ids.
pub open spec fn persistence_error(ps: Seq<PersistenceArtifact>) -> Option<Seq<char>> {
    if ps.len() > MAX_ITEMS {
        Some("too many persistence artifacts"@)
    } else {
        first_error(ps.len(), |i: int| persistence_item_error(ps, i))
    }
}

fn persistence_check(ps: &Vec<PersistenceArtifact>) -> (r: Option<Vec<char>>)
    ensures
        msg(r) == persistence_error(ps@),
{
    if ps.len() > MAX_ITEMS {
        return Some(chars_of("too many persistence artifacts"));
    }
    let ids = persistence_id_list(ps);
    let ghost check = |i: int| persistence_item_error(ps@, i);
    let mut i: usize = 0;
    while i < ps.len()
        invariant
            i <= ps@.len() <= MAX_ITEMS,
            strings_view(ids@) == persistence_ids(ps@),
            ids@.len() == ps@.len(),
            check == (|i: int| persistence_item_error(ps@, i)),
            first_error(i as nat, check) is None,
        decreases ps.len() - i,
    {
        let p = &ps[i];
        let item = match atom_check(p.id.as_str(), "persistence id", MAX_ID_BYTES) {
            Some(m) => Some(m),
            None => match text_check(p.reference.as_str(), "persistence reference", MAX_TEXT_BYTES) {
                Some(m) => Some(m),
                None => match text_check(p.effect.as_str(), "persistence effect", MAX_TEXT_BYTES) {
                    Some(m) => Some(m),
                    None => if repeats_earlier_exec(&ids, i) {
                        Some(prefixed("duplicate persistence id ", p.id.as_str()))
                    } else {
                        None
                    },
                },
            },
        };
        proof {
            lemma_first_error_step(i as nat, check);
            assert(msg(item) == check(i as int));
        }
        if let Some(m) = item {
            proof {
                lemma_first_error_stable((i + 1) as nat, ps@.len(), check);
            }
            return Some(m);
        }
        i = i + 1;
    }
    None
}

// ---------------------------------------------------------------------------
// Lessons.

pub open spec fn lesson_discriminator_error(
    l: ExperienceLesson,
    ds: Seq<ExperienceDiscriminator>,
    k: int,
) -> Option<Seq<char>> {
    let refs = strings_view(l.discriminator_refs@);
    either(
        atom_error(refs[k], "lesson discriminator_ref"@, MAX_ID_BYTES as nat),
        if !discriminator_ids(ds).contains(refs[k]) {
            Some("lesson "@ + l.id@ + " references unknown discriminator "@ + refs[k])
        } else if repeats_earlier(refs, k) {
            Some("lesson "@ + l.id@ + " repeats discriminator "@ + refs[k])
        } else {
            None
        },
    )
}

pub open spec fn lesson_persistence_error(l: ExperienceLesson, ps: Seq<PersistenceArtifact>, k: int) -> Option<
    Seq<char>,
> {
    let refs = strings_view(l.persistence_refs@);
    either(
        atom_error(refs[k], "lesson persistence_ref"@, MAX_ID_BYTES as nat),
        if !persistence_ids(ps).contains(refs[k]) {
            Some("lesson "@ + l.id@ + " references unknown persistence artifact "@ + refs[k])
        } else if repeats_earlier(refs, k) {
            Some("lesson "@ + l.id@ + " repeats persistence artifact "@ + refs[k])
        } else {
            None
        },
    )
}

/// One of the lesson's discriminator references names an applicability
/// discriminator (discriminator ids are distinct by the time lessons are
/// checked, so the reference names exactly one discriminator).
pub open spec fn names_applicability(l: ExperienceLesson, ds: Seq<ExperienceDiscriminator>) -> bool {
    exists|k: int, j: int|
        0 <= k < l.discriminator_refs@.len() && 0 <= j < ds.len() && (#[trigger] ds[j]).id@
            == (#[trigger] l.discriminator_refs@[k])@ && ds[j].kind == DiscriminatorKind::Applicability
}

/// A lesson: well-formed fields, bounded distinct references to known
/// discriminators (one of them an applicability discriminator) and known
/// persistence artifacts; a promoted lesson names an artifact.
pub open spec fn lesson_error(
    l: ExperienceLesson,
    ds: Seq<ExperienceDiscriminator>,
    ps: Seq<PersistenceArtifact>,
) -> Option<Seq<char>> {
    either(
        atom_error(l.id@, "lesson id"@, MAX_ID_BYTES as nat),
        either(
            text_error(l.statement@, "lesson statement"@, MAX_TEXT_BYTES as nat),
            either(
                reference_set_error(strings_view(l.source_refs@), "lesson source_refs"@, false),
                either(
                    reference_set_error(
                        strings_view(l.counterexample_refs@),
                        "lesson counterexample_refs"@,
                        true,
                    ),
                    lesson_reference_error(l, ds, ps),
                ),
            ),
        ),
    )
}

pub open spec fn lesson_reference_error(
    l: ExperienceLesson,
    ds: Seq<ExperienceDiscriminator>,
    ps: Seq<PersistenceArtifact>,
) -> Option<Seq<char>> {
    if l.discriminator_refs@.len() == 0 || l.discriminator_refs@.len() > MAX_ITEMS {
        Some("lesson "@ + l.id@ + " must name bounded applicability discriminators"@)
    } else {
        either(
            first_error(
                l.discriminator_refs@.len(),
                |k: int| lesson_discriminator_error(l, ds, k),
            ),
            if !names_applicability(l, ds) {
                Some("lesson "@ + l.id@ + " must name at least one applicability discriminator"@)
            } else if l.persistence_refs@.len() > MAX_ITEMS {
                Some("lesson "@ + l.id@ + " has too many persistence_refs"@)
            } else {
                either(
                    first_error(
                        l.persistence_refs@.len(),
                        |k: int| lesson_persistence_error(l, ps, k),
                    ),
                    if l.status == LessonStatus::Promoted && l.persistence_refs@.len() == 0 {
                        Some(
                            "promoted lesson "@ + l.id@
                                + " must name an explicit persistence artifact"@,
                        )
                    } else {
                        None
                    },
                )
            },
        )
    }
}

fn lesson_message(prefix: &str, id: &str, suffix: &str) -> (m: Vec<char>)
    ensures
        m@ == prefix@ + id@ + suffix@,
{
    let mut m = chars_of(prefix);
    extend_str(&mut m, id);
    extend_str(&mut m, suffix);
    m
}

fn lesson_ref_message(id: &str, middle: &str, reference: &str) -> (m: Vec<char>)
    ensures
        m@ == "lesson "@ + id@ + middle@ + reference@,
{
    let mut m = chars_of("lesson ");
    extend_str(&mut m, id);
    extend_str(&mut m, middle);
    extend_str(&mut m, reference);
    m
}

fn names_applicability_exec(l: &ExperienceLesson, ds: &Vec<ExperienceDiscriminator>) -> (r: bool)
    ensures
        r == names_applicability(*l, ds@),
{
    let mut k: usize = 0;
    while k < l.discriminator_refs.len()
        invariant
            k <= l.discriminator_refs@.len(),
            forall|a: int, j: int|
                0 <= a < k && 0 <= j < ds@.len() ==> !((#[trigger] ds@[j]).id@
                    == (#[trigger] l.discriminator_refs@[a])@ && ds@[j].kind
                    == DiscriminatorKind::Applicability),
        decreases l.discriminator_refs.len() - k,
    {
        let rc = chars_of(l.discriminator_refs[k].as_str());
        let mut j: usize = 0;
        while j < ds.len()
            invariant
                k < l.discriminator_refs@.len(),
                j <= ds@.len(),
                rc@ == l.discriminator_refs@[k as int]@,
                forall|b: int|
                    0 <= b < j ==> !((#[trigger] ds@[b]).id@ == l.discriminator_refs@[k as int]@
                        && ds@[b].kind == DiscriminatorKind::Applicability),
            decreases ds.len() - j,
        {
            let dc = chars_of(ds[j].id.as_str());
            if crate::text::chars_eq(dc.as_slice(), rc.as_slice()) && ds[j].kind
                == DiscriminatorKind::Applicability {
                assert(ds@[j as int].id@ == l.discriminator_refs@[k as int]@);
                return true;
            }
            j = j + 1;
        }
        k = k + 1;
    }
    false
}

fn lesson_check(
    l: &ExperienceLesson,
    ds: &Vec<ExperienceDiscriminator>,
    ds_ids: &Vec<String>,
    ps: &Vec<PersistenceArtifact>,
    ps_ids: &Vec<String>,
) -> (r: Option<Vec<char>>)
    requires
        strings_view(ds_ids@) == discriminator_ids(ds@),
        strings_view(ps_ids@) == persistence_ids(ps@),
    ensures
        msg(r) == lesson_error(*l, ds@, ps@),
{
    match atom_check(l.id.as_str(), "lesson id", MAX_ID_BYTES) {
        Some(m) => return Some(m),
        None => {},
    }
    match text_check(l.statement.as_str(), "lesson statement", MAX_TEXT_BYTES) {
        Some(m) => return Some(m),
        None => {},
    }
    match reference_set_check(&l.source_refs, "lesson source_refs", false) {
        Some(m) => return Some(m),
        None => {},
    }
    match reference_set_check(&l.counterexample_refs, "lesson counterexample_refs", true) {
        Some(m) => return Some(m),
        None => {},
    }
    lesson_reference_check(l, ds, ds_ids, ps, ps_ids)
}

fn lesson_reference_check(
    l: &ExperienceLesson,
    ds: &Vec<ExperienceDiscriminator>,
    ds_ids: &Vec<String>,
    ps: &Vec<PersistenceArtifact>,
    ps_ids: &Vec<String>,
) -> (r: Option<Vec<char>>)
    requires
        strings_view(ds_ids@) == discriminator_ids(ds@),
        strings_view(ps_ids@) == persistence_ids(ps@),
    ensures
        msg(r) == lesson_reference_error(*l, ds@, ps@),
{
    if l.discriminator_refs.len() == 0 || l.discriminator_refs.len() > MAX_ITEMS {
        return Some(
            lesson_message("lesson ", l.id.as_str(), " must name bounded applicability discriminators"),
        );
    }
    let ghost dcheck = |k: int| lesson_discriminator_error(*l, ds@, k);
    let mut k: usize = 0;
    while k < l.discriminator_refs.len()
        invariant
            k <= l.discriminator_refs@.len(),
            strings_view(ds_ids@) == discriminator_ids(ds@),
            dcheck == (|k: int| lesson_discriminator_error(*l, ds@, k)),
            first_error(k as nat, dcheck) is None,
            !(l.discriminator_refs@.len() == 0 || l.discriminator_refs@.len() > MAX_ITEMS),
        decreases l.discriminator_refs.len() - k,
    {
        let reference = l.discriminator_refs[k].as_str();
        assert(reference@ == strings_view(l.discriminator_refs@)[k as int]);
        let item = match atom_check(reference, "lesson discriminator_ref", MAX_ID_BYTES) {
            Some(m) => Some(m),
            None => if !contains_string(ds_ids, reference) {
                Some(lesson_ref_message(l.id.as_str(), " references unknown discriminator ", reference))
            } else if repeats_earlier_exec(&l.discriminator_refs, k) {
                Some(lesson_ref_message(l.id.as_str(), " repeats discriminator ", reference))
            } else {
                None
            },
        };
        proof {
            lemma_first_error_step(k as nat, dcheck);
            assert(msg(item) == dcheck(k as int));
        }
        if let Some(m) = item {
            proof {
                lemma_first_error_stable((k + 1) as nat, l.discriminator_refs@.len(), dcheck);
            }
            return Some(m);
        }
        k = k + 1;
    }
    if !names_applicability_exec(l, ds) {
        return Some(
            lesson_message(
                "lesson ",
                l.id.as_str(),
                " must name at least one applicability discriminator",
            ),
        );
    }
    if l.persistence_refs.len() > MAX_ITEMS {
        return Some(lesson_message("lesson ", l.id.as_str(), " has too many persistence_refs"));
    }
    let ghost pcheck = |k: int| lesson_persistence_error(*l, ps@, k);
    let mut k: usize = 0;
    while k < l.persistence_refs.len()
        invariant
            k <= l.persistence_refs@.len(),
            strings_view(ps_ids@) == persistence_ids(ps@),
            pcheck == (|k: int| lesson_persistence_error(*l, ps@, k)),
            first_error(k as nat, pcheck) is None,
            !(l.discriminator_refs@.len() == 0 || l.discriminator_refs@.len() > MAX_ITEMS),
            first_error(
                l.discriminator_refs@.len(),
                |k: int| lesson_discriminator_error(*l, ds@, k),
            ) is None,
            names_applicability(*l, ds@),
            l.persistence_refs@.len() <= MAX_ITEMS,
        decreases l.persistence_refs.len() - k,
    {
        let reference = l.persistence_refs[k].as_str();
        assert(reference@ == strings_view(l.persistence_refs@)[k as int]);
        let item = match atom_check(reference, "lesson persistence_ref", MAX_ID_BYTES) {
            Some(m) => Some(m),
            None => if !contains_string(ps_ids, reference) {
                Some(
                    lesson_ref_message(
                        l.id.as_str(),
                        " references unknown persistence artifact ",
                        reference,
                    ),
                )
            } else if repeats_earlier_exec(&l.persistence_refs, k) {
                Some(lesson_ref_message(l.id.as_str(), " repeats persistence artifact ", reference))
            } else {
                None
            },
        };
        proof {
            lemma_first_error_step(k as nat, pcheck);
            assert(msg(item) == pcheck(k as int));
        }
        if let Some(m) = item {
            proof {
                lemma_first_error_stable((k + 1) as nat, l.persistence_refs@.len(), pcheck);
            }
            return Some(m);
        }
        k = k + 1;
    }
    if l.status == LessonStatus::Promoted && l.persistence_refs.len() == 0 {
        return Some(
            lesson_message(
                "promoted lesson ",
                l.id.as_str(),
                " must name an explicit persistence artifact",
            ),
        );
    }
    None
}

pub open spec fn lesson_item_error(
    ls: Seq<ExperienceLesson>,
    ds: Seq<ExperienceDiscriminator>,
    ps: Seq<PersistenceArtifact>,
    i: int,
) -> Option<Seq<char>> {
    either(
        lesson_error(ls[i], ds, ps),
        if repeats_earlier(lesson_ids(ls), i) {
            Some("duplicate lesson id "@ + ls[i].id@)
        } else {
            None
        },
    )
}

/// Lessons: bounded, non-empty, each valid, with distinct ids.
pub open spec fn lessons_error(
    ls: Seq<ExperienceLesson>,
    ds: Seq<ExperienceDiscriminator>,
    ps: Seq<PersistenceArtifact>,
) -> Option<Seq<char>> {
    if ls.len() == 0 || ls.len() > MAX_ITEMS {
        Some("lessons must be bounded and non-empty"@)
    } else {
        first_error(ls.len(), |i: int| lesson_item_error(ls, ds, ps, i))
    }
}

fn lessons_check(
    ls: &Vec<ExperienceLesson>,
    ds: &Vec<ExperienceDiscriminator>,
    ps: &Vec<PersistenceArtifact>,
) -> (r: Option<Vec<char>>)
    ensures
        msg(r) == lessons_error(ls@, ds@, ps@),
{
    if ls.len() == 0 || ls.len() > MAX_ITEMS {
        return Some(chars_of("lessons must be bounded and non-empty"));
    }
    let ds_ids = discriminator_id_list(ds);
    let ps_ids = persistence_id_list(ps);
    let ids = lesson_id_list(ls);
    let ghost check = |i: int| lesson_item_error(ls@, ds@, ps@, i);
    let mut i: usize = 0;
    while i < ls.len()
        invariant
            i <= ls@.len(),
            !(ls@.len() == 0 || ls@.len() > MAX_ITEMS),
            strings_view(ds_ids@) == discriminator_ids(ds@),
            strings_view(ps_ids@) == persistence_ids(ps@),
            strings_view(ids@) == lesson_ids(ls@),
            ids@.len() == ls@.len(),
            check == (|i: int| lesson_item_error(ls@, ds@, ps@, i)),
            first_error(i as nat, check) is None,
        decreases ls.len() - i,
    {
        let item = match lesson_check(&ls[i], ds, &ds_ids, ps, &ps_ids) {
            Some(m) => Some(m),
            None => if repeats_earlier_exec(&ids, i) {
                Some(prefixed("duplicate lesson id ", ls[i].id.as_str()))
            } else {
                None
            },
        };
        proof {
            lemma_first_error_step(i as nat, check);
            assert(msg(item) == check(i as int));
        }
        if let Some(m) = item {
            proof {
                lemma_first_error_stable((i + 1) as nat, ls@.len(), check);
            }
            return Some(m);
        }
        i = i + 1;
    }
    None
}

// ---------------------------------------------------------------------------
// Cost and role contracts.

/// A recorded cost keeps at least one exact quantity.
pub open spec fn cost_error(cost: Option<ExactCost>) -> Option<Seq<char>> {
    match cost {
        Some(c) => if c.input_tokens is None && c.output_tokens is None && c.reasoning_tokens is None
            && c.hosted_ci_runs is None && c.repair_turns is None {
            Some("cost must preserve at least one exact observed quantity"@)
        } else {
            None
        },
        None => None,
    }
}

fn cost_check(cost: &Option<ExactCost>) -> (r: Option<Vec<char>>)
    ensures
        msg(r) == cost_error(*cost),
{
    match cost {
        Some(c) => if c.input_tokens.is_none() && c.output_tokens.is_none()
            && c.reasoning_tokens.is_none() && c.hosted_ci_runs.is_none()
            && c.repair_turns.is_none() {
            Some(chars_of("cost must preserve at least one exact observed quantity"))
        } else {
            None
        },
        None => None,
    }
}

pub open spec fn has_role(e: AgentExperienceEpisode, role: ExperienceRole) -> bool {
    e.roles@.contains(role)
}

pub open spec fn has_lesson_status(e: AgentExperienceEpisode, a: LessonStatus, b: LessonStatus) -> bool {
    exists|i: int|
        0 <= i < e.lessons@.len() && ((#[trigger] e.lessons@[i]).status == a || e.lessons@[i].status
            == b)
}

pub open spec fn has_persistence_kind(e: AgentExperienceEpisode, kind: PersistenceKind) -> bool {
    exists|j: int| 0 <= j < e.persistence@.len() && (#[trigger] e.persistence@[j]).kind == kind
}

/// A promoted lesson references one of the deterministic-check artifacts.
pub open spec fn promoted_lesson_references_check(e: AgentExperienceEpisode) -> bool {
    exists|i: int, k: int, j: int|
        0 <= i < e.lessons@.len() && (#[trigger] e.lessons@[i]).status == LessonStatus::Promoted
            && 0 <= k < e.lessons@[i].persistence_refs@.len() && 0 <= j < e.persistence@.len()
            && (#[trigger] e.persistence@[j]).kind == PersistenceKind::DeterministicCheck
            && e.persistence@[j].id@ == (#[trigger] e.lessons@[i].persistence_refs@[k])@
}

/// Fewer than two distinct values.
pub open spec fn fewer_than_two_distinct(vs: Seq<Seq<char>>) -> bool {
    forall|i: int, j: int| 0 <= i < vs.len() && 0 <= j < vs.len() ==> vs[i] == vs[j]
}

/// What each role demands of the rest of the episode.
pub open spec fn role_contract_error(e: AgentExperienceEpisode) -> Option<Seq<char>> {
    if has_role(e, ExperienceRole::OperatorIntervention) && e.interventions@.len() == 0 {
        Some("operator_intervention role requires an intervention receipt"@)
    } else if !has_role(e, ExperienceRole::OperatorIntervention) && e.interventions@.len() > 0 {
        Some("intervention receipts require the operator_intervention role"@)
    } else if has_role(e, ExperienceRole::RejectedLesson) && !has_lesson_status(
        e,
        LessonStatus::Rejected,
        LessonStatus::Rejected,
    ) {
        Some("rejected_lesson role requires a rejected candidate lesson"@)
    } else if has_role(e, ExperienceRole::PromotedDeterministicCheck) && !has_persistence_kind(
        e,
        PersistenceKind::DeterministicCheck,
    ) {
        Some("promoted_deterministic_check role requires a deterministic_check artifact"@)
    } else if has_role(e, ExperienceRole::PromotedDeterministicCheck)
        && !promoted_lesson_references_check(e) {
        Some(
            "promoted_deterministic_check role requires a promoted lesson to reference the check"@,
        )
    } else if has_role(e, ExperienceRole::CounterexampleToRoutingHeuristic)
        && e.counterexample_refs@.len() == 0 {
        Some("routing heuristic counterexample requires counterexample_refs"@)
    } else if has_role(e, ExperienceRole::CounterexampleToRoutingHeuristic) && !has_lesson_status(
        e,
        LessonStatus::Weakened,
        LessonStatus::Rejected,
    ) {
        Some("routing heuristic counterexample requires a weakened or rejected lesson"@)
    } else if has_role(e, ExperienceRole::CrossRepositoryReusableTechnique)
        && fewer_than_two_distinct(strings_view(e.validated_repositories@)) {
        Some(
            "cross-repository reusable technique requires at least two validated repositories"@,
        )
    } else if has_role(e, ExperienceRole::CrossRepositoryReusableTechnique)
        && !has_persistence_kind(e, PersistenceKind::ReusableTechnique) {
        Some("cross-repository reusable technique requires a reusable_technique artifact"@)
    } else if has_role(e, ExperienceRole::BehavioralNullResult)
        && e.behavioral_evaluation_refs@.len() == 0 {
        Some("behavioral_null_result role requires behavioral_evaluation_refs"@)
    } else {
        None
    }
}

fn has_role_exec(roles: &Vec<ExperienceRole>, role: ExperienceRole) -> (r: bool)
    ensures
        r == roles@.contains(role),
{
    let mut i: usize = 0;
    while i < roles.len()
        invariant
            i <= roles@.len(),
            forall|k: int| 0 <= k < i ==> roles@[k] != role,
        decreases roles.len() - i,
    {
        if roles[i] == role {
            assert(roles@[i as int] == role);
            return true;
        }
        i = i + 1;
    }
    false
}

fn has_lesson_status_exec(e: &AgentExperienceEpisode, a: LessonStatus, b: LessonStatus) -> (r: bool)
    ensures
        r == has_lesson_status(*e, a, b),
{
    let mut i: usize = 0;
    while i < e.lessons.len()
        invariant
            i <= e.lessons@.len(),
            forall|k: int|
                0 <= k < i ==> (#[trigger] e.lessons@[k]).status != a && e.lessons@[k].status != b,
        decreases e.lessons.len() - i,
    {
        if e.lessons[i].status == a || e.lessons[i].status == b {
            return true;
        }
        i = i + 1;
    }
    false
}

fn has_persistence_kind_exec(e: &AgentExperienceEpisode, kind: PersistenceKind) -> (r: bool)
    ensures
        r == has_persistence_kind(*e, kind),
{
    let mut j: usize = 0;
    while j < e.persistence.len()
        invariant
            j <= e.persistence@.len(),
            forall|k: int| 0 <= k < j ==> (#[trigger] e.persistence@[k]).kind != kind,
        decreases e.persistence.len() - j,
    {
        if e.persistence[j].kind == kind {
            return true;
        }
        j = j + 1;
    }
    false
}

fn references_check_artifact(e: &AgentExperienceEpisode, reference: &str) -> (r: bool)
    ensures
        r == exists|j: int|
            0 <= j < e.persistence@.len() && (#[trigger] e.persistence@[j]).kind
                == PersistenceKind::DeterministicCheck && e.persistence@[j].id@ == reference@,
{
    let rc = chars_of(reference);
    let mut j: usize = 0;
    while j < e.persistence.len()
        invariant
            j <= e.persistence@.len(),
            rc@ == reference@,
            forall|k: int|
                0 <= k < j ==> !((#[trigger] e.persistence@[k]).kind
                    == PersistenceKind::DeterministicCheck && e.persistence@[k].id@ == reference@),
        decreases e.persistence.len() - j,
    {
        let ic = chars_of(e.persistence[j].id.as_str());
        if e.persistence[j].kind == PersistenceKind::DeterministicCheck && crate::text::chars_eq(
            ic.as_slice(),
            rc.as_slice(),
        ) {
            return true;
        }
        j = j + 1;
    }
    false
}

fn promoted_lesson_references_check_exec(e: &AgentExperienceEpisode) -> (r: bool)
    ensures
        r == promoted_lesson_references_check(*e),
{
    let mut i: usize = 0;
    while i < e.lessons.len()
        invariant
            i <= e.lessons@.len(),
            forall|a: int, k: int, j: int|
                0 <= a < i && (#[trigger] e.lessons@[a]).status == LessonStatus::Promoted && 0 <= k
                    < e.lessons@[a].persistence_refs@.len() && 0 <= j < e.persistence@.len() ==> !(
                (#[trigger] e.persistence@[j]).kind == PersistenceKind::DeterministicCheck
                    && e.persistence@[j].id@ == (#[trigger] e.lessons@[a].persistence_refs@[k])@),
        decreases e.lessons.len() - i,
    {
        let lesson = &e.lessons[i];
        if lesson.status == LessonStatus::Promoted {
            let mut k: usize = 0;
            while k < lesson.persistence_refs.len()
                invariant
                    i < e.lessons@.len(),
                    *lesson == e.lessons@[i as int],
                    lesson.status == LessonStatus::Promoted,
                    k <= lesson.persistence_refs@.len(),
                    forall|b: int, j: int|
                        0 <= b < k && 0 <= j < e.persistence@.len() ==> !(
                        (#[trigger] e.persistence@[j]).kind == PersistenceKind::DeterministicCheck
                            && e.persistence@[j].id@ == (#[trigger] lesson.persistence_refs@[b])@),
                decreases lesson.persistence_refs.len() - k,
            {
                if references_check_artifact(e, lesson.persistence_refs[k].as_str()) {
                    return true;
                }
                k = k + 1;
            }
        }
        i = i + 1;
    }
    false
}

fn fewer_than_two_distinct_exec(values: &Vec<String>) -> (r: bool)
    ensures
        r == fewer_than_two_distinct(strings_view(values@)),
{
    let ghost vs = strings_view(values@);
    if values.len() == 0 {
        return true;
    }
    let first = chars_of(values[0].as_str());
    let mut i: usize = 1;
    while i < values.len()
        invariant
            1 <= i <= values@.len(),
            vs == strings_view(values@),
            first@ == vs[0],
            forall|k: int| 0 <= k < i ==> #[trigger] vs[k] == vs[0],
        decreases values.len() - i,
    {
        let other = chars_of(values[i].as_str());
        if !crate::text::chars_eq(other.as_slice(), first.as_slice()) {
            assert(vs[i as int] != vs[0]);
            return false;
        }
        i = i + 1;
    }
    true
}

fn role_contract_check(e: &AgentExperienceEpisode) -> (r: Option<Vec<char>>)
    ensures
        msg(r) == role_contract_error(*e),
{
    let operator = has_role_exec(&e.roles, ExperienceRole::OperatorIntervention);
    if operator && e.interventions.len() == 0 {
        return Some(chars_of("operator_intervention role requires an intervention receipt"));
    }
    if !operator && e.interventions.len() > 0 {
        return Some(chars_of("intervention receipts require the operator_intervention role"));
    }
    if has_role_exec(&e.roles, ExperienceRole::RejectedLesson) && !has_lesson_status_exec(
        e,
        LessonStatus::Rejected,
        LessonStatus::Rejected,
    ) {
        return Some(chars_of("rejected_lesson role requires a rejected candidate lesson"));
    }
    if has_role_exec(&e.roles, ExperienceRole::PromotedDeterministicCheck) {
        if !has_persistence_kind_exec(e, PersistenceKind::DeterministicCheck) {
            return Some(
                chars_of(
                    "promoted_deterministic_check role requires a deterministic_check artifact",
                ),
            );
        }
        if !promoted_lesson_references_check_exec(e) {
            return Some(
                chars_of(
                    "promoted_deterministic_check role requires a promoted lesson to reference the check",
                ),
            );
        }
    }
    if has_role_exec(&e.roles, ExperienceRole::CounterexampleToRoutingHeuristic) {
        if e.counterexample_refs.len() == 0 {
            return Some(chars_of("routing heuristic counterexample requires counterexample_refs"));
        }
        if !has_lesson_status_exec(e, LessonStatus::Weakened, LessonStatus::Rejected) {
            return Some(
                chars_of("routing heuristic counterexample requires a weakened or rejected lesson"),
            );
        }
    }
    if has_role_exec(&e.roles, ExperienceRole::CrossRepositoryReusableTechnique) {
        if fewer_than_two_distinct_exec(&e.validated_repositories) {
            return Some(
                chars_of(
                    "cross-repository reusable technique requires at least two validated repositories",
                ),
            );
        }
        if !has_persistence_kind_exec(e, PersistenceKind::ReusableTechnique) {
            return Some(
                chars_of(
                    "cross-repository reusable technique requires a reusable_technique artifact",
                ),
            );
        }
    }
    if has_role_exec(&e.roles, ExperienceRole::BehavioralNullResult)
        && e.behavioral_evaluation_refs.len() == 0 {
        return Some(chars_of("behavioral_null_result role requires behavioral_evaluation_refs"));
    }
    None
}

// ---------------------------------------------------------------------------
// Episodes and batches.

/// The episode's own fields, its reference sets and the authority flag.
pub open spec fn episode_fields_error(e: AgentExperienceEpisode) -> Option<Seq<char>> {
    either(
        atom_error(e.id@, "episode id"@, MAX_ID_BYTES as nat),
        either(
            repository_error(e.repository@, "repository"@),
            either(
                match e.revision {
                    Some(r) => revision_error(r@),
                    None => None,
                },
                either(
                    text_error(e.work@, "work"@, MAX_TEXT_BYTES as nat),
                    either(
                        match e.failure_class {
                            Some(f) => atom_error(f@, "failure_class"@, MAX_ID_BYTES as nat),
                            None => None,
                        },
                        either(
                            reference_set_error(strings_view(e.evidence_refs@), "evidence_refs"@, false),
                            either(
                                reference_set_error(
                                    strings_view(e.counterexample_refs@),
                                    "counterexample_refs"@,
                                    true,
                                ),
                                either(
                                    reference_set_error(
                                        strings_view(e.behavioral_evaluation_refs@),
                                        "behavioral_evaluation_refs"@,
                                        true,
                                    ),
                                    if e.automatic_policy_authority {
                                        Some(
                                            "agent experience episodes cannot grant automatic policy authority"@,
                                        )
                                    } else {
                                        None
                                    },
                                ),
                            ),
                        ),
                    ),
                ),
            ),
        ),
    )
}

/// Roles, discriminators, interventions, persistence artifacts and lessons.
pub open spec fn episode_items_error(e: AgentExperienceEpisode) -> Option<Seq<char>> {
    either(
        roles_error(e.roles@),
        either(
            discriminators_error(e.discriminators@),
            either(
                interventions_error(e.interventions@),
                either(
                    persistence_error(e.persistence@),
                    lessons_error(e.lessons@, e.discriminators@, e.persistence@),
                ),
            ),
        ),
    )
}

/// Validated repositories (which include the episode's own) and cost.
pub open spec fn episode_scope_error(e: AgentExperienceEpisode) -> Option<Seq<char>> {
    either(
        repository_set_error(strings_view(e.validated_repositories@), "validated_repositories"@),
        either(
            if !strings_view(e.validated_repositories@).contains(e.repository@) {
                Some("validated_repositories must include the episode repository"@)
            } else {
                None
            },
            cost_error(e.cost),
        ),
    )
}

/// The first reason to refuse an episode, in the order the checks run.
pub open spec fn episode_error(e: AgentExperienceEpisode) -> Option<Seq<char>> {
    either(
        episode_fields_error(e),
        either(episode_items_error(e), either(episode_scope_error(e), role_contract_error(e))),
    )
}

fn episode_fields_check(e: &AgentExperienceEpisode) -> (r: Option<Vec<char>>)
    ensures
        msg(r) == episode_fields_error(*e),
{
    match atom_check(e.id.as_str(), "episode id", MAX_ID_BYTES) {
        Some(m) => return Some(m),
        None => {},
    }
    match repository_check(e.repository.as_str(), "repository") {
        Some(m) => return Some(m),
        None => {},
    }
    match &e.revision {
        Some(revision) => match revision_check(revision.as_str()) {
            Some(m) => return Some(m),
            None => {},
        },
        None => {},
    }
    match text_check(e.work.as_str(), "work", MAX_TEXT_BYTES) {
        Some(m) => return Some(m),
        None => {},
    }
    match &e.failure_class {
        Some(failure_class) => match atom_check(failure_class.as_str(), "failure_class", MAX_ID_BYTES) {
            Some(m) => return Some(m),
            None => {},
        },
        None => {},
    }
    match reference_set_check(&e.evidence_refs, "evidence_refs", false) {
        Some(m) => return Some(m),
        None => {},
    }
    match reference_set_check(&e.counterexample_refs, "counterexample_refs", true) {
        Some(m) => return Some(m),
        None => {},
    }
    match reference_set_check(&e.behavioral_evaluation_refs, "behavioral_evaluation_refs", true) {
        Some(m) => return Some(m),
        None => {},
    }
    if e.automatic_policy_authority {
        return Some(chars_of("agent experience episodes cannot grant automatic policy authority"));
    }
    None
}

fn episode_items_check(e: &AgentExperienceEpisode) -> (r: Option<Vec<char>>)
    ensures
        msg(r) == episode_items_error(*e),
{
    match roles_check(&e.roles) {
        Some(m) => return Some(m),
        None => {},
    }
    match discriminators_check(&e.discriminators) {
        Some(m) => return Some(m),
        None => {},
    }
    match interventions_check(&e.interventions) {
        Some(m) => return Some(m),
        None => {},
    }
    match persistence_check(&e.persistence) {
        Some(m) => return Some(m),
        None => {},
    }
    lessons_check(&e.lessons, &e.discriminators, &e.persistence)
}

fn episode_scope_check(e: &AgentExperienceEpisode) -> (r: Option<Vec<char>>)
    ensures
        msg(r) == episode_scope_error(*e),
{
    match repository_set_check(&e.validated_repositories, "validated_repositories") {
        Some(m) => return Some(m),
        None => {},
    }
    if !contains_string(&e.validated_repositories, e.repository.as_str()) {
        return Some(chars_of("validated_repositories must include the episode repository"));
    }
    cost_check(&e.cost)
}

fn validate_episode(e: &AgentExperienceEpisode) -> (r: Option<Vec<char>>)
    ensures
        msg(r) == episode_error(*e),
{
    match episode_fields_check(e) {
        Some(m) => return Some(m),
        None => {},
    }
    match episode_items_check(e) {
        Some(m) => return Some(m),
        None => {},
    }
    match episode_scope_check(e) {
        Some(m) => return Some(m),
        None => {},
    }
    role_contract_check(e)
}

pub open spec fn batch_item_error(es: Seq<AgentExperienceEpisode>, i: int) -> Option<Seq<char>> {
    either(
        episode_error(es[i]),
        if repeats_earlier(episode_ids(es), i) {
            Some("duplicate agent experience episode id "@ + es[i].id@)
        } else {
            None
        },
    )
}

/// The first reason to refuse a batch: its schema, its size, then each
/// episode in order (an episode id may occur once).
pub open spec fn batch_error(b: AgentExperienceBatch) -> Option<Seq<char>> {
    if b.schema_version != AGENT_EXPERIENCE_SCHEMA_VERSION {
        Some(
            "unsupported agent experience schema "@ + decimal(b.schema_version as nat)
                + "; expected 1"@,
        )
    } else if b.episodes@.len() == 0 || b.episodes@.len() > MAX_EPISODES {
        Some("agent experience batch must contain a bounded non-empty episode set"@)
    } else {
        first_error(b.episodes@.len(), |i: int| batch_item_error(b.episodes@, i))
    }
}

/// Checks a batch; refuses it with the first failing check's message.
pub fn validate_agent_experience_batch(batch: &AgentExperienceBatch) -> (r: Result<
    (),
    AgentExperienceError,
>)
    ensures
        match r {
            Ok(()) => batch_error(*batch) is None,
            Err(e) => batch_error(*batch) == Some(e.spec_message()),
        },
{
    if batch.schema_version != AGENT_EXPERIENCE_SCHEMA_VERSION {
        let mut m = chars_of("unsupported agent experience schema ");
        push_decimal(&mut m, batch.schema_version as usize);
        extend_str(&mut m, "; expected 1");
        return Err(AgentExperienceError::new(m));
    }
    if batch.episodes.len() == 0 || batch.episodes.len() > MAX_EPISODES {
        return Err(
            AgentExperienceError::new(
                chars_of("agent experience batch must contain a bounded non-empty episode set"),
            ),
        );
    }
    let ids = episode_id_list(&batch.episodes);
    let ghost es = batch.episodes@;
    let ghost check = |i: int| batch_item_error(es, i);
    let mut i: usize = 0;
    while i < batch.episodes.len()
        invariant
            i <= es.len(),
            es == batch.episodes@,
            batch.schema_version == AGENT_EXPERIENCE_SCHEMA_VERSION,
            !(es.len() == 0 || es.len() > MAX_EPISODES),
            strings_view(ids@) == episode_ids(es),
            ids@.len() == es.len(),
            check == (|i: int| batch_item_error(es, i)),
            first_error(i as nat, check) is None,
        decreases es.len() - i,
    {
        let item = match validate_episode(&batch.episodes[i]) {
            Some(m) => Some(m),
            None => if repeats_earlier_exec(&ids, i) {
                Some(prefixed("duplicate agent experience episode id ", batch.episodes[i].id.as_str()))
            } else {
                None
            },
        };
        proof {
            lemma_first_error_step(i as nat, check);
            assert(msg(item) == check(i as int));
        }
        if let Some(m) = item {
            proof {
                lemma_first_error_stable((i + 1) as nat, es.len(), check);
            }
            return Err(AgentExperienceError::new(m));
        }
        i = i + 1;
    }
    Ok(())
}

} // verus!

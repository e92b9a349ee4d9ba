use cultist::agent_experience::{
    validate_agent_experience_batch, AgentExperienceBatch, AgentExperienceEpisode,
    DiscriminatorKind, ExactCost, ExperienceDiscriminator, ExperienceLesson, ExperienceRole,
    LessonStatus, OperatorIntervention, PersistenceArtifact, PersistenceKind,
};

fn strings(values: &[&str]) -> Vec<String> {
    values.iter().map(|value| value.to_string()).collect()
}

fn lesson(id: &str, status: LessonStatus, persistence: &[&str]) -> ExperienceLesson {
    ExperienceLesson {
        id: id.to_string(),
        statement: "Pin the toolchain before bisecting.".to_string(),
        status,
        discriminator_refs: strings(&["d1"]),
        counterexample_refs: Vec::new(),
        persistence_refs: strings(persistence),
        source_refs: strings(&["receipt:1"]),
    }
}

fn episode(id: &str) -> AgentExperienceEpisode {
    AgentExperienceEpisode {
        id: id.to_string(),
        repository: "owner/repo".to_string(),
        revision: Some("a2e14c4265e3568d8f943906a53e3b0e16dca141".to_string()),
        work: "Repair the flaky build.".to_string(),
        failure_class: Some("toolchain-drift".to_string()),
        roles: vec![ExperienceRole::EnvironmentDefect],
        discriminators: vec![ExperienceDiscriminator {
            id: "d1".to_string(),
            kind: DiscriminatorKind::Applicability,
            key: "toolchain".to_string(),
            value: "nightly".to_string(),
            source_ref: "ci:42".to_string(),
        }],
        evidence_refs: strings(&["ci:42"]),
        counterexample_refs: Vec::new(),
        interventions: Vec::new(),
        lessons: vec![lesson("l1", LessonStatus::Candidate, &[])],
        persistence: Vec::new(),
        cost: None,
        behavioral_evaluation_refs: Vec::new(),
        validated_repositories: strings(&["owner/repo"]),
        automatic_policy_authority: false,
    }
}

fn batch(episodes: Vec<AgentExperienceEpisode>) -> AgentExperienceBatch {
    AgentExperienceBatch { schema_version: 1, episodes }
}

fn refusal(batch: &AgentExperienceBatch) -> String {
    validate_agent_experience_batch(batch).unwrap_err().to_string()
}

#[test]
fn accepts_a_minimal_well_formed_episode() {
    assert!(validate_agent_experience_batch(&batch(vec![episode("e1")])).is_ok());
}

#[test]
fn refuses_unknown_schema_and_empty_batches() {
    let mut b = batch(vec![episode("e1")]);
    b.schema_version = 2;
    assert_eq!(refusal(&b), "unsupported agent experience schema 2; expected 1");
    assert_eq!(
        refusal(&batch(Vec::new())),
        "agent experience batch must contain a bounded non-empty episode set"
    );
}

#[test]
fn refuses_duplicate_episode_ids() {
    assert_eq!(
        refusal(&batch(vec![episode("e1"), episode("e1")])),
        "duplicate agent experience episode id e1"
    );
}

#[test]
fn refuses_automatic_policy_authority() {
    let mut e = episode("e1");
    e.automatic_policy_authority = true;
    assert_eq!(
        refusal(&batch(vec![e])),
        "agent experience episodes cannot grant automatic policy authority"
    );
}

#[test]
fn field_checks_name_the_field() {
    let mut e = episode("e 1");
    assert_eq!(refusal(&batch(vec![e])), "episode id must be a whitespace-free atom");
    e = episode("e1");
    e.repository = "owner".to_string();
    assert_eq!(refusal(&batch(vec![e])), "repository must use owner/repository syntax");
    e = episode("e1");
    e.revision = Some("abc".to_string());
    assert_eq!(refusal(&batch(vec![e])), "revision must be an exact 40-hex Git revision");
    e = episode("e1");
    e.work = " padded".to_string();
    assert_eq!(
        refusal(&batch(vec![e])),
        "work must be non-empty, trimmed, and at most 16384 bytes"
    );
    e = episode("e1");
    e.work = "bell\u{7}".to_string();
    assert_eq!(refusal(&batch(vec![e])), "work contains unsupported control characters");
    e = episode("e1");
    e.evidence_refs = Vec::new();
    assert_eq!(refusal(&batch(vec![e])), "evidence_refs must be bounded and non-empty");
    e = episode("e1");
    e.evidence_refs = strings(&["ci:42", "ci:42"]);
    assert_eq!(refusal(&batch(vec![e])), "evidence_refs must not contain duplicates");
}

#[test]
fn roles_must_be_unique_and_present() {
    let mut e = episode("e1");
    e.roles = vec![ExperienceRole::ReviewMiss, ExperienceRole::ReviewMiss];
    assert_eq!(refusal(&batch(vec![e])), "roles must be unique");
    e = episode("e1");
    e.roles = Vec::new();
    assert_eq!(refusal(&batch(vec![e])), "roles must be bounded and non-empty");
}

#[test]
fn lessons_must_reference_known_applicability_discriminators() {
    let mut e = episode("e1");
    e.lessons[0].discriminator_refs = strings(&["missing"]);
    assert_eq!(refusal(&batch(vec![e])), "lesson l1 references unknown discriminator missing");
    e = episode("e1");
    e.discriminators[0].kind = DiscriminatorKind::Outcome;
    assert_eq!(
        refusal(&batch(vec![e])),
        "lesson l1 must name at least one applicability discriminator"
    );
    e = episode("e1");
    e.lessons[0].status = LessonStatus::Promoted;
    assert_eq!(
        refusal(&batch(vec![e])),
        "promoted lesson l1 must name an explicit persistence artifact"
    );
}

#[test]
fn role_contracts_are_enforced() {
    let mut e = episode("e1");
    e.roles = vec![ExperienceRole::OperatorIntervention];
    assert_eq!(
        refusal(&batch(vec![e])),
        "operator_intervention role requires an intervention receipt"
    );
    e = episode("e1");
    e.interventions = vec![OperatorIntervention {
        actor: "operator".to_string(),
        action: "paused the run".to_string(),
        source_ref: "chat:1".to_string(),
        outcome: "resumed".to_string(),
    }];
    assert_eq!(
        refusal(&batch(vec![e])),
        "intervention receipts require the operator_intervention role"
    );
    e = episode("e1");
    e.roles = vec![ExperienceRole::PromotedDeterministicCheck];
    assert_eq!(
        refusal(&batch(vec![e])),
        "promoted_deterministic_check role requires a deterministic_check artifact"
    );
    e = episode("e1");
    e.roles = vec![ExperienceRole::PromotedDeterministicCheck];
    e.persistence = vec![PersistenceArtifact {
        id: "p1".to_string(),
        kind: PersistenceKind::DeterministicCheck,
        reference: "tests/toolchain.rs".to_string(),
        effect: "fails on drift".to_string(),
    }];
    assert_eq!(
        refusal(&batch(vec![e])),
        "promoted_deterministic_check role requires a promoted lesson to reference the check"
    );
    e = episode("e1");
    e.roles = vec![ExperienceRole::PromotedDeterministicCheck];
    e.persistence = vec![PersistenceArtifact {
        id: "p1".to_string(),
        kind: PersistenceKind::DeterministicCheck,
        reference: "tests/toolchain.rs".to_string(),
        effect: "fails on drift".to_string(),
    }];
    e.lessons = vec![lesson("l1", LessonStatus::Promoted, &["p1"])];
    assert!(validate_agent_experience_batch(&batch(vec![e])).is_ok());
    e = episode("e1");
    e.roles = vec![ExperienceRole::CrossRepositoryReusableTechnique];
    assert_eq!(
        refusal(&batch(vec![e])),
        "cross-repository reusable technique requires at least two validated repositories"
    );
}

#[test]
fn validated_repositories_include_the_episode_repository() {
    let mut e = episode("e1");
    e.validated_repositories = strings(&["other/repo"]);
    assert_eq!(
        refusal(&batch(vec![e])),
        "validated_repositories must include the episode repository"
    );
}

#[test]
fn empty_cost_is_refused() {
    let mut e = episode("e1");
    e.cost = Some(ExactCost {
        input_tokens: None,
        output_tokens: None,
        reasoning_tokens: None,
        hosted_ci_runs: None,
        repair_turns: None,
    });
    assert_eq!(
        refusal(&batch(vec![e])),
        "cost must preserve at least one exact observed quantity"
    );
    let mut e = episode("e1");
    e.cost = Some(ExactCost {
        input_tokens: Some(10),
        output_tokens: None,
        reasoning_tokens: None,
        hosted_ci_runs: None,
        repair_turns: None,
    });
    assert!(validate_agent_experience_batch(&batch(vec![e])).is_ok());
}

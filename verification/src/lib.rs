//! Repository-evidence analysis: applicability evaluation, diff and history
//! stream parsing, report rendering and receipt validation.
pub mod text;
pub mod applicability;
pub mod changed_lines;
pub mod git_stream;
pub mod diff_parse;
pub mod finding;
pub mod render;
pub mod precedent;
pub mod diff;
pub mod validate;
pub mod agent_experience;
pub mod cmux_review;
pub mod cmux_review_applicability;
pub mod provider_snapshot_applicability;
pub mod performance;
pub mod cli;
pub mod log_records;
pub mod history;
pub mod generated_diff;
pub mod active_changes;
pub mod coordination_edges;
pub mod active_inventory_context;
pub mod c1_local_alias;
pub mod test_module_aggregate;
pub mod companions;
pub mod rust_facts;
pub mod clean_scope;
pub mod changed_paths;
pub mod history_text;
pub mod cat_file;
pub mod active_inventory_provider_snapshot;
pub mod syntax_fingerprint;
pub mod rust_edit_class_source;

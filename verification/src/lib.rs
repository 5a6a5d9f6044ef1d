//! Static compatibility analysis for Python code that a feature-engine compiler accelerates.

pub mod active_project;
pub mod active_project_laws;
pub mod call_graph_laws;
pub mod call_matcher;
pub mod call_matcher_laws;
pub mod call_site_laws;
pub mod chalk;
pub mod cycle_laws;
pub mod diagnostic;
pub mod diagnostic_laws;
pub mod directive_laws;
pub mod facts;
pub mod facts_laws;
pub mod feature_calls;
pub mod feature_expressions;
pub mod feature_member_laws;
pub mod feature_paths;
pub mod feature_returns;
pub mod feature_returns_laws;
pub mod features;
pub mod features_laws;
pub mod ignore_laws;
pub mod ignores;
pub mod messages;
pub mod migration_laws;
pub mod order;
pub mod path_map;
pub mod paths;
pub mod presentation;
pub mod presentation_laws;
pub mod project;
pub mod project_diagnostics;
pub mod project_laws;
pub mod provenance;
pub mod provenance_laws;
pub mod reachability;
pub mod reachability_laws;
pub mod refinement_laws;
pub mod registrations;
pub mod registry_type_laws;
pub mod relationship_laws;
pub mod report_laws;
pub mod semantic;
pub mod session;
pub mod session_folders;
pub mod session_laws;
pub mod supported_functions;
pub mod suppression;
pub mod suppression_laws;
pub mod syntax;
pub mod system;
pub mod text;
pub mod type_matcher;
pub mod type_matcher_laws;
pub mod version;
pub mod wording_laws;
pub mod workspace_requests;
pub mod workspaces;

//! The inputs of the task commands, as the command line gives them.
use crate::models::{Priority, TaskStatus};
use vstd::prelude::*;

verus! {

/// Filters and switches accepted by `pebble list`.
pub struct ListOptions {
    /// Filter by status values (OR logic).
    pub statuses: Vec<TaskStatus>,
    /// Filter by tags (AND logic — task must have all specified tags).
    pub tags: Vec<String>,
    /// Filter by task dependencies (OR logic).
    pub needs: Vec<String>,
    /// Filter by priority values (OR logic).
    pub priorities: Vec<Priority>,
    /// Show only tasks that are ready to start.
    pub is_ready: bool,
    /// Include closed tasks (done/canceled) in results.
    pub all: bool,
    /// Maximum number of results to return.
    pub limit: Option<usize>,
    /// Explicit sort field (prefix with '-' for descending).
    pub sort: Option<String>,
}

/// The input of `pebble add`.
pub struct RunAddInput {
    pub title: String,
    pub status: Option<TaskStatus>,
    pub priority: Option<Priority>,
    pub body: Option<String>,
    pub needs: Vec<String>,
    pub tags: Vec<String>,
    pub blocks: Vec<String>,
}

/// The input of `pebble update`.
pub struct RunUpdateInput {
    pub id: String,
    pub title: Option<String>,
    pub status: Option<TaskStatus>,
    pub priority: Option<Priority>,
    pub clear_priority: bool,
    pub body: Option<String>,
    pub append_body: Option<String>,
    pub add_tags: Vec<String>,
    pub remove_tags: Vec<String>,
    pub add_needs: Vec<String>,
    pub remove_needs: Vec<String>,
    pub blocks: Vec<String>,
    pub remove_blocks: Vec<String>,
}

/// The fields of a new issue for the issue store.
#[derive(Debug)]
pub struct AddOptions {
    pub title: String,
    pub description: Option<String>,
    pub status: String,
    pub priority: i32,
    pub issue_type: String,
    pub owner: Option<String>,
    pub acceptance_criteria: Option<String>,
    pub defer_until: Option<String>,
    pub labels: Vec<String>,
    pub notes: Vec<String>,
}

/// Configuration subcommands of the issue store.
pub enum ConfigCommand {
    Get { key: String },
}

/// Filters of the issue store's queries; each given one must match.
pub struct IssueFilters {
    pub status: Option<String>,
    pub owner: Option<String>,
    pub priority: Option<i32>,
    pub issue_type: Option<String>,
}

} // verus!

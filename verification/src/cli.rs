//! The command line: the parsed arguments and how each subcommand is
//! dispatched.
use crate::inputs::{ListOptions, RunAddInput, RunUpdateInput};
use crate::models::{Priority, TaskStatus};
use vstd::prelude::*;

verus! {

/// Top-level command-line arguments.
pub struct Cli {
    /// Change to the given directory before doing anything.
    pub directory: Option<String>,
    /// Path to configuration file.
    pub config: Option<String>,
    /// Output in JSON format.
    pub json: bool,
    /// Path to the tasks directory (overrides config).
    pub dir: Option<String>,
    /// The subcommand.
    pub command: Commands,
}

/// Top-level subcommands.
#[allow(inconsistent_fields)]
pub enum Commands {
    /// List tasks matching specified filters.
    List {
        statuses: Vec<TaskStatus>,
        tags: Vec<String>,
        needs: Vec<String>,
        priorities: Vec<Priority>,
        is_ready: bool,
        all: bool,
        limit: Option<usize>,
        sort: Option<String>,
    },
    /// Return the highest-ranked ready tasks.
    Next,
    /// Search tasks by text.
    Search { query: String },
    /// Create a new task.
    Add {
        title: String,
        status: Option<TaskStatus>,
        priority: Option<Priority>,
        body: Option<String>,
        needs: Vec<String>,
        tags: Vec<String>,
        blocks: Vec<String>,
    },
    /// Update an existing task.
    Update {
        id: String,
        title: Option<String>,
        status: Option<TaskStatus>,
        priority: Option<Priority>,
        clear_priority: bool,
        body: Option<String>,
        append_body: Option<String>,
        add_tags: Vec<String>,
        remove_tags: Vec<String>,
        add_needs: Vec<String>,
        remove_needs: Vec<String>,
        blocks: Vec<String>,
        remove_blocks: Vec<String>,
    },
    /// Archive old closed tasks.
    Archive,
    /// Check the task graph for issues, optionally repairing them.
    Check { warn_only: bool, fix: bool },
    /// Show one task by ID.
    Show { id: String, path_only: bool },
    /// Initialize a project.
    Init { issue_prefix: Option<String>, dir: Option<String> },
    /// Read configuration values.
    Config { cmd: ConfigCommands },
    /// Emit the machine-readable help schema.
    HelpJson,
}

/// Configuration subcommands.
pub enum ConfigCommands {
    /// Retrieve the value of a configuration key.
    Get { key: String },
}

/// A subcommand that runs against a loaded project context.
pub enum DispatchCommand {
    ConfigGet { key: String },
    List(ListOptions),
    Next,
    Search { query: String },
    Add(RunAddInput),
    Update(RunUpdateInput),
    Archive,
    Check { warn_only: bool, fix: bool },
    Show { id: String, path_only: bool },
}

/// What to do with a parsed subcommand: print the help schema, initialize a
/// project, or dispatch against the project context.
pub enum Prepared {
    HelpJson,
    Init { issue_prefix: Option<String>, dir: Option<String> },
    Dispatch(DispatchCommand),
}

/// The subcommands that run without a project context.
pub open spec fn runs_before_context(c: Commands) -> bool {
    c is HelpJson || c is Init
}

/// The dispatch form of a subcommand that runs against a project context:
/// the matching dispatch command, with every argument moved across. (The
/// subcommands that run before any context have none; `Next` stands there.)
pub open spec fn dispatch_form(command: Commands) -> DispatchCommand {
    match command {
        Commands::Config { cmd: ConfigCommands::Get { key } } => DispatchCommand::ConfigGet { key },
        Commands::List { statuses, tags, needs, priorities, is_ready, all, limit, sort } => DispatchCommand::List(
            ListOptions { statuses, tags, needs, priorities, is_ready, all, limit, sort },
        ),
        Commands::Next => DispatchCommand::Next,
        Commands::Search { query } => DispatchCommand::Search { query },
        Commands::Add { title, status, priority, body, needs, tags, blocks } => DispatchCommand::Add(
            RunAddInput { title, status, priority, body, needs, tags, blocks },
        ),
        Commands::Update {
            id,
            title,
            status,
            priority,
            clear_priority,
            body,
            append_body,
            add_tags,
            remove_tags,
            add_needs,
            remove_needs,
            blocks,
            remove_blocks,
        } => DispatchCommand::Update(
            RunUpdateInput {
                id,
                title,
                status,
                priority,
                clear_priority,
                body,
                append_body,
                add_tags,
                remove_tags,
                add_needs,
                remove_needs,
                blocks,
                remove_blocks,
            },
        ),
        Commands::Archive => DispatchCommand::Archive,
        Commands::Check { warn_only, fix } => DispatchCommand::Check { warn_only, fix },
        Commands::Show { id, path_only } => DispatchCommand::Show { id, path_only },
        Commands::HelpJson => DispatchCommand::Next,
        Commands::Init { .. } => DispatchCommand::Next,
    }
}

/// Converts a subcommand that runs against a project context into its
/// dispatch form, moving every argument across.
pub fn to_dispatch_command(command: Commands) -> (d: DispatchCommand)
    requires
        !runs_before_context(command),
    ensures
        d == dispatch_form(command),
{
    match command {
        Commands::Config { cmd } => match cmd {
            ConfigCommands::Get { key } => DispatchCommand::ConfigGet { key },
        },
        Commands::List { statuses, tags, needs, priorities, is_ready, all, limit, sort } => DispatchCommand::List(
            ListOptions { statuses, tags, needs, priorities, is_ready, all, limit, sort },
        ),
        Commands::Next => DispatchCommand::Next,
        Commands::Search { query } => DispatchCommand::Search { query },
        Commands::Add { title, status, priority, body, needs, tags, blocks } => DispatchCommand::Add(
            RunAddInput { title, status, priority, body, needs, tags, blocks },
        ),
        Commands::Update {
            id,
            title,
            status,
            priority,
            clear_priority,
            body,
            append_body,
            add_tags,
            remove_tags,
            add_needs,
            remove_needs,
            blocks,
            remove_blocks,
        } => DispatchCommand::Update(
            RunUpdateInput {
                id,
                title,
                status,
                priority,
                clear_priority,
                body,
                append_body,
                add_tags,
                remove_tags,
                add_needs,
                remove_needs,
                blocks,
                remove_blocks,
            },
        ),
        Commands::Archive => DispatchCommand::Archive,
        Commands::Check { warn_only, fix } => DispatchCommand::Check { warn_only, fix },
        Commands::Show { id, path_only } => DispatchCommand::Show { id, path_only },
        Commands::HelpJson => DispatchCommand::Next,
        Commands::Init { .. } => DispatchCommand::Next,
    }
}

/// Decides how a parsed subcommand runs: the help schema and `init` run
/// before any project context (`init` takes the global `--dir` over its own);
/// every other subcommand is dispatched.
pub fn prepare_dispatch_command(command: Commands, global_dir: Option<String>) -> (p: Prepared)
    ensures
        match command {
            Commands::HelpJson => p is HelpJson,
            Commands::Init { issue_prefix, dir } => p == Prepared::Init {
                issue_prefix,
                dir: match global_dir {
                    Some(g) => Some(g),
                    None => dir,
                },
            },
            _ => p == Prepared::Dispatch(dispatch_form(command)),
        },
{
    match command {
        Commands::HelpJson => Prepared::HelpJson,
        Commands::Init { issue_prefix, dir } => Prepared::Init {
            issue_prefix,
            dir: match global_dir {
                Some(g) => Some(g),
                None => dir,
            },
        },
        cmd => Prepared::Dispatch(to_dispatch_command(cmd)),
    }
}

/// Whether a dispatched command needs an existing project (every command
/// but `config get`).
pub fn needs_project(command: &DispatchCommand) -> (r: bool)
    ensures
        r == !(*command is ConfigGet),
{
    match command {
        DispatchCommand::ConfigGet { .. } => false,
        _ => true,
    }
}


/// Dispatching moves each argument into the field of the same meaning: for
/// `add`, the new task's prerequisites are the `--need` values and the tasks
/// it is to block are the `--blocks` values; for `update`, each added or
/// removed tag, need and block goes to its own list; for `list`, each filter
/// keeps its values; `check`, `show`, `search` and `config get` keep theirs.
pub proof fn lemma_dispatch_keeps_arguments(c: Commands)
    ensures
        (c matches Commands::Add { title, status, priority, body, needs, tags, blocks } ==> (dispatch_form(c) matches DispatchCommand::Add(i)
            && i.title == title && i.status == status && i.priority == priority && i.body == body && i.needs == needs
            && i.tags == tags && i.blocks == blocks)),
        (c matches Commands::Update {
            id,
            title,
            status,
            priority,
            clear_priority,
            body,
            append_body,
            add_tags,
            remove_tags,
            add_needs,
            remove_needs,
            blocks,
            remove_blocks,
        } ==> (dispatch_form(c) matches DispatchCommand::Update(u) && u.id == id && u.title == title && u.status
            == status && u.priority == priority && u.clear_priority == clear_priority && u.body == body
            && u.append_body == append_body && u.add_tags == add_tags && u.remove_tags == remove_tags && u.add_needs
            == add_needs && u.remove_needs == remove_needs && u.blocks == blocks && u.remove_blocks == remove_blocks)),
        (c matches Commands::List { statuses, tags, needs, priorities, is_ready, all, limit, sort } ==> (dispatch_form(
            c,
        ) matches DispatchCommand::List(o) && o.statuses == statuses && o.tags == tags && o.needs == needs
            && o.priorities == priorities && o.is_ready == is_ready && o.all == all && o.limit == limit && o.sort
            == sort)),
        (c matches Commands::Check { warn_only, fix } ==> (dispatch_form(c) matches DispatchCommand::Check {
            warn_only: w,
            fix: f,
        } && w == warn_only && f == fix)),
        (c matches Commands::Show { id, path_only } ==> (dispatch_form(c) matches DispatchCommand::Show {
            id: i,
            path_only: p,
        } && i == id && p == path_only)),
        (c matches Commands::Search { query } ==> (dispatch_form(c) matches DispatchCommand::Search { query: q } && q
            == query)),
        (c matches Commands::Config { cmd: ConfigCommands::Get { key } } ==> (dispatch_form(c) matches DispatchCommand::ConfigGet {
            key: k,
        } && k == key)),
        c is Next ==> dispatch_form(c) is Next,
        c is Archive ==> dispatch_form(c) is Archive,
{
}
} // verus!

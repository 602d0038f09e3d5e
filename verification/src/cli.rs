//! Command-line arguments of the `ticket` tool, the choice of machine output
//! format and the naming of commands.
use vstd::prelude::*;
use crate::catalog::{ascii_lower, ascii_lower_exec};
use crate::text::{chars_of, string_of};

verus! {

/// The machine-readable output formats.
#[derive(Clone, Copy, Debug, PartialEq, Eq)]
pub enum MachineOutputFormat {
    Json,
    Toon,
}

/// The machine output format that the flags ask for: JSON wins over TOON;
/// neither flag means human-readable output.
pub fn machine_output_format(as_json: bool, as_toon: bool) -> (r: Option<MachineOutputFormat>)
    ensures
        r == (if as_json {
            Some(MachineOutputFormat::Json)
        } else if as_toon {
            Some(MachineOutputFormat::Toon)
        } else {
            None
        }),
{
    if as_json {
        Some(MachineOutputFormat::Json)
    } else if as_toon {
        Some(MachineOutputFormat::Toon)
    } else {
        None
    }
}

/// An ASCII capital letter.
pub open spec fn is_ascii_upper(c: char) -> bool {
    'A' <= c && c <= 'Z'
}

/// A camel-case name in kebab case: each capital letter lower-cased, with a
/// `-` before it unless it is the first character.
pub open spec fn kebab_spec(s: Seq<char>) -> Seq<char>
    decreases s.len(),
{
    if s.len() == 0 {
        Seq::empty()
    } else {
        let prev = kebab_spec(s.drop_last());
        let c = s.last();
        if is_ascii_upper(c) {
            if s.len() > 1 {
                prev.push('-').push(ascii_lower(c))
            } else {
                prev.push(ascii_lower(c))
            }
        } else {
            prev.push(c)
        }
    }
}

/// Converts a camel-case command name to kebab case (`ReadyOverview`
/// becomes `ready-overview`).
pub fn camel_to_kebab(input: &str) -> (r: String)
    ensures
        r@ == kebab_spec(input@),
{
    let v = chars_of(input);
    let mut out: Vec<char> = Vec::new();
    let mut i: usize = 0;
    assert(v@.subrange(0, 0) =~= Seq::<char>::empty());
    while i < v.len()
        invariant
            i <= v@.len(),
            v@ == input@,
            out@ == kebab_spec(v@.subrange(0, i as int)),
        decreases v@.len() - i,
    {
        let ghost sub = v@.subrange(0, i + 1);
        assert(sub.drop_last() =~= v@.subrange(0, i as int));
        let c = v[i];
        if 'A' <= c && c <= 'Z' {
            if i != 0 {
                out.push('-');
            }
            out.push(ascii_lower_exec(c));
        } else {
            out.push(c);
        }
        i = i + 1;
    }
    assert(v@.subrange(0, v@.len() as int) =~= v@);
    string_of(out.as_slice())
}

/// The outcome recorded by a reproduction attempt.
#[derive(Clone, Copy, Debug, PartialEq, Eq)]
pub enum ReproOutcome {
    Reproduced,
    NotReproduced,
    Intermittent,
    Fixed,
}

impl ReproOutcome {
    /// The outcome's name in command output.
    pub fn as_str(self) -> (r: &'static str)
        ensures
            r@ == match self {
                ReproOutcome::Reproduced => seq!['r', 'e', 'p', 'r', 'o', 'd', 'u', 'c', 'e', 'd'],
                ReproOutcome::NotReproduced => seq!['n', 'o', 't', '_', 'r', 'e', 'p', 'r', 'o', 'd', 'u', 'c', 'e', 'd'],
                ReproOutcome::Intermittent => seq!['i', 'n', 't', 'e', 'r', 'm', 'i', 't', 't', 'e', 'n', 't'],
                ReproOutcome::Fixed => seq!['f', 'i', 'x', 'e', 'd'],
            },
    {
        match self {
            ReproOutcome::Reproduced => {
                proof {
                    reveal_strlit("reproduced");
                }
                "reproduced"
            },
            ReproOutcome::NotReproduced => {
                proof {
                    reveal_strlit("not_reproduced");
                }
                "not_reproduced"
            },
            ReproOutcome::Intermittent => {
                proof {
                    reveal_strlit("intermittent");
                }
                "intermittent"
            },
            ReproOutcome::Fixed => {
                proof {
                    reveal_strlit("fixed");
                }
                "fixed"
            },
        }
    }
}

/// How dangling edges are cleaned up.
#[derive(Clone, Copy, Debug, PartialEq, Eq)]
pub enum DanglingStrategy {
    /// Remove each dangling edge directly.
    Unlink,
    /// Reconcile only: report candidates without mutation.
    ReconcileOnly,
}

impl DanglingStrategy {
    /// The strategy's name in command output.
    pub fn as_str(self) -> (r: &'static str)
        ensures
            r@ == match self {
                DanglingStrategy::Unlink => seq!['u', 'n', 'l', 'i', 'n', 'k'],
                DanglingStrategy::ReconcileOnly => seq!['r', 'e', 'c', 'o', 'n', 'c', 'i', 'l', 'e', '_', 'o', 'n', 'l', 'y'],
            },
    {
        match self {
            DanglingStrategy::Unlink => {
                proof {
                    reveal_strlit("unlink");
                }
                "unlink"
            },
            DanglingStrategy::ReconcileOnly => {
                proof {
                    reveal_strlit("reconcile_only");
                }
                "reconcile_only"
            },
        }
    }

    /// Whether the strategy changes the store: only unlinking does.
    pub fn mutates(self) -> (r: bool)
        ensures
            r == (self is Unlink),
    {
        match self {
            DanglingStrategy::Unlink => true,
            DanglingStrategy::ReconcileOnly => false,
        }
    }
}

/// How a new description is applied.
#[derive(Clone, Copy, Debug, PartialEq, Eq)]
pub enum DescriptionMode {
    Replace,
    Append,
}

/// Arguments of `status`.
pub struct StatusArgs {
    /// Only tickets whose title starts with this prefix.
    pub filter: Option<String>,
    /// Include blocked tickets in the output.
    pub show_blocked: bool,
}

/// Arguments of `ready-overview`.
pub struct ReadyOverviewArgs {
    pub filter: Option<String>,
    /// Scope label included in the response.
    pub scope: Option<String>,
}

/// Arguments of `next`.
pub struct NextArgs {
    /// Ticket id or id prefix to scope the results to its leaf blockers.
    pub root: Option<String>,
    pub limit: Option<usize>,
    pub filter: Option<String>,
    /// Include tickets already tracked on the board.
    pub no_board: bool,
}

/// Arguments of `unblocked-by`.
pub struct UnblockedByArgs {
    pub id: String,
}

/// Arguments of `blockers`.
pub struct BlockersArgs {
    pub id: String,
}

/// Arguments of `watch`.
pub struct WatchArgs {
    /// Debounce time in milliseconds before a reconcile pass.
    pub debounce_ms: u64,
}

/// Arguments of `serve`.
pub struct ServeCliArgs {
    pub port: u16,
    pub host: String,
    /// Serve one named workspace only.
    pub workspace: Option<String>,
}

/// Arguments of `close`.
pub struct CloseArgs {
    pub id: String,
    /// Target state to fast-forward to.
    pub to_state: String,
    pub author: Option<String>,
}

/// Arguments of `cancel`.
pub struct CancelArgs {
    pub id: String,
    pub author: Option<String>,
}

/// Arguments of `attach`.
pub struct AttachArgs {
    pub id: String,
    /// Path of the file to attach.
    pub path: String,
    pub asset_name: Option<String>,
}

/// Arguments of `move`.
pub struct MoveArgs {
    pub id: Option<String>,
    pub to_workspace_root: Option<String>,
    pub resume: Option<String>,
    pub rollback: Option<String>,
    pub dry_run: bool,
}

/// Arguments of `link`.
pub struct LinkArgs {
    pub from: String,
    pub to: String,
    pub kind: String,
    pub reason: Option<String>,
}

/// Arguments of `unlink`.
pub struct UnlinkArgs {
    pub from: String,
    pub to: String,
    pub kind: String,
    pub reason: Option<String>,
}

/// Arguments of `subgraph`.
pub struct SubgraphArgs {
    pub root: String,
    pub depth: usize,
    pub direction: String,
    pub edge_kind: String,
}

/// Arguments of `topgraph`.
pub struct TopgraphArgs {
    pub root: String,
    pub depth: usize,
    pub direction: String,
    pub edge_kind: String,
}

/// Arguments of `health`.
pub struct HealthArgs {
    pub root: Option<String>,
    pub all: bool,
    pub stdin: bool,
    pub ids: Vec<String>,
    pub depth: usize,
    pub direction: String,
    pub where_clauses: Vec<String>,
}

/// Arguments of `store-index`.
pub struct StoreIndexArgs {
    /// Check only: report drift without writing.
    pub check: bool,
}

/// Arguments of `fmt`.
pub struct FmtArgs {
    pub check: bool,
}

/// Arguments of `update` as the command line gives them.
pub struct UpdateArgsCli {
    pub id: String,
    pub transition_states: Vec<String>,
    pub to_state: Option<String>,
    pub single_hop: bool,
    pub fields: Vec<String>,
    pub undo: bool,
    pub description: Option<String>,
    pub description_mode: Option<DescriptionMode>,
    pub author: Option<String>,
    pub board_check_in: bool,
    pub board_agent: Option<String>,
    pub board_intent: Option<String>,
    pub board_files: Vec<String>,
    pub board_ttl_secs: Option<u64>,
}

/// Arguments of `prune-dangling`.
pub struct PruneDanglingArgs {
    pub root: Option<String>,
    pub all: bool,
    pub kind: String,
    pub strategy: DanglingStrategy,
    pub reason: Option<String>,
}

/// Arguments of `repro`.
pub struct ReproArgs {
    pub id: String,
    pub outcome: ReproOutcome,
    pub commit: Option<String>,
    pub command: Option<String>,
    pub note: Option<String>,
    pub timestamp: Option<String>,
}

/// Arguments of `list-parts`.
pub struct ListPartsArgs {
    pub id: String,
    pub with_content: bool,
}

/// Arguments of `board`.
pub struct BoardArgs {
    pub command: BoardCommand,
}

/// The `board` subcommands.
pub enum BoardCommand {
    Show { agent: Option<String> },
    History { agent: Option<String> },
    Worktrees,
    CheckIn {
        id: String,
        agent: String,
        intent: Option<String>,
        files: Vec<String>,
        ttl_secs: Option<u64>,
        session_id: Option<String>,
        worktree_path: Option<String>,
        branch: Option<String>,
    },
    CheckOut { id: String, agent: Option<String>, reason: Option<String> },
    Heartbeat { entry_id: String },
    Configure { max_wip: Option<u32>, stale_after_secs: Option<u64>, completed_audit_window_secs: Option<u64> },
    Clean(BoardCleanArgs),
    UpdateFiles { id: String, agent: String, add: Vec<String>, remove: Vec<String> },
    RenameFile { id: String, agent: String, from: String, to: String },
}

/// Arguments of `board clean`.
pub struct BoardCleanArgs {
    pub command: BoardCleanCommand,
}

/// The `board clean` subcommands.
pub enum BoardCleanCommand {
    Preview { include_stale: bool },
    Apply { token: String, include_stale: bool },
}

/// Arguments of `workspace`.
pub struct WorkspaceArgs {
    pub command: WorkspaceCommand,
}

/// The `workspace` subcommands.
pub enum WorkspaceCommand {
    Policy(WorkspacePolicyArgs),
    Ignore(WorkspacePatternArgs),
    Include(WorkspacePatternArgs),
    Rescan { apply_policy: bool },
    Roots,
    PruneRoots,
}

/// Arguments of `workspace policy`.
pub struct WorkspacePolicyArgs {
    pub command: WorkspacePolicyCommand,
}

/// The `workspace policy` subcommands.
pub enum WorkspacePolicyCommand {
    Show,
    SetPolicy { include_descendants: Option<bool>, include_ancestors: Option<bool>, deny_external_paths: Option<bool> },
}

/// Arguments of `workspace ignore` and `workspace include`.
pub struct WorkspacePatternArgs {
    pub command: WorkspacePatternCommand,
}

/// Adding or removing a workspace pattern.
pub enum WorkspacePatternCommand {
    Add { pattern: String },
    Remove { pattern: String },
}

/// The commands of the command-line interface, by kind.
#[derive(Clone, Copy, PartialEq, Eq, Structural, Debug)]
pub enum CommandKind {
    Init,
    Create,
    Get,
    Describe,
    Update,
    Repro,
    List,
    Delete,
    Scan,
    Claim,
    Unclaim,
    Leases,
    Search,
    Query,
    AddRoot,
    History,
    Diff,
    Revert,
    FinalizeMerge,
    Batch,
    ExportCommandSchema,
    Catalog,
    Link,
    Unlink,
    Links,
    PruneDangling,
    Subgraph,
    Topgraph,
    Watch,
    Status,
    ReadyOverview,
    Next,
    Blockers,
    UnblockedBy,
    Serve,
    Close,
    Cancel,
    Move,
    Attach,
    Assets,
    Transitions,
    Health,
    StoreIndex,
    Audit,
    Fmt,
    Board,
    Workspace,
    ValidateLinks,
    ListParts,
    GetPart,
    WritePart,
    WriteAmendment,
    UndoPart,
}

/// What a dry run of a command reports: the command's name and what it
/// would do; `None` for a command that changes nothing.
pub open spec fn dry_run_spec(kind: CommandKind) -> Option<(Seq<char>, Seq<char>)> {
    match kind {
        CommandKind::Init => Some(("init"@, "initialize ticket workspace"@)),
        CommandKind::Create => Some(("create"@, "create ticket"@)),
        CommandKind::Update => Some(("update"@, "update ticket"@)),
        CommandKind::Repro => Some(("repro"@, "record repro metadata"@)),
        CommandKind::Delete => Some(("delete"@, "permanently delete ticket"@)),
        CommandKind::Scan => Some(("scan"@, "scan/reindex ticket roots"@)),
        CommandKind::Claim => Some(("claim"@, "claim ticket lease"@)),
        CommandKind::Unclaim => Some(("unclaim"@, "release ticket lease"@)),
        CommandKind::AddRoot => Some(("add_root"@, "register scan root"@)),
        CommandKind::Batch => Some(("batch"@, "execute CLI batch commands"@)),
        CommandKind::WritePart => Some(("write-part"@, "write ticket content part"@)),
        CommandKind::WriteAmendment => Some(("write-amendment"@, "write amendment part superseding another part"@)),
        CommandKind::UndoPart => Some(("undo-part"@, "restore prior part content"@)),
        CommandKind::Revert => Some(("revert"@, "apply historical snapshot"@)),
        CommandKind::FinalizeMerge => Some(("finalize_merge"@, "record merge metadata"@)),
        CommandKind::Link => Some(("link"@, "add directed edge"@)),
        CommandKind::Unlink => Some(("unlink"@, "remove directed edge"@)),
        CommandKind::PruneDangling => Some(("prune-dangling"@, "remove dangling edges"@)),
        CommandKind::Close => Some(("close"@, "fast-forward ticket state"@)),
        CommandKind::Cancel => Some(("cancel"@, "cancel ticket via state transition"@)),
        CommandKind::Attach => Some(("attach"@, "attach asset to ticket"@)),
        CommandKind::Watch => Some(("watch"@, "start watcher/reconcile loop"@)),
        CommandKind::Serve => Some(("serve"@, "start HTTP server"@)),
        CommandKind::StoreIndex => Some(("store-index"@, "generate/check ticket catalog"@)),
        CommandKind::Fmt => Some(("fmt"@, "reformat ticket.toml files"@)),
        CommandKind::Board => Some(("board"@, "board state mutation"@)),
        CommandKind::Workspace => Some(("workspace"@, "workspace policy mutation"@)),
        _ => None,
    }
}

/// The dry-run report of a command (see `dry_run_spec`).
pub fn dry_run_action(kind: CommandKind) -> (r: Option<(&'static str, &'static str)>)
    ensures
        match r {
            Some((c, a)) => dry_run_spec(kind) == Some((c@, a@)),
            None => dry_run_spec(kind) is None,
        },
{
    match kind {
        CommandKind::Init => Some(("init", "initialize ticket workspace")),
        CommandKind::Create => Some(("create", "create ticket")),
        CommandKind::Update => Some(("update", "update ticket")),
        CommandKind::Repro => Some(("repro", "record repro metadata")),
        CommandKind::Delete => Some(("delete", "permanently delete ticket")),
        CommandKind::Scan => Some(("scan", "scan/reindex ticket roots")),
        CommandKind::Claim => Some(("claim", "claim ticket lease")),
        CommandKind::Unclaim => Some(("unclaim", "release ticket lease")),
        CommandKind::AddRoot => Some(("add_root", "register scan root")),
        CommandKind::Batch => Some(("batch", "execute CLI batch commands")),
        CommandKind::WritePart => Some(("write-part", "write ticket content part")),
        CommandKind::WriteAmendment => Some(("write-amendment", "write amendment part superseding another part")),
        CommandKind::UndoPart => Some(("undo-part", "restore prior part content")),
        CommandKind::Revert => Some(("revert", "apply historical snapshot")),
        CommandKind::FinalizeMerge => Some(("finalize_merge", "record merge metadata")),
        CommandKind::Link => Some(("link", "add directed edge")),
        CommandKind::Unlink => Some(("unlink", "remove directed edge")),
        CommandKind::PruneDangling => Some(("prune-dangling", "remove dangling edges")),
        CommandKind::Close => Some(("close", "fast-forward ticket state")),
        CommandKind::Cancel => Some(("cancel", "cancel ticket via state transition")),
        CommandKind::Attach => Some(("attach", "attach asset to ticket")),
        CommandKind::Watch => Some(("watch", "start watcher/reconcile loop")),
        CommandKind::Serve => Some(("serve", "start HTTP server")),
        CommandKind::StoreIndex => Some(("store-index", "generate/check ticket catalog")),
        CommandKind::Fmt => Some(("fmt", "reformat ticket.toml files")),
        CommandKind::Board => Some(("board", "board state mutation")),
        CommandKind::Workspace => Some(("workspace", "workspace policy mutation")),
        _ => None,
    }
}

/// Why a command is refused outright inside a batch; `None` for a command
/// that is not on that list.
pub open spec fn forbidden_in_batch_spec(kind: CommandKind) -> Option<Seq<char>> {
    match kind {
        CommandKind::Serve => Some("'serve' cannot be used in a batch"@),
        CommandKind::Watch => Some("'watch' cannot be used in a batch"@),
        CommandKind::Batch => Some("'batch' cannot be nested"@),
        CommandKind::Scan => Some("'scan' cannot be used in a batch"@),
        CommandKind::Claim => Some("lease commands cannot be used in a batch"@),
        CommandKind::Unclaim => Some("lease commands cannot be used in a batch"@),
        CommandKind::Leases => Some("lease commands cannot be used in a batch"@),
        CommandKind::AddRoot => Some("'add-root' cannot be used in a batch"@),
        CommandKind::ExportCommandSchema => Some("'export-command-schema' cannot be used in a batch"@),
        CommandKind::FinalizeMerge => Some("'finalize-merge' is not supported in a batch"@),
        CommandKind::Move => Some("'move' cannot be used in a batch"@),
        CommandKind::PruneDangling => Some("'prune-dangling' cannot be used in a batch"@),
        CommandKind::Workspace => Some("'workspace' policy commands cannot be used in a batch"@),
        _ => None,
    }
}

/// The message refusing a command inside a batch (see
/// `forbidden_in_batch_spec`). `None` only says that the command is not one
/// of those refused outright; which of the others a batch can run is decided
/// where the batch dispatches its commands.
pub fn forbidden_batch_message(kind: CommandKind) -> (r: Option<&'static str>)
    ensures
        match r {
            Some(m) => forbidden_in_batch_spec(kind) == Some(m@),
            None => forbidden_in_batch_spec(kind) is None,
        },
{
    match kind {
        CommandKind::Serve => Some("'serve' cannot be used in a batch"),
        CommandKind::Watch => Some("'watch' cannot be used in a batch"),
        CommandKind::Batch => Some("'batch' cannot be nested"),
        CommandKind::Scan => Some("'scan' cannot be used in a batch"),
        CommandKind::Claim => Some("lease commands cannot be used in a batch"),
        CommandKind::Unclaim => Some("lease commands cannot be used in a batch"),
        CommandKind::Leases => Some("lease commands cannot be used in a batch"),
        CommandKind::AddRoot => Some("'add-root' cannot be used in a batch"),
        CommandKind::ExportCommandSchema => Some("'export-command-schema' cannot be used in a batch"),
        CommandKind::FinalizeMerge => Some("'finalize-merge' is not supported in a batch"),
        CommandKind::Move => Some("'move' cannot be used in a batch"),
        CommandKind::PruneDangling => Some("'prune-dangling' cannot be used in a batch"),
        CommandKind::Workspace => Some("'workspace' policy commands cannot be used in a batch"),
        _ => None,
    }
}

/// The report of a dry run: the command's name, `ok`, that it was a dry run,
/// and what the command would do.
pub struct DryRunPayload {
    pub command: &'static str,
    pub status: &'static str,
    pub dry_run: bool,
    pub would_execute: &'static str,
}

/// The dry-run report of a command that changes something (see
/// `dry_run_spec`); `None` for a command that changes nothing.
pub fn dry_run_command_payload(kind: CommandKind) -> (r: Option<DryRunPayload>)
    ensures
        match r {
            Some(p) => {
                &&& dry_run_spec(kind) == Some((p.command@, p.would_execute@))
                &&& p.status@ == "ok"@
                &&& p.dry_run
            },
            None => dry_run_spec(kind) is None,
        },
{
    match dry_run_action(kind) {
        Some((command, action)) => Some(DryRunPayload { command, status: "ok", dry_run: true, would_execute: action }),
        None => None,
    }
}

} // verus!

//! The board as text: the live board and its completion history.
use vstd::prelude::*;
use crate::text::{chars_of, string_of, decimal, push_decimal, push_char, utf8_len, byte_cut_ok, byte_prefix,
    fitting_prefix};
use crate::workflow::board::{BoardConfig, BoardEntry, BoardEntryStatus, BoardSnapshot, status_label};
use crate::human::{BoardRecommendation, write_next_up, next_up_spec, hex_digits, push_hex, pad2};
use chrono::{Datelike, Timelike};

verus! {

/// `n` copies of the character `c`.
pub open spec fn repeat_char(c: char, n: nat) -> Seq<char> {
    Seq::new(n, |i: int| c)
}

/// Text padded on the right with spaces to `w` characters, as `{:<w}` pads.
#[verifier::opaque]
pub open spec fn pad_right(s: Seq<char>, w: nat) -> Seq<char> {
    if s.len() >= w {
        s
    } else {
        s + repeat_char(' ', (w - s.len()) as nat)
    }
}

/// Text padded on the left with spaces to `w` characters, as `{:>w}` pads.
#[verifier::opaque]
pub open spec fn pad_left(s: Seq<char>, w: nat) -> Seq<char> {
    if s.len() >= w {
        s
    } else {
        repeat_char(' ', (w - s.len()) as nat) + s
    }
}

fn push_repeat(out: &mut String, c: char, n: usize)
    ensures
        final(out)@ == old(out)@ + repeat_char(c, n as nat),
{
    let ghost start = out@;
    let mut i: usize = 0;
    while i < n
        invariant
            i <= n,
            out@ == start + repeat_char(c, i as nat),
        decreases n - i,
    {
        push_char(out, c);
        assert(repeat_char(c, (i + 1) as nat) =~= repeat_char(c, i as nat).push(c));
        i = i + 1;
    }
}

fn push_pad_right(out: &mut String, s: &str, w: usize)
    ensures
        final(out)@ == old(out)@ + pad_right(s@, w as nat),
{
    reveal(pad_right);
    let n = s.unicode_len();
    out.append(s);
    if n < w {
        push_repeat(out, ' ', w - n);
    }
    assert(out@ =~= old(out)@ + pad_right(s@, w as nat));
}

fn push_pad_left(out: &mut String, s: &str, w: usize)
    ensures
        final(out)@ == old(out)@ + pad_left(s@, w as nat),
{
    reveal(pad_left);
    let n = s.unicode_len();
    if n < w {
        push_repeat(out, ' ', w - n);
    }
    out.append(s);
    assert(out@ =~= old(out)@ + pad_left(s@, w as nat));
}

/// Whether cutting `s` to `w` bytes stays on a character boundary: it fits
/// in `w` bytes, or its first `w - 1` bytes end on one.
#[verifier::opaque]
pub open spec fn cut_ok(s: Seq<char>, w: nat) -> bool {
    utf8_len(s) <= w || byte_cut_ok(s, (w - 1) as nat)
}

/// `s` held to `w` bytes: unchanged when it fits, else its first `w - 1`
/// bytes and an ellipsis.
#[verifier::opaque]
pub open spec fn truncate_spec(s: Seq<char>, w: nat) -> Seq<char> {
    if utf8_len(s) > w {
        byte_prefix(s, (w - 1) as nat).push('\u{2026}')
    } else {
        s
    }
}

/// A field held to `width` bytes (see `truncate_spec`).
pub fn truncate_field(value: &str, width: usize) -> (r: String)
    requires
        width >= 1,
        cut_ok(value@, width as nat),
    ensures
        r@ == truncate_spec(value@, width as nat),
{
    reveal(truncate_spec);
    reveal(cut_ok);
    let v = chars_of(value);
    let k = fitting_prefix(&v, width);
    if k == v.len() {
        return string_of(v.as_slice());
    }
    let k2 = fitting_prefix(&v, width - 1);
    let mut out: Vec<char> = Vec::new();
    let mut j: usize = 0;
    while j < k2
        invariant
            j <= k2 <= v@.len(),
            out@ == v@.subrange(0, j as int),
        decreases k2 - j,
    {
        out.push(v[j]);
        assert(v@.subrange(0, j + 1) =~= v@.subrange(0, j as int).push(v@[j as int]));
        j = j + 1;
    }
    out.push('\u{2026}');
    string_of(out.as_slice())
}

/// A cell of a table row: two spaces, then the field held to `w` bytes and
/// padded to `w` characters.
#[verifier::opaque]
pub open spec fn cell(s: Seq<char>, w: nat) -> Seq<char> {
    "  "@ + pad_right(truncate_spec(s, w), w)
}

fn push_cell(out: &mut String, s: &str, w: usize)
    requires
        w >= 1,
        cut_ok(s@, w as nat),
    ensures
        final(out)@ == old(out)@ + cell(s@, w as nat),
{
    reveal(cell);
    out.append("  ");
    let t = truncate_field(s, w);
    push_pad_right(out, t.as_str(), w);
    assert(out@ =~= old(out)@ + cell(s@, w as nat));
}

/// A heading cell: two spaces and the label padded to `w` characters.
pub open spec fn head(s: Seq<char>, w: nat) -> Seq<char> {
    "  "@ + pad_right(s, w)
}

fn push_head(out: &mut String, s: &str, w: usize)
    ensures
        final(out)@ == old(out)@ + head(s@, w as nat),
{
    out.append("  ");
    push_pad_right(out, s, w);
    assert(out@ =~= old(out)@ + head(s@, w as nat));
}

/// A separator line of `n` dashes.
pub open spec fn rule_line(n: nat) -> Seq<char> {
    "  "@ + repeat_char('-', n) + "\n"@
}

fn push_rule(out: &mut String, n: usize)
    ensures
        final(out)@ == old(out)@ + rule_line(n as nat),
{
    out.append("  ");
    push_repeat(out, '-', n);
    out.append("\n");
    assert(out@ =~= old(out)@ + rule_line(n as nat));
}

/// A path separator, `/` or `\`.
pub open spec fn is_path_sep(c: char) -> bool {
    c == '/' || c == '\\'
}

/// The part of a path after its last separator.
pub open spec fn last_segment(s: Seq<char>) -> Seq<char>
    decreases s.len(),
{
    if s.len() == 0 {
        s
    } else if is_path_sep(s.last()) {
        Seq::empty()
    } else {
        last_segment(s.drop_last()).push(s.last())
    }
}

/// The last component of a worktree path (see `last_segment`).
pub fn short_worktree_indicator(path: &str) -> (r: String)
    ensures
        r@ == last_segment(path@),
{
    let v = chars_of(path);
    let mut i: usize = v.len();
    assert(v@.subrange(0, v@.len() as int) =~= v@);
    assert(v@.subrange(v@.len() as int, v@.len() as int) =~= Seq::<char>::empty());
    while i > 0 && !(v[i - 1] == '/' || v[i - 1] == '\\')
        invariant
            i <= v@.len(),
            last_segment(v@) == last_segment(v@.subrange(0, i as int)) + v@.subrange(i as int, v@.len() as int),
        decreases i,
    {
        let ghost sub = v@.subrange(0, i as int);
        assert(sub.drop_last() =~= v@.subrange(0, i - 1));
        assert(last_segment(sub) == last_segment(v@.subrange(0, i - 1)).push(v@[i - 1]));
        assert(last_segment(v@.subrange(0, i - 1)).push(v@[i - 1]) + v@.subrange(i as int, v@.len() as int)
            =~= last_segment(v@.subrange(0, i - 1)) + v@.subrange(i - 1, v@.len() as int));
        i = i - 1;
    }
    proof {
        assert(v@.subrange(0, v@.len() as int) =~= v@);
        if i == 0 {
            assert(v@.subrange(0, 0) =~= Seq::<char>::empty());
            assert(last_segment(v@.subrange(0, 0)) =~= Seq::<char>::empty());
        } else {
            assert(v@.subrange(0, i as int).last() == v@[i - 1]);
        }
        assert(last_segment(v@) =~= v@.subrange(i as int, v@.len() as int));
    }
    let mut out: Vec<char> = Vec::new();
    let mut j: usize = i;
    while j < v.len()
        invariant
            i <= j <= v@.len(),
            out@ == v@.subrange(i as int, j as int),
        decreases v@.len() - j,
    {
        out.push(v[j]);
        assert(v@.subrange(i as int, j + 1) =~= v@.subrange(i as int, j as int).push(v@[j as int]));
        j = j + 1;
    }
    string_of(out.as_slice())
}

/// The status a board shows for an entry: an active entry whose heartbeat is
/// older than the stale limit shows as stale.
pub open spec fn entry_status_spec(status: BoardEntryStatus, stale_after_secs: u64, age_secs: u64) -> Seq<char> {
    if status == BoardEntryStatus::Active && age_secs > stale_after_secs {
        "stale"@
    } else {
        status_label(status)
    }
}

/// The status a board shows for an entry (see `entry_status_spec`).
pub fn entry_status(entry: &BoardEntry, config: &BoardConfig, age_secs: u64) -> (r: &'static str)
    ensures
        r@ == entry_status_spec(entry.status, config.stale_after_secs, age_secs),
{
    match entry.status {
        BoardEntryStatus::Active => if age_secs > config.stale_after_secs {
            "stale"
        } else {
            "active"
        },
        BoardEntryStatus::Stale => "stale",
        BoardEntryStatus::Conflict => "conflict",
        BoardEntryStatus::Completed => "completed",
    }
}

/// A time the board can hold, in nanoseconds since the Unix epoch: well
/// inside the calendar range of `chrono`.
pub open spec fn time_in_range(t: i128) -> bool {
    -0x1_0000_0000_0000_0000_0000 < t < 0x1_0000_0000_0000_0000_0000
}

/// Whole seconds from `last` to `now`, `0` when `now` is not later.
pub open spec fn age_secs_spec(last: i128, now: i128) -> int {
    if now - last > 0 {
        (now - last) / 1_000_000_000
    } else {
        0
    }
}

/// Whole seconds since an entry's last heartbeat (see `age_secs_spec`).
pub fn heartbeat_age_secs(entry: &BoardEntry, now: i128) -> (r: u64)
    requires
        time_in_range(entry.last_heartbeat),
        time_in_range(now),
    ensures
        r == age_secs_spec(entry.last_heartbeat, now),
{
    let d: i128 = now - entry.last_heartbeat;
    if d > 0 {
        let s: i128 = d / 1_000_000_000;
        assert(d / 1_000_000_000 < 0x1_0000_0000_0000_0000) by (nonlinear_arith)
            requires
                0 < d < 0x2_0000_0000_0000_0000_0000,
        ;
        s as u64
    } else {
        0
    }
}

/// The first eight hexadecimal digits of a ticket id.
pub open spec fn short_id_spec(id: u128) -> Seq<char> {
    hex_digits(id as nat / 0x1_0000_0000_0000_0000_0000_0000, 8)
}

/// The short form of a ticket id (see `short_id_spec`).
pub fn short_ticket_id(ticket_id: u128) -> (r: String)
    ensures
        r@ == short_id_spec(ticket_id),
{
    let mut out = String::new();
    push_hex(&mut out, ticket_id / 0x1_0000_0000_0000_0000_0000_0000, 8);
    assert(out@ =~= short_id_spec(ticket_id));
    out
}


/// One row of the board's tables: a board entry with what the board shows
/// beside it.
pub struct BoardDisplayEntry {
    pub entry_id: u128,
    pub ticket_id: u128,
    pub title: String,
    pub state: Option<String>,
    pub agent_id: String,
    pub intent: String,
    pub status: String,
    pub heartbeat_age_secs: u64,
    pub owned_files: Vec<String>,
    pub handoff_reason: Option<String>,
    /// When the work was completed, in nanoseconds since the Unix epoch.
    pub completed_at: Option<i128>,
    pub session_id: Option<String>,
    pub worktree_path: Option<String>,
    pub branch: Option<String>,
}

/// What the live board shows besides its snapshot: the current work, the
/// recommended next tickets and the immediate actions.
pub struct BoardDisplay {
    pub current_work: Vec<BoardDisplayEntry>,
    pub recommended_next: Vec<BoardRecommendation>,
    pub actions: Vec<String>,
}

/// The completed entries the board history shows.
pub struct BoardHistoryDisplay {
    pub entries: Vec<BoardDisplayEntry>,
}

/// The parts of a board history snapshot that its rendering reads: the
/// window, the completions inside it and those left out.
pub struct BoardHistorySnapshot {
    pub config: BoardConfig,
    pub completed_count: usize,
    pub hidden_completed_count: usize,
}

/// A warning mark after a count that is not zero.
pub open spec fn warning_suffix_spec(count: u32) -> Seq<char> {
    if count > 0 {
        " \u{26a0}"@
    } else {
        Seq::empty()
    }
}

/// The warning mark after a count (see `warning_suffix_spec`).
pub fn warning_suffix(count: u32) -> (r: &'static str)
    ensures
        r@ == warning_suffix_spec(count),
{
    if count > 0 {
        " \u{26a0}"
    } else {
        proof {
            reveal_strlit("");
        }
        ""
    }
}

/// The board's first line: active entries against the WIP limit, stale
/// entries and conflicts.
pub open spec fn summary_spec(snap: &BoardSnapshot) -> Seq<char> {
    "Board: ["@ + decimal(snap.active_count as nat) + "/"@ + decimal(snap.config.max_wip as nat) + " active] ["@
        + decimal(snap.stale_count as nat) + " stale"@ + warning_suffix_spec(snap.stale_count) + "] ["@
        + decimal(snap.conflict_count as nat) + " conflict"@ + warning_suffix_spec(snap.conflict_count) + "]\n"@
}

fn write_summary(out: &mut String, snap: &BoardSnapshot)
    ensures
        final(out)@ == old(out)@ + summary_spec(snap),
{
    out.append("Board: [");
    push_decimal(out, snap.active_count as u64);
    out.append("/");
    push_decimal(out, snap.config.max_wip as u64);
    out.append(" active] [");
    push_decimal(out, snap.stale_count as u64);
    out.append(" stale");
    out.append(warning_suffix(snap.stale_count));
    out.append("] [");
    push_decimal(out, snap.conflict_count as u64);
    out.append(" conflict");
    out.append(warning_suffix(snap.conflict_count));
    out.append("]\n");
    assert(out@ =~= old(out)@ + summary_spec(snap));
}

/// Numbered action lines, from one.
pub open spec fn action_lines(actions: Seq<String>) -> Seq<char>
    decreases actions.len(),
{
    if actions.len() == 0 {
        Seq::empty()
    } else {
        action_lines(actions.drop_last()) + "  "@ + decimal(actions.len()) + ". "@ + actions.last()@ + "\n"@
    }
}

/// The `Immediate Actions` section, absent when there are none.
pub open spec fn actions_spec(actions: Seq<String>) -> Seq<char> {
    if actions.len() == 0 {
        Seq::empty()
    } else {
        "\n"@ + "Immediate Actions:\n"@ + action_lines(actions)
    }
}

fn write_actions(out: &mut String, actions: &[String])
    ensures
        final(out)@ == old(out)@ + actions_spec(actions@),
{
    if actions.len() == 0 {
        assert(out@ =~= old(out)@ + actions_spec(actions@));
        return;
    }
    out.append("\n");
    out.append("Immediate Actions:\n");
    let ghost start = out@;
    let mut i: usize = 0;
    assert(actions@.subrange(0, 0) =~= Seq::<String>::empty());
    while i < actions.len()
        invariant
            i <= actions@.len(),
            out@ == start + action_lines(actions@.subrange(0, i as int)),
        decreases actions@.len() - i,
    {
        let ghost sub = actions@.subrange(0, i + 1);
        assert(sub.drop_last() =~= actions@.subrange(0, i as int));
        out.append("  ");
        push_decimal(out, (i + 1) as u64);
        out.append(". ");
        out.append(actions[i].as_str());
        out.append("\n");
        assert(out@ =~= start + action_lines(sub));
        i = i + 1;
    }
    assert(actions@.subrange(0, actions@.len() as int) =~= actions@);
    assert(out@ =~= old(out)@ + actions_spec(actions@));
}

/// Warning lines, each after a warning mark, preceded by a blank line;
/// nothing when there are none.
pub open spec fn warning_lines(warnings: Seq<String>) -> Seq<char>
    decreases warnings.len(),
{
    if warnings.len() == 0 {
        Seq::empty()
    } else {
        warning_lines(warnings.drop_last()) + "  \u{26a0}  "@ + warnings.last()@ + "\n"@
    }
}

/// The warnings section.
pub open spec fn warnings_spec(warnings: Seq<String>) -> Seq<char> {
    if warnings.len() == 0 {
        Seq::empty()
    } else {
        "\n"@ + warning_lines(warnings)
    }
}

fn write_warnings(out: &mut String, warnings: &[String])
    ensures
        final(out)@ == old(out)@ + warnings_spec(warnings@),
{
    if warnings.len() == 0 {
        assert(out@ =~= old(out)@ + warnings_spec(warnings@));
        return;
    }
    out.append("\n");
    let ghost start = out@;
    let mut i: usize = 0;
    assert(warnings@.subrange(0, 0) =~= Seq::<String>::empty());
    while i < warnings.len()
        invariant
            i <= warnings@.len(),
            out@ == start + warning_lines(warnings@.subrange(0, i as int)),
        decreases warnings@.len() - i,
    {
        let ghost sub = warnings@.subrange(0, i + 1);
        assert(sub.drop_last() =~= warnings@.subrange(0, i as int));
        out.append("  \u{26a0}  ");
        out.append(warnings[i].as_str());
        out.append("\n");
        assert(out@ =~= start + warning_lines(sub));
        i = i + 1;
    }
    assert(warnings@.subrange(0, warnings@.len() as int) =~= warnings@);
    assert(out@ =~= old(out)@ + warnings_spec(warnings@));
}

/// Strings joined by `, `.
pub open spec fn join_comma(s: Seq<String>) -> Seq<char>
    decreases s.len(),
{
    if s.len() == 0 {
        Seq::empty()
    } else if s.len() == 1 {
        s[0]@
    } else {
        join_comma(s.drop_last()) + ", "@ + s.last()@
    }
}

fn push_joined(out: &mut String, s: &Vec<String>)
    ensures
        final(out)@ == old(out)@ + join_comma(s@),
{
    let ghost start = out@;
    let mut i: usize = 0;
    assert(s@.subrange(0, 0) =~= Seq::<String>::empty());
    while i < s.len()
        invariant
            i <= s@.len(),
            out@ == start + join_comma(s@.subrange(0, i as int)),
        decreases s@.len() - i,
    {
        let ghost sub = s@.subrange(0, i + 1);
        assert(sub.drop_last() =~= s@.subrange(0, i as int));
        if i > 0 {
            out.append(", ");
        }
        out.append(s[i].as_str());
        assert(out@ =~= start + join_comma(sub));
        i = i + 1;
    }
    assert(s@.subrange(0, s@.len() as int) =~= s@);
}

/// One line per owned file: the path, an arrow and its owners.
pub open spec fn ownership_lines(owners: Seq<(String, Vec<String>)>) -> Seq<char>
    decreases owners.len(),
{
    if owners.len() == 0 {
        Seq::empty()
    } else {
        ownership_lines(owners.drop_last()) + "  "@ + owners.last().0@ + "  \u{2192}  "@ + join_comma(
            owners.last().1@,
        ) + "\n"@
    }
}

/// The `File Ownership` section, absent when no file is owned.
pub open spec fn ownership_spec(owners: Seq<(String, Vec<String>)>) -> Seq<char> {
    if owners.len() == 0 {
        Seq::empty()
    } else {
        "\n"@ + "File Ownership:\n"@ + ownership_lines(owners)
    }
}

fn write_file_ownership(out: &mut String, file_ownership: &Vec<(String, Vec<String>)>)
    ensures
        final(out)@ == old(out)@ + ownership_spec(file_ownership@),
{
    if file_ownership.len() == 0 {
        assert(out@ =~= old(out)@ + ownership_spec(file_ownership@));
        return;
    }
    out.append("\n");
    out.append("File Ownership:\n");
    let ghost start = out@;
    let mut i: usize = 0;
    assert(file_ownership@.subrange(0, 0) =~= Seq::<(String, Vec<String>)>::empty());
    while i < file_ownership.len()
        invariant
            i <= file_ownership@.len(),
            out@ == start + ownership_lines(file_ownership@.subrange(0, i as int)),
        decreases file_ownership@.len() - i,
    {
        let ghost sub = file_ownership@.subrange(0, i + 1);
        assert(sub.drop_last() =~= file_ownership@.subrange(0, i as int));
        let (path, agents) = &file_ownership[i];
        out.append("  ");
        out.append(path.as_str());
        out.append("  \u{2192}  ");
        push_joined(out, agents);
        out.append("\n");
        assert(out@ =~= start + ownership_lines(sub));
        i = i + 1;
    }
    assert(file_ownership@.subrange(0, file_ownership@.len() as int) =~= file_ownership@);
    assert(out@ =~= old(out)@ + ownership_spec(file_ownership@));
}

/// An optional text, empty when absent.
pub open spec fn opt_text(o: Option<String>) -> Seq<char> {
    match o {
        Some(x) => x@,
        None => Seq::empty(),
    }
}

/// The last component of an optional worktree path, empty when absent.
pub open spec fn worktree_text(o: Option<String>) -> Seq<char> {
    match o {
        Some(p) => last_segment(p@),
        None => Seq::empty(),
    }
}

fn opt_str(o: &Option<String>) -> (r: &str)
    ensures
        r@ == opt_text(*o),
{
    match o {
        Some(x) => x.as_str(),
        None => {
            proof {
                reveal_strlit("");
            }
            ""
        },
    }
}

fn worktree_string(o: &Option<String>) -> (r: String)
    ensures
        r@ == worktree_text(*o),
{
    match o {
        Some(p) => short_worktree_indicator(p.as_str()),
        None => String::new(),
    }
}

/// Whether some entry names a worktree or a branch.
pub open spec fn has_worktree_metadata(es: Seq<BoardDisplayEntry>) -> bool {
    exists|i: int| 0 <= i < es.len() && (es[i].worktree_path is Some || es[i].branch is Some)
}

fn any_worktree_metadata(es: &[BoardDisplayEntry]) -> (r: bool)
    ensures
        r == has_worktree_metadata(es@),
{
    let mut i: usize = 0;
    while i < es.len()
        invariant
            i <= es@.len(),
            forall|j: int| 0 <= j < i ==> !(es@[j].worktree_path is Some || es@[j].branch is Some),
        decreases es@.len() - i,
    {
        if es[i].worktree_path.is_some() || es[i].branch.is_some() {
            return true;
        }
        i = i + 1;
    }
    false
}

/// The heading of the current work table with worktree columns.
pub open spec fn wide_header() -> Seq<char> {
    head("STATUS"@, 10) + head("TICKET"@, 8) + head("TITLE"@, 24) + head("AGENT"@, 14) + head("SESSION"@, 16)
        + head("BRANCH"@, 16) + head("WORKTREE"@, 16) + head("INTENT"@, 18) + "  "@ + pad_left("HB AGE"@, 6)
        + "\n"@
}

/// The heading of the current work table without worktree columns.
pub open spec fn narrow_header() -> Seq<char> {
    head("STATUS"@, 10) + head("TICKET"@, 8) + head("TITLE"@, 34) + head("AGENT"@, 18) + head("INTENT"@, 20)
        + "  "@ + pad_left("HB AGE"@, 10) + "\n"@
}

/// The leading columns of a current work row: status, ticket, title and
/// agent, at the given title and agent widths.
pub open spec fn row_head(e: BoardDisplayEntry, title_w: nat, agent_w: nat) -> Seq<char> {
    cell(e.status@, 10) + "  "@ + pad_right(short_id_spec(e.ticket_id), 8) + cell(e.title@, title_w) + cell(
        e.agent_id@,
        agent_w,
    )
}

/// The worktree columns of a wide row: session, branch and worktree.
pub open spec fn row_worktree(e: BoardDisplayEntry) -> Seq<char> {
    cell(opt_text(e.session_id), 16) + cell(opt_text(e.branch), 16) + cell(worktree_text(e.worktree_path), 16)
}

/// The trailing columns of a current work row: intent and heartbeat age.
pub open spec fn row_tail(e: BoardDisplayEntry, intent_w: nat, age_w: nat) -> Seq<char> {
    cell(e.intent@, intent_w) + "  "@ + pad_left(decimal(e.heartbeat_age_secs as nat), age_w) + "\n"@
}

/// A current work row with worktree columns.
pub open spec fn wide_row(e: BoardDisplayEntry) -> Seq<char> {
    row_head(e, 24, 14) + row_worktree(e) + row_tail(e, 18, 6)
}

/// A current work row without worktree columns.
pub open spec fn narrow_row(e: BoardDisplayEntry) -> Seq<char> {
    row_head(e, 34, 18) + row_tail(e, 20, 10)
}

/// The fields of a wide row can be cut on character boundaries.
pub open spec fn wide_cuts_ok(e: BoardDisplayEntry) -> bool {
    &&& cut_ok(e.status@, 10)
    &&& cut_ok(e.title@, 24)
    &&& cut_ok(e.agent_id@, 14)
    &&& cut_ok(opt_text(e.session_id), 16)
    &&& cut_ok(opt_text(e.branch), 16)
    &&& cut_ok(worktree_text(e.worktree_path), 16)
    &&& cut_ok(e.intent@, 18)
}

/// The fields of a narrow row can be cut on character boundaries.
pub open spec fn narrow_cuts_ok(e: BoardDisplayEntry) -> bool {
    &&& cut_ok(e.status@, 10)
    &&& cut_ok(e.title@, 34)
    &&& cut_ok(e.agent_id@, 18)
    &&& cut_ok(e.intent@, 20)
}

/// The rows of the current work table, wide or narrow.
pub open spec fn work_rows(es: Seq<BoardDisplayEntry>, wide: bool) -> Seq<char>
    decreases es.len(),
{
    if es.len() == 0 {
        Seq::empty()
    } else {
        work_rows(es.drop_last(), wide) + if wide {
            wide_row(es.last())
        } else {
            narrow_row(es.last())
        }
    }
}

/// The entries of the current work table can be cut on character
/// boundaries, in the layout that the table takes.
pub open spec fn current_work_ok(es: Seq<BoardDisplayEntry>) -> bool {
    if has_worktree_metadata(es) {
        forall|i: int| 0 <= i < es.len() ==> wide_cuts_ok(#[trigger] es[i])
    } else {
        forall|i: int| 0 <= i < es.len() ==> narrow_cuts_ok(#[trigger] es[i])
    }
}

/// The `Current Work` section: a table with worktree columns when some
/// entry names a worktree or branch, a narrower one otherwise.
pub open spec fn current_work_spec(es: Seq<BoardDisplayEntry>) -> Seq<char> {
    "\n"@ + "Current Work:\n"@ + if es.len() == 0 {
        "  (no active board entries)\n"@
    } else if has_worktree_metadata(es) {
        wide_header() + rule_line(150) + work_rows(es, true)
    } else {
        narrow_header() + rule_line(112) + work_rows(es, false)
    }
}

fn push_number_left(out: &mut String, n: u64, w: usize)
    ensures
        final(out)@ == old(out)@ + pad_left(decimal(n as nat), w as nat),
{
    let t = crate::text::decimal_string(n);
    push_pad_left(out, t.as_str(), w);
}

fn push_row_head(out: &mut String, e: &BoardDisplayEntry, title_w: usize, agent_w: usize)
    requires
        title_w >= 1,
        agent_w >= 1,
        cut_ok(e.status@, 10),
        cut_ok(e.title@, title_w as nat),
        cut_ok(e.agent_id@, agent_w as nat),
    ensures
        final(out)@ == old(out)@ + row_head(*e, title_w as nat, agent_w as nat),
{
    push_cell(out, e.status.as_str(), 10);
    out.append("  ");
    let id = short_ticket_id(e.ticket_id);
    push_pad_right(out, id.as_str(), 8);
    push_cell(out, e.title.as_str(), title_w);
    push_cell(out, e.agent_id.as_str(), agent_w);
    assert(out@ =~= old(out)@ + row_head(*e, title_w as nat, agent_w as nat));
}

fn push_row_worktree(out: &mut String, e: &BoardDisplayEntry)
    requires
        cut_ok(opt_text(e.session_id), 16),
        cut_ok(opt_text(e.branch), 16),
        cut_ok(worktree_text(e.worktree_path), 16),
    ensures
        final(out)@ == old(out)@ + row_worktree(*e),
{
    push_cell(out, opt_str(&e.session_id), 16);
    push_cell(out, opt_str(&e.branch), 16);
    let worktree = worktree_string(&e.worktree_path);
    push_cell(out, worktree.as_str(), 16);
    assert(out@ =~= old(out)@ + row_worktree(*e));
}

fn push_row_tail(out: &mut String, e: &BoardDisplayEntry, intent_w: usize, age_w: usize)
    requires
        intent_w >= 1,
        cut_ok(e.intent@, intent_w as nat),
    ensures
        final(out)@ == old(out)@ + row_tail(*e, intent_w as nat, age_w as nat),
{
    push_cell(out, e.intent.as_str(), intent_w);
    out.append("  ");
    push_number_left(out, e.heartbeat_age_secs, age_w);
    out.append("\n");
    assert(out@ =~= old(out)@ + row_tail(*e, intent_w as nat, age_w as nat));
}

fn push_wide_row(out: &mut String, e: &BoardDisplayEntry)
    requires
        wide_cuts_ok(*e),
    ensures
        final(out)@ == old(out)@ + wide_row(*e),
{
    push_row_head(out, e, 24, 14);
    push_row_worktree(out, e);
    push_row_tail(out, e, 18, 6);
    assert(out@ =~= old(out)@ + wide_row(*e));
}

fn push_narrow_row(out: &mut String, e: &BoardDisplayEntry)
    requires
        narrow_cuts_ok(*e),
    ensures
        final(out)@ == old(out)@ + narrow_row(*e),
{
    push_row_head(out, e, 34, 18);
    push_row_tail(out, e, 20, 10);
    assert(out@ =~= old(out)@ + narrow_row(*e));
}

fn push_wide_header(out: &mut String)
    ensures
        final(out)@ == old(out)@ + wide_header(),
{
    push_head(out, "STATUS", 10);
    push_head(out, "TICKET", 8);
    push_head(out, "TITLE", 24);
    push_head(out, "AGENT", 14);
    push_head(out, "SESSION", 16);
    push_head(out, "BRANCH", 16);
    push_head(out, "WORKTREE", 16);
    push_head(out, "INTENT", 18);
    out.append("  ");
    push_pad_left(out, "HB AGE", 6);
    out.append("\n");
    assert(out@ =~= old(out)@ + wide_header());
}

fn push_narrow_header(out: &mut String)
    ensures
        final(out)@ == old(out)@ + narrow_header(),
{
    push_head(out, "STATUS", 10);
    push_head(out, "TICKET", 8);
    push_head(out, "TITLE", 34);
    push_head(out, "AGENT", 18);
    push_head(out, "INTENT", 20);
    out.append("  ");
    push_pad_left(out, "HB AGE", 10);
    out.append("\n");
    assert(out@ =~= old(out)@ + narrow_header());
}

fn push_work_rows(out: &mut String, es: &[BoardDisplayEntry], wide: bool)
    requires
        wide ==> forall|i: int| 0 <= i < es@.len() ==> wide_cuts_ok(#[trigger] es@[i]),
        !wide ==> forall|i: int| 0 <= i < es@.len() ==> narrow_cuts_ok(#[trigger] es@[i]),
    ensures
        final(out)@ == old(out)@ + work_rows(es@, wide),
{
    let ghost start = out@;
    let mut i: usize = 0;
    assert(es@.subrange(0, 0) =~= Seq::<BoardDisplayEntry>::empty());
    while i < es.len()
        invariant
            i <= es@.len(),
            wide ==> forall|j: int| 0 <= j < es@.len() ==> wide_cuts_ok(#[trigger] es@[j]),
            !wide ==> forall|j: int| 0 <= j < es@.len() ==> narrow_cuts_ok(#[trigger] es@[j]),
            out@ == start + work_rows(es@.subrange(0, i as int), wide),
        decreases es@.len() - i,
    {
        let ghost sub = es@.subrange(0, i + 1);
        assert(sub.drop_last() =~= es@.subrange(0, i as int));
        assert(sub.last() == es@[i as int]);
        if wide {
            push_wide_row(out, &es[i]);
        } else {
            push_narrow_row(out, &es[i]);
        }
        assert(out@ =~= start + work_rows(sub, wide));
        i = i + 1;
    }
    assert(es@.subrange(0, es@.len() as int) =~= es@);
}

fn write_current_work(out: &mut String, current_work: &[BoardDisplayEntry])
    requires
        current_work_ok(current_work@),
    ensures
        final(out)@ == old(out)@ + current_work_spec(current_work@),
{
    out.append("\n");
    out.append("Current Work:\n");
    if current_work.len() == 0 {
        out.append("  (no active board entries)\n");
        assert(out@ =~= old(out)@ + current_work_spec(current_work@));
        return;
    }
    let wide = any_worktree_metadata(current_work);
    if wide {
        push_wide_header(out);
        push_rule(out, 150);
    } else {
        push_narrow_header(out);
        push_rule(out, 112);
    }
    push_work_rows(out, current_work, wide);
    assert(out@ =~= old(out)@ + current_work_spec(current_work@));
}

/// Whether every character of a text is ASCII.
pub open spec fn is_ascii_text(s: Seq<char>) -> bool {
    forall|i: int| 0 <= i < s.len() ==> (#[trigger] s[i] as u32) < 0x80
}

proof fn lemma_ascii_concat(a: Seq<char>, b: Seq<char>)
    requires
        is_ascii_text(a),
        is_ascii_text(b),
    ensures
        is_ascii_text(a + b),
{
    assert forall|i: int| 0 <= i < (a + b).len() implies ((#[trigger] (a + b)[i]) as u32) < 0x80 by {
        if i < a.len() {
            assert((a + b)[i] == a[i]);
        } else {
            assert((a + b)[i] == b[i - a.len()]);
        }
    }
}

proof fn lemma_ascii_utf8_len(s: Seq<char>)
    requires
        is_ascii_text(s),
    ensures
        utf8_len(s) == s.len(),
    decreases s.len(),
{
    if s.len() > 0 {
        assert(s.last() == s[s.len() - 1]);
        lemma_ascii_utf8_len(s.drop_last());
    }
}

/// An ASCII text can be cut anywhere.
proof fn lemma_ascii_cut_ok(s: Seq<char>, w: nat)
    requires
        is_ascii_text(s),
        w >= 1,
    ensures
        cut_ok(s, w),
{
    reveal(cut_ok);
    lemma_ascii_utf8_len(s);
    if s.len() > w {
        let t = s.subrange(0, w - 1);
        assert(is_ascii_text(t));
        lemma_ascii_utf8_len(t);
        assert(utf8_len(s.subrange(0, (w - 1) as int)) == (w - 1) as nat);
    }
}

proof fn lemma_decimal_ascii(n: nat)
    ensures
        is_ascii_text(decimal(n)),
    decreases n,
{
    if n >= 10 {
        lemma_decimal_ascii(n / 10);
        assert(decimal(n) == decimal(n / 10).push(crate::text::digit_char(n % 10)));
        lemma_ascii_concat(decimal(n / 10), seq![crate::text::digit_char(n % 10)]);
        assert(decimal(n / 10).push(crate::text::digit_char(n % 10)) =~= decimal(n / 10) + seq![
            crate::text::digit_char(n % 10),
        ]);
    }
}

/// The UTC calendar fields (year, month, day, hour, minute) of a Unix time
/// given in seconds and nanoseconds, as `chrono` computes them, if the time
/// is within its range.
pub uninterp spec fn utc_fields(secs: i64, nsec: u32) -> Option<(i32, u32, u32, u32, u32)>;

/// `chrono::DateTime::from_timestamp`, read back as calendar fields in UTC.
/// Claimed: the result depends on the arguments alone, and a month runs
/// from 1 to 12, a day from 1 to 31, an hour below 24 and a minute below
/// 60; which times are in range, and their fields, are not stated here.
#[verifier::external_body]
fn utc_fields_of(secs: i64, nsec: u32) -> (r: Option<(i32, u32, u32, u32, u32)>)
    ensures
        r == utc_fields(secs, nsec),
        r matches Some((y, mo, d, h, mi)) ==> 1 <= mo <= 12 && 1 <= d <= 31 && h < 24 && mi < 60,
{
    chrono::DateTime::from_timestamp(secs, nsec).map(|t| (t.year(), t.month(), t.day(), t.hour(), t.minute()))
}

/// Decimal digits padded with zeros to four.
pub open spec fn pad_zero4(s: Seq<char>) -> Seq<char> {
    if s.len() >= 4 {
        s
    } else {
        repeat_char('0', (4 - s.len()) as nat) + s
    }
}

/// A year as `%Y` writes it: four digits from 0 to 9999, else a sign and at
/// least four digits.
pub open spec fn year_text(y: int) -> Seq<char> {
    if 0 <= y <= 9999 {
        pad_zero4(decimal(y as nat))
    } else if y > 9999 {
        "+"@ + pad_zero4(decimal(y as nat))
    } else {
        "-"@ + pad_zero4(decimal((-y) as nat))
    }
}

/// Whole seconds of a time in nanoseconds, rounded down.
pub open spec fn secs_of(t: i128) -> int {
    (t as int) / 1_000_000_000
}

/// The nanoseconds past the whole second.
pub open spec fn nsec_of(t: i128) -> int {
    (t as int) % 1_000_000_000
}

/// A completion time as `YYYY-MM-DD HH:MM` in UTC, or `-` when there is none
/// (or it lies outside the calendar).
pub open spec fn completed_text(completed_at: Option<i128>) -> Seq<char> {
    match completed_at {
        None => "-"@,
        Some(t) => match utc_fields(secs_of(t) as i64, nsec_of(t) as u32) {
            Some((y, mo, d, h, mi)) => year_text(y as int) + "-"@ + pad2(mo as nat) + "-"@ + pad2(d as nat) + " "@
                + pad2(h as nat) + ":"@ + pad2(mi as nat),
            None => "-"@,
        },
    }
}

fn split_nanos(t: i128) -> (r: (i64, u32))
    requires
        time_in_range(t),
    ensures
        r.0 == secs_of(t),
        r.1 == nsec_of(t),
{
    let d: i128 = 1_000_000_000;
    let (q, rem) = if t >= 0 {
        (t / d, t % d)
    } else {
        let m: i128 = -t;
        let q0: i128 = m / d;
        let r0: i128 = m % d;
        if r0 == 0 {
            (-q0, 0)
        } else {
            (-q0 - 1, d - r0)
        }
    };
    proof {
        if t >= 0 {
            vstd::arithmetic::div_mod::lemma_fundamental_div_mod(t as int, d as int);
        } else {
            vstd::arithmetic::div_mod::lemma_fundamental_div_mod((-t) as int, d as int);
        }
        vstd::arithmetic::div_mod::lemma_fundamental_div_mod_converse(t as int, d as int, q as int, rem as int);
        assert(q < 0x1_0000_0000_0000_0000_0000int / 1_000_000_000int + 1);
        assert(q > -0x1_0000_0000_0000_0000_0000int / 1_000_000_000int - 1);
    }
    (q as i64, rem as u32)
}

fn push_pad_zero4(out: &mut String, n: u64)
    ensures
        final(out)@ == old(out)@ + pad_zero4(decimal(n as nat)),
{
    let t = crate::text::decimal_string(n);
    let k = t.unicode_len();
    if k < 4 {
        push_repeat(out, '0', 4 - k);
    }
    out.append(t.as_str());
    assert(out@ =~= old(out)@ + pad_zero4(decimal(n as nat)));
}

fn push_year(out: &mut String, y: i32)
    ensures
        final(out)@ == old(out)@ + year_text(y as int),
{
    if 0 <= y && y <= 9999 {
        push_pad_zero4(out, y as u64);
    } else if y > 9999 {
        out.append("+");
        push_pad_zero4(out, y as u64);
    } else {
        out.append("-");
        let m: i64 = -(y as i64);
        push_pad_zero4(out, m as u64);
    }
    assert(out@ =~= old(out)@ + year_text(y as int));
}

proof fn lemma_completed_text_ascii(completed_at: Option<i128>)
    ensures
        is_ascii_text(completed_text(completed_at)),
{
    reveal_strlit("-");
    reveal_strlit("+");
    reveal_strlit(" ");
    reveal_strlit(":");
    reveal_strlit("0");
    match completed_at {
        None => {},
        Some(t) => match utc_fields(secs_of(t) as i64, nsec_of(t) as u32) {
            Some((y, mo, d, h, mi)) => {
                let yi = y as int;
                let digits = if yi >= 0 { decimal(yi as nat) } else { decimal((-yi) as nat) };
                lemma_decimal_ascii(if yi >= 0 { yi as nat } else { (-yi) as nat });
                let zeros = repeat_char('0', (4 - digits.len()) as nat);
                assert(is_ascii_text(zeros));
                lemma_ascii_concat(zeros, digits);
                let p4 = pad_zero4(digits);
                assert(is_ascii_text(p4));
                lemma_ascii_concat("+"@, p4);
                lemma_ascii_concat("-"@, p4);
                let yt = year_text(yi);
                assert(is_ascii_text(yt));
                lemma_decimal_ascii(mo as nat);
                lemma_ascii_concat("0"@, decimal(mo as nat));
                let p1 = yt + "-"@;
                lemma_ascii_concat(yt, "-"@);
                let p2 = p1 + pad2(mo as nat);
                lemma_ascii_concat(p1, pad2(mo as nat));
                let p3 = p2 + "-"@;
                lemma_ascii_concat(p2, "-"@);
                let p4b = p3 + pad2(d as nat);
                lemma_decimal_ascii(d as nat);
                lemma_ascii_concat("0"@, decimal(d as nat));
                lemma_ascii_concat(p3, pad2(d as nat));
                let p5 = p4b + " "@;
                lemma_ascii_concat(p4b, " "@);
                let p6 = p5 + pad2(h as nat);
                lemma_decimal_ascii(h as nat);
                lemma_ascii_concat("0"@, decimal(h as nat));
                lemma_ascii_concat(p5, pad2(h as nat));
                let p7 = p6 + ":"@;
                lemma_ascii_concat(p6, ":"@);
                lemma_decimal_ascii(mi as nat);
                lemma_ascii_concat("0"@, decimal(mi as nat));
                lemma_ascii_concat(p7, pad2(mi as nat));
            },
            None => {},
        },
    }
}

/// A completion time as text (see `completed_text`).
pub fn format_completed_at(completed_at: Option<i128>) -> (r: String)
    requires
        completed_at matches Some(t) ==> time_in_range(t),
    ensures
        r@ == completed_text(completed_at),
{
    let mut out = String::new();
    match completed_at {
        None => out.append("-"),
        Some(t) => {
            let (secs, nsec) = split_nanos(t);
            match utc_fields_of(secs, nsec) {
                Some((y, mo, d, h, mi)) => {
                    push_year(&mut out, y);
                    out.append("-");
                    crate::human::push_pad2(&mut out, mo);
                    out.append("-");
                    crate::human::push_pad2(&mut out, d);
                    out.append(" ");
                    crate::human::push_pad2(&mut out, h);
                    out.append(":");
                    crate::human::push_pad2(&mut out, mi);
                },
                None => out.append("-"),
            }
        },
    }
    assert(out@ =~= completed_text(completed_at));
    out
}

/// An `s` after a count other than one.
pub open spec fn plural(n: nat) -> Seq<char> {
    if n == 1 {
        Seq::empty()
    } else {
        "s"@
    }
}

fn push_plural(out: &mut String, n: u64)
    ensures
        final(out)@ == old(out)@ + plural(n as nat),
{
    if n != 1 {
        out.append("s");
    }
    assert(out@ =~= old(out)@ + plural(n as nat));
}

/// The count of completions in the history window.
pub open spec fn history_count_line(n: nat) -> Seq<char> {
    "Board History: ["@ + decimal(n) + " completion"@ + plural(n) + " in window]\n"@
}

/// The history window: all of it when the window is `0`.
pub open spec fn window_line(secs: nat) -> Seq<char> {
    if secs == 0 {
        "Window: all recorded completion history\n"@
    } else {
        "Window: last "@ + decimal(secs) + " second"@ + plural(secs) + "\n"@
    }
}

/// The completions left outside the window, when there are any.
pub open spec fn hidden_line(n: nat) -> Seq<char> {
    if n > 0 {
        "Older hidden: "@ + decimal(n) + " completion"@ + plural(n) + " outside the history window\n"@
    } else {
        Seq::empty()
    }
}

/// The head of the history view: completions in the window, the window, and
/// the completions left outside it.
pub open spec fn history_summary_spec(snap: &BoardHistorySnapshot) -> Seq<char> {
    "\n"@ + history_count_line(snap.completed_count as nat) + window_line(
        snap.config.completed_audit_window_secs as nat,
    ) + hidden_line(snap.hidden_completed_count as nat)
}

fn push_history_count_line(out: &mut String, n: u64)
    ensures
        final(out)@ == old(out)@ + history_count_line(n as nat),
{
    out.append("Board History: [");
    push_decimal(out, n);
    out.append(" completion");
    push_plural(out, n);
    out.append(" in window]\n");
    assert(out@ =~= old(out)@ + history_count_line(n as nat));
}

fn push_window_line(out: &mut String, secs: u64)
    ensures
        final(out)@ == old(out)@ + window_line(secs as nat),
{
    if secs == 0 {
        out.append("Window: all recorded completion history\n");
    } else {
        out.append("Window: last ");
        push_decimal(out, secs);
        out.append(" second");
        push_plural(out, secs);
        out.append("\n");
    }
    assert(out@ =~= old(out)@ + window_line(secs as nat));
}

fn push_hidden_line(out: &mut String, n: u64)
    ensures
        final(out)@ == old(out)@ + hidden_line(n as nat),
{
    if n > 0 {
        out.append("Older hidden: ");
        push_decimal(out, n);
        out.append(" completion");
        push_plural(out, n);
        out.append(" outside the history window\n");
    }
    assert(out@ =~= old(out)@ + hidden_line(n as nat));
}

fn write_history_summary(out: &mut String, snap: &BoardHistorySnapshot)
    ensures
        final(out)@ == old(out)@ + history_summary_spec(snap),
{
    out.append("\n");
    push_history_count_line(out, snap.completed_count as u64);
    push_window_line(out, snap.config.completed_audit_window_secs);
    push_hidden_line(out, snap.hidden_completed_count as u64);
    assert(out@ =~= old(out)@ + history_summary_spec(snap));
}

/// The recorded handoff reason, or a note that there is none.
pub open spec fn handoff_text(o: Option<String>) -> Seq<char> {
    match o {
        Some(h) => h@,
        None => "handoff reason not recorded"@,
    }
}

/// The heading of the completed work table.
pub open spec fn history_header() -> Seq<char> {
    head("TICKET"@, 8) + head("TITLE"@, 34) + head("AGENT"@, 18) + head("COMPLETED"@, 20) + head("HANDOFF"@, 36)
        + "\n"@
}

/// A completed work row.
pub open spec fn history_row(e: BoardDisplayEntry) -> Seq<char> {
    "  "@ + pad_right(short_id_spec(e.ticket_id), 8) + cell(e.title@, 34) + cell(e.agent_id@, 18) + cell(
        completed_text(e.completed_at),
        20,
    ) + cell(handoff_text(e.handoff_reason), 36) + "\n"@
}

/// The fields of a completed work row can be cut on character boundaries,
/// and its completion time is one the board can hold.
pub open spec fn history_entry_ok(e: BoardDisplayEntry) -> bool {
    &&& cut_ok(e.title@, 34)
    &&& cut_ok(e.agent_id@, 18)
    &&& (e.handoff_reason matches Some(h) ==> cut_ok(h@, 36))
    &&& (e.completed_at matches Some(t) ==> time_in_range(t))
}

/// The rows of the completed work table.
pub open spec fn history_rows(es: Seq<BoardDisplayEntry>) -> Seq<char>
    decreases es.len(),
{
    if es.len() == 0 {
        Seq::empty()
    } else {
        history_rows(es.drop_last()) + history_row(es.last())
    }
}

/// The `Completed Work` section.
pub open spec fn history_entries_spec(es: Seq<BoardDisplayEntry>) -> Seq<char> {
    "\n"@ + "Completed Work:\n"@ + if es.len() == 0 {
        "  (no completed board history in the current window)\n"@
    } else {
        history_header() + rule_line(112) + history_rows(es)
    }
}

fn push_history_header(out: &mut String)
    ensures
        final(out)@ == old(out)@ + history_header(),
{
    push_head(out, "TICKET", 8);
    push_head(out, "TITLE", 34);
    push_head(out, "AGENT", 18);
    push_head(out, "COMPLETED", 20);
    push_head(out, "HANDOFF", 36);
    out.append("\n");
    assert(out@ =~= old(out)@ + history_header());
}

fn push_history_row(out: &mut String, e: &BoardDisplayEntry)
    requires
        history_entry_ok(*e),
    ensures
        final(out)@ == old(out)@ + history_row(*e),
{
    out.append("  ");
    let id = short_ticket_id(e.ticket_id);
    push_pad_right(out, id.as_str(), 8);
    push_cell(out, e.title.as_str(), 34);
    push_cell(out, e.agent_id.as_str(), 18);
    let completed = format_completed_at(e.completed_at);
    proof {
        lemma_completed_text_ascii(e.completed_at);
        lemma_ascii_cut_ok(completed@, 20);
    }
    push_cell(out, completed.as_str(), 20);
    match &e.handoff_reason {
        Some(h) => push_cell(out, h.as_str(), 36),
        None => {
            let note = "handoff reason not recorded";
            proof {
                reveal_strlit("handoff reason not recorded");
                lemma_ascii_cut_ok(note@, 36);
            }
            push_cell(out, note, 36);
        },
    }
    out.append("\n");
    assert(out@ =~= old(out)@ + history_row(*e));
}

fn write_history_entries(out: &mut String, entries: &[BoardDisplayEntry])
    requires
        forall|i: int| 0 <= i < entries@.len() ==> history_entry_ok(#[trigger] entries@[i]),
    ensures
        final(out)@ == old(out)@ + history_entries_spec(entries@),
{
    out.append("\n");
    out.append("Completed Work:\n");
    if entries.len() == 0 {
        out.append("  (no completed board history in the current window)\n");
        assert(out@ =~= old(out)@ + history_entries_spec(entries@));
        return;
    }
    push_history_header(out);
    push_rule(out, 112);
    let ghost start = out@;
    let mut i: usize = 0;
    assert(entries@.subrange(0, 0) =~= Seq::<BoardDisplayEntry>::empty());
    while i < entries.len()
        invariant
            i <= entries@.len(),
            forall|j: int| 0 <= j < entries@.len() ==> history_entry_ok(#[trigger] entries@[j]),
            out@ == start + history_rows(entries@.subrange(0, i as int)),
        decreases entries@.len() - i,
    {
        let ghost sub = entries@.subrange(0, i + 1);
        assert(sub.drop_last() =~= entries@.subrange(0, i as int));
        assert(sub.last() == entries@[i as int]);
        push_history_row(out, &entries[i]);
        assert(out@ =~= start + history_rows(sub));
        i = i + 1;
    }
    assert(entries@.subrange(0, entries@.len() as int) =~= entries@);
    assert(out@ =~= old(out)@ + history_entries_spec(entries@));
}

/// The live board as text: the summary line, the immediate actions, the
/// current work, the recommended next tickets, the warnings and the file
/// ownership.
pub open spec fn board_text(snap: &BoardSnapshot, display: &BoardDisplay) -> Seq<char> {
    summary_spec(snap) + actions_spec(display.actions@) + current_work_spec(display.current_work@) + next_up_spec(
        display.recommended_next@,
    ) + warnings_spec(snap.warnings@) + ownership_spec(snap.file_ownership@)
}

/// Renders the live board (see `board_text`).
pub fn render_board_human(snap: &BoardSnapshot, display: &BoardDisplay) -> (r: String)
    requires
        current_work_ok(display.current_work@),
    ensures
        r@ == board_text(snap, display),
{
    let mut out = String::new();
    write_summary(&mut out, snap);
    write_actions(&mut out, display.actions.as_slice());
    write_current_work(&mut out, display.current_work.as_slice());
    write_next_up(&mut out, display.recommended_next.as_slice());
    write_warnings(&mut out, snap.warnings.as_slice());
    write_file_ownership(&mut out, &snap.file_ownership);
    assert(out@ =~= board_text(snap, display));
    out
}

/// The board history as text: its head, then the completed work.
pub open spec fn board_history_text(snap: &BoardHistorySnapshot, display: &BoardHistoryDisplay) -> Seq<char> {
    history_summary_spec(snap) + history_entries_spec(display.entries@)
}

/// Renders the board history (see `board_history_text`).
pub fn render_board_history_human(snap: &BoardHistorySnapshot, display: &BoardHistoryDisplay) -> (r: String)
    requires
        forall|i: int| 0 <= i < display.entries@.len() ==> history_entry_ok(#[trigger] display.entries@[i]),
    ensures
        r@ == board_history_text(snap, display),
{
    let mut out = String::new();
    write_history_summary(&mut out, snap);
    write_history_entries(&mut out, display.entries.as_slice());
    assert(out@ =~= board_history_text(snap, display));
    out
}
} // verus!

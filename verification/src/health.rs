//! Health findings of tickets: missing or thin descriptions, missing
//! titles, dependencies left in earlier workflow states, and dependency
//! edges to tickets that no longer exist.
use vstd::prelude::*;
use crate::text::{chars_of, str_eq, decimal, push_decimal, utf8_len, char_width, lemma_utf8_len_prefix};
use crate::catalog::{trim_spec, trim_bounds};
use crate::workflow::{
    IndexedTicket, TicketView, EdgeRecord, EdgeView, WorkflowModel, DependencyStateInversion, InversionView,
    inversions_view, inversion_triple, opt_view, tickets_view, edges_view,
};
use crate::workflow::order::inversion_order;
use crate::board_render::{short_id_spec, short_ticket_id};

verus! {

/// The kind of a health finding.
#[derive(Clone, Copy, PartialEq, Eq, Structural)]
pub enum HealthCheck {
    MissingDescription,
    ShortDescription,
    MissingTitle,
    DependencyConvergence,
    DanglingEdge,
}

/// The name of a kind of finding.
pub open spec fn check_name(c: HealthCheck) -> Seq<char> {
    match c {
        HealthCheck::MissingDescription => "missing_description"@,
        HealthCheck::ShortDescription => "short_description"@,
        HealthCheck::MissingTitle => "missing_title"@,
        HealthCheck::DependencyConvergence => "dependency_convergence"@,
        HealthCheck::DanglingEdge => "dangling_edge"@,
    }
}

impl HealthCheck {
    /// The name of the kind (see `check_name`).
    pub fn as_str(&self) -> (r: &'static str)
        ensures
            r@ == check_name(*self),
    {
        match self {
            HealthCheck::MissingDescription => "missing_description",
            HealthCheck::ShortDescription => "short_description",
            HealthCheck::MissingTitle => "missing_title",
            HealthCheck::DependencyConvergence => "dependency_convergence",
            HealthCheck::DanglingEdge => "dangling_edge",
        }
    }
}

/// How serious a finding is.
#[derive(Clone, Copy, PartialEq, Eq)]
pub enum FindingSeverity {
    Error,
    Warning,
    Info,
}

/// The name of a severity.
pub open spec fn severity_name(s: FindingSeverity) -> Seq<char> {
    match s {
        FindingSeverity::Error => "error"@,
        FindingSeverity::Warning => "warning"@,
        FindingSeverity::Info => "info"@,
    }
}

impl FindingSeverity {
    /// The name of the severity (see `severity_name`).
    pub fn as_str(&self) -> (r: &'static str)
        ensures
            r@ == severity_name(*self),
    {
        match self {
            FindingSeverity::Error => "error",
            FindingSeverity::Warning => "warning",
            FindingSeverity::Info => "info",
        }
    }
}

/// Which surface reports the findings: the HTTP API or the tool server.
/// They differ in the severity of a missing description and in the dash
/// of two messages.
#[derive(Clone, Copy, PartialEq, Eq)]
pub enum FindingStyle {
    Http,
    Mcp,
}

/// One health finding about a ticket.
pub struct HealthFinding {
    pub ticket_id: u128,
    pub short_id: String,
    pub title: String,
    pub check: HealthCheck,
    pub severity: FindingSeverity,
    pub message: String,
    /// The inversion behind a dependency finding.
    pub inversion: Option<DependencyStateInversion>,
}

/// What a [`HealthFinding`] holds.
pub struct FindingView {
    pub ticket_id: u128,
    pub short_id: Seq<char>,
    pub title: Seq<char>,
    pub check: HealthCheck,
    pub severity: FindingSeverity,
    pub message: Seq<char>,
    pub inversion: Option<InversionView>,
}

impl View for HealthFinding {
    type V = FindingView;

    open spec fn view(&self) -> FindingView {
        FindingView {
            ticket_id: self.ticket_id,
            short_id: self.short_id@,
            title: self.title@,
            check: self.check,
            severity: self.severity,
            message: self.message@,
            inversion: match self.inversion {
                Some(i) => Some(i@),
                None => None,
            },
        }
    }
}

/// The views of some findings.
pub open spec fn findings_view(fs: Seq<HealthFinding>) -> Seq<FindingView> {
    fs.map_values(|f: HealthFinding| f@)
}

/// The dash the style writes in messages.
pub open spec fn dash(style: FindingStyle) -> Seq<char> {
    match style {
        FindingStyle::Http => "-"@,
        FindingStyle::Mcp => "\u{2014}"@,
    }
}

/// A ticket's title as findings show it, `?` when it has none.
pub open spec fn shown_title(t: TicketView) -> Seq<char> {
    match t.title {
        Some(x) => x,
        None => "?"@,
    }
}

/// A finding about a ticket without an inversion.
pub open spec fn plain_finding(
    t: TicketView,
    title: Seq<char>,
    check: HealthCheck,
    severity: FindingSeverity,
    message: Seq<char>,
) -> FindingView {
    FindingView { ticket_id: t.id, short_id: short_id_spec(t.id), title, check, severity, message, inversion: None }
}

/// The description findings: none written, or one shorter than fifty
/// bytes once trimmed.
pub open spec fn description_findings(t: TicketView, description: Option<Seq<char>>, style: FindingStyle) -> Seq<FindingView> {
    match description {
        None => seq![
            plain_finding(
                t,
                shown_title(t),
                HealthCheck::MissingDescription,
                if style == FindingStyle::Http { FindingSeverity::Warning } else { FindingSeverity::Error },
                "No description.md file "@ + dash(style) + " ticket lacks detailed context."@,
            ),
        ],
        Some(body) => if utf8_len(trim_spec(body)) < 50 {
            seq![
                plain_finding(
                    t,
                    shown_title(t),
                    HealthCheck::ShortDescription,
                    FindingSeverity::Info,
                    "description.md is very short ("@ + decimal(utf8_len(trim_spec(body))) + " chars) "@ + dash(style)
                        + " consider adding more detail."@,
                ),
            ]
        } else {
            Seq::empty()
        },
    }
}

/// The title finding: the ticket has no title, or an empty one.
pub open spec fn title_findings(t: TicketView) -> Seq<FindingView> {
    if t.title is None || t.title == Some(Seq::<char>::empty()) {
        seq![plain_finding(t, "(none)"@, HealthCheck::MissingTitle, FindingSeverity::Error, "Ticket has no title."@)]
    } else {
        Seq::empty()
    }
}

/// An optional text, or a fallback.
pub open spec fn text_or(o: Option<Seq<char>>, fallback: Seq<char>) -> Seq<char> {
    match o {
        Some(x) => x,
        None => fallback,
    }
}

/// The finding for one dependency-state inversion of a ticket.
pub open spec fn inversion_finding(t: TicketView, inv: InversionView) -> FindingView {
    FindingView {
        ticket_id: t.id,
        short_id: short_id_spec(t.id),
        title: shown_title(t),
        check: HealthCheck::DependencyConvergence,
        severity: FindingSeverity::Warning,
        message: "Ticket depends on "@ + short_id_spec(inv.prerequisite_id) + " in earlier state '"@ + text_or(
            inv.prerequisite_state,
            "?"@,
        ) + "' while this ticket is '"@ + text_or(inv.dependent_state, text_or(t.state, Seq::empty())) + "'."@,
        inversion: Some(inv),
    }
}

/// The dependency findings: one per inversion, unless the ticket is open.
pub open spec fn dependency_findings(t: TicketView, invs: Seq<InversionView>) -> Seq<FindingView> {
    if text_or(t.state, Seq::empty()) == "open"@ {
        Seq::empty()
    } else {
        invs.map_values(|inv: InversionView| inversion_finding(t, inv))
    }
}

/// The finding for a dependency edge to a missing ticket.
pub open spec fn dangling_finding(t: TicketView, target: u128) -> FindingView {
    plain_finding(
        t,
        shown_title(t),
        HealthCheck::DanglingEdge,
        FindingSeverity::Error,
        "depends_on edge points to "@ + short_id_spec(target) + " which is missing."@,
    )
}

/// The dangling findings: one per dependency edge of the ticket to a ticket
/// that does not exist, in edge order.
pub open spec fn dangling_findings(t: TicketView, es: Seq<EdgeView>, existing: Seq<u128>) -> Seq<FindingView>
    decreases es.len(),
{
    if es.len() == 0 {
        Seq::empty()
    } else {
        let prev = dangling_findings(t, es.drop_last(), existing);
        let e = es.last();
        if e.from == t.id && e.kind == "depends_on"@ && !existing.contains(e.to) {
            prev.push(dangling_finding(t, e.to))
        } else {
            prev
        }
    }
}

/// All findings about one ticket, in the order the checks run.
pub open spec fn ticket_findings_spec(
    t: TicketView,
    description: Option<Seq<char>>,
    invs: Seq<InversionView>,
    es: Seq<EdgeView>,
    existing: Seq<u128>,
    style: FindingStyle,
) -> Seq<FindingView> {
    description_findings(t, description, style) + title_findings(t) + dependency_findings(t, invs) + dangling_findings(
        t,
        es,
        existing,
    )
}


/// The byte length of `body` once trimmed, when it is below fifty.
fn short_description_len(body: &str) -> (r: Option<usize>)
    ensures
        match r {
            Some(n) => n == utf8_len(trim_spec(body@)) && n < 50,
            None => utf8_len(trim_spec(body@)) >= 50,
        },
{
    let v = chars_of(body);
    let (a, b) = trim_bounds(&v, 0, v.len());
    assert(v@.subrange(0, v@.len() as int) =~= body@);
    let ghost t = v@.subrange(a as int, b as int);
    assert(t == trim_spec(body@));
    let mut k: usize = a;
    let mut used: usize = 0;
    assert(t.subrange(0, 0) =~= Seq::<char>::empty());
    while k < b
        invariant
            a <= k <= b <= v@.len(),
            t == v@.subrange(a as int, b as int),
            t == trim_spec(body@),
            used == utf8_len(t.subrange(0, k - a)),
            used < 50,
        decreases b - k,
    {
        proof {
            lemma_utf8_len_prefix(t, k - a);
            assert(t[k - a] == v@[k as int]);
        }
        let w = char_width(v[k]);
        if used + w >= 50 {
            proof {
                let n = utf8_len(t.subrange(0, k - a + 1));
                assert(n >= 50);
                lemma_utf8_len_mono_at(t, k - a + 1);
                assert(utf8_len(t) >= 50);
            }
            return None;
        }
        used = used + w;
        k = k + 1;
    }
    assert(t.subrange(0, b - a) =~= t);
    Some(used)
}

proof fn lemma_utf8_len_mono_at(t: Seq<char>, j: int)
    requires
        0 <= j <= t.len(),
    ensures
        utf8_len(t.subrange(0, j)) <= utf8_len(t),
    decreases t.len() - j,
{
    if j < t.len() {
        lemma_utf8_len_prefix(t, j);
        lemma_utf8_len_mono_at(t, j + 1);
    } else {
        assert(t.subrange(0, j) =~= t);
    }
}

fn shown_title_string(t: &IndexedTicket) -> (r: String)
    ensures
        r@ == shown_title(t@),
{
    match &t.title {
        Some(x) => x.clone(),
        None => "?".to_string(),
    }
}

fn push_description_findings(
    out: &mut Vec<HealthFinding>,
    t: &IndexedTicket,
    description: &Option<String>,
    style: FindingStyle,
)
    ensures
        findings_view(final(out)@) == findings_view(old(out)@) + description_findings(t@, opt_view(*description), style),
{
    let ghost before = findings_view(out@);
    match description {
        None => {
            let mut message = String::new();
            message.append("No description.md file ");
            match style {
                FindingStyle::Http => message.append("-"),
                FindingStyle::Mcp => message.append("\u{2014}"),
            }
            message.append(" ticket lacks detailed context.");
            let severity = match style {
                FindingStyle::Http => FindingSeverity::Warning,
                FindingStyle::Mcp => FindingSeverity::Error,
            };
            out.push(
                HealthFinding {
                    ticket_id: t.id,
                    short_id: short_ticket_id(t.id),
                    title: shown_title_string(t),
                    check: HealthCheck::MissingDescription,
                    severity,
                    message,
                    inversion: None,
                },
            );
        },
        Some(body) => match short_description_len(body.as_str()) {
            Some(n) => {
                let mut message = String::new();
                message.append("description.md is very short (");
                push_decimal(&mut message, n as u64);
                message.append(" chars) ");
                match style {
                    FindingStyle::Http => message.append("-"),
                    FindingStyle::Mcp => message.append("\u{2014}"),
                }
                message.append(" consider adding more detail.");
                out.push(
                    HealthFinding {
                        ticket_id: t.id,
                        short_id: short_ticket_id(t.id),
                        title: shown_title_string(t),
                        check: HealthCheck::ShortDescription,
                        severity: FindingSeverity::Info,
                        message,
                        inversion: None,
                    },
                );
            },
            None => {},
        },
    }
    assert(findings_view(out@) =~= before + description_findings(t@, opt_view(*description), style));
}

fn push_title_finding(out: &mut Vec<HealthFinding>, t: &IndexedTicket)
    ensures
        findings_view(final(out)@) == findings_view(old(out)@) + title_findings(t@),
{
    let ghost before = findings_view(out@);
    let missing = match &t.title {
        Some(x) => x.unicode_len() == 0,
        None => true,
    };
    proof {
        if t@.title is Some && t@.title->0.len() == 0 {
            assert(t@.title->0 =~= Seq::<char>::empty());
        }
    }
    if missing {
        out.push(
            HealthFinding {
                ticket_id: t.id,
                short_id: short_ticket_id(t.id),
                title: "(none)".to_string(),
                check: HealthCheck::MissingTitle,
                severity: FindingSeverity::Error,
                message: "Ticket has no title.".to_string(),
                inversion: None,
            },
        );
    }
    assert(findings_view(out@) =~= before + title_findings(t@));
}

fn push_text_or(out: &mut String, o: &Option<String>, fallback: &str)
    ensures
        final(out)@ == old(out)@ + text_or(opt_view(*o), fallback@),
{
    match o {
        Some(x) => out.append(x.as_str()),
        None => out.append(fallback),
    }
}

fn push_dependency_findings(out: &mut Vec<HealthFinding>, t: &IndexedTicket, invs: &Vec<DependencyStateInversion>)
    ensures
        findings_view(final(out)@) == findings_view(old(out)@) + dependency_findings(t@, inversions_view(invs@)),
{
    let ghost before = findings_view(out@);
    proof {
        reveal_strlit("");
    }
    let state: &str = match &t.state {
        Some(s) => s.as_str(),
        None => "",
    };
    assert(state@ == text_or(t@.state, Seq::empty()));
    if str_eq(state, "open") {
        assert(findings_view(out@) =~= before + dependency_findings(t@, inversions_view(invs@)));
        return;
    }
    let mut i: usize = 0;
    while i < invs.len()
        invariant
            i <= invs@.len(),
            text_or(t@.state, Seq::empty()) != "open"@,
            state@ == text_or(t@.state, Seq::empty()),
            findings_view(out@) == before + inversions_view(invs@).subrange(0, i as int).map_values(
                |inv: InversionView| inversion_finding(t@, inv),
            ),
        decreases invs@.len() - i,
    {
        let inv = &invs[i];
        let mut message = String::new();
        message.append("Ticket depends on ");
        let short = short_ticket_id(inv.prerequisite_id);
        message.append(short.as_str());
        message.append(" in earlier state '");
        push_text_or(&mut message, &inv.prerequisite_state, "?");
        message.append("' while this ticket is '");
        match &inv.dependent_state {
            Some(x) => message.append(x.as_str()),
            None => message.append(state),
        }
        message.append("'.");
        assert(message@ =~= inversion_finding(t@, invs@[i as int]@).message);
        let ghost prev = findings_view(out@);
        out.push(
            HealthFinding {
                ticket_id: t.id,
                short_id: short_ticket_id(t.id),
                title: shown_title_string(t),
                check: HealthCheck::DependencyConvergence,
                severity: FindingSeverity::Warning,
                message,
                inversion: Some(inv.duplicate()),
            },
        );
        assert(findings_view(out@) =~= prev.push(inversion_finding(t@, invs@[i as int]@)));
        assert(inversions_view(invs@).subrange(0, i + 1).map_values(|inv: InversionView| inversion_finding(t@, inv))
            =~= inversions_view(invs@).subrange(0, i as int).map_values(|inv: InversionView| inversion_finding(t@, inv)).push(
            inversion_finding(t@, invs@[i as int]@),
        ));
        i = i + 1;
    }
    assert(inversions_view(invs@).subrange(0, invs@.len() as int) =~= inversions_view(invs@));
}

fn contains_id(v: &[u128], x: u128) -> (r: bool)
    ensures
        r == v@.contains(x),
{
    let mut i: usize = 0;
    while i < v.len()
        invariant
            i <= v@.len(),
            forall|j: int| 0 <= j < i ==> v@[j] != x,
        decreases v@.len() - i,
    {
        if v[i] == x {
            assert(v@[i as int] == x);
            return true;
        }
        i = i + 1;
    }
    false
}

fn push_dangling_findings(out: &mut Vec<HealthFinding>, t: &IndexedTicket, edges: &[EdgeRecord], existing: &[u128])
    ensures
        findings_view(final(out)@) == findings_view(old(out)@) + dangling_findings(t@, edges_view(edges@), existing@),
{
    let ghost before = findings_view(out@);
    let ghost ev = edges_view(edges@);
    let mut i: usize = 0;
    assert(ev.subrange(0, 0) =~= Seq::<EdgeView>::empty());
    assert(findings_view(out@) =~= before + dangling_findings(t@, ev.subrange(0, 0), existing@));
    while i < edges.len()
        invariant
            i <= edges@.len(),
            ev == edges_view(edges@),
            findings_view(out@) == before + dangling_findings(t@, ev.subrange(0, i as int), existing@),
        decreases edges@.len() - i,
    {
        let ghost sub = ev.subrange(0, i + 1);
        assert(sub.drop_last() =~= ev.subrange(0, i as int));
        assert(sub.last() == edges@[i as int]@);
        let e = &edges[i];
        if e.from == t.id && str_eq(e.kind.as_str(), "depends_on") && !contains_id(existing, e.to) {
            let ghost prev = findings_view(out@);
            let mut message = String::new();
            message.append("depends_on edge points to ");
            let short = short_ticket_id(e.to);
            message.append(short.as_str());
            message.append(" which is missing.");
            out.push(
                HealthFinding {
                    ticket_id: t.id,
                    short_id: short_ticket_id(t.id),
                    title: shown_title_string(t),
                    check: HealthCheck::DanglingEdge,
                    severity: FindingSeverity::Error,
                    message,
                    inversion: None,
                },
            );
            assert(findings_view(out@) =~= prev.push(dangling_finding(t@, e.to)));
        }
        i = i + 1;
    }
    assert(ev.subrange(0, edges@.len() as int) =~= ev);
}

/// The findings about one ticket (see `ticket_findings_spec`): its
/// description as read from its folder (`None` when there is no file), its
/// dependency-state inversions, the edges of the store and the ids of the
/// tickets that exist.
pub fn ticket_findings(
    t: &IndexedTicket,
    description: &Option<String>,
    invs: &Vec<DependencyStateInversion>,
    edges: &[EdgeRecord],
    existing: &[u128],
    style: FindingStyle,
) -> (r: Vec<HealthFinding>)
    ensures
        findings_view(r@) == ticket_findings_spec(
            t@,
            opt_view(*description),
            inversions_view(invs@),
            edges_view(edges@),
            existing@,
            style,
        ),
{
    let mut out: Vec<HealthFinding> = Vec::new();
    assert(findings_view(out@) =~= Seq::<FindingView>::empty());
    push_description_findings(&mut out, t, description, style);
    push_title_finding(&mut out, t);
    push_dependency_findings(&mut out, t, invs);
    push_dangling_findings(&mut out, t, edges, existing);
    assert(findings_view(out@) =~= ticket_findings_spec(
        t@,
        opt_view(*description),
        inversions_view(invs@),
        edges_view(edges@),
        existing@,
        style,
    ));
    out
}

/// Whether a list of inversions is what the model reports for a ticket:
/// the same inversions, widest state gap first, then widest affected
/// reach, then prerequisite id.
pub open spec fn inversions_ok(model: &WorkflowModel, id: u128, invs: Seq<InversionView>) -> bool {
    &&& invs.to_multiset() == model.raw_inversions(model@.deps, id).to_multiset()
    &&& forall|i: int, j: int|
        0 <= i < j < invs.len() ==> inversion_order(inversion_triple(invs[i]), inversion_triple(invs[j])) <= 0
}

/// The optional descriptions as text.
pub open spec fn descriptions_view(ds: Seq<Option<String>>) -> Seq<Option<Seq<char>>> {
    ds.map_values(|d: Option<String>| opt_view(d))
}

/// The findings about the first tickets that are not finished, ticket by
/// ticket.
pub open spec fn all_findings(
    ts: Seq<TicketView>,
    descriptions: Seq<Option<Seq<char>>>,
    invs: Seq<Seq<InversionView>>,
    es: Seq<EdgeView>,
    existing: Seq<u128>,
    done: Seq<u128>,
    style: FindingStyle,
    n: int,
) -> Seq<FindingView>
    decreases n,
{
    if n <= 0 {
        Seq::empty()
    } else {
        let prev = all_findings(ts, descriptions, invs, es, existing, done, style, n - 1);
        let t = ts[n - 1];
        if done.contains(t.id) {
            prev
        } else {
            prev + ticket_findings_spec(t, descriptions[n - 1], invs[n - 1], es, existing, style)
        }
    }
}

/// Collects the findings about every unfinished ticket, in ticket order
/// (see `ticket_findings_spec`); each ticket's description is given beside
/// it, and its inversions come from the model.
pub fn collect_findings(
    tickets: &[IndexedTicket],
    descriptions: &[Option<String>],
    edges: &[EdgeRecord],
    existing: &[u128],
    done_ids: &[u128],
    model: &WorkflowModel,
    style: FindingStyle,
) -> (r: Vec<HealthFinding>)
    requires
        model.wf(),
        descriptions@.len() == tickets@.len(),
    ensures
        exists|invs: Seq<Seq<InversionView>>|
            invs.len() == tickets@.len() && (forall|i: int|
                0 <= i < tickets@.len() ==> #[trigger] inversions_ok(model, tickets@[i].id, invs[i]))
                && findings_view(r@) == all_findings(
                tickets_view(tickets@),
                descriptions_view(descriptions@),
                invs,
                edges_view(edges@),
                existing@,
                done_ids@,
                style,
                tickets@.len() as int,
            ),
{
    let ghost tv = tickets_view(tickets@);
    let ghost dv = descriptions_view(descriptions@);
    let ghost mut invs: Seq<Seq<InversionView>> = Seq::empty();
    let mut out: Vec<HealthFinding> = Vec::new();
    let mut i: usize = 0;
    assert(findings_view(out@) =~= Seq::<FindingView>::empty());
    while i < tickets.len()
        invariant
            i <= tickets@.len(),
            model.wf(),
            descriptions@.len() == tickets@.len(),
            tv == tickets_view(tickets@),
            dv == descriptions_view(descriptions@),
            invs.len() == i,
            forall|j: int| 0 <= j < i ==> #[trigger] inversions_ok(model, tickets@[j].id, invs[j]),
            findings_view(out@) == all_findings(tv, dv, invs, edges_view(edges@), existing@, done_ids@, style, i as int),
        decreases tickets@.len() - i,
    {
        let t = &tickets[i];
        let found = match model.dependency_state_inversions(&t.id) {
            Some(v) => v,
            None => Vec::new(),
        };
        let ghost iv = inversions_view(found@);
        proof {
            if iv.len() == 0 {
                assert(iv =~= Seq::<InversionView>::empty());
            }
            assert(inversions_ok(model, t.id, iv)) by {
                let raw = model.raw_inversions(model@.deps, t.id);
                if found@.len() == 0 && raw.len() == 0 {
                    assert(iv =~= raw);
                }
            }
        }
        let ghost invs0 = invs;
        proof {
            invs = invs.push(iv);
            assert forall|j: int| 0 <= j < i + 1 implies #[trigger] inversions_ok(model, tickets@[j].id, invs[j]) by {
                if j < i {
                    assert(invs[j] == invs0[j]);
                }
            }
            assert forall|n: int| 0 <= n <= i implies all_findings(tv, dv, invs, edges_view(edges@), existing@, done_ids@, style, n)
                == all_findings(tv, dv, invs0, edges_view(edges@), existing@, done_ids@, style, n) by {
                lemma_all_findings_prefix(tv, dv, invs0, invs, edges_view(edges@), existing@, done_ids@, style, n);
            }
        }
        if !contains_id(done_ids, t.id) {
            let mut fs = ticket_findings(t, &descriptions[i], &found, edges, existing, style);
            assert(dv[i as int] == opt_view(descriptions@[i as int]));
            let ghost before = findings_view(out@);
            let ghost added = findings_view(fs@);
            out.append(&mut fs);
            assert(findings_view(out@) =~= before + added);
        }
        i = i + 1;
    }
    out
}

proof fn lemma_all_findings_prefix(
    ts: Seq<TicketView>,
    ds: Seq<Option<Seq<char>>>,
    a: Seq<Seq<InversionView>>,
    b: Seq<Seq<InversionView>>,
    es: Seq<EdgeView>,
    existing: Seq<u128>,
    done: Seq<u128>,
    style: FindingStyle,
    n: int,
)
    requires
        n <= a.len(),
        n <= b.len(),
        forall|j: int| 0 <= j < n ==> a[j] == b[j],
    ensures
        all_findings(ts, ds, b, es, existing, done, style, n) == all_findings(ts, ds, a, es, existing, done, style, n),
    decreases n,
{
    if n > 0 {
        lemma_all_findings_prefix(ts, ds, a, b, es, existing, done, style, n - 1);
    }
}

/// How many findings are of a kind.
pub open spec fn check_count(fs: Seq<FindingView>, c: HealthCheck) -> nat
    decreases fs.len(),
{
    if fs.len() == 0 {
        0
    } else {
        check_count(fs.drop_last(), c) + if fs.last().check == c { 1nat } else { 0nat }
    }
}

/// The kinds of finding in the order of their names.
pub open spec fn checks_by_name() -> Seq<HealthCheck> {
    seq![
        HealthCheck::DanglingEdge,
        HealthCheck::DependencyConvergence,
        HealthCheck::MissingDescription,
        HealthCheck::MissingTitle,
        HealthCheck::ShortDescription,
    ]
}

/// The summary of some findings: each kind that occurs, by name, with how
/// often it occurs, in the order of the names.
pub open spec fn summary_spec(fs: Seq<FindingView>) -> Seq<(Seq<char>, nat)> {
    checks_by_name().filter(|c: HealthCheck| check_count(fs, c) > 0).map_values(
        |c: HealthCheck| (check_name(c), check_count(fs, c)),
    )
}

fn count_check(fs: &Vec<HealthFinding>, c: HealthCheck) -> (r: u64)
    ensures
        r == check_count(findings_view(fs@), c),
{
    let ghost fv = findings_view(fs@);
    let mut n: u64 = 0;
    let mut i: usize = 0;
    assert(fv.subrange(0, 0) =~= Seq::<FindingView>::empty());
    while i < fs.len()
        invariant
            i <= fs@.len(),
            fv == findings_view(fs@),
            n == check_count(fv.subrange(0, i as int), c),
            n <= i,
        decreases fs@.len() - i,
    {
        let ghost sub = fv.subrange(0, i + 1);
        assert(sub.drop_last() =~= fv.subrange(0, i as int));
        assert(sub.last() == fs@[i as int]@);
        if fs[i].check == c {
            n = n + 1;
        }
        i = i + 1;
    }
    assert(fv.subrange(0, fs@.len() as int) =~= fv);
    n
}

/// The summary of some findings (see `summary_spec`).
pub fn health_summary(findings: &Vec<HealthFinding>) -> (r: Vec<(String, u64)>)
    ensures
        r@.map_values(|p: (String, u64)| (p.0@, p.1 as nat)) == summary_spec(findings_view(findings@)),
{
    let ghost fv = findings_view(findings@);
    let mut kinds: Vec<HealthCheck> = Vec::new();
    kinds.push(HealthCheck::DanglingEdge);
    kinds.push(HealthCheck::DependencyConvergence);
    kinds.push(HealthCheck::MissingDescription);
    kinds.push(HealthCheck::MissingTitle);
    kinds.push(HealthCheck::ShortDescription);
    assert(kinds@ =~= checks_by_name());
    let ghost pred = |c: HealthCheck| check_count(fv, c) > 0;
    let ghost f = |c: HealthCheck| (check_name(c), check_count(fv, c));
    let mut out: Vec<(String, u64)> = Vec::new();
    let mut i: usize = 0;
    proof {
        reveal(Seq::filter);
    }
    assert(kinds@.subrange(0, 0) =~= Seq::<HealthCheck>::empty());
    assert(out@.map_values(|p: (String, u64)| (p.0@, p.1 as nat)) =~= kinds@.subrange(0, 0).filter(pred).map_values(f));
    while i < kinds.len()
        invariant
            i <= kinds@.len(),
            kinds@ == checks_by_name(),
            fv == findings_view(findings@),
            pred == (|c: HealthCheck| check_count(fv, c) > 0),
            f == (|c: HealthCheck| (check_name(c), check_count(fv, c))),
            out@.map_values(|p: (String, u64)| (p.0@, p.1 as nat)) == kinds@.subrange(0, i as int).filter(pred).map_values(f),
        decreases kinds@.len() - i,
    {
        proof {
            reveal(Seq::filter);
        }
        let ghost sub = kinds@.subrange(0, i + 1);
        assert(sub.drop_last() =~= kinds@.subrange(0, i as int));
        let c = kinds[i];
        let n = count_check(findings, c);
        let ghost before = out@.map_values(|p: (String, u64)| (p.0@, p.1 as nat));
        if n > 0 {
            out.push((c.as_str().to_string(), n));
            assert(out@.map_values(|p: (String, u64)| (p.0@, p.1 as nat)) =~= before.push(f(c)));
            assert(sub.filter(pred) =~= kinds@.subrange(0, i as int).filter(pred).push(c));
        } else {
            assert(sub.filter(pred) =~= kinds@.subrange(0, i as int).filter(pred));
        }
        i = i + 1;
    }
    assert(kinds@.subrange(0, 5) =~= kinds@);
    out
}
} // verus!

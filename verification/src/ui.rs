//! What the tray menu shows and what its entries do.
use vstd::prelude::*;

use crate::service::ServiceState;
use crate::text::{decimal, decimal_string};

verus! {

/// `s` padded with spaces on the right to at least `w` characters.
pub open spec fn pad_right(s: Seq<char>, w: nat) -> Seq<char> {
    if s.len() >= w {
        s
    } else {
        s + Seq::new((w - s.len()) as nat, |i: int| ' ')
    }
}

/// The name under which a state is shown.
pub open spec fn state_name(s: ServiceState) -> Seq<char> {
    match s {
        ServiceState::Stopped => "Stopped"@,
        ServiceState::Starting => "Starting"@,
        ServiceState::Running => "Running"@,
        ServiceState::Crashed => "Crashed"@,
        ServiceState::Degraded => "Degraded"@,
    }
}

/// How an optional port is shown.
pub open spec fn port_text(p: Option<u16>) -> Seq<char> {
    match p {
        Some(n) => "Some("@ + decimal(n as nat) + ")"@,
        None => "None"@,
    }
}

/// Width of the name column of the status report.
pub const NAME_WIDTH: usize = 22;

/// The status line of one service.
pub open spec fn status_line_of(name: Seq<char>, state: ServiceState, restarts: u32, port: Option<u16>) -> Seq<char> {
    pad_right(name, NAME_WIDTH as nat) + " "@ + state_name(state) + " restarts="@ + decimal(restarts as nat)
        + " port="@ + port_text(port)
}

/// Lines joined by newlines.
pub open spec fn joined_lines(ls: Seq<Seq<char>>) -> Seq<char>
    decreases ls.len(),
{
    if ls.len() == 0 {
        Seq::empty()
    } else if ls.len() == 1 {
        ls[0]
    } else {
        joined_lines(ls.drop_last()) + "\n"@ + ls.last()
    }
}

/// Where line `i` starts when the lines `ls` are written one after another,
/// each followed by one separating character.
pub open spec fn line_offset(ls: Seq<Seq<char>>, i: int) -> int
    decreases i,
{
    if i <= 0 {
        0
    } else {
        line_offset(ls, i - 1) + ls[i - 1].len() + 1
    }
}

/// Offsets never fall below zero and grow with each line.
proof fn lemma_line_offset_grows(ls: Seq<Seq<char>>, i: int)
    requires
        0 <= i,
    ensures
        line_offset(ls, i) >= 0,
        line_offset(ls, i + 1) == line_offset(ls, i) + ls[i].len() + 1,
    decreases i,
{
    if i > 0 {
        lemma_line_offset_grows(ls, i - 1);
    }
}

/// Offsets depend only on the lines before.
proof fn lemma_line_offset_prefix(ls: Seq<Seq<char>>, x: Seq<char>, i: int)
    requires
        0 <= i <= ls.len(),
    ensures
        line_offset(ls.push(x), i) == line_offset(ls, i),
    decreases i,
{
    if i > 0 {
        lemma_line_offset_prefix(ls, x, i - 1);
        assert(ls.push(x)[i - 1] == ls[i - 1]);
    }
}

/// Whether `j` holds the lines `ls` one after another: line `i` stands at
/// its offset, a single newline follows every line but the last, and nothing
/// else is there.
pub open spec fn laid_out(ls: Seq<Seq<char>>, j: Seq<char>) -> bool {
    &&& ls.len() > 0 ==> j.len() == line_offset(ls, ls.len() as int) - 1
    &&& ls.len() == 0 ==> j.len() == 0
    &&& forall|i: int| 0 <= i < ls.len() ==> line_offset(ls, i) + ls[i].len() <= j.len()
    &&& forall|i: int| 0 <= i < ls.len() ==> j.subrange(
        line_offset(ls, i),
        line_offset(ls, i) + ls[i].len(),
    ) == #[trigger] ls[i]
    &&& forall|i: int| 0 <= i < ls.len() - 1 ==> j[line_offset(ls, i) + (#[trigger] ls[i]).len()] == '\n'
}

/// Appending a newline and one more line to a layout of `p` lays out `p`
/// with that line added.
proof fn lemma_laid_out_push(p: Seq<Seq<char>>, jp: Seq<char>, x: Seq<char>)
    requires
        p.len() > 0,
        laid_out(p, jp),
    ensures
        laid_out(p.push(x), jp + seq!['\n'] + x),
{
    let ls = p.push(x);
    let j = jp + seq!['\n'] + x;
    assert forall|i: int| 0 <= i <= p.len() implies line_offset(ls, i) == line_offset(p, i) by {
        lemma_line_offset_prefix(p, x, i);
    }
    assert(line_offset(ls, ls.len() as int) == line_offset(ls, p.len() as int) + x.len() + 1);
    assert forall|i: int| 0 <= i < ls.len() implies line_offset(ls, i) + ls[i].len() <= j.len() by {
        if i < p.len() {
            assert(ls[i] == p[i]);
        }
    }
    assert forall|i: int| 0 <= i < ls.len() implies j.subrange(line_offset(ls, i), line_offset(ls, i) + ls[i].len())
        == #[trigger] ls[i] by {
        if i < p.len() {
            assert(ls[i] == p[i]);
            lemma_line_offset_grows(p, i);
            assert(line_offset(p, i) + p[i].len() <= jp.len());
            assert(jp.subrange(line_offset(p, i), line_offset(p, i) + p[i].len()) == p[i]);
            assert(j.subrange(line_offset(ls, i), line_offset(ls, i) + ls[i].len()) =~= jp.subrange(
                line_offset(p, i),
                line_offset(p, i) + p[i].len(),
            ));
        } else {
            assert(j.subrange(line_offset(ls, i), line_offset(ls, i) + ls[i].len()) =~= x);
        }
    }
    assert forall|i: int| 0 <= i < ls.len() - 1 implies j[line_offset(ls, i) + (#[trigger] ls[i]).len()] == '\n' by {
        assert(ls[i] == p[i]);
        lemma_line_offset_grows(p, i);
        assert(line_offset(p, i) + p[i].len() <= jp.len());
        if i < p.len() - 1 {
            assert(jp[line_offset(p, i) + p[i].len()] == '\n');
        } else {
            assert(line_offset(p, i) + p[i].len() == jp.len());
        }
    }
}

/// Lines joined by newlines are laid out one after another: line `i` stands
/// at its offset, a single newline follows every line but the last, and
/// nothing else is there.
pub proof fn lemma_joined_lines_layout(ls: Seq<Seq<char>>)
    ensures
        laid_out(ls, joined_lines(ls)),
    decreases ls.len(),
{
    if ls.len() == 1 {
        assert(line_offset(ls, 0) == 0);
        assert(line_offset(ls, 1) == ls[0].len() + 1);
        assert(joined_lines(ls).subrange(0, ls[0].len() as int) =~= ls[0]);
    } else if ls.len() > 1 {
        let p = ls.drop_last();
        let x = ls.last();
        assert(p.push(x) =~= ls);
        lemma_joined_lines_layout(p);
        reveal_strlit("\n");
        assert("\n"@ =~= seq!['\n']);
        lemma_laid_out_push(p, joined_lines(p), x);
    }
}

/// A title followed by lines laid out by `joined_lines` holds the title,
/// then each line at its offset after the title, with a newline after every
/// line but the last.
proof fn lemma_report_layout(t: Seq<char>, ls: Seq<Seq<char>>)
    requires
        laid_out(ls, joined_lines(ls)),
    ensures
        ({
            let r = t + joined_lines(ls);
            &&& r.take(t.len() as int) == t
            &&& r.len() == if ls.len() == 0 { t.len() as int } else { t.len() + line_offset(ls, ls.len() as int) - 1 }
            &&& forall|i: int| 0 <= i < ls.len() ==> r.subrange(t.len() + line_offset(ls, i), t.len() + line_offset(ls, i) + ls[i].len())
                == #[trigger] ls[i]
            &&& forall|i: int| 0 <= i < ls.len() - 1 ==> r[t.len() + line_offset(ls, i) + (#[trigger] ls[i]).len()] == '\n'
        }),
{
    let j = joined_lines(ls);
    let r = t + j;
    assert(r.take(t.len() as int) =~= t);
    assert forall|i: int| 0 <= i < ls.len() implies r.subrange(t.len() + line_offset(ls, i), t.len() + line_offset(ls, i) + ls[i].len())
        == #[trigger] ls[i] by {
        lemma_line_offset_grows(ls, i);
        assert(line_offset(ls, i) + ls[i].len() <= j.len());
        assert(j.subrange(line_offset(ls, i), line_offset(ls, i) + ls[i].len()) == ls[i]);
        assert(r.subrange(t.len() + line_offset(ls, i), t.len() + line_offset(ls, i) + ls[i].len()) =~= j.subrange(
            line_offset(ls, i),
            line_offset(ls, i) + ls[i].len(),
        ));
    }
    assert forall|i: int| 0 <= i < ls.len() - 1 implies r[t.len() + line_offset(ls, i) + (#[trigger] ls[i]).len()] == '\n' by {
        lemma_line_offset_grows(ls, i);
        assert(line_offset(ls, i) + ls[i].len() <= j.len());
        assert(j[line_offset(ls, i) + ls[i].len()] == '\n');
    }
}

/// The status lines of a snapshot of the services.
pub open spec fn snapshot_lines(snap: Seq<(String, ServiceState, u32, Option<u16>)>) -> Seq<Seq<char>> {
    snap.map_values(|e: (String, ServiceState, u32, Option<u16>)| status_line_of(e.0@, e.1, e.2, e.3))
}

/// The name under which a state is shown.
pub fn state_text(s: ServiceState) -> (r: &'static str)
    ensures
        r@ == state_name(s),
{
    match s {
        ServiceState::Stopped => "Stopped",
        ServiceState::Starting => "Starting",
        ServiceState::Running => "Running",
        ServiceState::Crashed => "Crashed",
        ServiceState::Degraded => "Degraded",
    }
}

/// The status line of one service: its name padded to the width of the
/// name column, its state, its restart count and its port.
pub fn status_line(name: &String, state: ServiceState, restarts: u32, port: Option<u16>) -> (r: String)
    ensures
        r@ == status_line_of(name@, state, restarts, port),
{
    proof {
        reveal_strlit(" ");
        assert(" "@ =~= seq![' ']);
    }
    let mut r = name.clone();
    let n = name.as_str().unicode_len();
    let mut i = n;
    while i < NAME_WIDTH
        invariant
            n == name@.len(),
            n <= i <= NAME_WIDTH || (i == n && n >= NAME_WIDTH),
            r@ == name@ + Seq::new((i - n) as nat, |j: int| ' '),
        decreases NAME_WIDTH - i,
    {
        r.append(" ");
        proof {
            reveal_strlit(" ");
            assert(" "@ =~= seq![' ']);
        }
        assert(name@ + Seq::new((i + 1 - n) as nat, |j: int| ' ') =~= name@ + Seq::new((i - n) as nat, |j: int| ' ') + " "@);
        i = i + 1;
    }
    assert(r@ =~= pad_right(name@, NAME_WIDTH as nat));
    r.append(" ");
    r.append(state_text(state));
    r.append(" restarts=");
    let c = decimal_string(restarts as u64);
    r.append(c.as_str());
    r.append(" port=");
    match port {
        Some(p) => {
            r.append("Some(");
            let d = decimal_string(p as u64);
            r.append(d.as_str());
            r.append(")");
        },
        None => {
            r.append("None");
        },
    }
    r
}

/// The status report: a title line, then one status line per entry of the
/// snapshot, in its order.
pub fn status_report(snap: &Vec<(String, ServiceState, u32, Option<u16>)>) -> (r: String)
    ensures
        r@ == "[Anchor Status]\n"@ + joined_lines(snapshot_lines(snap@)),
        r@.take("[Anchor Status]\n"@.len() as int) == "[Anchor Status]\n"@,
        ({
            let t = "[Anchor Status]\n"@.len() as int;
            let ls = snapshot_lines(snap@);
            &&& ls.len() == snap@.len()
            &&& r@.len() == if ls.len() == 0 { t } else { t + line_offset(ls, ls.len() as int) - 1 }
            &&& forall|i: int| 0 <= i < ls.len() ==> r@.subrange(t + line_offset(ls, i), t + line_offset(ls, i) + ls[i].len())
                == #[trigger] ls[i]
            &&& forall|i: int| 0 <= i < ls.len() ==> #[trigger] ls[i] == status_line_of(snap@[i].0@, snap@[i].1, snap@[i].2, snap@[i].3)
            &&& forall|i: int| 0 <= i < ls.len() - 1 ==> r@[t + line_offset(ls, i) + (#[trigger] ls[i]).len()] == '\n'
        }),
{
    proof {
        lemma_joined_lines_layout(snapshot_lines(snap@));
        lemma_report_layout("[Anchor Status]\n"@, snapshot_lines(snap@));
    }
    let ghost lines = snapshot_lines(snap@);
    let mut body = String::new();
    let mut i: usize = 0;
    while i < snap.len()
        invariant
            lines == snapshot_lines(snap@),
            i <= snap@.len(),
            body@ == joined_lines(lines.take(i as int)),
        decreases snap@.len() - i,
    {
        let e = &snap[i];
        let line = status_line(&e.0, e.1, e.2, e.3);
        proof {
            assert(lines.take(i + 1).drop_last() =~= lines.take(i as int));
            assert(lines.take(i + 1).last() == line@);
            if i == 0 {
                assert(lines.take(1) =~= seq![line@]);
            }
        }
        if i > 0 {
            body.append("\n");
        }
        body.append(line.as_str());
        proof {
            if i == 0 {
                assert(body@ =~= line@);
            }
        }
        i = i + 1;
    }
    assert(lines.take(snap@.len() as int) =~= lines);
    let mut r = String::from_str("[Anchor Status]\n");
    r.append(body.as_str());
    r
}

/// The address of the user-facing backend on port `port`.
pub fn ui_url(port: u16) -> (r: String)
    ensures
        r@ == "http://localhost:"@ + decimal(port as nat),
{
    let mut r = String::from_str("http://localhost:");
    let d = decimal_string(port as u64);
    r.append(d.as_str());
    r
}

/// What a tray menu entry does.
#[derive(Clone, Copy, Debug, PartialEq, Eq, Structural)]
pub enum MenuAction {
    OpenUi,
    Status,
    RestartAll,
    OpenLogs,
    Quit,
    Nothing,
}

/// The action of the menu entry with identifier `id`.
pub open spec fn action_of(id: Seq<char>) -> MenuAction {
    if id == "open_ui"@ {
        MenuAction::OpenUi
    } else if id == "status"@ {
        MenuAction::Status
    } else if id == "restart_all"@ {
        MenuAction::RestartAll
    } else if id == "logs"@ {
        MenuAction::OpenLogs
    } else if id == "quit"@ {
        MenuAction::Quit
    } else {
        MenuAction::Nothing
    }
}

/// The action of the menu entry with identifier `id`.
pub fn menu_action(id: &String) -> (r: MenuAction)
    ensures
        r == action_of(id@),
{
    if *id == String::from_str("open_ui") {
        MenuAction::OpenUi
    } else if *id == String::from_str("status") {
        MenuAction::Status
    } else if *id == String::from_str("restart_all") {
        MenuAction::RestartAll
    } else if *id == String::from_str("logs") {
        MenuAction::OpenLogs
    } else if *id == String::from_str("quit") {
        MenuAction::Quit
    } else {
        MenuAction::Nothing
    }
}

} // verus!

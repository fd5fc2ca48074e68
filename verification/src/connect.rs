//! One attempt to join a network through `wpa_cli`.
//!
//! The attempt notes which network is in use, adds a profile for the new one, sets
//! its SSID and its credentials, enables and selects it, and polls the status every
//! two seconds for up to half a minute.  A success is made permanent.  After a
//! failure the profile is removed and the network that was in use is selected
//! again.

use crate::action::{Action, Deed};
use crate::command::{quote, quoted, wpa, wpa_cli, wpa_cli_on, wpa_cli_set, wpa_on, wpa_set};
use crate::status::{current_id, current_id_of, is_completed, new_id, new_id_of, COMPLETED};
use crate::sudo::{call_of, sudo_call, Call};
use crate::text::{contains_text, opt_view, string_views};
use vstd::prelude::*;

verus! {

/// How often the status is read before an attempt counts as failed.
pub const POLLS: u32 = 15;

/// How often the status is read at most while the earlier network comes back.
pub const RESTORE_POLLS: u32 = 5;

/// The seconds before each reading of the status.
pub const POLL_SECS: u64 = 2;

/// What an attempt does next.
#[derive(Clone, Copy, Debug)]
pub enum Phase {
    /// Read which network is in use.
    Current,
    /// Add a profile.
    Add,
    /// Set the SSID of the profile.
    SetSsid,
    /// Set the credentials of the profile.
    SetCredentials,
    /// Enable the profile.
    Enable,
    /// Select the profile.
    Select,
    /// Wait, with that many readings of the status left.
    Wait(u32),
    /// Read the status, with that many readings left, this one included.
    Poll(u32),
    /// Make the profile permanent.
    SaveConfig,
    /// Remove the profile.
    Remove,
    /// Select the network that was in use before.
    Reselect,
    /// Wait for the earlier network, with that many readings of the status left.
    RestoreWait(u32),
    /// Read the status, with that many readings left, this one included.
    RestorePoll(u32),
    /// The attempt is over, with that outcome.
    Over(bool),
}

/// An attempt to join a network.
pub struct ConnectNetwork {
    ssid: String,
    psk: String,
    is_open: bool,
    sudo_pw: String,
    prev_net_id: Option<String>,
    net_id: String,
    phase: Phase,
}

/// The state of an attempt to join a network.
pub struct Attempt {
    pub ssid: Seq<char>,
    pub psk: Seq<char>,
    pub is_open: bool,
    pub sudo_pw: Seq<char>,
    /// The identifier of the network that was in use before.
    pub prev: Option<Seq<char>>,
    /// The identifier of the new profile.
    pub id: Seq<char>,
    pub phase: Phase,
}

impl View for ConnectNetwork {
    type V = Attempt;

    closed spec fn view(&self) -> Attempt {
        Attempt {
            ssid: self.ssid@,
            psk: self.psk@,
            is_open: self.is_open,
            sudo_pw: self.sudo_pw@,
            prev: opt_view(self.prev_net_id),
            id: self.net_id@,
            phase: self.phase,
        }
    }
}

/// Whether an output of `wpa_cli status` ends the polling.
pub open spec fn completed(reply: Seq<char>) -> bool {
    contains_text(reply, COMPLETED@)
}

impl Attempt {
    /// A new attempt.
    pub open spec fn start(
        ssid: Seq<char>,
        psk: Seq<char>,
        is_open: bool,
        sudo_pw: Seq<char>,
    ) -> Attempt {
        Attempt { ssid, psk, is_open, sudo_pw, prev: None, id: Seq::empty(), phase: Phase::Current }
    }

    /// The attempt in another phase.
    pub open spec fn at(self, phase: Phase) -> Attempt {
        Attempt { phase, ..self }
    }

    /// Whether the attempt is over.
    pub open spec fn over(self) -> bool {
        self.phase is Over
    }

    /// Whether the attempt is over and joined the network.
    pub open spec fn succeeded(self) -> bool {
        self.phase == Phase::Over(true)
    }

    /// Runs a command of `wpa_cli`.
    pub open spec fn run(self, args: Seq<Seq<char>>) -> Deed {
        Deed::Run(call_of(self.sudo_pw, args))
    }

    /// Reads what a command of `wpa_cli` writes.
    pub open spec fn read(self, args: Seq<Seq<char>>) -> Deed {
        Deed::Read(call_of(self.sudo_pw, args))
    }

    /// The command that sets the credentials: none for an open network, the
    /// pre-shared key between quotes for a secured one.
    pub open spec fn credentials(self) -> Seq<Seq<char>> {
        if self.is_open {
            wpa_set(self.id, "key_mgmt"@, "NONE"@)
        } else {
            wpa_set(self.id, "psk"@, quoted(self.psk))
        }
    }

    /// What the attempt asks for.
    pub open spec fn deed(self) -> Deed {
        match self.phase {
            Phase::Current => self.read(wpa("status"@)),
            Phase::Add => self.read(wpa("add_network"@)),
            Phase::SetSsid => self.run(wpa_set(self.id, "ssid"@, quoted(self.ssid))),
            Phase::SetCredentials => self.run(self.credentials()),
            Phase::Enable => self.run(wpa_on("enable_network"@, self.id)),
            Phase::Select => self.run(wpa_on("select_network"@, self.id)),
            Phase::Wait(_) => Deed::Sleep(POLL_SECS),
            Phase::Poll(_) => self.read(wpa("status"@)),
            Phase::SaveConfig => self.run(wpa("save_config"@)),
            Phase::Remove => self.run(wpa_on("remove_network"@, self.id)),
            Phase::Reselect => match self.prev {
                Some(id) => self.run(wpa_on("select_network"@, id)),
                None => Deed::Done,
            },
            Phase::RestoreWait(_) => Deed::Sleep(POLL_SECS),
            Phase::RestorePoll(_) => self.read(wpa("status"@)),
            Phase::Over(_) => Deed::Done,
        }
    }

    /// The state once what was asked for is done, with the text that came back.
    pub open spec fn next(self, reply: Seq<char>) -> Attempt {
        match self.phase {
            Phase::Current => Attempt { prev: current_id_of(reply), phase: Phase::Add, ..self },
            Phase::Add => Attempt {
                id: new_id_of(reply),
                phase: if new_id_of(reply).len() == 0 {
                    Phase::Over(false)
                } else {
                    Phase::SetSsid
                },
                ..self
            },
            Phase::SetSsid => self.at(Phase::SetCredentials),
            Phase::SetCredentials => self.at(Phase::Enable),
            Phase::Enable => self.at(Phase::Select),
            Phase::Select => self.at(Phase::Wait(POLLS)),
            Phase::Wait(left) => self.at(Phase::Poll(left)),
            Phase::Poll(left) => if completed(reply) {
                self.at(Phase::SaveConfig)
            } else if left > 1 {
                self.at(Phase::Wait((left - 1) as u32))
            } else {
                self.at(Phase::Remove)
            },
            Phase::SaveConfig => self.at(Phase::Over(true)),
            Phase::Remove => if self.prev is Some {
                self.at(Phase::Reselect)
            } else {
                self.at(Phase::Over(false))
            },
            Phase::Reselect => self.at(Phase::RestoreWait(RESTORE_POLLS)),
            Phase::RestoreWait(left) => self.at(Phase::RestorePoll(left)),
            Phase::RestorePoll(left) => if !completed(reply) && left > 1 {
                self.at(Phase::RestoreWait((left - 1) as u32))
            } else {
                self.at(Phase::Over(false))
            },
            Phase::Over(_) => self,
        }
    }

    /// A bound on the steps that are left.
    pub open spec fn steps_left(self) -> nat {
        match self.phase {
            Phase::Current => 48,
            Phase::Add => 47,
            Phase::SetSsid => 46,
            Phase::SetCredentials => 45,
            Phase::Enable => 44,
            Phase::Select => 43,
            Phase::Wait(left) => if left == 0 {
                14
            } else {
                (2 * left + 12) as nat
            },
            Phase::Poll(left) => if left == 0 {
                13
            } else {
                (2 * left + 11) as nat
            },
            Phase::SaveConfig => 1,
            Phase::Remove => 12,
            Phase::Reselect => 11,
            Phase::RestoreWait(left) => if left == 0 {
                2
            } else {
                (2 * left) as nat
            },
            Phase::RestorePoll(left) => if left == 0 {
                1
            } else {
                (2 * left - 1) as nat
            },
            Phase::Over(_) => 0,
        }
    }
}

/// Begins an attempt to join the network `ssid`.
pub fn connect_network(ssid: &str, psk: &str, is_open: bool, sudo_pw: &str) -> (r: ConnectNetwork)
    ensures
        r@ == Attempt::start(ssid@, psk@, is_open, sudo_pw@),
{
    ConnectNetwork {
        ssid: ssid.to_owned(),
        psk: psk.to_owned(),
        is_open,
        sudo_pw: sudo_pw.to_owned(),
        prev_net_id: None,
        net_id: String::new(),
        phase: Phase::Current,
    }
}

impl ConnectNetwork {
    /// A command of `wpa_cli` whose output does not matter.
    fn run(&self, args: Vec<String>) -> (r: Action)
        ensures
            r@ == self@.run(string_views(args@)),
    {
        Action::Run(sudo_call(self.sudo_pw.as_str(), args))
    }

    /// A command of `wpa_cli` whose output the attempt reads.
    fn read(&self, args: Vec<String>) -> (r: Action)
        ensures
            r@ == self@.read(string_views(args@)),
    {
        Action::Read(sudo_call(self.sudo_pw.as_str(), args))
    }

    /// What is to be done next.
    pub fn action(&self) -> (r: Action)
        ensures
            r@ == self@.deed(),
    {
        let id: &str = self.net_id.as_str();
        match self.phase {
            Phase::Current => self.read(wpa_cli("status")),
            Phase::Add => self.read(wpa_cli("add_network")),
            Phase::SetSsid => self.run(
                wpa_cli_set(id, "ssid", quote(self.ssid.as_str()).as_str()),
            ),
            Phase::SetCredentials => {
                if self.is_open {
                    self.run(wpa_cli_set(id, "key_mgmt", "NONE"))
                } else {
                    self.run(wpa_cli_set(id, "psk", quote(self.psk.as_str()).as_str()))
                }
            },
            Phase::Enable => self.run(wpa_cli_on("enable_network", id)),
            Phase::Select => self.run(wpa_cli_on("select_network", id)),
            Phase::Wait(_) => Action::Sleep(POLL_SECS),
            Phase::Poll(_) => self.read(wpa_cli("status")),
            Phase::SaveConfig => self.run(wpa_cli("save_config")),
            Phase::Remove => self.run(wpa_cli_on("remove_network", id)),
            Phase::Reselect => match &self.prev_net_id {
                Some(prev) => self.run(wpa_cli_on("select_network", prev.as_str())),
                None => Action::Done,
            },
            Phase::RestoreWait(_) => Action::Sleep(POLL_SECS),
            Phase::RestorePoll(_) => self.read(wpa_cli("status")),
            Phase::Over(_) => Action::Done,
        }
    }

    /// Goes on, once what was asked for is done, with the text that came back.
    pub fn step(&mut self, reply: &str)
        ensures
            final(self)@ == old(self)@.next(reply@),
            old(self)@.over() || final(self)@.steps_left() < old(self)@.steps_left(),
    {
        match self.phase {
            Phase::Current => {
                self.prev_net_id = current_id(reply);
                self.phase = Phase::Add;
            },
            Phase::Add => {
                self.net_id = new_id(reply);
                self.phase = if self.net_id.as_str().is_empty() {
                    Phase::Over(false)
                } else {
                    Phase::SetSsid
                };
            },
            Phase::SetSsid => {
                self.phase = Phase::SetCredentials;
            },
            Phase::SetCredentials => {
                self.phase = Phase::Enable;
            },
            Phase::Enable => {
                self.phase = Phase::Select;
            },
            Phase::Select => {
                self.phase = Phase::Wait(POLLS);
            },
            Phase::Wait(left) => {
                self.phase = Phase::Poll(left);
            },
            Phase::Poll(left) => {
                self.phase = if is_completed(reply) {
                    Phase::SaveConfig
                } else if left > 1 {
                    Phase::Wait(left - 1)
                } else {
                    Phase::Remove
                };
            },
            Phase::SaveConfig => {
                self.phase = Phase::Over(true);
            },
            Phase::Remove => {
                self.phase = if self.prev_net_id.is_some() {
                    Phase::Reselect
                } else {
                    Phase::Over(false)
                };
            },
            Phase::Reselect => {
                self.phase = Phase::RestoreWait(RESTORE_POLLS);
            },
            Phase::RestoreWait(left) => {
                self.phase = Phase::RestorePoll(left);
            },
            Phase::RestorePoll(left) => {
                self.phase = if !is_completed(reply) && left > 1 {
                    Phase::RestoreWait(left - 1)
                } else {
                    Phase::Over(false)
                };
            },
            Phase::Over(_) => {},
        }
    }

    /// The outcome and the password that was used, once the attempt is over.
    pub fn result(&self) -> (r: Option<(bool, String)>)
        ensures
            match self@.phase {
                Phase::Over(ok) => r matches Some(p) && p.0 == ok && p.1@ == self@.psk,
                _ => r is None,
            },
    {
        match self.phase {
            Phase::Over(ok) => Some((ok, self.psk.clone())),
            _ => None,
        }
    }
}

// ---------------------------------------------------------------------------
// The course of an attempt
// ---------------------------------------------------------------------------

impl Attempt {
    /// What an attempt asks for, one after the other, when `replies` come back.
    pub open spec fn deeds(self, replies: Seq<Seq<char>>) -> Seq<Deed>
        decreases replies.len(),
    {
        if self.over() || replies.len() == 0 {
            Seq::empty()
        } else {
            seq![self.deed()] + self.next(replies[0]).deeds(replies.skip(1))
        }
    }

    /// The state that an attempt reaches when `replies` come back.
    pub open spec fn after(self, replies: Seq<Seq<char>>) -> Attempt
        decreases replies.len(),
    {
        if self.over() || replies.len() == 0 {
            self
        } else {
            self.next(replies[0]).after(replies.skip(1))
        }
    }

    /// Every step brings the end nearer.
    pub proof fn lemma_step(self, reply: Seq<char>)
        ensures
            self.over() || self.next(reply).steps_left() < self.steps_left(),
    {
    }
}

/// An attempt ends, whatever comes back, within the steps that are left to it.  A new attempt
/// has 48.
pub proof fn law_attempt_ends(a: Attempt, replies: Seq<Seq<char>>)
    requires
        a.steps_left() <= replies.len(),
    ensures
        a.after(replies).over(),
    decreases replies.len(),
{
    if !a.over() {
        a.lemma_step(replies[0]);
        law_attempt_ends(a.next(replies[0]), replies.skip(1));
    }
}

/// Waiting and reading the status, `n` times in turn.
pub open spec fn polling(a: Attempt, n: nat) -> Seq<Deed>
    decreases n,
{
    if n == 0 {
        Seq::empty()
    } else {
        seq![Deed::Sleep(POLL_SECS), a.read(wpa("status"@))] + polling(a, (n - 1) as nat)
    }
}

/// How often the status is read, at most `most` times, when the texts from position
/// `at` on come back in turn for waiting and reading: until it is completed.
pub open spec fn polls_made(replies: Seq<Seq<char>>, at: int, most: nat) -> nat
    decreases most,
{
    if most == 0 {
        0
    } else if completed(replies[at + 1]) {
        1
    } else {
        1 + polls_made(replies, at + 2, (most - 1) as nat)
    }
}

/// Whether one of `most` readings of the status is completed.
pub open spec fn polls_succeed(replies: Seq<Seq<char>>, at: int, most: nat) -> bool {
    exists|j: int| 0 <= j < most && completed(#[trigger] replies[at + 2 * j + 1])
}

/// The first reading succeeds, or one of the others.
proof fn lemma_polls_succeed(replies: Seq<Seq<char>>, at: int, most: nat)
    requires
        most > 0,
    ensures
        polls_succeed(replies, at, most) <==> completed(replies[at + 1]) || polls_succeed(
            replies,
            at + 2,
            (most - 1) as nat,
        ),
{
    if polls_succeed(replies, at, most) {
        let j = choose|j: int| 0 <= j < most && completed(#[trigger] replies[at + 2 * j + 1]);
        if j > 0 {
            assert(completed(replies[(at + 2) + 2 * (j - 1) + 1]));
        }
    }
    if completed(replies[at + 1]) {
        assert(completed(replies[at + 2 * 0 + 1]));
    }
    if polls_succeed(replies, at + 2, (most - 1) as nat) {
        let j = choose|j: int|
            0 <= j < most - 1 && completed(#[trigger] replies[(at + 2) + 2 * j + 1]);
        assert(completed(replies[at + 2 * (j + 1) + 1]));
    }
}

/// At most `most` readings are made, and at least one where any is allowed.
proof fn lemma_polls_made(replies: Seq<Seq<char>>, at: int, most: nat)
    ensures
        polls_made(replies, at, most) <= most,
        !polls_succeed(replies, at, most) ==> polls_made(replies, at, most) == most,
    decreases most,
{
    if most > 0 {
        lemma_polls_succeed(replies, at, most);
        lemma_polls_made(replies, at + 2, (most - 1) as nat);
    }
}

/// Polling once.
proof fn lemma_polling_once(a: Attempt)
    ensures
        polling(a, 1) == seq![Deed::Sleep(POLL_SECS), a.read(wpa("status"@))],
{
    assert(polling(a, 0) =~= Seq::<Deed>::empty());
    assert(polling(a, 1) =~= seq![Deed::Sleep(POLL_SECS), a.read(wpa("status"@))]);
}

/// The course of the polling after the new profile was selected.
proof fn lemma_polling(a: Attempt, replies: Seq<Seq<char>>, at: int, left: u32)
    requires
        a.phase == Phase::Wait(left),
        left > 0,
        0 <= at,
        at + 2 * left <= replies.len(),
    ensures
        ({
            let n = polls_made(replies, at, left as nat);
            let b = a.at(
                if polls_succeed(replies, at, left as nat) {
                    Phase::SaveConfig
                } else {
                    Phase::Remove
                },
            );
            &&& n <= left
            &&& a.deeds(replies.skip(at)) == polling(a, n) + b.deeds(replies.skip(at + 2 * n))
            &&& a.after(replies.skip(at)) == b.after(replies.skip(at + 2 * n))
        }),
    decreases left,
{
    let rest = replies.skip(at);
    let p = a.next(rest[0]);
    let q = p.next(rest[1]);
    lemma_polls_succeed(replies, at, left as nat);
    lemma_polls_made(replies, at, left as nat);
    assert(rest.skip(1)[0] == rest[1]);
    assert(rest.skip(1).skip(1) =~= replies.skip(at + 2));
    assert(p.deeds(rest.skip(1)) == seq![p.deed()] + q.deeds(replies.skip(at + 2)));
    assert(a.deeds(rest) == seq![a.deed()] + p.deeds(rest.skip(1)));
    assert(p.after(rest.skip(1)) == q.after(replies.skip(at + 2)));
    assert(a.after(rest) == p.after(rest.skip(1)));
    if completed(replies[at + 1]) {
        lemma_polling_once(a);
        assert(a.deeds(rest) =~= polling(a, 1) + q.deeds(replies.skip(at + 2)));
    } else if left > 1 {
        lemma_polling(q, replies, at + 2, (left - 1) as u32);
        let m = polls_made(replies, at + 2, (left - 1) as nat);
        lemma_polling_same(a, q, m);
        let b = a.at(
            if polls_succeed(replies, at, left as nat) {
                Phase::SaveConfig
            } else {
                Phase::Remove
            },
        );
        assert(a.deeds(rest) =~= polling(a, 1 + m) + b.deeds(replies.skip(at + 2 + 2 * m)));
    } else {
        assert(!polls_succeed(replies, at + 2, 0));
        lemma_polling_once(a);
        assert(a.deeds(rest) =~= polling(a, 1) + q.deeds(replies.skip(at + 2)));
    }
}

/// The course of the polling after the earlier network was selected again.
proof fn lemma_restoring(a: Attempt, replies: Seq<Seq<char>>, at: int, left: u32)
    requires
        a.phase == Phase::RestoreWait(left),
        left > 0,
        0 <= at,
        at + 2 * left <= replies.len(),
    ensures
        a.deeds(replies.skip(at)) == polling(a, polls_made(replies, at, left as nat)),
        a.after(replies.skip(at)) == a.at(Phase::Over(false)),
    decreases left,
{
    let rest = replies.skip(at);
    let p = a.next(rest[0]);
    let q = p.next(rest[1]);
    assert(rest.skip(1)[0] == rest[1]);
    assert(rest.skip(1).skip(1) =~= replies.skip(at + 2));
    assert(p.deeds(rest.skip(1)) == seq![p.deed()] + q.deeds(replies.skip(at + 2)));
    assert(a.deeds(rest) == seq![a.deed()] + p.deeds(rest.skip(1)));
    assert(p.after(rest.skip(1)) == q.after(replies.skip(at + 2)));
    assert(a.after(rest) == p.after(rest.skip(1)));
    if !completed(replies[at + 1]) && left > 1 {
        lemma_restoring(q, replies, at + 2, (left - 1) as u32);
        let m = polls_made(replies, at + 2, (left - 1) as nat);
        lemma_polling_same(a, q, m);
        assert(a.deeds(rest) =~= polling(a, 1 + m));
    } else {
        assert(polls_made(replies, at + 2, 0) == 0);
        assert(polls_made(replies, at, left as nat) == 1);
        lemma_polling_once(a);
        assert(q.deeds(replies.skip(at + 2)) =~= Seq::<Deed>::empty());
        assert(a.deeds(rest) =~= polling(a, 1));
    }
}

/// Polling depends on the sudo password alone.
proof fn lemma_polling_same(a: Attempt, b: Attempt, n: nat)
    requires
        a.sudo_pw == b.sudo_pw,
    ensures
        polling(a, n) == polling(b, n),
    decreases n,
{
    if n > 0 {
        lemma_polling_same(a, b, (n - 1) as nat);
    }
}

/// The first two steps: reading which network is in use, and adding a profile.
pub open spec fn opening(a: Attempt) -> Seq<Deed> {
    seq![a.read(wpa("status"@)), a.read(wpa("add_network"@))]
}

/// The steps that set up the profile and switch to it.
pub open spec fn joining(a: Attempt) -> Seq<Deed> {
    seq![
        a.run(wpa_set(a.id, "ssid"@, quoted(a.ssid))),
        a.run(a.credentials()),
        a.run(wpa_on("enable_network"@, a.id)),
        a.run(wpa_on("select_network"@, a.id)),
    ]
}

/// The steps after the polling: a success is made permanent; after a failure the
/// profile is removed, the network that was in use is selected again, and it is given
/// time to come back, with `n` readings of the status.
pub open spec fn closing(a: Attempt, ok: bool, n: nat) -> Seq<Deed> {
    if ok {
        seq![a.run(wpa("save_config"@))]
    } else {
        match a.prev {
            Some(prev) => seq![
                a.run(wpa_on("remove_network"@, a.id)),
                a.run(wpa_on("select_network"@, prev)),
            ] + polling(a, n),
            None => seq![a.run(wpa_on("remove_network"@, a.id))],
        }
    }
}

/// An attempt once the identifiers of the network in use and of the new profile are
/// known.
pub open spec fn prepared(a: Attempt, replies: Seq<Seq<char>>) -> Attempt {
    Attempt { prev: current_id_of(replies[0]), id: new_id_of(replies[1]), ..a }
}

/// Whether an attempt joins the network: a profile was added, and one of the readings
/// of the status is completed.
pub open spec fn joins(replies: Seq<Seq<char>>) -> bool {
    new_id_of(replies[1]).len() > 0 && polls_succeed(replies, 6, POLLS as nat)
}

/// The whole course of an attempt, for any texts that come back.  Without an
/// identifier for the new profile it ends after two steps.  Otherwise it sets up the
/// profile, polls the status and closes.  It succeeds exactly if the status is
/// completed in one of fifteen readings, two seconds apart.
pub proof fn law_attempt_course(a: Attempt, replies: Seq<Seq<char>>)
    requires
        a.phase == Phase::Current,
        replies.len() >= 48,
    ensures
        a.after(replies) == prepared(a, replies).at(Phase::Over(joins(replies))),
        a.deeds(replies) == ({
            let b = prepared(a, replies);
            if b.id.len() == 0 {
                opening(b)
            } else {
                let n = polls_made(replies, 6, POLLS as nat);
                let m = polls_made(replies, 38, RESTORE_POLLS as nat);
                opening(b) + joining(b) + polling(b, n) + closing(b, joins(replies), m)
            }
        }),
{
    let b = prepared(a, replies);
    let r1 = replies.skip(1);
    let r2 = replies.skip(2);
    assert(r1[0] == replies[1]);
    assert(r1.skip(1) =~= r2);
    let a1 = a.next(replies[0]);
    let a2 = a1.next(replies[1]);
    assert(a.deeds(replies) == seq![a.deed()] + a1.deeds(r1));
    assert(a1.deeds(r1) == seq![a1.deed()] + a2.deeds(r2));
    assert(a.after(replies) == a1.after(r1));
    assert(a1.after(r1) == a2.after(r2));
    if b.id.len() == 0 {
        assert(a2.deeds(r2) =~= Seq::<Deed>::empty());
        assert(a.deeds(replies) =~= opening(b));
    } else {
        let r3 = replies.skip(3);
        let r4 = replies.skip(4);
        let r5 = replies.skip(5);
        let r6 = replies.skip(6);
        assert(r2.skip(1) =~= r3);
        assert(r3.skip(1) =~= r4);
        assert(r4.skip(1) =~= r5);
        assert(r5.skip(1) =~= r6);
        let a3 = b.at(Phase::SetCredentials);
        let a4 = b.at(Phase::Enable);
        let a5 = b.at(Phase::Select);
        let a6 = b.at(Phase::Wait(POLLS));
        assert(a2.next(r2[0]) == a3);
        assert(a3.next(r3[0]) == a4);
        assert(a4.next(r4[0]) == a5);
        assert(a5.next(r5[0]) == a6);
        assert(a2.deeds(r2) == seq![a2.deed()] + a3.deeds(r3));
        assert(a3.deeds(r3) == seq![a3.deed()] + a4.deeds(r4));
        assert(a4.deeds(r4) == seq![a4.deed()] + a5.deeds(r5));
        assert(a5.deeds(r5) == seq![a5.deed()] + a6.deeds(r6));
        assert(a2.after(r2) == a3.after(r3));
        assert(a3.after(r3) == a4.after(r4));
        assert(a4.after(r4) == a5.after(r5));
        assert(a5.after(r5) == a6.after(r6));
        lemma_polling(a6, replies, 6, POLLS);
        let n = polls_made(replies, 6, POLLS as nat);
        lemma_polling_same(a6, b, n);
        let ok = joins(replies);
        let m = polls_made(replies, 38, RESTORE_POLLS as nat);
        let c = b.at(
            if ok {
                Phase::SaveConfig
            } else {
                Phase::Remove
            },
        );
        let rn = replies.skip(6 + 2 * n as int);
        assert(c.deeds(rn) == closing(b, ok, m) && c.after(rn) == b.at(Phase::Over(ok))) by {
            lemma_closing(b, replies, ok, n);
        }
        assert(a.deeds(replies) =~= opening(b) + joining(b) + polling(b, n) + closing(b, ok, m));
    }
}

/// The course after the polling.
proof fn lemma_closing(b: Attempt, replies: Seq<Seq<char>>, ok: bool, n: nat)
    requires
        replies.len() >= 48,
        ok == polls_succeed(replies, 6, POLLS as nat),
        n == polls_made(replies, 6, POLLS as nat),
    ensures
        ({
            let c = b.at(
                if ok {
                    Phase::SaveConfig
                } else {
                    Phase::Remove
                },
            );
            let rn = replies.skip(6 + 2 * n as int);
            &&& c.deeds(rn) == closing(b, ok, polls_made(replies, 38, RESTORE_POLLS as nat))
            &&& c.after(rn) == b.at(Phase::Over(ok))
        }),
{
    lemma_polls_made(replies, 6, POLLS as nat);
    let rn = replies.skip(6 + 2 * n as int);
    let end = b.at(Phase::Over(ok));
    if ok {
        let c = b.at(Phase::SaveConfig);
        assert(c.next(rn[0]) == end);
        assert(end.deeds(rn.skip(1)) =~= Seq::<Deed>::empty());
        assert(c.deeds(rn) =~= closing(b, ok, 0));
        assert(end.after(rn.skip(1)) == end);
    } else {
        let c = b.at(Phase::Remove);
        assert(n == 15);
        let rs = replies.skip(37);
        assert(rn.skip(1) =~= rs);
        match b.prev {
            None => {
                assert(c.next(rn[0]) == end);
                assert(end.deeds(rs) =~= Seq::<Deed>::empty());
                assert(c.deeds(rn) =~= closing(b, ok, 0));
                assert(end.after(rs) == end);
            },
            Some(_) => {
                let d = b.at(Phase::Reselect);
                let e = b.at(Phase::RestoreWait(RESTORE_POLLS));
                let m = polls_made(replies, 38, RESTORE_POLLS as nat);
                assert(rs.skip(1) =~= replies.skip(38));
                assert(c.next(rn[0]) == d);
                assert(d.next(rs[0]) == e);
                lemma_restoring(e, replies, 38, RESTORE_POLLS);
                lemma_polling_same(e, b, m);
                assert(c.deeds(rn) == seq![c.deed()] + d.deeds(rs));
                assert(d.deeds(rs) == seq![d.deed()] + e.deeds(replies.skip(38)));
                assert(c.deeds(rn) =~= closing(b, ok, m));
                assert(c.after(rn) == d.after(rs));
                assert(d.after(rs) == e.after(replies.skip(38)));
            },
        }
    }
}

/// A failed attempt leaves things as they were: it makes nothing permanent, it removes
/// the profile that it added, and right after that it selects the network that was in
/// use before, if there was one.
pub proof fn law_failed_attempt_restores(a: Attempt, replies: Seq<Seq<char>>)
    requires
        a.phase == Phase::Current,
        replies.len() >= 48,
        !a.after(replies).succeeded(),
        new_id_of(replies[1]).len() > 0,
    ensures
        ({
            let d = a.deeds(replies);
            let b = prepared(a, replies);
            &&& forall|i: int| 0 <= i < d.len() ==> #[trigger] d[i] != a.run(wpa("save_config"@))
            &&& d.len() > 36 && d[36] == a.run(wpa_on("remove_network"@, b.id))
            &&& b.prev matches Some(prev) ==> d.len() > 37 && d[37] == a.run(
                wpa_on("select_network"@, prev),
            )
        }),
{
    law_attempt_course(a, replies);
    let d = a.deeds(replies);
    let b = prepared(a, replies);
    lemma_polls_made(replies, 6, POLLS as nat);
    let m = polls_made(replies, 38, RESTORE_POLLS as nat);
    lemma_polling_shape(b, 15);
    lemma_polling_shape(b, m);
    let save = a.run(wpa("save_config"@));
    assert(call_of(a.sudo_pw, wpa("save_config"@)).args.len() == 3);
    assert(call_of(a.sudo_pw, b.credentials()).args.len() == 6);
    assert(call_of(a.sudo_pw, wpa_set(b.id, "ssid"@, quoted(b.ssid))).args.len() == 6);
    assert(call_of(a.sudo_pw, wpa_on("enable_network"@, b.id)).args.len() == 4);
    assert(call_of(a.sudo_pw, wpa_on("select_network"@, b.id)).args.len() == 4);
    assert(call_of(a.sudo_pw, wpa_on("remove_network"@, b.id)).args.len() == 4);
    if let Some(prev) = b.prev {
        assert(call_of(a.sudo_pw, wpa_on("select_network"@, prev)).args.len() == 4);
    }
    assert forall|i: int| 0 <= i < d.len() implies #[trigger] d[i] != save by {
        if 6 <= i < 36 {
            assert(d[i] == polling(b, 15)[i - 6]);
        } else if i >= 38 {
            assert(d[i] == polling(b, m)[i - 38]);
        }
    }
}

/// A successful attempt is made permanent in its last step, and removes nothing.
pub proof fn law_successful_attempt_saved(a: Attempt, replies: Seq<Seq<char>>)
    requires
        a.phase == Phase::Current,
        replies.len() >= 48,
        a.after(replies).succeeded(),
    ensures
        ({
            let d = a.deeds(replies);
            &&& d.len() > 0 && d.last() == a.run(wpa("save_config"@))
            &&& forall|i: int, id: Seq<char>|
                0 <= i < d.len() ==> #[trigger] d[i] != #[trigger] a.run(
                    wpa_on("remove_network"@, id),
                )
        }),
{
    law_attempt_course(a, replies);
    let d = a.deeds(replies);
    let b = prepared(a, replies);
    let n = polls_made(replies, 6, POLLS as nat);
    lemma_polling_shape(b, n);
    reveal_strlit("enable_network");
    reveal_strlit("select_network");
    reveal_strlit("remove_network");
    assert forall|i: int, id: Seq<char>| 0 <= i < d.len() implies #[trigger] d[i]
        != #[trigger] a.run(wpa_on("remove_network"@, id)) by {
        let gone = call_of(a.sudo_pw, wpa_on("remove_network"@, id));
        assert(gone.args.len() == 4);
        assert(gone.args[2] == "remove_network"@);
        assert("remove_network"@[0] == 'r');
        assert("enable_network"@[0] == 'e');
        assert("select_network"@[0] == 's');
        if i < 2 {
        } else if i == 2 {
            assert(call_of(a.sudo_pw, wpa_set(b.id, "ssid"@, quoted(b.ssid))).args.len() == 6);
        } else if i == 3 {
            assert(call_of(a.sudo_pw, b.credentials()).args.len() == 6);
        } else if i == 4 {
            assert(call_of(a.sudo_pw, wpa_on("enable_network"@, b.id)).args[2]
                == "enable_network"@);
        } else if i == 5 {
            assert(call_of(a.sudo_pw, wpa_on("select_network"@, b.id)).args[2]
                == "select_network"@);
        } else if i < 6 + 2 * n {
            assert(d[i] == polling(b, n)[i - 6]);
        } else {
            assert(call_of(a.sudo_pw, wpa("save_config"@)).args.len() == 3);
        }
    }
}

/// Polling waits and reads, and runs nothing else.
proof fn lemma_polling_shape(a: Attempt, n: nat)
    ensures
        polling(a, n).len() == 2 * n,
        forall|i: int| 0 <= i < 2 * n ==> !((#[trigger] polling(a, n)[i]) is Run),
    decreases n,
{
    if n > 0 {
        lemma_polling_shape(a, (n - 1) as nat);
        let p = polling(a, n);
        assert forall|i: int| 0 <= i < 2 * n implies !((#[trigger] p[i]) is Run) by {
            if i >= 2 {
                assert(p[i] == polling(a, (n - 1) as nat)[i - 2]);
            }
        }
    }
}

/// The password of an open network is never sent: what an attempt on an open network
/// does is the same for every password.
pub proof fn law_open_network_needs_no_password(
    a: Attempt,
    other: Seq<char>,
    replies: Seq<Seq<char>>,
)
    requires
        a.is_open,
    ensures
        a.deeds(replies) == (Attempt { psk: other, ..a }).deeds(replies),
    decreases replies.len(),
{
    let b = Attempt { psk: other, ..a };
    if !a.over() && replies.len() > 0 {
        law_open_network_needs_no_password(a.next(replies[0]), other, replies.skip(1));
        assert(b.next(replies[0]) == (Attempt { psk: other, ..a.next(replies[0]) }));
        assert(a.deed() == b.deed());
    }
}

// ---------------------------------------------------------------------------
// What an attempt runs and reads, word by word
// ---------------------------------------------------------------------------

/// The runs of `sudo` for commands of two, three and five words.
proof fn lemma_calls(
    sudo_pw: Seq<char>,
    command: Seq<char>,
    id: Seq<char>,
    name: Seq<char>,
    value: Seq<char>,
)
    ensures
        call_of(sudo_pw, wpa(command)) == (Call {
            args: seq!["-S"@, "wpa_cli"@, command],
            input: sudo_pw + seq!['\n'],
        }),
        call_of(sudo_pw, wpa_on(command, id)) == (Call {
            args: seq!["-S"@, "wpa_cli"@, command, id],
            input: sudo_pw + seq!['\n'],
        }),
        call_of(sudo_pw, wpa_set(id, name, value)) == (Call {
            args: seq!["-S"@, "wpa_cli"@, "set_network"@, id, name, value],
            input: sudo_pw + seq!['\n'],
        }),
{
    assert(call_of(sudo_pw, wpa(command)).args =~= seq!["-S"@, "wpa_cli"@, command]);
    assert(call_of(sudo_pw, wpa_on(command, id)).args =~= seq!["-S"@, "wpa_cli"@, command, id]);
    assert(call_of(sudo_pw, wpa_set(id, name, value)).args
        =~= seq!["-S"@, "wpa_cli"@, "set_network"@, id, name, value]);
}

/// No success without the report of a connection.  Whatever comes back, an attempt that has
/// not read the report yet succeeds only if it reads the status and finds
/// `wpa_state=COMPLETED` there.
pub proof fn law_success_needs_completion(a: Attempt, replies: Seq<Seq<char>>)
    requires
        !(a.phase is SaveConfig),
        a.phase != Phase::Over(true),
    ensures
        a.after(replies).phase == Phase::Over(true) ==> exists|i: int|
            0 <= i < replies.len() && i < a.deeds(replies).len() && contains_text(
                #[trigger] replies[i],
                "wpa_state=COMPLETED"@,
            ) && a.deeds(replies)[i] == Deed::Read(
                Call {
                    args: seq!["-S"@, "wpa_cli"@, "status"@],
                    input: a.sudo_pw + seq!['\n'],
                },
            ),
    decreases replies.len(),
{
    if !a.over() && replies.len() > 0 && a.after(replies).phase == Phase::Over(true) {
        let b = a.next(replies[0]);
        let rest = replies.skip(1);
        lemma_calls(a.sudo_pw, "status"@, a.id, a.id, a.id);
        assert(a.deeds(replies) == seq![a.deed()] + b.deeds(rest));
        if b.phase is SaveConfig {
            assert(a.deeds(replies)[0] == a.deed());
            assert(contains_text(replies[0], "wpa_state=COMPLETED"@));
        } else {
            law_success_needs_completion(b, rest);
            let i = choose|i: int|
                0 <= i < rest.len() && i < b.deeds(rest).len() && contains_text(
                    #[trigger] rest[i],
                    "wpa_state=COMPLETED"@,
                ) && b.deeds(rest)[i] == Deed::Read(
                    Call {
                        args: seq!["-S"@, "wpa_cli"@, "status"@],
                        input: b.sudo_pw + seq!['\n'],
                    },
                );
            assert(replies[i + 1] == rest[i]);
            assert(a.deeds(replies)[i + 1] == b.deeds(rest)[i]);
        }
    }
}

/// Where the first completed reading is `j`, so many readings are made; `j` is `most` where
/// there is none.
proof fn lemma_polls_first(replies: Seq<Seq<char>>, at: int, most: nat, j: int)
    requires
        0 <= j <= most,
        forall|i: int| 0 <= i < j ==> !completed(#[trigger] replies[at + 2 * i + 1]),
        j < most ==> completed(replies[at + 2 * j + 1]),
    ensures
        polls_made(replies, at, most) == (if j < most {
            j + 1
        } else {
            most as int
        }),
        polls_succeed(replies, at, most) == (j < most),
    decreases most,
{
    if most > 0 {
        lemma_polls_succeed(replies, at, most);
        if j == 0 {
            assert(completed(replies[at + 1]));
        } else {
            assert(!completed(replies[at + 2 * 0 + 1]));
            assert forall|i: int| 0 <= i < j - 1 implies !completed(
                #[trigger] replies[(at + 2) + 2 * i + 1],
            ) by {
                assert(!completed(replies[at + 2 * (i + 1) + 1]));
            }
            assert((at + 2) + 2 * (j - 1) + 1 == at + 2 * j + 1);
            lemma_polls_first(replies, at + 2, (most - 1) as nat, j - 1);
        }
    }
}

/// Each round of polling waits two seconds and reads the status.
proof fn lemma_polling_at(a: Attempt, n: nat, i: int)
    requires
        0 <= i < n,
    ensures
        polling(a, n).len() == 2 * n,
        polling(a, n)[2 * i] == Deed::Sleep(2),
        polling(a, n)[2 * i + 1] == Deed::Read(call_of(a.sudo_pw, wpa("status"@))),
    decreases n,
{
    lemma_polling_shape(a, n);
    let p = polling(a, n);
    let q = polling(a, (n - 1) as nat);
    if i > 0 {
        lemma_polling_at(a, (n - 1) as nat, i - 1);
        assert(p[2 * i] == q[2 * (i - 1)]);
        assert(p[2 * i + 1] == q[2 * (i - 1) + 1]);
    }
}

/// The first commands of an attempt: it reads the status and adds a profile; without an
/// identifier for the profile it fails there and then.  Otherwise it sets the SSID between
/// quotes, then the password between quotes, or for an open network that there is no key,
/// enables the profile and selects it.
pub proof fn law_attempt_setup(
    ssid: Seq<char>,
    psk: Seq<char>,
    is_open: bool,
    sudo_pw: Seq<char>,
    replies: Seq<Seq<char>>,
)
    requires
        replies.len() >= 48,
    ensures
        ({
            let a = Attempt::start(ssid, psk, is_open, sudo_pw);
            let d = a.deeds(replies);
            let id = new_id_of(replies[1]);
            let input = sudo_pw + seq!['\n'];
            let quote = seq!['"'];
            &&& a.after(replies).psk == psk
            &&& d.len() >= 2
            &&& d[0] == Deed::Read(Call { args: seq!["-S"@, "wpa_cli"@, "status"@], input })
            &&& d[1] == Deed::Read(Call { args: seq!["-S"@, "wpa_cli"@, "add_network"@], input })
            &&& id.len() == 0 ==> d.len() == 2 && a.after(replies).phase == Phase::Over(false)
            &&& id.len() > 0 ==> {
                &&& d.len() >= 9
                &&& d[2] == Deed::Run(
                    Call {
                        args: seq![
                            "-S"@,
                            "wpa_cli"@,
                            "set_network"@,
                            id,
                            "ssid"@,
                            quote + ssid + quote,
                        ],
                        input,
                    },
                )
                &&& !is_open ==> d[3] == Deed::Run(
                    Call {
                        args: seq![
                            "-S"@,
                            "wpa_cli"@,
                            "set_network"@,
                            id,
                            "psk"@,
                            quote + psk + quote,
                        ],
                        input,
                    },
                )
                &&& is_open ==> d[3] == Deed::Run(
                    Call {
                        args: seq!["-S"@, "wpa_cli"@, "set_network"@, id, "key_mgmt"@, "NONE"@],
                        input,
                    },
                )
                &&& d[4] == Deed::Run(
                    Call { args: seq!["-S"@, "wpa_cli"@, "enable_network"@, id], input },
                )
                &&& d[5] == Deed::Run(
                    Call { args: seq!["-S"@, "wpa_cli"@, "select_network"@, id], input },
                )
            }
        }),
{
    let a = Attempt::start(ssid, psk, is_open, sudo_pw);
    law_attempt_course(a, replies);
    let b = prepared(a, replies);
    let d = a.deeds(replies);
    lemma_calls(sudo_pw, "status"@, b.id, "ssid"@, quoted(ssid));
    lemma_calls(sudo_pw, "add_network"@, b.id, "psk"@, quoted(psk));
    lemma_calls(sudo_pw, "enable_network"@, b.id, "key_mgmt"@, "NONE"@);
    lemma_calls(sudo_pw, "select_network"@, b.id, "ssid"@, quoted(ssid));
    if b.id.len() > 0 {
        let n = polls_made(replies, 6, POLLS as nat);
        let m = polls_made(replies, 38, RESTORE_POLLS as nat);
        lemma_polls_made(replies, 6, POLLS as nat);
        lemma_polling_shape(b, n);
        assert(n >= 1);
        assert(closing(b, joins(replies), m).len() >= 1);
        assert(d[2] == joining(b)[0]);
        assert(d[3] == joining(b)[1]);
        assert(d[4] == joining(b)[2]);
        assert(d[5] == joining(b)[3]);
    }
}

/// How an attempt on an added profile goes on.  It waits two seconds and reads the status, up
/// to fifteen times, until a reading holds `wpa_state=COMPLETED`.  `j` is the number of that
/// reading, 15 where there is none.  After such a reading it makes the profile permanent and
/// succeeds.  Otherwise it removes the profile and fails; the network that was in use before,
/// if there was one, is selected again right away, and is given up to five readings to come
/// back, of which `k` is the first that holds `wpa_state=COMPLETED`, 5 where there is none.
pub proof fn law_attempt_outcome(
    ssid: Seq<char>,
    psk: Seq<char>,
    is_open: bool,
    sudo_pw: Seq<char>,
    replies: Seq<Seq<char>>,
    j: int,
    k: int,
)
    requires
        replies.len() >= 48,
        new_id_of(replies[1]).len() > 0,
        0 <= j <= 15,
        forall|i: int|
            0 <= i < j ==> !contains_text(#[trigger] replies[7 + 2 * i], "wpa_state=COMPLETED"@),
        j < 15 ==> contains_text(replies[7 + 2 * j], "wpa_state=COMPLETED"@),
        0 <= k <= 5,
        forall|i: int|
            0 <= i < k ==> !contains_text(#[trigger] replies[39 + 2 * i], "wpa_state=COMPLETED"@),
        k < 5 ==> contains_text(replies[39 + 2 * k], "wpa_state=COMPLETED"@),
    ensures
        ({
            let a = Attempt::start(ssid, psk, is_open, sudo_pw);
            let d = a.deeds(replies);
            let id = new_id_of(replies[1]);
            let input = sudo_pw + seq!['\n'];
            let status = Deed::Read(Call { args: seq!["-S"@, "wpa_cli"@, "status"@], input });
            &&& a.after(replies).phase == Phase::Over(j < 15)
            &&& forall|i: int|
                0 <= i <= j && i < 15 ==> #[trigger] d[6 + 2 * i] == Deed::Sleep(2) && d[7 + 2 * i]
                    == status
            &&& j < 15 ==> d.len() == 9 + 2 * j && d[8 + 2 * j] == Deed::Run(
                Call { args: seq!["-S"@, "wpa_cli"@, "save_config"@], input },
            )
            &&& j == 15 ==> d.len() > 36 && d[36] == Deed::Run(
                Call { args: seq!["-S"@, "wpa_cli"@, "remove_network"@, id], input },
            )
            &&& j == 15 && current_id_of(replies[0]) is None ==> d.len() == 37
            &&& j == 15 ==> (current_id_of(replies[0]) matches Some(prev) ==> {
                &&& d.len() == (if k < 5 {
                    40 + 2 * k
                } else {
                    48
                })
                &&& d[37] == Deed::Run(
                    Call { args: seq!["-S"@, "wpa_cli"@, "select_network"@, prev], input },
                )
                &&& forall|i: int|
                    0 <= i <= k && i < 5 ==> #[trigger] d[38 + 2 * i] == Deed::Sleep(2) && d[39 + 2
                        * i] == status
            })
        }),
{
    let a = Attempt::start(ssid, psk, is_open, sudo_pw);
    law_attempt_course(a, replies);
    let b = prepared(a, replies);
    let d = a.deeds(replies);
    let id = b.id;
    assert forall|i: int| 0 <= i < j implies !completed(#[trigger] replies[6 + 2 * i + 1]) by {
        assert(!contains_text(replies[7 + 2 * i], "wpa_state=COMPLETED"@));
    }
    assert forall|i: int| 0 <= i < k implies !completed(#[trigger] replies[38 + 2 * i + 1]) by {
        assert(!contains_text(replies[39 + 2 * i], "wpa_state=COMPLETED"@));
    }
    lemma_polls_first(replies, 6, 15, j);
    lemma_polls_first(replies, 38, 5, k);
    let n = polls_made(replies, 6, POLLS as nat);
    let m = polls_made(replies, 38, RESTORE_POLLS as nat);
    lemma_polling_shape(b, n);
    lemma_polling_shape(b, m);
    lemma_calls(sudo_pw, "status"@, id, id, id);
    lemma_calls(sudo_pw, "save_config"@, id, id, id);
    lemma_calls(sudo_pw, "remove_network"@, id, id, id);
    assert forall|i: int| 0 <= i <= j && i < 15 implies #[trigger] d[6 + 2 * i] == Deed::Sleep(2)
        && d[7 + 2 * i] == Deed::Read(
        Call { args: seq!["-S"@, "wpa_cli"@, "status"@], input: sudo_pw + seq!['\n'] },
    ) by {
        lemma_polling_at(b, n, i);
        assert(d[6 + 2 * i] == polling(b, n)[2 * i]);
        assert(d[7 + 2 * i] == polling(b, n)[2 * i + 1]);
    }
    let c = closing(b, joins(replies), m);
    assert(d[6 + 2 * n as int] == c[0]);
    if j == 15 {
        if let Some(prev) = b.prev {
            lemma_calls(sudo_pw, "select_network"@, prev, id, id);
            assert(d[37] == c[1]);
            assert forall|i: int| 0 <= i <= k && i < 5 implies #[trigger] d[38 + 2 * i]
                == Deed::Sleep(2) && d[39 + 2 * i] == Deed::Read(
                Call { args: seq!["-S"@, "wpa_cli"@, "status"@], input: sudo_pw + seq!['\n'] },
            ) by {
                lemma_polling_at(b, m, i);
                assert(d[38 + 2 * i] == c[2 + 2 * i]);
                assert(d[39 + 2 * i] == c[3 + 2 * i]);
                assert(c[2 + 2 * i] == polling(b, m)[2 * i]);
                assert(c[3 + 2 * i] == polling(b, m)[2 * i + 1]);
            }
        }
    }
}

/// What an attempt asks for comes step by step: until it is over, what it asks for now, and then
/// what it asks for once the reply is in.
pub proof fn law_attempt_step_by_step(a: Attempt, reply: Seq<char>, rest: Seq<Seq<char>>)
    requires
        !(a.phase is Over),
    ensures
        a.deeds(seq![reply] + rest) == seq![a.deed()] + a.next(reply).deeds(rest),
        a.after(seq![reply] + rest) == a.next(reply).after(rest),
        a.deeds(Seq::empty()) == Seq::<Deed>::empty(),
        a.after(Seq::empty()) == a,
{
    assert((seq![reply] + rest).skip(1) =~= rest);
}

} // verus!

//! The background jobs: joining a network, and scanning for networks.

use crate::action::{Action, Deed};
use crate::command::{wpa, wpa_cli};
use crate::connect::{connect_network, law_attempt_setup, Attempt, ConnectNetwork, Phase};
use crate::network::{fetch_networks, listed, network_views, Network, Record};
use crate::status::{connected_ssid, fetch_connected, new_id_of};
use crate::sudo::{call_of, sudo_call, Call};
use vstd::prelude::*;

verus! {

// ---------------------------------------------------------------------------
// Joining a network
// ---------------------------------------------------------------------------

/// What a job that joins a network is at.
#[derive(Clone, Copy, Debug)]
pub enum Stage {
    /// The first attempt.
    First,
    /// Saving the password after the first attempt.
    FirstSave,
    /// The second attempt.
    Second,
    /// Saving the password after the second attempt.
    SecondSave,
    /// Reading which network is connected.
    Report,
    /// The job is finished.
    Finished,
}

/// A job that joins a network.  It makes two attempts, one after the other, saves the
/// password after each that succeeds, and reads which network is connected in the end.
/// The outcome of the second attempt is the one that counts.
pub struct ConnectJob {
    ssid: String,
    psk: String,
    is_open: bool,
    sudo_pw: String,
    ok_msg: String,
    fail_msg: String,
    stage: Stage,
    attempt: ConnectNetwork,
    ok: bool,
    connected: String,
}

/// The state of a job that joins a network.
pub struct Joining {
    pub ssid: Seq<char>,
    pub psk: Seq<char>,
    pub is_open: bool,
    pub sudo_pw: Seq<char>,
    pub ok_msg: Seq<char>,
    pub fail_msg: Seq<char>,
    pub stage: Stage,
    pub attempt: Attempt,
    /// Whether the second attempt succeeded.
    pub ok: bool,
    /// The SSID that is connected in the end.
    pub connected: Seq<char>,
}

impl View for ConnectJob {
    type V = Joining;

    closed spec fn view(&self) -> Joining {
        Joining {
            ssid: self.ssid@,
            psk: self.psk@,
            is_open: self.is_open,
            sudo_pw: self.sudo_pw@,
            ok_msg: self.ok_msg@,
            fail_msg: self.fail_msg@,
            stage: self.stage,
            attempt: self.attempt@,
            ok: self.ok,
            connected: self.connected@,
        }
    }
}

/// Whether a password that worked is put into the credentials file: the network is
/// secured and the password is not empty.
pub open spec fn worth_saving(is_open: bool, psk: Seq<char>) -> bool {
    !is_open && psk.len() > 0
}

impl Joining {
    /// A new job.
    pub open spec fn start(
        ssid: Seq<char>,
        psk: Seq<char>,
        is_open: bool,
        sudo_pw: Seq<char>,
        ok_msg: Seq<char>,
        fail_msg: Seq<char>,
    ) -> Joining {
        Joining {
            ssid,
            psk,
            is_open,
            sudo_pw,
            ok_msg,
            fail_msg,
            stage: Stage::First,
            attempt: Attempt::start(ssid, psk, is_open, sudo_pw),
            ok: false,
            connected: Seq::empty(),
        }
    }

    /// A new attempt.
    pub open spec fn fresh(self) -> Attempt {
        Attempt::start(self.ssid, self.psk, self.is_open, self.sudo_pw)
    }

    /// Saves the password.
    pub open spec fn save(self) -> Deed {
        Deed::Save(self.ssid, self.psk)
    }

    /// Reads which network is connected.
    pub open spec fn report(self) -> Deed {
        Deed::Read(call_of(self.sudo_pw, wpa("status"@)))
    }

    /// What the job asks for.
    pub open spec fn deed(self) -> Deed {
        match self.stage {
            Stage::First => self.attempt.deed(),
            Stage::FirstSave => self.save(),
            Stage::Second => self.attempt.deed(),
            Stage::SecondSave => self.save(),
            Stage::Report => self.report(),
            Stage::Finished => Deed::Done,
        }
    }

    /// The state after the first attempt, which ended as `a`.
    pub open spec fn first_over(self, a: Attempt) -> Joining {
        if a.succeeded() && worth_saving(self.is_open, self.psk) {
            Joining { stage: Stage::FirstSave, attempt: a, ..self }
        } else {
            Joining { stage: Stage::Second, attempt: self.fresh(), ..self }
        }
    }

    /// The state after the second attempt, which ended as `a`.
    pub open spec fn second_over(self, a: Attempt) -> Joining {
        Joining {
            stage: if a.succeeded() && worth_saving(self.is_open, self.psk) {
                Stage::SecondSave
            } else {
                Stage::Report
            },
            attempt: a,
            ok: a.succeeded(),
            ..self
        }
    }

    /// The state once what was asked for is done, with the text that came back.
    pub open spec fn next(self, reply: Seq<char>) -> Joining {
        let a = self.attempt.next(reply);
        match self.stage {
            Stage::First => if a.over() {
                self.first_over(a)
            } else {
                Joining { attempt: a, ..self }
            },
            Stage::FirstSave => Joining {
                stage: Stage::Second,
                attempt: self.fresh(),
                ..self
            },
            Stage::Second => if a.over() {
                self.second_over(a)
            } else {
                Joining { attempt: a, ..self }
            },
            Stage::SecondSave => Joining { stage: Stage::Report, ..self },
            Stage::Report => Joining {
                stage: Stage::Finished,
                connected: connected_ssid(reply),
                ..self
            },
            Stage::Finished => self,
        }
    }

    /// A bound on the steps that are left.
    pub open spec fn steps_left(self) -> nat {
        let attempt = if self.attempt.over() {
            1
        } else {
            self.attempt.steps_left()
        };
        match self.stage {
            Stage::First => attempt + 51,
            Stage::FirstSave => 51,
            Stage::Second => attempt + 2,
            Stage::SecondSave => 2,
            Stage::Report => 1,
            Stage::Finished => 0,
        }
    }

    /// The message in the end.
    pub open spec fn message(self) -> Seq<char> {
        if self.ok {
            self.ok_msg
        } else {
            self.fail_msg
        }
    }
}

impl ConnectJob {
    /// Begins a job that joins the network `ssid`, and in the end gives `ok_msg` or
    /// `fail_msg`.
    pub fn new(
        ssid: &str,
        psk: &str,
        is_open: bool,
        sudo_pw: &str,
        ok_msg: &str,
        fail_msg: &str,
    ) -> (r: ConnectJob)
        ensures
            r@ == Joining::start(ssid@, psk@, is_open, sudo_pw@, ok_msg@, fail_msg@),
    {
        ConnectJob {
            ssid: ssid.to_owned(),
            psk: psk.to_owned(),
            is_open,
            sudo_pw: sudo_pw.to_owned(),
            ok_msg: ok_msg.to_owned(),
            fail_msg: fail_msg.to_owned(),
            stage: Stage::First,
            attempt: connect_network(ssid, psk, is_open, sudo_pw),
            ok: false,
            connected: String::new(),
        }
    }

    /// What is to be done next.
    pub fn action(&self) -> (r: Action)
        ensures
            r@ == self@.deed(),
    {
        match self.stage {
            Stage::First => self.attempt.action(),
            Stage::FirstSave => Action::Save {
                ssid: self.ssid.clone(),
                password: self.psk.clone(),
            },
            Stage::Second => self.attempt.action(),
            Stage::SecondSave => Action::Save {
                ssid: self.ssid.clone(),
                password: self.psk.clone(),
            },
            Stage::Report => Action::Read(sudo_call(self.sudo_pw.as_str(), wpa_cli("status"))),
            Stage::Finished => Action::Done,
        }
    }

    /// Goes on, once what was asked for is done, with the text that came back.
    pub fn step(&mut self, reply: &str)
        ensures
            final(self)@ == old(self)@.next(reply@),
            old(self)@.stage is Finished || final(self)@.steps_left() < old(self)@.steps_left(),
    {
        let ghost before = self@;
        let worth: bool = !self.is_open && !self.psk.as_str().is_empty();
        match self.stage {
            Stage::First => {
                self.attempt.step(reply);
                if let Some((ok, _used)) = self.attempt.result() {
                    if ok && worth {
                        self.stage = Stage::FirstSave;
                    } else {
                        self.stage = Stage::Second;
                        self.attempt = connect_network(
                            self.ssid.as_str(),
                            self.psk.as_str(),
                            self.is_open,
                            self.sudo_pw.as_str(),
                        );
                    }
                }
            },
            Stage::FirstSave => {
                self.stage = Stage::Second;
                self.attempt = connect_network(
                    self.ssid.as_str(),
                    self.psk.as_str(),
                    self.is_open,
                    self.sudo_pw.as_str(),
                );
            },
            Stage::Second => {
                self.attempt.step(reply);
                if let Some((ok, _used)) = self.attempt.result() {
                    self.ok = ok;
                    self.stage = if ok && worth {
                        Stage::SecondSave
                    } else {
                        Stage::Report
                    };
                }
            },
            Stage::SecondSave => {
                self.stage = Stage::Report;
            },
            Stage::Report => {
                self.connected = fetch_connected(reply);
                self.stage = Stage::Finished;
            },
            Stage::Finished => {},
        }
        proof {
            before.attempt.lemma_step(reply@);
        }
    }

    /// The message and the SSID that is connected, once the job is finished.
    pub fn outcome(&self) -> (r: Option<(String, String)>)
        ensures
            match self@.stage {
                Stage::Finished => r matches Some(p) && p.0@ == self@.message() && p.1@
                    == self@.connected,
                _ => r is None,
            },
    {
        match self.stage {
            Stage::Finished => {
                let message: String = if self.ok {
                    self.ok_msg.clone()
                } else {
                    self.fail_msg.clone()
                };
                Some((message, self.connected.clone()))
            },
            _ => None,
        }
    }
}

impl Joining {
    /// What a job asks for, one after the other, when `replies` come back.
    pub open spec fn deeds(self, replies: Seq<Seq<char>>) -> Seq<Deed>
        decreases replies.len(),
    {
        if self.stage is Finished || replies.len() == 0 {
            Seq::empty()
        } else {
            seq![self.deed()] + self.next(replies[0]).deeds(replies.skip(1))
        }
    }

    /// The state that a job reaches when `replies` come back.
    pub open spec fn after(self, replies: Seq<Seq<char>>) -> Joining
        decreases replies.len(),
    {
        if self.stage is Finished || replies.len() == 0 {
            self
        } else {
            self.next(replies[0]).after(replies.skip(1))
        }
    }
}

/// A job that joins a network ends, whatever comes back, within the steps that are left to
/// it.  A new job has 99.
pub proof fn law_joining_ends(j: Joining, replies: Seq<Seq<char>>)
    requires
        j.steps_left() <= replies.len(),
    ensures
        j.after(replies).stage is Finished,
    decreases replies.len(),
{
    if !(j.stage is Finished) {
        j.attempt.lemma_step(replies[0]);
        law_joining_ends(j.next(replies[0]), replies.skip(1));
    }
}

/// How many texts an attempt takes.
pub open spec fn taken(a: Attempt, replies: Seq<Seq<char>>) -> int {
    a.deeds(replies).len() as int
}

/// While an attempt lasts, the job does what the attempt does.
proof fn lemma_joining_attempt(j: Joining, replies: Seq<Seq<char>>)
    requires
        j.stage is First || j.stage is Second,
        !j.attempt.over(),
        j.attempt.steps_left() <= replies.len(),
    ensures
        ({
            let a = j.attempt.after(replies);
            let k = taken(j.attempt, replies);
            let j2 = if j.stage is First {
                j.first_over(a)
            } else {
                j.second_over(a)
            };
            &&& 0 < k <= j.attempt.steps_left()
            &&& j.deeds(replies) == j.attempt.deeds(replies) + j2.deeds(replies.skip(k))
            &&& j.after(replies) == j2.after(replies.skip(k))
        }),
    decreases replies.len(),
{
    let b = j.attempt.next(replies[0]);
    j.attempt.lemma_step(replies[0]);
    let rest = replies.skip(1);
    let j1 = j.next(replies[0]);
    assert(j.attempt.deeds(replies) == seq![j.attempt.deed()] + b.deeds(rest));
    assert(j.attempt.after(replies) == b.after(rest));
    assert(j.deeds(replies) == seq![j.deed()] + j1.deeds(rest));
    assert(j.after(replies) == j1.after(rest));
    if b.over() {
        assert(b.deeds(rest) =~= Seq::<Deed>::empty());
        assert(j.attempt.deeds(replies) =~= seq![j.attempt.deed()]);
        assert(b.after(rest) == b);
        assert(taken(j.attempt, replies) == 1);
    } else {
        lemma_joining_attempt(j1, rest);
        let k = taken(b, rest);
        assert(rest.skip(k) =~= replies.skip(k + 1));
        let a = b.after(rest);
        let j2 = if j.stage is First {
            j.first_over(a)
        } else {
            j.second_over(a)
        };
        assert(taken(j.attempt, replies) == k + 1);
        assert(j1.deeds(rest) == b.deeds(rest) + j2.deeds(replies.skip(k + 1)));
        assert(j.deeds(replies) =~= j.attempt.deeds(replies) + j2.deeds(replies.skip(k + 1)));
    }
}

/// Saving the password after an attempt, if it succeeded and the password is worth
/// saving.
pub open spec fn saving(j: Joining, ok: bool) -> Seq<Deed> {
    if ok && worth_saving(j.is_open, j.psk) {
        seq![j.save()]
    } else {
        Seq::empty()
    }
}

/// The job once the first attempt and saving after it are done.
spec fn halfway(j: Joining) -> Joining {
    Joining { stage: Stage::Second, attempt: j.fresh(), ..j }
}

/// The course up to the second attempt.
proof fn lemma_first_half(j: Joining, replies: Seq<Seq<char>>)
    requires
        j.stage is First,
        j.attempt == j.fresh(),
        replies.len() >= 49,
    ensures
        ({
            let a = j.fresh();
            let s = saving(j, a.after(replies).succeeded());
            let k = taken(a, replies) + s.len();
            &&& 0 < k <= 49
            &&& j.deeds(replies) == a.deeds(replies) + s + halfway(j).deeds(replies.skip(k))
            &&& j.after(replies) == halfway(j).after(replies.skip(k))
        }),
{
    let a = j.fresh();
    let t = taken(a, replies);
    let s = saving(j, a.after(replies).succeeded());
    let r = replies.skip(t + s.len());
    lemma_joining_attempt(j, replies);
    let j1 = j.first_over(a.after(replies));
    let m = halfway(j);
    let rt = replies.skip(t);
    if s.len() == 1 {
        assert(rt.skip(1) =~= r);
        assert(j1.next(rt[0]) == m);
        assert(j1.deeds(rt) == seq![j1.deed()] + m.deeds(r));
        assert(j1.after(rt) == m.after(r));
    } else {
        assert(j1 == m);
    }
    assert(j1.deeds(rt) =~= s + m.deeds(r));
    assert(j.deeds(replies) =~= a.deeds(replies) + s + m.deeds(r));
}

/// The course from the second attempt on.
proof fn lemma_second_half(j: Joining, replies: Seq<Seq<char>>)
    requires
        j == halfway(j),
        replies.len() >= 50,
    ensures
        ({
            let a = j.fresh();
            let ok = a.after(replies).succeeded();
            let s = saving(j, ok);
            let k = taken(a, replies) + s.len();
            let e = j.after(replies);
            &&& 0 < k <= 49
            &&& j.deeds(replies) == a.deeds(replies) + s + seq![j.report()]
            &&& e.stage is Finished
            &&& e.ok == ok
            &&& e.ok_msg == j.ok_msg
            &&& e.fail_msg == j.fail_msg
            &&& e.connected == connected_ssid(replies[k])
        }),
{
    let a = j.fresh();
    let ok = a.after(replies).succeeded();
    let t = taken(a, replies);
    let s = saving(j, ok);
    let k = t + s.len();
    lemma_joining_attempt(j, replies);
    let j1 = j.second_over(a.after(replies));
    let rt = replies.skip(t);
    let r = replies.skip(k);
    let n = Joining { stage: Stage::Report, ..j1 };
    if s.len() == 1 {
        assert(rt.skip(1) =~= r);
        assert(j1.next(rt[0]) == n);
        assert(j1.deeds(rt) == seq![j1.deed()] + n.deeds(r));
        assert(j1.after(rt) == n.after(r));
    } else {
        assert(j1 == n);
    }
    assert(j1.deeds(rt) =~= s + n.deeds(r));
    let e = n.next(r[0]);
    assert(n.deeds(r) == seq![n.deed()] + e.deeds(r.skip(1)));
    assert(e.deeds(r.skip(1)) =~= Seq::<Deed>::empty());
    assert(n.after(r) == e.after(r.skip(1)));
    assert(e.after(r.skip(1)) == e);
    assert(j.deeds(replies) =~= a.deeds(replies) + s + seq![j.report()]);
}

/// The whole course of a job that joins a network, for any texts that come back: an
/// attempt, saving the password if the attempt succeeded on a secured network with a
/// password, a second attempt, saving again under the same condition, and reading which
/// network is connected.  The message tells whether the second attempt succeeded.
pub proof fn law_joining_course(j: Joining, replies: Seq<Seq<char>>)
    requires
        j.stage is First,
        j.attempt == j.fresh(),
        replies.len() >= 99,
    ensures
        ({
            let a = j.fresh();
            let ok1 = a.after(replies).succeeded();
            let k1 = taken(a, replies) + saving(j, ok1).len();
            let r2 = replies.skip(k1);
            let ok2 = a.after(r2).succeeded();
            let k2 = k1 + taken(a, r2) + saving(j, ok2).len();
            let e = j.after(replies);
            &&& k2 < replies.len()
            &&& j.deeds(replies) == a.deeds(replies) + saving(j, ok1) + a.deeds(r2) + saving(j, ok2)
                + seq![j.report()]
            &&& e.stage is Finished
            &&& e.ok == ok2
            &&& e.message() == (if ok2 {
                j.ok_msg
            } else {
                j.fail_msg
            })
            &&& e.connected == connected_ssid(replies[k2])
        }),
{
    let a = j.fresh();
    let s1 = saving(j, a.after(replies).succeeded());
    let k1 = taken(a, replies) + s1.len();
    let r2 = replies.skip(k1);
    let m = halfway(j);
    lemma_first_half(j, replies);
    lemma_second_half(m, r2);
    let s2 = saving(j, a.after(r2).succeeded());
    assert(m.deeds(r2) == a.deeds(r2) + s2 + seq![j.report()]);
    assert(j.deeds(replies) =~= a.deeds(replies) + s1 + a.deeds(r2) + s2 + seq![j.report()]);
}

// ---------------------------------------------------------------------------
// Scanning for networks
// ---------------------------------------------------------------------------

/// The seconds between starting a scan and reading its results.
pub const SCAN_SECS: u64 = 3;

/// What a scan is at.
#[derive(Clone, Copy, Debug)]
pub enum ScanStage {
    /// Starting the scan.
    Start,
    /// Waiting for the results.
    Wait,
    /// Reading the results.
    Results,
    /// Reading which network is connected.
    Status,
    /// The scan is finished.
    Finished,
}

/// A scan for networks.
pub struct ScanJob {
    sudo_pw: String,
    stage: ScanStage,
    networks: Vec<Network>,
    connected: String,
}

/// The state of a scan.
pub struct Scanning {
    pub sudo_pw: Seq<char>,
    pub stage: ScanStage,
    pub networks: Seq<Record>,
    pub connected: Seq<char>,
}

impl View for ScanJob {
    type V = Scanning;

    closed spec fn view(&self) -> Scanning {
        Scanning {
            sudo_pw: self.sudo_pw@,
            stage: self.stage,
            networks: network_views(self.networks@),
            connected: self.connected@,
        }
    }
}

impl Scanning {
    /// A new scan.
    pub open spec fn start(sudo_pw: Seq<char>) -> Scanning {
        Scanning {
            sudo_pw,
            stage: ScanStage::Start,
            networks: Seq::empty(),
            connected: Seq::empty(),
        }
    }

    /// What the scan asks for.
    pub open spec fn deed(self) -> Deed {
        match self.stage {
            ScanStage::Start => Deed::Run(call_of(self.sudo_pw, wpa("scan"@))),
            ScanStage::Wait => Deed::Sleep(SCAN_SECS),
            ScanStage::Results => Deed::Read(call_of(self.sudo_pw, wpa("scan_results"@))),
            ScanStage::Status => Deed::Read(call_of(self.sudo_pw, wpa("status"@))),
            ScanStage::Finished => Deed::Done,
        }
    }

    /// Whether `next` can follow once what was asked for is done, with the text that
    /// came back.  The order of networks of one level is left open.
    pub open spec fn leads_to(self, reply: Seq<char>, next: Scanning) -> bool {
        match self.stage {
            ScanStage::Start => next == Scanning { stage: ScanStage::Wait, ..self },
            ScanStage::Wait => next == Scanning { stage: ScanStage::Results, ..self },
            ScanStage::Results => listed(next.networks, reply) && next == Scanning {
                stage: ScanStage::Status,
                networks: next.networks,
                ..self
            },
            ScanStage::Status => next == Scanning {
                stage: ScanStage::Finished,
                connected: connected_ssid(reply),
                ..self
            },
            ScanStage::Finished => next == self,
        }
    }
}

impl ScanJob {
    /// Begins a scan.
    pub fn new(sudo_pw: &str) -> (r: ScanJob)
        ensures
            r@ == Scanning::start(sudo_pw@),
    {
        let r = ScanJob {
            sudo_pw: sudo_pw.to_owned(),
            stage: ScanStage::Start,
            networks: Vec::new(),
            connected: String::new(),
        };
        proof {
            assert(network_views(r.networks@) =~= Seq::<Record>::empty());
        }
        r
    }

    /// What is to be done next.
    pub fn action(&self) -> (r: Action)
        ensures
            r@ == self@.deed(),
    {
        let pw: &str = self.sudo_pw.as_str();
        match self.stage {
            ScanStage::Start => Action::Run(sudo_call(pw, wpa_cli("scan"))),
            ScanStage::Wait => Action::Sleep(SCAN_SECS),
            ScanStage::Results => Action::Read(sudo_call(pw, wpa_cli("scan_results"))),
            ScanStage::Status => Action::Read(sudo_call(pw, wpa_cli("status"))),
            ScanStage::Finished => Action::Done,
        }
    }

    /// Goes on, once what was asked for is done, with the text that came back.
    pub fn step(&mut self, reply: &str)
        ensures
            old(self)@.leads_to(reply@, final(self)@),
    {
        match self.stage {
            ScanStage::Start => {
                self.stage = ScanStage::Wait;
            },
            ScanStage::Wait => {
                self.stage = ScanStage::Results;
            },
            ScanStage::Results => {
                self.networks = fetch_networks(reply);
                self.stage = ScanStage::Status;
            },
            ScanStage::Status => {
                self.connected = fetch_connected(reply);
                self.stage = ScanStage::Finished;
            },
            ScanStage::Finished => {},
        }
    }

    /// The networks in range and the SSID that is connected, once the scan is finished.
    pub fn outcome(self) -> (r: Option<(Vec<Network>, String)>)
        ensures
            match self@.stage {
                ScanStage::Finished => r matches Some(p) && network_views(p.0@) == self@.networks
                    && p.1@ == self@.connected,
                _ => r is None,
            },
    {
        match self.stage {
            ScanStage::Finished => Some((self.networks, self.connected)),
            _ => None,
        }
    }
}

/// The whole course of a scan: it starts the scan, waits, reads the results and reads the
/// status, and ends with the networks of the results and the connected SSID of the status.
pub proof fn law_scan_course(
    sudo_pw: Seq<char>,
    s1: Scanning,
    s2: Scanning,
    s3: Scanning,
    s4: Scanning,
    replies: Seq<Seq<char>>,
)
    requires
        replies.len() == 4,
        Scanning::start(sudo_pw).leads_to(replies[0], s1),
        s1.leads_to(replies[1], s2),
        s2.leads_to(replies[2], s3),
        s3.leads_to(replies[3], s4),
    ensures
        Scanning::start(sudo_pw).deed() == Deed::Run(call_of(sudo_pw, wpa("scan"@))),
        s1.deed() == Deed::Sleep(SCAN_SECS),
        s2.deed() == Deed::Read(call_of(sudo_pw, wpa("scan_results"@))),
        s3.deed() == Deed::Read(call_of(sudo_pw, wpa("status"@))),
        s4.deed() == Deed::Done,
        s4.stage is Finished,
        listed(s4.networks, replies[2]),
        s4.connected == connected_ssid(replies[3]),
{
}

// ---------------------------------------------------------------------------
// What the jobs run and save, word by word
// ---------------------------------------------------------------------------

/// The whole course of a job that joins a network.  Both attempts are on the network, with the
/// password and the sudo password that the job was given.  After an attempt that succeeded,
/// that SSID and that password are saved, unless the network is open or the password empty;
/// after one that failed nothing is.  The last step reads the status, which tells the connected
/// SSID.  The message is the first one exactly if the second attempt succeeded.
pub proof fn law_job_saves_what_worked(
    ssid: Seq<char>,
    psk: Seq<char>,
    is_open: bool,
    sudo_pw: Seq<char>,
    ok_msg: Seq<char>,
    fail_msg: Seq<char>,
    replies: Seq<Seq<char>>,
)
    requires
        replies.len() >= 99,
    ensures
        ({
            let j = Joining::start(ssid, psk, is_open, sudo_pw, ok_msg, fail_msg);
            let a = Attempt::start(ssid, psk, is_open, sudo_pw);
            let ok1 = a.after(replies).phase == Phase::Over(true);
            let save1 = if ok1 && !is_open && psk.len() > 0 {
                seq![Deed::Save(ssid, psk)]
            } else {
                Seq::empty()
            };
            let first = a.deeds(replies) + save1;
            let later = replies.skip(first.len() as int);
            let ok2 = a.after(later).phase == Phase::Over(true);
            let save2 = if ok2 && !is_open && psk.len() > 0 {
                seq![Deed::Save(ssid, psk)]
            } else {
                Seq::empty()
            };
            let both = first + (a.deeds(later) + save2);
            let e = j.after(replies);
            &&& j.deeds(replies) == both.push(
                Deed::Read(
                    Call {
                        args: seq!["-S"@, "wpa_cli"@, "status"@],
                        input: sudo_pw + seq!['\n'],
                    },
                ),
            )
            &&& both.len() < 99
            &&& e.stage is Finished
            &&& e.message() == (if ok2 {
                ok_msg
            } else {
                fail_msg
            })
            &&& e.connected == connected_ssid(replies[both.len() as int])
        }),
{
    let j = Joining::start(ssid, psk, is_open, sudo_pw, ok_msg, fail_msg);
    let a = Attempt::start(ssid, psk, is_open, sudo_pw);
    law_joining_course(j, replies);
    assert(j.fresh() == a);
    let s1 = saving(j, a.after(replies).succeeded());
    let first = a.deeds(replies) + s1;
    let later = replies.skip(first.len() as int);
    let s2 = saving(j, a.after(later).succeeded());
    let both = first + (a.deeds(later) + s2);
    assert(call_of(sudo_pw, wpa("status"@)).args =~= seq!["-S"@, "wpa_cli"@, "status"@]);
    lemma_first_half(j, replies);
    lemma_second_half(halfway(j), later);
    assert(j.deeds(replies) =~= both.push(j.report()));
}

/// What a job asks for comes step by step: until it is finished, what it asks for now, and then
/// what it asks for once the reply is in.
pub proof fn law_job_step_by_step(j: Joining, reply: Seq<char>, rest: Seq<Seq<char>>)
    requires
        !(j.stage is Finished),
    ensures
        j.deeds(seq![reply] + rest) == seq![j.deed()] + j.next(reply).deeds(rest),
        j.after(seq![reply] + rest) == j.next(reply).after(rest),
        j.deeds(Seq::empty()) == Seq::<Deed>::empty(),
        j.after(Seq::empty()) == j,
{
    assert((seq![reply] + rest).skip(1) =~= rest);
}

/// A job sends the password that it was given: for a secured network, once a profile is added,
/// its fourth step sets that password between quotes, and its third step the SSID.
pub proof fn law_job_sends_password(
    ssid: Seq<char>,
    psk: Seq<char>,
    sudo_pw: Seq<char>,
    ok_msg: Seq<char>,
    fail_msg: Seq<char>,
    replies: Seq<Seq<char>>,
)
    requires
        replies.len() >= 99,
        new_id_of(replies[1]).len() > 0,
    ensures
        ({
            let d = Joining::start(ssid, psk, false, sudo_pw, ok_msg, fail_msg).deeds(replies);
            let id = new_id_of(replies[1]);
            let input = sudo_pw + seq!['\n'];
            let quote = seq!['"'];
            &&& d.len() > 3
            &&& d[2] == Deed::Run(
                Call {
                    args: seq![
                        "-S"@,
                        "wpa_cli"@,
                        "set_network"@,
                        id,
                        "ssid"@,
                        quote + ssid + quote,
                    ],
                    input,
                },
            )
            &&& d[3] == Deed::Run(
                Call {
                    args: seq!["-S"@, "wpa_cli"@, "set_network"@, id, "psk"@, quote + psk + quote],
                    input,
                },
            )
        }),
{
    law_attempt_setup(ssid, psk, false, sudo_pw, replies);
    law_job_saves_what_worked(ssid, psk, false, sudo_pw, ok_msg, fail_msg, replies);
    let d = Joining::start(ssid, psk, false, sudo_pw, ok_msg, fail_msg).deeds(replies);
    let a = Attempt::start(ssid, psk, false, sudo_pw).deeds(replies);
    assert(d[2] == a[2]);
    assert(d[3] == a[3]);
}

/// The whole course of a scan, word by word: it runs `scan`, waits three seconds, reads
/// `scan_results` and reads `status`.  The networks are those of the third reply, the connected
/// SSID that of the fourth.
pub proof fn law_scan_commands(
    sudo_pw: Seq<char>,
    s1: Scanning,
    s2: Scanning,
    s3: Scanning,
    s4: Scanning,
    replies: Seq<Seq<char>>,
)
    requires
        replies.len() == 4,
        Scanning::start(sudo_pw).leads_to(replies[0], s1),
        s1.leads_to(replies[1], s2),
        s2.leads_to(replies[2], s3),
        s3.leads_to(replies[3], s4),
    ensures
        ({
            let input = sudo_pw + seq!['\n'];
            &&& Scanning::start(sudo_pw).deed() == Deed::Run(
                Call { args: seq!["-S"@, "wpa_cli"@, "scan"@], input },
            )
            &&& s1.deed() == Deed::Sleep(3)
            &&& s2.deed() == Deed::Read(
                Call { args: seq!["-S"@, "wpa_cli"@, "scan_results"@], input },
            )
            &&& s3.deed() == Deed::Read(Call { args: seq!["-S"@, "wpa_cli"@, "status"@], input })
            &&& s4.deed() == Deed::Done
            &&& s4.stage is Finished
            &&& listed(s4.networks, replies[2])
            &&& s4.connected == connected_ssid(replies[3])
        }),
{
    assert(call_of(sudo_pw, wpa("scan"@)).args =~= seq!["-S"@, "wpa_cli"@, "scan"@]);
    assert(call_of(sudo_pw, wpa("scan_results"@)).args
        =~= seq!["-S"@, "wpa_cli"@, "scan_results"@]);
    assert(call_of(sudo_pw, wpa("status"@)).args =~= seq!["-S"@, "wpa_cli"@, "status"@]);
}

} // verus!

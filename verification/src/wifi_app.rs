//! The state of the user interface, what it shows and how it changes.
//!
//! The program around the library draws what these values say and reports what the user
//! does.  Times are nanoseconds on a clock that never runs backwards.

use crate::action::Deed;
use crate::bytes::opt_bytes_view;
use crate::command::wpa;
use crate::job::{
    law_job_sends_password, law_joining_course, ConnectJob, Joining, ScanJob, Scanning,
};
use crate::lang::{
    ascii_lang_for, ascii_values, detect_lang, en, lang_for, law_messages_tell_outcome, ru, Lang,
};
use crate::network::{law_listed_ssid_is_clean, listed, network_views, open_flags, Network, Record};
use crate::number::decimal;
use crate::passwords::{
    file_of, law_save_then_read, lists, lookup_saved_pw, other_lines, saved_in, storable, Entry,
};
use crate::signal::{
    bad_color, bars_color, bars_text, good, good_color, message_color, rgb_color, signal_bars,
    signal_level, signal_text,
};
use crate::status::new_id_of;
use crate::sudo::{call_of, sudo_call, Call, SudoCall};
use crate::text::{
    contains_text, lemma_trim_identity, opt_str_view, opt_view, same_text, string_views, strip_cr, trim_of,
};
use eframe::egui::Color32;
use vstd::prelude::*;

verus! {

// ---------------------------------------------------------------------------
// Scanning
// ---------------------------------------------------------------------------

/// What the last scan found, and whether a scan runs.
pub struct ScanState {
    pub networks: Vec<Network>,
    pub scanning: bool,
    pub connected_ssid: String,
}

/// What the last scan found, and whether a scan runs.
pub struct Found {
    pub networks: Seq<Record>,
    pub scanning: bool,
    pub connected_ssid: Seq<char>,
}

impl View for ScanState {
    type V = Found;

    open spec fn view(&self) -> Found {
        Found {
            networks: network_views(self.networks@),
            scanning: self.scanning,
            connected_ssid: self.connected_ssid@,
        }
    }
}

impl Default for ScanState {
    fn default() -> (r: Self)
        ensures
            r@ == (Found {
                networks: Seq::empty(),
                scanning: false,
                connected_ssid: Seq::empty(),
            }),
    {
        let r = ScanState {
            networks: Vec::new(),
            scanning: false,
            connected_ssid: String::new(),
        };
        proof {
            assert(network_views(r.networks@) =~= Seq::<Record>::empty());
        }
        r
    }
}

impl ScanState {
    /// Takes over the results of a scan, which is thereby finished.
    pub fn finish_scan(&mut self, networks: Vec<Network>, connected: String)
        ensures
            final(self)@ == (Found {
                networks: network_views(networks@),
                scanning: false,
                connected_ssid: connected@,
            }),
    {
        self.networks = networks;
        self.connected_ssid = connected;
        self.scanning = false;
    }

    /// Takes over which network is connected.
    pub fn set_connected(&mut self, connected: String)
        ensures
            final(self)@ == (Found { connected_ssid: connected@, ..old(self)@ }),
    {
        self.connected_ssid = connected;
    }
}

// ---------------------------------------------------------------------------
// The list of networks
// ---------------------------------------------------------------------------

/// How one network is shown.
pub struct Row {
    /// Whether the network is connected.
    pub connected: bool,
    /// The mark in front: a check mark for the connected network.
    pub mark: &'static str,
    /// The bars for the strength of the signal.
    pub bars: &'static str,
    /// The colour of the bars.
    pub bars_color: Color32,
    /// The SSID.
    pub ssid: String,
    /// The colour of the SSID, where it has one of its own.
    pub ssid_color: Option<Color32>,
    /// The note that the network is open.
    pub open_note: Option<&'static str>,
    /// The strength of the signal in words.
    pub signal: String,
}

/// Whether `row` shows the network `net`.
pub open spec fn shows(row: Row, net: Record, connected_ssid: Seq<char>, lang: Lang) -> bool {
    let connected = net.ssid == connected_ssid;
    &&& row.connected == connected
    &&& row.mark@ == (if connected {
        "✔"@
    } else {
        " "@
    })
    &&& row.bars@ == bars_text(signal_level(net.signal))
    &&& row.bars_color == bars_color(signal_level(net.signal))
    &&& row.ssid@ == net.ssid
    &&& row.ssid_color == (if connected {
        Some(good_color())
    } else {
        None
    })
    &&& opt_str_view(row.open_note) == (if open_flags(net.flags) {
        Some(lang.open_network@)
    } else {
        None
    })
    &&& row.signal@ == decimal(net.signal as int) + " dBm"@
}

/// How a network is shown.
pub fn row_for(net: &Network, connected_ssid: &str, lang: &Lang) -> (row: Row)
    ensures
        shows(row, net@, connected_ssid@, *lang),
        row.connected <==> net.ssid@ == connected_ssid@,
{
    let connected: bool = same_text(net.ssid.as_str(), connected_ssid);
    let (bars, bars_color) = signal_bars(net.signal);
    Row {
        connected,
        mark: if connected {
            "✔"
        } else {
            " "
        },
        bars,
        bars_color,
        ssid: net.ssid.clone(),
        ssid_color: if connected {
            Some(good())
        } else {
            None
        },
        open_note: if net.is_open() {
            Some(lang.open_network)
        } else {
            None
        },
        signal: signal_text(net.signal),
    }
}

/// What stands in the place of the list.
pub enum NetworkList {
    /// No network is known yet, and a scan runs.
    Spinner,
    /// No network is known, with a note that says so.
    Empty(&'static str),
    /// One row for each network.
    Rows(Vec<Row>),
}

/// What stands in the place of the list of networks.
pub fn network_list(scan: &ScanState, lang: &Lang) -> (r: NetworkList)
    ensures
        if scan@.networks.len() == 0 {
            if scan@.scanning {
                r is Spinner
            } else {
                r matches NetworkList::Empty(note) && note@ == lang.no_networks@
            }
        } else {
            &&& r matches NetworkList::Rows(rows)
            &&& rows@.len() == scan@.networks.len()
            &&& forall|i: int|
                0 <= i < rows@.len() ==> shows(
                    #[trigger] rows@[i],
                    scan@.networks[i],
                    scan@.connected_ssid,
                    *lang,
                )
        },
{
    if scan.networks.len() == 0 {
        if scan.scanning {
            return NetworkList::Spinner;
        }
        return NetworkList::Empty(lang.no_networks);
    }
    let mut rows: Vec<Row> = Vec::new();
    let mut i: usize = 0;
    while i < scan.networks.len()
        invariant
            i <= scan.networks@.len(),
            rows@.len() == i,
            forall|j: int|
                0 <= j < i ==> shows(
                    #[trigger] rows@[j],
                    scan@.networks[j],
                    scan@.connected_ssid,
                    *lang,
                ),
        decreases scan.networks@.len() - i,
    {
        rows.push(row_for(&scan.networks[i], scan.connected_ssid.as_str(), lang));
        i += 1;
    }
    NetworkList::Rows(rows)
}

// ---------------------------------------------------------------------------
// The dialog
// ---------------------------------------------------------------------------

/// The dialog in which a network is joined.
pub struct ConnectDialog {
    pub ssid: String,
    pub is_open: bool,
    pub password: String,
    pub show_password: bool,
    pub connecting: bool,
    /// The message of the finished job.
    pub result: Option<String>,
    /// The password that the credentials file holds for the network.
    pub saved_password: Option<String>,
}

/// The state of the dialog in which a network is joined.
pub struct Dialog {
    pub ssid: Seq<char>,
    pub is_open: bool,
    pub password: Seq<char>,
    pub show_password: bool,
    pub connecting: bool,
    pub result: Option<Seq<char>>,
    pub saved_password: Option<Seq<char>>,
}

impl View for ConnectDialog {
    type V = Dialog;

    open spec fn view(&self) -> Dialog {
        Dialog {
            ssid: self.ssid@,
            is_open: self.is_open,
            password: self.password@,
            show_password: self.show_password,
            connecting: self.connecting,
            result: opt_view(self.result),
            saved_password: opt_view(self.saved_password),
        }
    }
}

/// What the dialog shows.
pub enum DialogView {
    /// The message of the finished job, and its colour.
    Result { message: String, color: Color32 },
    /// That the network is being joined.
    Connecting { label: &'static str, hint: &'static str },
    /// The fields to fill in; those for a password only for a secured network.
    Form { secured: bool, saved_hint: Option<&'static str> },
}

impl Dialog {
    /// The dialog for a network, when the credentials file holds `content`: the password
    /// is filled in if one is saved.
    pub open spec fn opened(net: Record, content: Option<Seq<u8>>) -> Dialog {
        let saved = if saved_in(content).dom().contains(net.ssid) {
            Some(saved_in(content)[net.ssid])
        } else {
            None
        };
        Dialog {
            ssid: net.ssid,
            is_open: open_flags(net.flags),
            password: match saved {
                Some(password) => password,
                None => Seq::empty(),
            },
            show_password: false,
            connecting: false,
            result: None,
            saved_password: saved,
        }
    }

    /// The dialog once the message of the job, if there is one, is taken over.
    pub open spec fn polled(self, result: Option<Seq<char>>) -> Dialog {
        Dialog { result, connecting: self.connecting && result is None, ..self }
    }

    /// The colour of the message of the finished job.
    pub open spec fn message_color(message: Seq<char>) -> Color32 {
        if message.contains('✔') {
            good_color()
        } else {
            bad_color()
        }
    }

    /// Whether the dialog shows the fields to fill in.
    pub open spec fn shows_form(self) -> bool {
        self.result is None && !self.connecting
    }

    /// Whether the password in the field is the saved one.
    pub open spec fn uses_saved(self) -> bool {
        self.saved_password == Some(self.password)
    }
}

impl ConnectDialog {
    /// The title of the dialog.
    pub fn title(&self, lang: &Lang) -> (r: String)
        ensures
            r@ == lang.connect@ + ": "@ + self@.ssid,
    {
        let mut r: String = lang.connect.to_owned();
        r.append(": ");
        r.append(self.ssid.as_str());
        r
    }

    /// Takes over the message of the job, if it has finished.
    pub fn poll(&mut self, result: Option<String>)
        ensures
            final(self)@ == old(self)@.polled(opt_view(result)),
    {
        if result.is_some() {
            self.connecting = false;
        }
        self.result = result;
    }

    /// Whether the password in the field is the saved one.
    pub fn uses_saved(&self) -> (r: bool)
        ensures
            r == self@.uses_saved(),
    {
        match &self.saved_password {
            Some(saved) => same_text(self.password.as_str(), saved.as_str()),
            None => false,
        }
    }

    /// What the dialog shows.
    pub fn shown(&self, lang: &Lang) -> (r: DialogView)
        ensures
            match self@.result {
                Some(text) => r matches DialogView::Result { message, color } && message@ == text
                    && color == Dialog::message_color(text),
                None => if self@.connecting {
                    r matches DialogView::Connecting { label, hint } && label@ == lang.connecting@
                        && hint@ == lang.wait_hint@
                } else {
                    r matches DialogView::Form { secured, saved_hint } && secured == !self@.is_open
                        && opt_str_view(saved_hint) == (if !self@.is_open && self@.uses_saved() {
                        Some(lang.saved_pw_hint@)
                    } else {
                        None
                    })
                },
            },
    {
        match &self.result {
            Some(text) => DialogView::Result {
                message: text.clone(),
                color: message_color(text.as_str()),
            },
            None => {
                if self.connecting {
                    DialogView::Connecting { label: lang.connecting, hint: lang.wait_hint }
                } else {
                    DialogView::Form {
                        secured: !self.is_open,
                        saved_hint: if !self.is_open && self.uses_saved() {
                            Some(lang.saved_pw_hint)
                        } else {
                            None
                        },
                    }
                }
            },
        }
    }
}

// ---------------------------------------------------------------------------
// The application
// ---------------------------------------------------------------------------

/// The nanoseconds after which a scan starts by itself.
pub const AUTO_SCAN_NANOS: u128 = 60_000_000_000;

/// What fills the window.
#[derive(Clone, Copy, Debug, PartialEq, Eq, Structural)]
pub enum Screen {
    /// The sudo password is asked for.
    SudoAuth,
    /// The networks are shown.
    Main,
}

/// The state of the user interface.
pub struct WifiApp {
    pub lang: Lang,
    pub screen: Screen,
    pub sudo_password: String,
    pub sudo_error: Option<String>,
    /// When the last scan was started by the clock or by the user.
    pub last_auto_scan: Option<u128>,
    pub dialog: Option<ConnectDialog>,
}

/// The state of the user interface.
pub struct AppState {
    pub lang: Lang,
    pub screen: Screen,
    pub sudo_password: Seq<char>,
    pub sudo_error: Option<Seq<char>>,
    pub last_auto_scan: Option<u128>,
    pub dialog: Option<Dialog>,
}

impl View for WifiApp {
    type V = AppState;

    open spec fn view(&self) -> AppState {
        AppState {
            lang: self.lang,
            screen: self.screen,
            sudo_password: self.sudo_password@,
            sudo_error: opt_view(self.sudo_error),
            last_auto_scan: self.last_auto_scan,
            dialog: match self.dialog {
                Some(dialog) => Some(dialog@),
                None => None,
            },
        }
    }
}

impl AppState {
    /// The state at the start.
    pub open spec fn start(lang: Lang) -> AppState {
        AppState {
            lang,
            screen: Screen::SudoAuth,
            sudo_password: Seq::empty(),
            sudo_error: None,
            last_auto_scan: None,
            dialog: None,
        }
    }

    /// The state once it is known whether the sudo password is right: a right one opens the
    /// list of networks; a wrong one is forgotten, with a message that says so.
    pub open spec fn unlocked(self, accepted: bool) -> AppState {
        if accepted {
            AppState { screen: Screen::Main, sudo_error: None, ..self }
        } else {
            AppState {
                sudo_error: Some(self.lang.wrong_sudo@),
                sudo_password: Seq::empty(),
                ..self
            }
        }
    }

    /// Whether the time for a scan has come: there was none yet, or the last one was started
    /// more than a minute ago.
    pub open spec fn scan_due(self, now: u128) -> bool {
        match self.last_auto_scan {
            Some(then) => now - then > AUTO_SCAN_NANOS,
            None => true,
        }
    }

    /// The job that the form of the dialog starts.
    pub open spec fn join_job(self, dialog: Dialog) -> Joining {
        Joining::start(
            dialog.ssid,
            dialog.password,
            dialog.is_open,
            self.sudo_password,
            self.lang.connected_ok@,
            self.lang.connected_fail@,
        )
    }
}

/// What starting a scan does: nothing while one runs; otherwise a scan now runs, and its job
/// is handed out.
pub open spec fn scan_started(
    before: Found,
    after: Found,
    job: Option<ScanJob>,
    sudo_pw: Seq<char>,
) -> bool {
    if before.scanning {
        after == before && job is None
    } else {
        after == (Found { scanning: true, ..before }) && (job matches Some(j) && j@
            == Scanning::start(sudo_pw))
    }
}

impl WifiApp {
    /// The state at the start, for the values of the environment variables that tell the
    /// language.
    pub fn new(lang_values: &Vec<Option<String>>) -> (r: WifiApp)
        ensures
            r@ == AppState::start(lang_for(lang_values@)),
            ascii_values(lang_values@) ==> r@ == AppState::start(ascii_lang_for(lang_values@)),
    {
        WifiApp {
            lang: detect_lang(lang_values),
            screen: Screen::SudoAuth,
            sudo_password: String::new(),
            sudo_error: None,
            last_auto_scan: None,
            dialog: None,
        }
    }

    /// The command whose success shows that the sudo password is right.
    pub fn validate_sudo(&self) -> (r: SudoCall)
        ensures
            r@ == call_of(self@.sudo_password, seq!["true"@]),
    {
        let mut args: Vec<String> = Vec::new();
        args.push("true".to_owned());
        proof {
            assert(string_views(args@) =~= seq!["true"@]);
        }
        sudo_call(self.sudo_password.as_str(), args)
    }

    /// Takes over whether the sudo password is right.
    pub fn unlock(&mut self, accepted: bool)
        ensures
            final(self)@ == old(self)@.unlocked(accepted),
    {
        if accepted {
            self.screen = Screen::Main;
            self.sudo_error = None;
        } else {
            self.sudo_error = Some(self.lang.wrong_sudo.to_owned());
            self.sudo_password = String::new();
        }
    }

    /// Starts a scan, unless one runs.  Whether the networks are shown is for `auto_scan` and
    /// `refresh` to ask.
    pub fn trigger_scan(&self, scan: &mut ScanState) -> (r: Option<ScanJob>)
        ensures
            scan_started(old(scan)@, final(scan)@, r, self@.sudo_password),
    {
        if scan.scanning {
            return None;
        }
        scan.scanning = true;
        Some(ScanJob::new(self.sudo_password.as_str()))
    }

    /// Starts a scan if the networks are shown, the time for a scan has come and none runs.
    pub fn auto_scan(&mut self, scan: &mut ScanState, now: u128) -> (r: Option<ScanJob>)
        ensures
            if old(self)@.screen is Main && old(self)@.scan_due(now) && !old(scan)@.scanning {
                &&& final(self)@ == (AppState { last_auto_scan: Some(now), ..old(self)@ })
                &&& scan_started(old(scan)@, final(scan)@, r, old(self)@.sudo_password)
            } else {
                &&& final(self)@ == old(self)@
                &&& final(scan)@ == old(scan)@
                &&& r is None
            },
    {
        if self.screen == Screen::SudoAuth {
            return None;
        }
        let due: bool = match self.last_auto_scan {
            Some(then) => now > then && now - then > AUTO_SCAN_NANOS,
            None => true,
        };
        if due && !scan.scanning {
            self.last_auto_scan = Some(now);
            return self.trigger_scan(scan);
        }
        None
    }

    /// Starts a scan at the user's wish, unless one runs.  While the sudo password is asked
    /// for, nothing happens.
    pub fn refresh(&mut self, scan: &mut ScanState, now: u128) -> (r: Option<ScanJob>)
        ensures
            if old(self)@.screen is Main {
                &&& final(self)@ == (AppState { last_auto_scan: Some(now), ..old(self)@ })
                &&& scan_started(old(scan)@, final(scan)@, r, old(self)@.sudo_password)
            } else {
                &&& final(self)@ == old(self)@
                &&& final(scan)@ == old(scan)@
                &&& r is None
            },
    {
        if self.screen == Screen::SudoAuth {
            return None;
        }
        self.last_auto_scan = Some(now);
        self.trigger_scan(scan)
    }

    /// Opens the dialog for a network, unless one is open or the sudo password is asked for.
    /// `pw_file` is the content of the credentials file, `None` where there is none.
    pub fn open_dialog(&mut self, net: &Network, pw_file: Option<&[u8]>)
        ensures
            final(self)@ == (if old(self)@.screen is SudoAuth || old(self)@.dialog is Some {
                old(self)@
            } else {
                AppState {
                    dialog: Some(Dialog::opened(net@, opt_bytes_view(pw_file))),
                    ..old(self)@
                }
            }),
    {
        if self.screen == Screen::SudoAuth || self.dialog.is_some() {
            return;
        }
        let saved: Option<String> = lookup_saved_pw(pw_file, net.ssid.as_str());
        let password: String = match &saved {
            Some(password) => password.clone(),
            None => String::new(),
        };
        self.dialog = Some(
            ConnectDialog {
                ssid: net.ssid.clone(),
                is_open: net.is_open(),
                password,
                show_password: false,
                connecting: false,
                result: None,
                saved_password: saved,
            },
        );
    }

    /// Starts to join the network of the dialog, if the dialog shows its form.  While the sudo
    /// password is asked for, nothing happens.
    pub fn connect(&mut self) -> (r: Option<ConnectJob>)
        ensures
            match old(self)@.dialog {
                Some(dialog) => if old(self)@.screen is Main && dialog.shows_form() {
                    &&& final(self)@ == (AppState {
                        dialog: Some(Dialog { connecting: true, ..dialog }),
                        ..old(self)@
                    })
                    &&& r matches Some(job) && job@ == old(self)@.join_job(dialog)
                } else {
                    final(self)@ == old(self)@ && r is None
                },
                None => final(self)@ == old(self)@ && r is None,
            },
            r matches Some(job) ==> (old(self).dialog matches Some(dialog) && {
                &&& job@.ssid == dialog.ssid@
                &&& job@.psk == dialog.password@
                &&& job@.is_open == dialog.is_open
                &&& job@.sudo_pw == old(self).sudo_password@
                &&& job@.ok_msg == old(self).lang.connected_ok@
                &&& job@.fail_msg == old(self).lang.connected_fail@
            }),
    {
        if self.screen == Screen::SudoAuth {
            return None;
        }
        let mut dialog: ConnectDialog = match self.dialog.take() {
            Some(dialog) => dialog,
            None => {
                return None;
            },
        };
        if dialog.connecting || dialog.result.is_some() {
            self.dialog = Some(dialog);
            return None;
        }
        dialog.connecting = true;
        let job: ConnectJob = ConnectJob::new(
            dialog.ssid.as_str(),
            dialog.password.as_str(),
            dialog.is_open,
            self.sudo_password.as_str(),
            self.lang.connected_ok,
            self.lang.connected_fail,
        );
        self.dialog = Some(dialog);
        Some(job)
    }

    /// Closes the dialog.
    pub fn close_dialog(&mut self)
        ensures
            final(self)@ == (AppState { dialog: None, ..old(self)@ }),
    {
        self.dialog = None;
    }
}

// ---------------------------------------------------------------------------
// What holds throughout
// ---------------------------------------------------------------------------

/// At most one scan runs: of two tries to start one, with nothing finished in between, at
/// most one hands out a job.
pub proof fn law_one_scan_at_a_time(
    f0: Found,
    f1: Found,
    f2: Found,
    job1: Option<ScanJob>,
    job2: Option<ScanJob>,
    pw1: Seq<char>,
    pw2: Seq<char>,
)
    requires
        scan_started(f0, f1, job1, pw1),
        scan_started(f1, f2, job2, pw2),
    ensures
        job1 is None || job2 is None,
        f2.scanning,
        f2.networks == f0.networks,
        f2.connected_ssid == f0.connected_ssid,
{
}

/// A dialog starts at most one job: once it left its form, no news of the job brings the
/// form back, given that a message, once there, stays.
pub proof fn law_form_does_not_return(d: Dialog, result: Option<Seq<char>>)
    requires
        !d.shows_form(),
        d.result is Some ==> result is Some,
    ensures
        !d.polled(result).shows_form(),
{
}

/// The colour of the final message tells the outcome: good news exactly if the job joined the
/// network in its second attempt.
pub proof fn law_color_tells_outcome(app: AppState, dialog: Dialog, replies: Seq<Seq<char>>)
    requires
        app.lang == ru() || app.lang == en(),
        replies.len() >= 99,
    ensures
        ({
            let e = app.join_job(dialog).after(replies);
            &&& e.stage is Finished
            &&& Dialog::message_color(e.message()) == (if e.ok {
                good_color()
            } else {
                bad_color()
            })
        }),
{
    let j = app.join_job(dialog);
    law_messages_tell_outcome(app.lang);
    law_joining_course(j, replies);
}

/// A line of the credentials file can hold the password of a listed network, unless its SSID
/// holds a tab or the password holds a line feed.
pub proof fn law_listed_network_storable(
    v: Seq<Record>,
    raw: Seq<char>,
    k: int,
    password: Seq<char>,
)
    requires
        listed(v, raw),
        0 <= k < v.len(),
        !v[k].ssid.contains('\t'),
        !password.contains('\n'),
    ensures
        storable((v[k].ssid, password)),
{
    law_listed_ssid_is_clean(v, raw, k);
}

/// What was saved for a network is offered when its dialog opens: the password is filled in,
/// and the note that a saved password is in use is due, for every password that has no line
/// feed in it and no carriage return at its end.
pub proof fn law_saved_password_offered(
    net: Record,
    password: Seq<char>,
    content: Option<Seq<u8>>,
    es: Seq<Entry>,
)
    requires
        storable((net.ssid, password)),
        strip_cr(password) == password,
        lists(es, saved_in(content).insert(trim_of(net.ssid), password)),
    ensures
        ({
            let dialog = Dialog::opened(net, Some(file_of(es, other_lines(content))));
            &&& dialog.password == password
            &&& dialog.uses_saved()
            &&& dialog.shows_form()
        }),
{
    lemma_trim_identity(net.ssid);
    law_save_then_read(content, net.ssid, password, es);
    assert(saved_in(content).dom().insert(net.ssid).contains(net.ssid));
}

// ---------------------------------------------------------------------------
// What is shown and sent
// ---------------------------------------------------------------------------

/// At most one row is connected.  In a list of networks no two of which share an SSID, a row is
/// connected exactly if its SSID is the connected one, the check mark stands exactly in front of
/// a connected row, and no two rows are connected; and where nothing is connected, and no SSID
/// is empty, no row has the check mark.
pub proof fn law_one_row_connected(
    rows: Seq<Row>,
    nets: Seq<Record>,
    connected_ssid: Seq<char>,
    lang: Lang,
)
    requires
        rows.len() == nets.len(),
        forall|i: int|
            0 <= i < rows.len() ==> shows(#[trigger] rows[i], nets[i], connected_ssid, lang),
        forall|i: int, j: int| 0 <= i < j < nets.len() ==> nets[i].ssid != nets[j].ssid,
    ensures
        forall|i: int|
            0 <= i < rows.len() ==> ((#[trigger] rows[i]).connected <==> rows[i].ssid@
                == connected_ssid),
        forall|i: int|
            0 <= i < rows.len() ==> (#[trigger] rows[i]).ssid@ == nets[i].ssid,
        forall|i: int|
            0 <= i < rows.len() ==> ((#[trigger] rows[i]).mark@ == "✔"@ <==> rows[i].connected),
        forall|i: int, j: int|
            0 <= i < j < rows.len() ==> !(#[trigger] rows[i].connected
                && #[trigger] rows[j].connected),
        connected_ssid.len() == 0 && (forall|i: int|
            0 <= i < nets.len() ==> (#[trigger] nets[i]).ssid.len() > 0) ==> forall|i: int|
            0 <= i < rows.len() ==> (#[trigger] rows[i]).mark@ != "✔"@,
{
    reveal_strlit("✔");
    reveal_strlit(" ");
    assert("✔"@[0] != " "@[0]);
    assert forall|i: int| 0 <= i < rows.len() implies ((#[trigger] rows[i]).connected
        <==> rows[i].ssid@ == connected_ssid) && rows[i].ssid@ == nets[i].ssid && (rows[i].mark@
        == "✔"@ <==> rows[i].connected) by {
        assert(shows(rows[i], nets[i], connected_ssid, lang));
    }
    assert forall|i: int, j: int| 0 <= i < j < rows.len() implies !(#[trigger] rows[i].connected
        && #[trigger] rows[j].connected) by {
        assert(shows(rows[i], nets[i], connected_ssid, lang));
        assert(shows(rows[j], nets[j], connected_ssid, lang));
        assert(nets[i].ssid != nets[j].ssid);
    }
    if connected_ssid.len() == 0 && (forall|i: int|
        0 <= i < nets.len() ==> (#[trigger] nets[i]).ssid.len() > 0) {
        assert forall|i: int| 0 <= i < rows.len() implies (#[trigger] rows[i]).mark@ != "✔"@ by {
            assert(shows(rows[i], nets[i], connected_ssid, lang));
            assert(nets[i].ssid.len() > 0);
        }
    }
}

/// What a row tells of its network: the note on an open network stands there exactly if its
/// flags hold neither `WPA` nor `WEP`; a connected network has the colour of good news, any
/// other none of its own; the level is written out with its unit, and the bars go with it.
pub proof fn law_row_tells(row: Row, net: Record, connected_ssid: Seq<char>, lang: Lang)
    requires
        shows(row, net, connected_ssid, lang),
    ensures
        row.ssid@ == net.ssid,
        row.signal@ == decimal(net.signal as int) + " dBm"@,
        row.bars@ == bars_text(signal_level(net.signal)),
        row.bars_color == bars_color(signal_level(net.signal)),
        row.connected ==> row.ssid_color == Some(rgb_color(80, 210, 80)),
        !row.connected ==> row.ssid_color is None && row.mark@ == " "@,
        contains_text(net.flags, "WPA"@) || contains_text(net.flags, "WEP"@)
            ==> row.open_note is None,
        !contains_text(net.flags, "WPA"@) && !contains_text(net.flags, "WEP"@) ==> (
        row.open_note matches Some(note) && note@ == lang.open_network@),
{
}

/// The dialog for a network: it carries the SSID, asks for a password unless the flags hold
/// neither `WPA` nor `WEP`, starts with the saved password in the field, or with an empty
/// field where none is saved, and shows its form.
pub proof fn law_dialog_opened(net: Record, content: Option<Seq<u8>>)
    ensures
        ({
            let dialog = Dialog::opened(net, content);
            &&& dialog.ssid == net.ssid
            &&& dialog.is_open <==> !contains_text(net.flags, "WPA"@) && !contains_text(
                net.flags,
                "WEP"@,
            )
            &&& saved_in(content).dom().contains(net.ssid) ==> dialog.password == saved_in(
                content,
            )[net.ssid] && dialog.saved_password == Some(saved_in(content)[net.ssid])
            &&& !saved_in(content).dom().contains(net.ssid) ==> dialog.password.len() == 0
                && dialog.saved_password is None
            &&& !dialog.show_password
            &&& !dialog.connecting
            &&& dialog.result is None
        }),
{
}

/// What is typed is what is sent.  Whatever password is saved for the network, the job is on the
/// dialog's network with the text in the password field; for a secured network its fourth step,
/// once a profile is added, sets that text between quotes.
pub proof fn law_typed_password_is_sent(
    app: AppState,
    dialog: Dialog,
    saved: Option<Seq<char>>,
    replies: Seq<Seq<char>>,
)
    requires
        replies.len() >= 99,
        new_id_of(replies[1]).len() > 0,
    ensures
        ({
            let job = app.join_job(dialog);
            &&& job.ssid == dialog.ssid
            &&& job.psk == dialog.password
            &&& job.is_open == dialog.is_open
            &&& job.sudo_pw == app.sudo_password
            &&& job == app.join_job(Dialog { saved_password: saved, ..dialog })
            &&& !dialog.is_open ==> job.deeds(replies).len() > 3 && job.deeds(replies)[3]
                == Deed::Run(
                Call {
                    args: seq![
                        "-S"@,
                        "wpa_cli"@,
                        "set_network"@,
                        new_id_of(replies[1]),
                        "psk"@,
                        seq!['"'] + dialog.password + seq!['"'],
                    ],
                    input: app.sudo_password + seq!['\n'],
                },
            )
        }),
{
    if !dialog.is_open {
        law_job_sends_password(
            dialog.ssid,
            dialog.password,
            app.sudo_password,
            app.lang.connected_ok@,
            app.lang.connected_fail@,
            replies,
        );
    }
}

/// What the sudo password leads to.  It is tried as it was typed; a right one opens the list and
/// stays; a wrong one is forgotten, the screen stays and the message is there.  Nothing else
/// changes.
pub proof fn law_unlocking(app: AppState)
    ensures
        ({
            let open = app.unlocked(true);
            &&& open.screen is Main
            &&& open.sudo_error is None
            &&& open.sudo_password == app.sudo_password
            &&& open.dialog == app.dialog && open.last_auto_scan == app.last_auto_scan && open.lang
                == app.lang
        }),
        ({
            let shut = app.unlocked(false);
            &&& shut.screen == app.screen
            &&& shut.sudo_error == Some(app.lang.wrong_sudo@)
            &&& shut.sudo_password.len() == 0
            &&& shut.dialog == app.dialog && shut.last_auto_scan == app.last_auto_scan && shut.lang
                == app.lang
        }),
{
}

/// When a scan is due: at once where there was none yet, and otherwise as soon as more than
/// sixty seconds have passed since the last one was started.
pub proof fn law_scan_due(app: AppState, now: u128)
    ensures
        app.last_auto_scan is None ==> app.scan_due(now),
        app.last_auto_scan matches Some(then) ==> (app.scan_due(now) <==> now
            > then + 60_000_000_000),
{
}

/// Starting a scan: while one runs nothing changes and no job is handed out; otherwise a scan
/// now runs, all else stays, and the first step of the job runs `wpa_cli scan` with the sudo
/// password.
pub proof fn law_scan_started(
    before: Found,
    after: Found,
    job: Option<ScanJob>,
    sudo_pw: Seq<char>,
)
    requires
        scan_started(before, after, job, sudo_pw),
    ensures
        after.scanning,
        after.networks == before.networks,
        after.connected_ssid == before.connected_ssid,
        before.scanning ==> job is None,
        !before.scanning ==> (job matches Some(j) && j@.stage is Start && j@.deed() == Deed::Run(
            Call { args: seq!["-S"@, "wpa_cli"@, "scan"@], input: sudo_pw + seq!['\n'] },
        )),
{
    assert(call_of(sudo_pw, wpa("scan"@)).args =~= seq!["-S"@, "wpa_cli"@, "scan"@]);
}

/// What the dialog makes of the news from its job: the message is taken over as it is, and with
/// one the dialog no longer counts as joining; without one it goes on as before.  Its form is
/// shown exactly if there is no message and nothing is being joined.
pub proof fn law_dialog_polled(dialog: Dialog, message: Seq<char>)
    ensures
        dialog.polled(Some(message)).result == Some(message),
        !dialog.polled(Some(message)).connecting,
        dialog.polled(None).result is None,
        dialog.polled(None).connecting == dialog.connecting,
        dialog.polled(Some(message)).password == dialog.password,
        dialog.polled(Some(message)).ssid == dialog.ssid,
        dialog.polled(None).password == dialog.password,
        dialog.polled(None).ssid == dialog.ssid,
        dialog.shows_form() <==> dialog.result is None && !dialog.connecting,
        dialog.uses_saved() <==> (dialog.saved_password matches Some(saved) && saved
            == dialog.password),
        message.contains('✔') ==> Dialog::message_color(message) == rgb_color(80, 210, 80),
        !message.contains('✔') ==> Dialog::message_color(message) == rgb_color(220, 60, 60),
{
}

/// The views of what the program holds show each part of it.
pub proof fn law_views(scan: ScanState, dialog: ConnectDialog, app: WifiApp)
    ensures
        scan@.scanning == scan.scanning,
        scan@.connected_ssid == scan.connected_ssid@,
        scan@.networks == network_views(scan.networks@),
        dialog@.ssid == dialog.ssid@,
        dialog@.is_open == dialog.is_open,
        dialog@.password == dialog.password@,
        dialog@.show_password == dialog.show_password,
        dialog@.connecting == dialog.connecting,
        dialog.result matches Some(m) ==> dialog@.result == Some(m@),
        dialog.result is None ==> dialog@.result is None,
        dialog.saved_password matches Some(p) ==> dialog@.saved_password == Some(p@),
        dialog.saved_password is None ==> dialog@.saved_password is None,
        app@.lang == app.lang,
        app@.screen == app.screen,
        app@.sudo_password == app.sudo_password@,
        app.sudo_error matches Some(m) ==> app@.sudo_error == Some(m@),
        app.sudo_error is None ==> app@.sudo_error is None,
        app@.last_auto_scan == app.last_auto_scan,
        app.dialog matches Some(d) ==> app@.dialog == Some(d@),
        app.dialog is None ==> app@.dialog is None,
{
}

/// The state at the start: the sudo password is asked for, nothing is typed, shown or open, and
/// no scan was started.
pub proof fn law_start(lang: Lang)
    ensures
        AppState::start(lang).lang == lang,
        AppState::start(lang).screen is SudoAuth,
        AppState::start(lang).sudo_password.len() == 0,
        AppState::start(lang).sudo_error is None,
        AppState::start(lang).last_auto_scan is None,
        AppState::start(lang).dialog is None,
{
}

} // verus!

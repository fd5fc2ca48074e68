use wifi_manager::action::Action;
use wifi_manager::connect::{connect_network, ConnectNetwork};
use wifi_manager::job::{ConnectJob, ScanJob};
use wifi_manager::sudo::SudoCall;

const DONE: &str = "ssid=net\nwpa_state=COMPLETED\n";
const BUSY: &str = "wpa_state=ASSOCIATING\n";

fn call(args: &[&str]) -> SudoCall {
    let mut all = vec!["-S".to_string(), "wpa_cli".to_string()];
    all.extend(args.iter().map(|a| a.to_string()));
    SudoCall { args: all, input: "root\n".to_string() }
}

fn run(args: &[&str]) -> Action {
    Action::Run(call(args))
}

fn read(args: &[&str]) -> Action {
    Action::Read(call(args))
}

fn poll(n: usize) -> Vec<Action> {
    let mut v = Vec::new();
    for _ in 0..n {
        v.push(Action::Sleep(2));
        v.push(read(&["status"]));
    }
    v
}

fn join(id: &str, ssid: &str, credentials: Action) -> Vec<Action> {
    vec![
        read(&["status"]),
        read(&["add_network"]),
        run(&["set_network", id, "ssid", ssid]),
        credentials,
        run(&["enable_network", id]),
        run(&["select_network", id]),
    ]
}

/// Plays an attempt; `answer` gives the text for the n-th action.
fn play(mut a: ConnectNetwork, answer: impl Fn(usize) -> String) -> (Vec<Action>, (bool, String)) {
    let mut done = Vec::new();
    loop {
        let action = a.action();
        if action == Action::Done {
            return (done, a.result().unwrap());
        }
        assert!(a.result().is_none());
        a.step(&answer(done.len()));
        done.push(action);
    }
}

fn answers(status: &str, add: &str, polls: impl Fn(usize) -> bool) -> impl Fn(usize) -> String {
    let status = status.to_string();
    let add = add.to_string();
    move |n| match n {
        0 => status.clone(),
        1 => add.clone(),
        n if n >= 6 => (if polls(n) { DONE } else { BUSY }).to_string(),
        _ => String::new(),
    }
}

#[test]
fn success_at_once() {
    let (done, result) =
        play(connect_network("net", "key", false, "root"), answers("id=1\n", "4\n", |_| true));
    let mut expected = join("4", "\"net\"", run(&["set_network", "4", "psk", "\"key\""]));
    expected.extend(poll(1));
    expected.push(run(&["save_config"]));
    assert_eq!(done, expected);
    assert_eq!(result, (true, "key".to_string()));
}

#[test]
fn success_at_the_last_reading() {
    let (done, result) =
        play(connect_network("net", "key", false, "root"), answers("", "4\n", |n| n >= 35));
    let mut expected = join("4", "\"net\"", run(&["set_network", "4", "psk", "\"key\""]));
    expected.extend(poll(15));
    expected.push(run(&["save_config"]));
    assert_eq!(done, expected);
    assert!(result.0);
}

#[test]
fn open_network_has_no_key() {
    let (done, _) =
        play(connect_network("net", "key", true, "root"), answers("", "0\n", |_| true));
    assert_eq!(done[3], run(&["set_network", "0", "key_mgmt", "NONE"]));
    let (other, _) =
        play(connect_network("net", "other", true, "root"), answers("", "0\n", |_| true));
    assert_eq!(done, other);
}

#[test]
fn no_profile_no_attempt() {
    let (done, result) =
        play(connect_network("net", "key", false, "root"), answers("id=1\n", "FAIL\n", |_| true));
    assert_eq!(done, vec![read(&["status"]), read(&["add_network"])]);
    assert_eq!(result, (false, "key".to_string()));
}

#[test]
fn failure_restores_the_earlier_network() {
    let (done, result) =
        play(connect_network("net", "key", false, "root"), answers("id=7\n", "8\n", |_| false));
    let mut expected = join("8", "\"net\"", run(&["set_network", "8", "psk", "\"key\""]));
    expected.extend(poll(15));
    expected.push(run(&["remove_network", "8"]));
    expected.push(run(&["select_network", "7"]));
    expected.extend(poll(5));
    assert_eq!(done, expected);
    assert_eq!(done.len(), 48);
    assert_eq!(result, (false, "key".to_string()));
}

#[test]
fn restoring_ends_when_the_network_is_back() {
    let (done, result) =
        play(connect_network("net", "key", false, "root"), answers("id=7\n", "8\n", |n| n > 38));
    assert_eq!(done.len(), 40);
    assert_eq!(done[37], run(&["select_network", "7"]));
    assert!(!result.0);
}

#[test]
fn failure_without_an_earlier_network() {
    let (done, result) =
        play(connect_network("net", "key", false, "root"), answers("", "8\n", |_| false));
    assert_eq!(done.len(), 37);
    assert_eq!(done[36], run(&["remove_network", "8"]));
    assert!(!result.0);
}

#[test]
fn a_finished_attempt_stays_finished() {
    let mut a = connect_network("net", "key", false, "root");
    a.step("");
    a.step("");
    assert_eq!(a.action(), Action::Done);
    a.step(DONE);
    assert_eq!(a.action(), Action::Done);
    assert_eq!(a.result(), Some((false, "key".to_string())));
}

/// Plays a job in which the attempts succeed as `outcomes` says.
fn play_job(is_open: bool, psk: &str, outcomes: [bool; 2]) -> (Vec<Action>, (String, String)) {
    let mut job = ConnectJob::new("net", psk, is_open, "root", "fine", "bad");
    let mut done: Vec<Action> = Vec::new();
    let mut attempt = 0;
    loop {
        let action = job.action();
        let reply = match &action {
            Action::Done => return (done, job.outcome().unwrap()),
            Action::Read(c) if c.args[2] == "add_network" => {
                attempt += 1;
                "3\n".to_string()
            }
            Action::Read(_) if attempt > 0 && outcomes[attempt - 1] => DONE.to_string(),
            Action::Read(_) => BUSY.to_string(),
            _ => String::new(),
        };
        assert!(job.outcome().is_none());
        job.step(&reply);
        done.push(action);
    }
}

fn save() -> Action {
    Action::Save { ssid: "net".to_string(), password: "key".to_string() }
}

#[test]
fn job_makes_two_attempts_and_saves_after_each() {
    let (done, (message, connected)) = play_job(false, "key", [true, true]);
    let adds = done.iter().filter(|a| **a == read(&["add_network"])).count();
    assert_eq!(adds, 2);
    assert_eq!(done.iter().filter(|a| **a == save()).count(), 2);
    assert_eq!(done[9], save());
    assert_eq!(done[done.len() - 2], save());
    assert_eq!(done[done.len() - 1], read(&["status"]));
    assert_eq!(message, "fine");
    assert_eq!(connected, "net");
}

#[test]
fn second_attempt_counts() {
    let (done, (message, connected)) = play_job(false, "key", [true, false]);
    assert_eq!(message, "bad");
    assert_eq!(connected, "");
    assert_eq!(done.iter().filter(|a| **a == save()).count(), 1);
    let (done, (message, connected)) = play_job(false, "key", [false, true]);
    assert_eq!(message, "fine");
    assert_eq!(connected, "net");
    assert_eq!(done.iter().filter(|a| **a == save()).count(), 1);
}

#[test]
fn nothing_is_saved_for_open_networks_or_empty_passwords() {
    for (is_open, psk) in [(true, "key"), (false, ""), (true, "")] {
        let (done, (message, _)) = play_job(is_open, psk, [true, true]);
        assert!(!done.iter().any(|a| matches!(a, Action::Save { .. })));
        assert_eq!(message, "fine");
    }
}

#[test]
fn failed_job_ends() {
    let (done, (message, connected)) = play_job(false, "key", [false, false]);
    assert!(done.len() <= 99);
    assert_eq!(message, "bad");
    assert_eq!(connected, "");
}

#[test]
fn scan_reads_results_and_status() {
    let mut job = ScanJob::new("root");
    let replies =
        ["", "", "heading\naa\t1\t-40\t[ESS]\tnet\n", "wpa_state=COMPLETED\nssid=net\n"];
    let expected =
        [run(&["scan"]), Action::Sleep(3), read(&["scan_results"]), read(&["status"])];
    for (reply, action) in replies.iter().zip(&expected) {
        assert_eq!(job.action(), *action);
        job.step(reply);
    }
    assert_eq!(job.action(), Action::Done);
    let (networks, connected) = job.outcome().unwrap();
    assert_eq!(networks.len(), 1);
    assert_eq!(networks[0].ssid, "net");
    assert_eq!(connected, "net");
}

#[test]
fn an_unfinished_scan_has_no_outcome() {
    assert!(ScanJob::new("root").outcome().is_none());
}

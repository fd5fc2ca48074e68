use wifi_manager::network::{fetch_networks, Network};
use wifi_manager::status::{current_id, fetch_connected, is_completed, new_id};
use wifi_manager::sudo::{sudo_call, sudo_output, sudo_run};

const HEADING: &str = "bssid / frequency / signal level / flags / ssid\n";

fn report(rows: &[&str]) -> String {
    let mut s = HEADING.to_string();
    for r in rows {
        s.push_str(r);
        s.push('\n');
    }
    s
}

fn shown(raw: &str) -> Vec<(String, i32, String)> {
    fetch_networks(raw).iter().map(|n| (n.ssid.clone(), n.signal, n.flags.clone())).collect()
}

fn net(flags: &str) -> Network {
    Network { ssid: "n".to_string(), signal: -50, flags: flags.to_string() }
}

#[test]
fn strongest_first() {
    let raw = report(&[
        "aa\t2412\t-80\t[ESS]\tfar",
        "bb\t2412\t-40\t[WPA2-PSK-CCMP][ESS]\tnear",
        "cc\t2412\t-60\t[WEP][ESS]\tmiddle",
    ]);
    assert_eq!(
        shown(&raw),
        vec![
            ("near".to_string(), -40, "[WPA2-PSK-CCMP][ESS]".to_string()),
            ("middle".to_string(), -60, "[WEP][ESS]".to_string()),
            ("far".to_string(), -80, "[ESS]".to_string()),
        ]
    );
}

#[test]
fn one_network_for_each_ssid() {
    let raw = report(&[
        "aa\t2412\t-70\t[A]\tnet",
        "bb\t2412\t-50\t[B]\tnet",
        "cc\t2412\t-50\t[C]\tnet",
        "dd\t2412\t-60\t[D]\tnet",
    ]);
    assert_eq!(shown(&raw), vec![("net".to_string(), -50, "[B]".to_string())]);
}

#[test]
fn order_and_repetition_of_rows_do_not_matter() {
    let rows = ["a\t1\t-70\t[X]\tone", "b\t1\t-40\t[Y]\ttwo", "c\t1\t-60\t[Z]\tone"];
    let list = shown(&report(&rows));
    assert_eq!(list.len(), 2);
    assert_eq!(shown(&report(&[rows[2], rows[1], rows[0]])), list);
    assert_eq!(shown(&report(&[rows[1], rows[0], rows[2], rows[1], rows[0]])), list);
}

#[test]
fn equally_strong_rows_give_the_flags_of_the_first() {
    let (x, y) = ("a\t1\t-50\t[X]\tone", "b\t1\t-50\t[Y]\tone");
    assert_eq!(shown(&report(&[x, y])), vec![("one".to_string(), -50, "[X]".to_string())]);
    assert_eq!(shown(&report(&[y, x])), vec![("one".to_string(), -50, "[Y]".to_string())]);
}

#[test]
fn heading_is_skipped_whatever_it_is() {
    assert!(shown("aa\t2412\t-70\t[A]\tnet\n").is_empty());
    assert!(shown("").is_empty());
    assert!(shown(HEADING).is_empty());
}

#[test]
fn short_and_blank_lines_are_skipped() {
    let raw = report(&["aa\t2412\t-70\t[A]", "", "aa\t2412\t-70\t[A]\t  ", "aa\t2412\t-70\t[A]\t"]);
    assert!(shown(&raw).is_empty());
}

#[test]
fn unreadable_level_counts_as_weak() {
    let raw = report(&["aa\t2412\t??\t [A] \t net ", "bb\t2412\t -99 \t[B]\tother"]);
    assert_eq!(
        shown(&raw),
        vec![
            ("other".to_string(), -99, "[B]".to_string()),
            ("net".to_string(), -100, "[A]".to_string()),
        ]
    );
}

#[test]
fn further_tabs_belong_to_the_ssid() {
    let raw = report(&["aa\t2412\t-70\t[A]\tx\ty"]);
    assert_eq!(shown(&raw), vec![("x\ty".to_string(), -70, "[A]".to_string())]);
}

#[test]
fn networks_of_one_level_are_all_listed() {
    let raw = report(&["a\t1\t-50\t[]\tx", "b\t1\t-50\t[]\ty", "c\t1\t-50\t[]\tz"]);
    let mut names: Vec<String> = fetch_networks(&raw).iter().map(|n| n.ssid.clone()).collect();
    names.sort();
    assert_eq!(names, vec!["x", "y", "z"]);
}

#[test]
fn open_networks_name_no_encryption() {
    assert!(net("[ESS]").is_open());
    assert!(net("").is_open());
    assert!(!net("[WPA2-PSK-CCMP][ESS]").is_open());
    assert!(!net("[WPA-PSK]").is_open());
    assert!(!net("[WEP]").is_open());
    assert!(net("[wpa]").is_open());
}

#[test]
fn a_cloned_network_is_the_same() {
    let n = net("[WEP]").clone();
    assert_eq!((n.ssid.as_str(), n.signal, n.flags.as_str()), ("n", -50, "[WEP]"));
}

#[test]
fn connected_ssid_is_reported() {
    let raw = "bssid=aa\nssid= home \nid=2\nwpa_state=COMPLETED\nssid=second\n";
    assert_eq!(fetch_connected(raw), "home");
    assert!(is_completed(raw));
}

#[test]
fn no_ssid_without_a_connection() {
    assert_eq!(fetch_connected("ssid=home\nwpa_state=SCANNING\n"), "");
    assert_eq!(fetch_connected("ssid=home\nxwpa_state=COMPLETED\n"), "");
    assert!(is_completed("ssid=home\nxwpa_state=COMPLETED\n"));
    assert_eq!(fetch_connected("wpa_state=COMPLETED\n"), "");
    assert_eq!(fetch_connected("  wpa_state=COMPLETED \r\nssid=home"), "home");
    assert_eq!(fetch_connected(" ssid=home\nwpa_state=COMPLETED"), "");
    assert_eq!(fetch_connected(""), "");
}

#[test]
fn current_network_is_read_from_the_status() {
    assert_eq!(current_id("ssid=x\nid= 3 \nid=4\n").as_deref(), Some("3"));
    assert_eq!(current_id("id=\n").as_deref(), Some(""));
    assert_eq!(current_id("uuid=7\n"), None);
    assert_eq!(current_id(""), None);
}

#[test]
fn new_identifier_is_the_last_number() {
    assert_eq!(new_id("Selected interface 'wlan0'\n5\n"), "5");
    assert_eq!(new_id("1\n 27 \nFAIL\n"), "27");
    assert_eq!(new_id("FAIL\n"), "");
    assert_eq!(new_id("-1\n"), "");
    assert_eq!(new_id("\n\n"), "");
    assert_eq!(new_id(""), "");
}

#[test]
fn sudo_reads_the_password_from_standard_input() {
    let call = sudo_call("secret", vec!["wpa_cli".to_string(), "status".to_string()]);
    assert_eq!(call.args, vec!["-S", "wpa_cli", "status"]);
    assert_eq!(call.input, "secret\n");
}

#[test]
fn only_a_successful_exit_counts() {
    assert!(sudo_run(Some(true)));
    assert!(!sudo_run(Some(false)));
    assert!(!sudo_run(None));
}

#[test]
fn output_is_text() {
    assert_eq!(sudo_output(Some("сеть\n".as_bytes().to_vec())), "сеть\n");
    assert_eq!(sudo_output(Some(vec![b'a', 0xff, b'b'])), "a\u{fffd}b");
    assert_eq!(sudo_output(None), "");
}

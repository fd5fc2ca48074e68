use wifi_manager::action::Action;
use wifi_manager::job::{ConnectJob, ScanJob};
use wifi_manager::lang::{detect_lang, en, is_russian, lang_vars, names_russian, ru};
use wifi_manager::network::Network;
use wifi_manager::passwords::save_pw_file;
use wifi_manager::signal::{bad, good, hint, message_color, signal_bars, signal_text};
use wifi_manager::wifi_app::{
    network_list, row_for, DialogView, NetworkList, Row, ScanState, Screen, WifiApp,
};

fn values(v: &[Option<&str>]) -> Vec<Option<String>> {
    v.iter().map(|x| x.map(|s| s.to_string())).collect()
}

fn english() -> WifiApp {
    WifiApp::new(&values(&[Some("en_US.UTF-8"), None, None, None]))
}

fn unlocked() -> WifiApp {
    let mut app = english();
    app.unlock(true);
    app
}

fn net(ssid: &str, signal: i32, flags: &str) -> Network {
    Network { ssid: ssid.to_string(), signal, flags: flags.to_string() }
}

fn title(v: &[Option<&str>]) -> &'static str {
    detect_lang(&values(v)).title
}

#[test]
fn language_comes_from_the_environment() {
    assert_eq!(lang_vars(), ["LANG", "LANGUAGE", "LC_ALL", "LC_MESSAGES"]);
    assert_eq!(title(&[Some("ru_RU.UTF-8"), None, None, None]), "Wi-Fi менеджер");
    assert_eq!(title(&[Some("en_US.UTF-8"), None, Some("RU"), None]), "Wi-Fi менеджер");
    assert_eq!(title(&[None, None, None, Some("Ru_UA")]), "Wi-Fi менеджер");
    assert_eq!(title(&[Some("en_US.UTF-8"), Some("de:ru"), None, None]), "Wi-Fi Manager");
    assert_eq!(title(&[None, None, None, None]), "Wi-Fi Manager");
    assert_eq!(title(&[Some(""), Some("r"), Some("RO"), Some("Ру")]), "Wi-Fi Manager");
}

#[test]
fn russian_is_told_by_its_prefix() {
    assert!(is_russian("ru"));
    assert!(is_russian("russian"));
    assert!(!is_russian("RU"));
    assert!(!is_russian("r"));
    assert!(names_russian("RU_ru"));
    assert!(!names_russian("en"));
}

#[test]
fn texts_of_both_languages() {
    assert_eq!(en().refresh, "↻  Refresh");
    assert_eq!(ru().refresh, "↻  Обновить");
    assert_eq!(en().wait_hint, "Please wait, verifying connection…");
    assert_eq!(ru().saved_pw_hint, "🔑 Используется сохранённый пароль");
    assert_eq!(ru().no_networks, "Сети не найдены. Нажмите «Обновить».");
}

#[test]
fn bars_for_signal_levels() {
    let expected = [
        (0, "▂▄▆█", [80, 210, 80, 255]),
        (-50, "▂▄▆█", [80, 210, 80, 255]),
        (-51, "▂▄▆_", [150, 220, 80, 255]),
        (-60, "▂▄▆_", [150, 220, 80, 255]),
        (-61, "▂▄__", [220, 200, 60, 255]),
        (-70, "▂▄__", [220, 200, 60, 255]),
        (-71, "▂___", [220, 130, 40, 255]),
        (-80, "▂___", [220, 130, 40, 255]),
        (-81, "____", [180, 60, 60, 255]),
        (i32::MIN, "____", [180, 60, 60, 255]),
    ];
    for (dbm, text, color) in expected {
        let (bars, c) = signal_bars(dbm);
        assert_eq!(bars, text);
        assert_eq!(c.to_array(), color);
    }
}

#[test]
fn bars_grow_and_colors_tell_them_apart() {
    let levels = [i32::MIN, -100, -81, -80, -75, -70, -65, -60, -55, -50, 0, i32::MAX];
    for a in levels {
        let (bars_a, color_a) = signal_bars(a);
        assert_eq!(bars_a.chars().count(), 4);
        assert!(bars_a.chars().all(|c| "▂▄▆█_".contains(c)));
        for b in levels {
            let (bars_b, color_b) = signal_bars(b);
            assert_eq!(color_a == color_b, bars_a == bars_b);
            if a <= b {
                let filled_a = bars_a.chars().filter(|c| *c != '_').count();
                let filled_b = bars_b.chars().filter(|c| *c != '_').count();
                assert!(filled_a <= filled_b);
            }
        }
    }
}

#[test]
fn colors_and_texts() {
    assert_eq!(good().to_array(), [80, 210, 80, 255]);
    assert_eq!(bad().to_array(), [220, 60, 60, 255]);
    assert_eq!(hint().to_array(), [100, 180, 255, 255]);
    assert_eq!(signal_text(-57), "-57 dBm");
    assert_eq!(message_color("a ✔ b"), good());
    assert_eq!(message_color("a b"), bad());
}

#[test]
fn message_color_tells_the_outcome() {
    for l in [ru(), en()] {
        assert_eq!(message_color(l.connected_ok), good());
        assert_eq!(message_color(l.connected_fail), bad());
    }
}

#[test]
fn starts_with_the_sudo_password() {
    let app = english();
    assert_eq!(app.screen, Screen::SudoAuth);
    assert_eq!(app.sudo_password, "");
    assert!(app.sudo_error.is_none());
    assert!(app.dialog.is_none());
    assert!(app.last_auto_scan.is_none());
}

#[test]
fn sudo_password_is_tried_on_a_harmless_command() {
    let mut app = english();
    app.sudo_password = "pw".to_string();
    let call = app.validate_sudo();
    assert_eq!(call.args, vec!["-S", "true"]);
    assert_eq!(call.input, "pw\n");
}

#[test]
fn wrong_sudo_password_is_forgotten() {
    let mut app = english();
    app.sudo_password = "pw".to_string();
    app.unlock(false);
    assert_eq!(app.screen, Screen::SudoAuth);
    assert_eq!(app.sudo_password, "");
    assert_eq!(app.sudo_error.as_deref(), Some("Wrong sudo password."));
    app.sudo_password = "right".to_string();
    app.unlock(true);
    assert_eq!(app.screen, Screen::Main);
    assert_eq!(app.sudo_password, "right");
    assert!(app.sudo_error.is_none());
}

#[test]
fn one_scan_at_a_time() {
    let mut app = unlocked();
    app.sudo_password = "pw".to_string();
    let mut scan = ScanState::default();
    let job = app.trigger_scan(&mut scan).unwrap();
    assert!(scan.scanning);
    match job.action() {
        Action::Run(call) => assert_eq!(call.input, "pw\n"),
        _ => panic!("a scan starts with a command"),
    }
    assert!(app.trigger_scan(&mut scan).is_none());
    assert!(app.refresh(&mut scan, 5).is_none());
    assert_eq!(app.last_auto_scan, Some(5));
    scan.finish_scan(vec![net("a", -50, "")], "a".to_string());
    assert!(!scan.scanning);
    assert_eq!(scan.networks.len(), 1);
    assert_eq!(scan.connected_ssid, "a");
    assert!(app.refresh(&mut scan, 6).is_some());
}

#[test]
fn a_locked_app_does_nothing() {
    let mut app = english();
    let mut scan = ScanState::default();
    assert!(app.refresh(&mut scan, 5).is_none());
    assert!(app.auto_scan(&mut scan, 6).is_none());
    assert!(!scan.scanning);
    assert!(app.last_auto_scan.is_none());
    app.open_dialog(&net("home", -55, "[WPA2-PSK]"), Some(b"home\tkey\n"));
    assert!(app.dialog.is_none());
    assert!(app.connect().is_none());
    app.unlock(true);
    app.open_dialog(&net("home", -55, "[WPA2-PSK]"), Some(b"home\tkey\n"));
    app.screen = Screen::SudoAuth;
    assert!(app.connect().is_none());
    assert!(!app.dialog.as_ref().unwrap().connecting);
}

#[test]
fn scans_start_by_themselves_after_a_minute() {
    let minute = 60_000_000_000u128;
    let mut app = english();
    let mut scan = ScanState::default();
    assert!(app.auto_scan(&mut scan, 0).is_none());
    app.unlock(true);
    assert!(app.auto_scan(&mut scan, 10).is_some());
    assert_eq!(app.last_auto_scan, Some(10));
    scan.finish_scan(Vec::new(), String::new());
    assert!(app.auto_scan(&mut scan, 10 + minute).is_none());
    assert!(app.auto_scan(&mut scan, 3).is_none());
    assert!(app.auto_scan(&mut scan, 11 + minute).is_some());
    assert!(app.auto_scan(&mut scan, 12 + 3 * minute).is_none());
    assert_eq!(app.last_auto_scan, Some(11 + minute));
}

#[test]
fn list_without_networks() {
    let l = en();
    let mut scan = ScanState::default();
    match network_list(&scan, &l) {
        NetworkList::Empty(note) => assert_eq!(note, "No networks found. Press «Refresh»."),
        _ => panic!("a note is due"),
    }
    scan.scanning = true;
    assert!(matches!(network_list(&scan, &l), NetworkList::Spinner));
}

#[test]
fn list_with_networks() {
    let mut scan = ScanState::default();
    scan.finish_scan(
        vec![net("home", -55, "[WPA2-PSK]"), net("cafe", -85, "[ESS]")],
        "cafe".to_string(),
    );
    scan.scanning = true;
    let rows: Vec<Row> = match network_list(&scan, &ru()) {
        NetworkList::Rows(rows) => rows,
        _ => panic!("rows are due"),
    };
    assert_eq!(rows.len(), 2);
    assert!(!rows[0].connected);
    assert_eq!(rows[0].mark, " ");
    assert_eq!(rows[0].bars, "▂▄▆_");
    assert_eq!(rows[0].ssid, "home");
    assert!(rows[0].ssid_color.is_none());
    assert!(rows[0].open_note.is_none());
    assert_eq!(rows[0].signal, "-55 dBm");
    assert!(rows[1].connected);
    assert_eq!(rows[1].mark, "✔");
    assert_eq!(rows[1].bars_color.to_array(), [180, 60, 60, 255]);
    assert_eq!(rows[1].ssid_color, Some(good()));
    assert_eq!(rows[1].open_note, Some("(открытая)"));
    let row = row_for(&net("x", 3, ""), "", &en());
    assert_eq!(row.signal, "3 dBm");
    assert_eq!(row.open_note, Some("(open)"));
}

#[test]
fn connected_network_can_change_without_a_scan() {
    let mut scan = ScanState::default();
    scan.finish_scan(vec![net("home", -55, "")], "home".to_string());
    scan.scanning = true;
    scan.set_connected("other".to_string());
    assert_eq!(scan.connected_ssid, "other");
    assert!(scan.scanning);
    assert_eq!(scan.networks.len(), 1);
}

#[test]
fn saved_password_is_offered() {
    let file = save_pw_file(Some(b"other\tx\n"), "home", "se\tcret");
    let mut app = unlocked();
    app.open_dialog(&net("home", -55, "[WPA2-PSK]"), Some(&file));
    let l = app.lang;
    let dlg = app.dialog.as_mut().unwrap();
    assert_eq!(dlg.ssid, "home");
    assert!(!dlg.is_open);
    assert_eq!(dlg.password, "se\tcret");
    assert_eq!(dlg.saved_password.as_deref(), Some("se\tcret"));
    assert_eq!(dlg.title(&l), "Connect: home");
    match dlg.shown(&l) {
        DialogView::Form { secured, saved_hint } => {
            assert!(secured);
            assert_eq!(saved_hint, Some("🔑 Using saved password"));
        }
        _ => panic!("the form is due"),
    }
    dlg.password.push('x');
    match dlg.shown(&l) {
        DialogView::Form { saved_hint, .. } => assert!(saved_hint.is_none()),
        _ => panic!("the form is due"),
    }
}

#[test]
fn nothing_is_offered_without_a_saved_password() {
    let mut app = unlocked();
    app.open_dialog(&net("home", -55, "[ESS]"), None);
    let l = app.lang;
    let dlg = app.dialog.as_ref().unwrap();
    assert!(dlg.is_open);
    assert_eq!(dlg.password, "");
    assert!(dlg.saved_password.is_none());
    assert!(!dlg.uses_saved());
    match dlg.shown(&l) {
        DialogView::Form { secured, saved_hint } => {
            assert!(!secured);
            assert!(saved_hint.is_none());
        }
        _ => panic!("the form is due"),
    }
}

#[test]
fn an_open_dialog_is_not_replaced() {
    let mut app = unlocked();
    app.open_dialog(&net("home", -55, ""), None);
    app.open_dialog(&net("cafe", -55, ""), None);
    assert_eq!(app.dialog.as_ref().unwrap().ssid, "home");
    app.close_dialog();
    assert!(app.dialog.is_none());
    app.open_dialog(&net("cafe", -55, ""), None);
    assert_eq!(app.dialog.as_ref().unwrap().ssid, "cafe");
}

fn finish(mut job: ConnectJob, status: &str) -> (String, String) {
    let mut steps = 0;
    loop {
        let reply = match job.action() {
            Action::Done => return job.outcome().unwrap(),
            Action::Read(call) if call.args[2] == "add_network" => "1".to_string(),
            Action::Read(_) => status.to_string(),
            _ => String::new(),
        };
        job.step(&reply);
        steps += 1;
        assert!(steps <= 99);
    }
}

#[test]
fn dialog_starts_one_job_and_shows_its_message() {
    let mut app = unlocked();
    assert!(app.connect().is_none());
    app.open_dialog(&net("home", -55, "[WPA2-PSK]"), Some(b"home\tkey\n"));
    let l = app.lang;
    let job = app.connect().unwrap();
    assert!(app.connect().is_none());
    match app.dialog.as_ref().unwrap().shown(&l) {
        DialogView::Connecting { label, hint } => {
            assert_eq!(label, "Connecting…");
            assert_eq!(hint, "Please wait, verifying connection…");
        }
        _ => panic!("the dialog waits"),
    }
    app.dialog.as_mut().unwrap().poll(None);
    assert!(app.dialog.as_ref().unwrap().connecting);
    let (message, connected) = finish(job, "wpa_state=COMPLETED\nssid=home\n");
    assert_eq!(connected, "home");
    app.dialog.as_mut().unwrap().poll(Some(message));
    assert!(!app.dialog.as_ref().unwrap().connecting);
    assert!(app.connect().is_none());
    match app.dialog.as_ref().unwrap().shown(&l) {
        DialogView::Result { message, color } => {
            assert_eq!(message, "✔ Connected successfully!");
            assert_eq!(color, good());
        }
        _ => panic!("the message is due"),
    }
}

#[test]
fn failure_is_shown_as_bad_news() {
    let mut app = WifiApp::new(&values(&[Some("ru_RU.UTF-8")]));
    app.unlock(true);
    app.open_dialog(&net("home", -55, "[WPA2-PSK]"), None);
    let l = app.lang;
    let job = app.connect().unwrap();
    let (message, connected) = finish(job, "wpa_state=SCANNING\n");
    assert_eq!(connected, "");
    app.dialog.as_mut().unwrap().poll(Some(message));
    match app.dialog.as_ref().unwrap().shown(&l) {
        DialogView::Result { message, color } => {
            assert_eq!(message, l.connected_fail);
            assert_eq!(color, bad());
        }
        _ => panic!("the message is due"),
    }
}

#[test]
fn a_scan_fills_the_list() {
    let mut scan = ScanState::default();
    let mut job = ScanJob::new("pw");
    while job.action() != Action::Done {
        job.step("h\na\t1\t-50\t[ESS]\tnet\n");
    }
    let (networks, connected) = job.outcome().unwrap();
    scan.finish_scan(networks, connected);
    assert_eq!(scan.networks[0].ssid, "net");
    assert_eq!(scan.connected_ssid, "");
}

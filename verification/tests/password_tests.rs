use wifi_manager::bytes::{line_text, split_lines};
use wifi_manager::passwords::{
    lookup_saved_pw, pw_file_path, read_pw_file, save_pw_file, Credentials,
};

fn sorted_lines(file: &[u8]) -> Vec<String> {
    let text = std::str::from_utf8(file).unwrap();
    let mut v: Vec<String> = text.lines().map(|l| l.to_string()).collect();
    v.sort();
    v
}

#[test]
fn file_lies_in_the_home_directory() {
    assert_eq!(pw_file_path(b"/home/wan"), b"/home/wan/password.wifi".to_vec());
    assert_eq!(pw_file_path(b"/"), b"/password.wifi".to_vec());
    assert_eq!(pw_file_path(b"/home/wan/"), b"/home/wan/password.wifi".to_vec());
    assert_eq!(pw_file_path(b""), b"password.wifi".to_vec());
    assert_eq!(pw_file_path(b"/\xff"), b"/\xff/password.wifi".to_vec());
}

#[test]
fn path_agrees_with_the_standard_library() {
    for home in ["/home/wan", "/", "", "/a/", "relative"] {
        let mut p = std::path::PathBuf::from(home);
        p.push("password.wifi");
        assert_eq!(pw_file_path(home.as_bytes()), p.to_str().unwrap().as_bytes().to_vec());
    }
}

#[test]
fn an_absent_file_holds_nothing() {
    assert_eq!(read_pw_file(None).get("net"), None);
    assert_eq!(lookup_saved_pw(None, "net"), None);
    assert_eq!(read_pw_file(None).to_text(), "");
}

#[test]
fn lines_are_split_at_the_first_tab() {
    let text = "home\tsecret\n  cafe \tpass\tword\nno tab here\n \tblank\n\tempty\nopen\t\n";
    let saved = read_pw_file(Some(text.as_bytes()));
    assert_eq!(saved.get("home").as_deref(), Some("secret"));
    assert_eq!(saved.get("cafe").as_deref(), Some("pass\tword"));
    assert_eq!(saved.get("  cafe "), None);
    assert_eq!(saved.get(""), None);
    assert_eq!(saved.get("open").as_deref(), Some(""));
    assert_eq!(saved.get("no tab here"), None);
}

#[test]
fn later_lines_win() {
    assert_eq!(lookup_saved_pw(Some(b"a\t1\nb\t2\na\t3\n"), "a").as_deref(), Some("3"));
}

#[test]
fn saving_keeps_other_networks() {
    let new = save_pw_file(Some(b"a\t1\nb\t2\n"), "c", "3");
    assert_eq!(sorted_lines(&new), vec!["a\t1", "b\t2", "c\t3"]);
    assert!(new.ends_with(b"\n"));
}

#[test]
fn saving_replaces_an_entry() {
    let new = save_pw_file(Some(b"a\t1\nb\t2\n"), "a", "x");
    assert_eq!(sorted_lines(&new), vec!["a\tx", "b\t2"]);
}

#[test]
fn saving_into_an_absent_file_starts_a_new_one() {
    assert_eq!(save_pw_file(None, "a", "1"), b"a\t1\n".to_vec());
    assert_eq!(save_pw_file(Some(b""), "a", "1"), b"a\t1\n".to_vec());
}

#[test]
fn white_space_around_the_ssid_does_not_count() {
    let once = save_pw_file(None, " Home", "p1");
    assert_eq!(once, b"Home\tp1\n".to_vec());
    let twice = save_pw_file(Some(&once), " Home", "p2");
    assert_eq!(twice, b"Home\tp2\n".to_vec());
    assert_eq!(save_pw_file(Some(&twice), "Home\u{3000}", "p3"), b"Home\tp3\n".to_vec());
    assert_eq!(lookup_saved_pw(Some(&twice), "Home").as_deref(), Some("p2"));
}

#[test]
fn lines_that_are_no_text_are_left_alone() {
    let file = b"Home\tp1\nCafe\t\xff\n";
    assert_eq!(lookup_saved_pw(Some(file), "Home").as_deref(), Some("p1"));
    assert_eq!(lookup_saved_pw(Some(file), "Cafe"), None);
    let new = save_pw_file(Some(file), "Shop", "p3");
    let mut lines: Vec<&[u8]> = new.split_inclusive(|b| *b == 10).collect();
    lines.sort();
    assert_eq!(lines, vec![&b"Cafe\t\xff\n"[..], &b"Home\tp1\n"[..], &b"Shop\tp3\n"[..]]);
    assert_eq!(lookup_saved_pw(Some(&new), "Home").as_deref(), Some("p1"));
    assert_eq!(lookup_saved_pw(Some(&new), "Shop").as_deref(), Some("p3"));
}

#[test]
fn lines_that_are_no_text_keep_their_endings() {
    let new = save_pw_file(Some(b"\xc3\r\na\t1\r\n\xe2\x82"), "a", "2");
    assert_eq!(new, b"a\t2\n\xc3\r\n\xe2\x82".to_vec());
    let again = save_pw_file(Some(&new), "a", "3");
    assert_eq!(again, b"a\t3\n\xc3\r\n\xe2\x82".to_vec());
}

#[test]
fn files_are_cut_after_line_feeds() {
    assert!(split_lines(b"").is_empty());
    assert_eq!(split_lines(b"a\r\n\nb"), vec![&b"a\r\n"[..], &b"\n"[..], &b"b"[..]]);
    assert_eq!(line_text(b"a\r\n"), Some("a"));
    assert_eq!(line_text(b"\n"), Some(""));
    assert_eq!(line_text(b"a\r"), Some("a\r"));
    assert_eq!(line_text("тест\n".as_bytes()), Some("тест"));
    assert_eq!(line_text(b"a\xff\n"), None);
}

#[test]
fn a_text_file_is_read_as_its_lines() {
    for text in ["a\t1\nб\t2\r\n\n x \ty", "", "\n", "a\t1\r", "\u{10ffff}\t\u{a0}\n"] {
        let lines = split_lines(text.as_bytes());
        let texts: Vec<&str> = lines.iter().map(|l| line_text(l).unwrap()).collect();
        assert_eq!(texts, text.lines().collect::<Vec<&str>>());
    }
}

#[test]
fn what_was_saved_is_read_back() {
    for password in ["p", "with\ttab", "", " spaces ", "пароль", "\t", "a\rb"] {
        let text = save_pw_file(Some(b"old\tone\n"), "net", password);
        assert_eq!(lookup_saved_pw(Some(&text), "net").as_deref(), Some(password));
        assert_eq!(lookup_saved_pw(Some(&text), "old").as_deref(), Some("one"));
    }
}

#[test]
fn a_final_carriage_return_belongs_to_the_line_ending() {
    let text = save_pw_file(None, "net", "pw\r");
    assert_eq!(lookup_saved_pw(Some(&text), "net").as_deref(), Some("pw"));
}

#[test]
fn what_no_line_can_hold_is_written_as_it_stands() {
    let pairs = [("A\tB", "pw"), (" A\tB ", "pw"), ("A\nB", "pw"), ("A", "p\nw"), (" ", "pw"), ("", "pw")];
    for (ssid, password) in pairs {
        let line = format!("{}\t{}\n", ssid, password).into_bytes();
        assert_eq!(save_pw_file(None, ssid, password), line);
    }
    assert_eq!(save_pw_file(None, " A", "p\nw"), b"A\tp\nw\n".to_vec());
    assert_eq!(sorted_lines(&save_pw_file(Some(b"C\t1\n"), "A\tB", "pw")), vec!["A\tB\tpw", "C\t1"]);
    assert_eq!(save_pw_file(Some(b"\xff\n"), "", "pw"), b"\tpw\n\xff\n".to_vec());
}

#[test]
fn what_no_line_can_hold_is_not_given_back() {
    let tab = save_pw_file(None, "A\tB", "pw");
    assert_eq!(lookup_saved_pw(Some(&tab), "A\tB"), None);
    assert_eq!(lookup_saved_pw(Some(&tab), "A").as_deref(), Some("B\tpw"));
    let blank = save_pw_file(None, " ", "pw");
    assert_eq!(lookup_saved_pw(Some(&blank), " "), None);
    assert_eq!(read_pw_file(Some(&blank)).to_text(), "");
}

#[test]
fn a_file_has_one_line_for_each_network() {
    let text = save_pw_file(Some(b"a\t1\na\t2\njunk\n\n b\t3"), "c", "4");
    assert_eq!(sorted_lines(&text), vec!["a\t2", "b\t3", "c\t4"]);
}

#[test]
fn what_is_read_is_clean() {
    let saved = read_pw_file(Some(" \u{a0}x y\u{2003}\tp w \r\n".as_bytes()));
    assert_eq!(saved.get("x y").as_deref(), Some("p w "));
    assert_eq!(saved.to_text(), "x y\tp w \n");
}

#[test]
fn credentials_hold_the_last_password() {
    let c = Credentials::new().insert("a", "1").insert("b", "2").insert("a", "3");
    assert_eq!(c.get("a").as_deref(), Some("3"));
    assert_eq!(c.get("b").as_deref(), Some("2"));
    assert_eq!(c.get("c"), None);
}

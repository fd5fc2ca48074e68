//! The texts of the user interface, and the choice of the language.

use crate::text::strip_prefix;
use vstd::prelude::*;
use vstd::utf8::is_ascii_chars;

verus! {

/// The texts of the user interface in one language.
#[derive(Clone, Copy)]
pub struct Lang {
    /// The title of the window.
    pub title: &'static str,
    /// Asks for the sudo password.
    pub sudo_prompt: &'static str,
    /// Stands in the empty sudo password field.
    pub sudo_placeholder: &'static str,
    /// The button that submits the sudo password.
    pub unlock: &'static str,
    /// Shown while a scan runs.
    pub scanning: &'static str,
    /// The button that starts a scan.
    pub refresh: &'static str,
    /// Shown where no network is known.
    pub no_networks: &'static str,
    /// The button that joins a network.
    pub connect: &'static str,
    /// Asks for the password of a network.
    pub password_prompt: &'static str,
    /// Stands in the empty network password field.
    pub password_placeholder: &'static str,
    /// The button that leaves the dialog.
    pub cancel: &'static str,
    /// Shown while a network is being joined.
    pub connecting: &'static str,
    /// The message after a success.
    pub connected_ok: &'static str,
    /// The message after a failure.
    pub connected_fail: &'static str,
    /// The message after a wrong sudo password.
    pub wrong_sudo: &'static str,
    /// Marks an open network.
    pub open_network: &'static str,
    /// The box that makes the password visible.
    pub show_pw: &'static str,
    /// The button that leaves a finished dialog.
    pub close: &'static str,
    /// Tells that a saved password is in use.
    pub saved_pw_hint: &'static str,
    /// Asks for patience while a network is being joined.
    pub wait_hint: &'static str,
}

/// The Russian texts.
#[verifier::allow_in_spec]
pub fn ru() -> Lang
    returns
        (Lang {
            title: "Wi-Fi менеджер",
            sudo_prompt: "Введите пароль sudo для управления Wi-Fi:",
            sudo_placeholder: "пароль sudo…",
            unlock: "Разблокировать",
            scanning: "Сканирование…",
            refresh: "↻  Обновить",
            no_networks: "Сети не найдены. Нажмите «Обновить».",
            connect: "Подключиться",
            password_prompt: "Введите пароль Wi-Fi сети:",
            password_placeholder: "пароль сети…",
            cancel: "Отмена",
            connecting: "Подключение…",
            connected_ok: "✔ Подключено успешно!",
            connected_fail: "❌ Ошибка подключения (неверный пароль или слабый сигнал).",
            wrong_sudo: "Неверный пароль sudo.",
            open_network: "(открытая)",
            show_pw: "Показать пароль",
            close: "Закрыть",
            saved_pw_hint: "🔑 Используется сохранённый пароль",
            wait_hint: "Подождите, проверяется соединение…",
        }),
{
    Lang {
        title: "Wi-Fi менеджер",
        sudo_prompt: "Введите пароль sudo для управления Wi-Fi:",
        sudo_placeholder: "пароль sudo…",
        unlock: "Разблокировать",
        scanning: "Сканирование…",
        refresh: "↻  Обновить",
        no_networks: "Сети не найдены. Нажмите «Обновить».",
        connect: "Подключиться",
        password_prompt: "Введите пароль Wi-Fi сети:",
        password_placeholder: "пароль сети…",
        cancel: "Отмена",
        connecting: "Подключение…",
        connected_ok: "✔ Подключено успешно!",
        connected_fail: "❌ Ошибка подключения (неверный пароль или слабый сигнал).",
        wrong_sudo: "Неверный пароль sudo.",
        open_network: "(открытая)",
        show_pw: "Показать пароль",
        close: "Закрыть",
        saved_pw_hint: "🔑 Используется сохранённый пароль",
        wait_hint: "Подождите, проверяется соединение…",
    }
}

/// The English texts.
#[verifier::allow_in_spec]
pub fn en() -> Lang
    returns
        (Lang {
            title: "Wi-Fi Manager",
            sudo_prompt: "Enter your sudo password to manage Wi-Fi:",
            sudo_placeholder: "sudo password…",
            unlock: "Unlock",
            scanning: "Scanning…",
            refresh: "↻  Refresh",
            no_networks: "No networks found. Press «Refresh».",
            connect: "Connect",
            password_prompt: "Enter the Wi-Fi password:",
            password_placeholder: "network password…",
            cancel: "Cancel",
            connecting: "Connecting…",
            connected_ok: "✔ Connected successfully!",
            connected_fail: "❌ Connection failed (wrong password or weak signal).",
            wrong_sudo: "Wrong sudo password.",
            open_network: "(open)",
            show_pw: "Show password",
            close: "Close",
            saved_pw_hint: "🔑 Using saved password",
            wait_hint: "Please wait, verifying connection…",
        }),
{
    Lang {
        title: "Wi-Fi Manager",
        sudo_prompt: "Enter your sudo password to manage Wi-Fi:",
        sudo_placeholder: "sudo password…",
        unlock: "Unlock",
        scanning: "Scanning…",
        refresh: "↻  Refresh",
        no_networks: "No networks found. Press «Refresh».",
        connect: "Connect",
        password_prompt: "Enter the Wi-Fi password:",
        password_placeholder: "network password…",
        cancel: "Cancel",
        connecting: "Connecting…",
        connected_ok: "✔ Connected successfully!",
        connected_fail: "❌ Connection failed (wrong password or weak signal).",
        wrong_sudo: "Wrong sudo password.",
        open_network: "(open)",
        show_pw: "Show password",
        close: "Close",
        saved_pw_hint: "🔑 Using saved password",
        wait_hint: "Please wait, verifying connection…",
    }
}

/// The environment variables that tell the language, in the order in which they are read.
pub fn lang_vars() -> (r: [&'static str; 4])
    ensures
        r@ == seq!["LANG", "LANGUAGE", "LC_ALL", "LC_MESSAGES"],
{
    ["LANG", "LANGUAGE", "LC_ALL", "LC_MESSAGES"]
}

/// The lowercase of a text, as `str::to_lowercase` makes it.
pub uninterp spec fn lowercase(s: Seq<char>) -> Seq<char>;

/// The lowercase of an ASCII character.
pub open spec fn ascii_lowercase(c: char) -> char {
    if 'A' <= c <= 'Z' {
        (c as u8 + 32) as char
    } else {
        c
    }
}

/// `str::to_lowercase` depends on the text alone, and in an ASCII text changes the letters
/// from `A` to `Z` only.  What it makes of other characters is not stated here.
pub assume_specification[ str::to_lowercase ](s: &str) -> (r: String)
    ensures
        r@ == lowercase(s@),
        is_ascii_chars(s@) ==> r@ == s@.map_values(|c: char| ascii_lowercase(c)),
;

/// Whether a locale in lowercase is a Russian one.
pub fn is_russian(lower: &str) -> (r: bool)
    ensures
        r == "ru"@.is_prefix_of(lower@),
{
    strip_prefix(lower, "ru").is_some()
}

/// Whether an ASCII locale is a Russian one.
pub open spec fn ascii_russian(locale: Seq<char>) -> bool {
    locale.len() >= 2 && (locale[0] == 'r' || locale[0] == 'R') && (locale[1] == 'u' || locale[1]
        == 'U')
}

/// Whether a locale is a Russian one, in whatever case it is written.
pub fn names_russian(locale: &str) -> (r: bool)
    ensures
        r == "ru"@.is_prefix_of(lowercase(locale@)),
        is_ascii_chars(locale@) ==> r == ascii_russian(locale@),
{
    let lower: String = locale.to_lowercase();
    proof {
        reveal_strlit("ru");
        if is_ascii_chars(locale@) {
            let l = lower@;
            if "ru"@.is_prefix_of(l) {
                assert("ru"@[0] == l[0] && "ru"@[1] == l[1]);
            }
            if ascii_russian(locale@) {
                assert("ru"@ =~= l.subrange(0, 2));
            }
        }
    }
    is_russian(lower.as_str())
}

/// The language for the values of the environment variables: Russian if one of them is a
/// Russian locale, English otherwise.
pub open spec fn lang_for(values: Seq<Option<String>>) -> Lang {
    if exists|i: int|
        0 <= i < values.len() && (#[trigger] values[i] matches Some(v) && "ru"@.is_prefix_of(
            lowercase(v@),
        )) {
        ru()
    } else {
        en()
    }
}

/// Whether the values that are set are ASCII texts, as locales are.
pub open spec fn ascii_values(values: Seq<Option<String>>) -> bool {
    forall|i: int|
        0 <= i < values.len() ==> (#[trigger] values[i] matches Some(v) ==> is_ascii_chars(v@))
}

/// The language for values that are ASCII texts.
pub open spec fn ascii_lang_for(values: Seq<Option<String>>) -> Lang {
    if exists|i: int|
        0 <= i < values.len() && (#[trigger] values[i] matches Some(v) && ascii_russian(v@)) {
        ru()
    } else {
        en()
    }
}

/// The language for the values of the environment variables, `None` for one that is not
/// set.
pub fn detect_lang(values: &Vec<Option<String>>) -> (r: Lang)
    ensures
        r == lang_for(values@),
        ascii_values(values@) ==> r == ascii_lang_for(values@),
{
    let mut i: usize = 0;
    while i < values.len()
        invariant
            i <= values@.len(),
            forall|j: int|
                0 <= j < i ==> (#[trigger] values@[j] matches Some(v) ==> !"ru"@.is_prefix_of(
                    lowercase(v@),
                ) && (is_ascii_chars(v@) ==> !ascii_russian(v@))),
        decreases values@.len() - i,
    {
        if let Some(value) = &values[i] {
            if names_russian(value.as_str()) {
                return ru();
            }
        }
        i += 1;
    }
    en()
}

/// In both languages the message after a success carries a check mark, and the message
/// after a failure does not.
pub proof fn law_messages_tell_outcome(lang: Lang)
    requires
        lang == ru() || lang == en(),
    ensures
        lang.connected_ok@.contains('✔'),
        !lang.connected_fail@.contains('✔'),
{
    reveal_strlit("✔ Подключено успешно!");
    reveal_strlit("✔ Connected successfully!");
    reveal_strlit("❌ Ошибка подключения (неверный пароль или слабый сигнал).");
    reveal_strlit("❌ Connection failed (wrong password or weak signal).");
    assert(lang.connected_ok@[0] == '✔');
    let s = lang.connected_fail@;
    assert forall|i: int| 0 <= i < s.len() implies s[i] != '✔' by {}
}

/// The language is Russian exactly if the lowercase of one of the values begins with `ru`, at
/// whatever place in the list it stands.  Among ASCII values those count that begin with an
/// `r` and a `u`, small or capital.  Without any values the language is English.
pub proof fn law_language(values: Seq<Option<String>>, i: int)
    requires
        0 <= i < values.len(),
    ensures
        values[i] matches Some(v) && "ru"@.is_prefix_of(lowercase(v@)) ==> lang_for(values) == ru(),
        (forall|k: int|
            0 <= k < values.len() ==> (#[trigger] values[k] matches Some(v)
                ==> !"ru"@.is_prefix_of(lowercase(v@)))) ==> lang_for(values) == en(),
        values[i] matches Some(v) && v@.len() >= 2 && (v@[0] == 'r' || v@[0] == 'R') && (v@[1]
            == 'u' || v@[1] == 'U') ==> ascii_lang_for(values) == ru(),
        (forall|k: int|
            0 <= k < values.len() ==> (#[trigger] values[k] matches Some(v) ==> v@.len() < 2 || !(
            v@[0] == 'r' || v@[0] == 'R') || !(v@[1] == 'u' || v@[1] == 'U'))) ==> ascii_lang_for(
            values,
        ) == en(),
        (forall|k: int|
            0 <= k < values.len() ==> (#[trigger] values[k] matches Some(v) ==> is_ascii_chars(
                v@,
            ))) ==> ascii_values(values),
        lang_for(Seq::empty()) == en(),
        ascii_lang_for(Seq::empty()) == en(),
{
}

} // verus!

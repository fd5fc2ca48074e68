//! The answers of `wpa_cli status` and `wpa_cli add_network`.

use crate::number::{all_digits, law_digits, only_digits};
use crate::text::{
    contains, contains_text, law_contains_text, law_strip_prefix, lemma_contains_transitive,
    lemma_line_contained, lemma_trim_contained, lines, lines_of, opt_view, same_text, str_views,
    strip_prefix, strip_prefix_of, trim, trim_of,
};
use vstd::prelude::*;

verus! {

/// The line by which `wpa_cli status` reports an established connection.
pub const COMPLETED: &'static str = "wpa_state=COMPLETED";

/// Whether some line of the status is the report of a connection.
pub open spec fn reports_connection(ls: Seq<Seq<char>>) -> bool {
    exists|i: int| 0 <= i < ls.len() && trim_of(#[trigger] ls[i]) == COMPLETED@
}

/// The value, trimmed, on the first line that begins with `key`.
pub open spec fn first_value(ls: Seq<Seq<char>>, key: Seq<char>) -> Option<Seq<char>>
    decreases ls.len(),
{
    if ls.len() == 0 {
        None
    } else {
        match strip_prefix_of(ls[0], key) {
            Some(value) => Some(trim_of(value)),
            None => first_value(ls.skip(1), key),
        }
    }
}

/// The value, trimmed, on the first line that begins with `key`.
fn find_value(ls: &Vec<&str>, key: &str) -> (r: Option<String>)
    ensures
        opt_view(r) == first_value(str_views(ls@), key@),
{
    let ghost all = str_views(ls@);
    let mut i: usize = 0;
    proof {
        assert(all.skip(0) =~= all);
    }
    while i < ls.len()
        invariant
            i <= ls@.len(),
            all == str_views(ls@),
            first_value(all.skip(i as int), key@) == first_value(all, key@),
        decreases ls@.len() - i,
    {
        proof {
            assert(all.skip(i as int)[0] == ls@[i as int]@);
            assert(all.skip(i as int).skip(1) =~= all.skip(i + 1));
        }
        if let Some(value) = strip_prefix(ls[i], key) {
            return Some(trim(value).to_owned());
        }
        i += 1;
    }
    None
}

/// The SSID that a status reports as connected; empty if no connection is
/// established or no SSID is given.
pub open spec fn connected_ssid(raw: Seq<char>) -> Seq<char> {
    if reports_connection(lines_of(raw)) {
        match first_value(lines_of(raw), "ssid="@) {
            Some(ssid) => ssid,
            None => Seq::empty(),
        }
    } else {
        Seq::empty()
    }
}

/// The SSID that an output of `wpa_cli status` reports as connected; empty if there
/// is none.
pub fn fetch_connected(raw: &str) -> (r: String)
    ensures
        r@ == connected_ssid(raw@),
{
    let ls: Vec<&str> = lines(raw);
    let ghost all = lines_of(raw@);
    let mut completed: bool = false;
    let mut i: usize = 0;
    while i < ls.len()
        invariant
            i <= ls@.len(),
            all == str_views(ls@),
            completed == (exists|j: int| 0 <= j < i && trim_of(#[trigger] all[j]) == COMPLETED@),
        decreases ls@.len() - i,
    {
        proof {
            assert(all[i as int] == ls@[i as int]@);
        }
        if same_text(trim(ls[i]), COMPLETED) {
            completed = true;
        }
        i += 1;
    }
    if !completed {
        return String::new();
    }
    match find_value(&ls, "ssid=") {
        Some(ssid) => ssid,
        None => String::new(),
    }
}

/// Whether the report of a connection stands anywhere in an output of
/// `wpa_cli status`.
pub fn is_completed(raw: &str) -> (r: bool)
    ensures
        r == contains_text(raw@, COMPLETED@),
        r <==> exists|a: Seq<char>, b: Seq<char>|
            raw@ == #[trigger] a.add("wpa_state=COMPLETED"@).add(b),
{
    proof {
        let none = Seq::<char>::empty();
        law_contains_text(raw@, COMPLETED@, none, none);
        if exists|a: Seq<char>, b: Seq<char>|
            raw@ == #[trigger] a.add("wpa_state=COMPLETED"@).add(b) {
            let (a, b) = choose|a: Seq<char>, b: Seq<char>|
                raw@ == #[trigger] a.add("wpa_state=COMPLETED"@).add(b);
            law_contains_text(raw@, COMPLETED@, a, b);
            assert(contains_text(a + COMPLETED@ + b, COMPLETED@));
        }
    }
    contains(raw, COMPLETED)
}

/// The identifier of the network in use, from an output of `wpa_cli status`.
pub open spec fn current_id_of(raw: Seq<char>) -> Option<Seq<char>> {
    first_value(lines_of(raw), "id="@)
}

/// The identifier of the network in use, from an output of `wpa_cli status`.
pub fn current_id(raw: &str) -> (r: Option<String>)
    ensures
        opt_view(r) == current_id_of(raw@),
{
    let ls: Vec<&str> = lines(raw);
    find_value(&ls, "id=")
}

/// Whether a line is a number, white space around it aside.
pub open spec fn is_number_line(line: Seq<char>) -> bool {
    trim_of(line).len() > 0 && all_digits(trim_of(line))
}

/// The last number that stands on a line of its own; empty if there is none.
pub open spec fn last_number(ls: Seq<Seq<char>>) -> Seq<char>
    decreases ls.len(),
{
    if ls.len() == 0 {
        Seq::empty()
    } else if is_number_line(ls.last()) {
        trim_of(ls.last())
    } else {
        last_number(ls.drop_last())
    }
}

/// The identifier that an output of `wpa_cli add_network` gives; empty if it gives
/// none.
pub open spec fn new_id_of(raw: Seq<char>) -> Seq<char> {
    last_number(lines_of(raw))
}

/// The identifier that an output of `wpa_cli add_network` gives; empty if it gives
/// none.
pub fn new_id(raw: &str) -> (r: String)
    ensures
        r@ == new_id_of(raw@),
{
    let ls: Vec<&str> = lines(raw);
    let ghost all = lines_of(raw@);
    let mut i: usize = ls.len();
    proof {
        assert(all.take(all.len() as int) =~= all);
    }
    while i > 0
        invariant
            i <= ls@.len(),
            all == str_views(ls@),
            all == lines_of(raw@),
            last_number(all.take(i as int)) == last_number(all),
        decreases i,
    {
        proof {
            assert(all.take(i as int).last() == ls@[i - 1]@);
            assert(all.take(i as int).drop_last() =~= all.take(i - 1));
        }
        let t: &str = trim(ls[i - 1]);
        if !t.is_empty() && only_digits(t) {
            return t.to_owned();
        }
        i -= 1;
    }
    String::new()
}

/// A status that reports a connected SSID also ends the polling of an attempt.
pub proof fn law_connected_is_completed(raw: Seq<char>)
    requires
        connected_ssid(raw).len() > 0,
    ensures
        contains_text(raw, COMPLETED@),
{
    let ls = lines_of(raw);
    let i = choose|i: int| 0 <= i < ls.len() && trim_of(#[trigger] ls[i]) == COMPLETED@;
    lemma_line_contained(raw, i);
    lemma_trim_contained(ls[i]);
    lemma_contains_transitive(raw, ls[i], COMPLETED@);
}

/// An identifier is empty or a number.
pub proof fn law_new_id_is_number(raw: Seq<char>)
    ensures
        all_digits(new_id_of(raw)),
{
    lemma_last_number(lines_of(raw));
}

/// The number found is made of digits.
proof fn lemma_last_number(ls: Seq<Seq<char>>)
    ensures
        all_digits(last_number(ls)),
    decreases ls.len(),
{
    if ls.len() > 0 && !is_number_line(ls.last()) {
        lemma_last_number(ls.drop_last());
    }
}

/// A value is what stands behind the key on the first line that begins with it, without white
/// space around it; where no line begins with the key there is none.
proof fn lemma_first_value(ls: Seq<Seq<char>>, key: Seq<char>, i: int, value: Seq<char>)
    requires
        0 <= i <= ls.len(),
        forall|j: int| 0 <= j < i ==> !key.is_prefix_of(#[trigger] ls[j]),
        i < ls.len() ==> ls[i] == key + value,
    ensures
        first_value(ls, key) == (if i < ls.len() {
            Some(trim_of(value))
        } else {
            None
        }),
    decreases ls.len(),
{
    if i == 0 {
        law_strip_prefix(key + value, key, value);
    } else {
        assert(!key.is_prefix_of(ls[0]));
        let rest = ls.skip(1);
        assert forall|j: int| 0 <= j < i - 1 implies !key.is_prefix_of(#[trigger] rest[j]) by {
            assert(!key.is_prefix_of(ls[j + 1]));
        }
        lemma_first_value(rest, key, i - 1, value);
    }
}

/// The identifier of the network in use stands behind `id=` on the first line of the status
/// that begins so: on line `i`, or nowhere where `i` is the number of lines.  Lines that only
/// hold `id=` further in, such as those of `ssid=` and `bssid=`, do not count.
pub proof fn law_current_id(raw: Seq<char>, i: int, value: Seq<char>)
    requires
        0 <= i <= lines_of(raw).len(),
        forall|j: int| 0 <= j < i ==> !"id="@.is_prefix_of(#[trigger] lines_of(raw)[j]),
        i < lines_of(raw).len() ==> lines_of(raw)[i] == "id="@ + value,
    ensures
        i < lines_of(raw).len() ==> current_id_of(raw) == Some(trim_of(value)),
        i == lines_of(raw).len() ==> current_id_of(raw) is None,
{
    lemma_first_value(lines_of(raw), "id="@, i, value);
}

/// The connected SSID stands behind `ssid=` on the first line of the status that begins so, on
/// line `i`, provided that some line is `wpa_state=COMPLETED` but for white space around it.
/// Without such a line, or without a line that begins with `ssid=`, nothing is connected.
pub proof fn law_connected(raw: Seq<char>, i: int, value: Seq<char>)
    requires
        0 <= i <= lines_of(raw).len(),
        forall|j: int| 0 <= j < i ==> !"ssid="@.is_prefix_of(#[trigger] lines_of(raw)[j]),
        i < lines_of(raw).len() ==> lines_of(raw)[i] == "ssid="@ + value,
    ensures
        ({
            let ls = lines_of(raw);
            let up = exists|k: int|
                0 <= k < ls.len() && trim_of(#[trigger] ls[k]) == "wpa_state=COMPLETED"@;
            &&& up && i < ls.len() ==> connected_ssid(raw) == trim_of(value)
            &&& !up || i == ls.len() ==> connected_ssid(raw).len() == 0
        }),
{
    lemma_first_value(lines_of(raw), "ssid="@, i, value);
}

/// The identifier of a new profile is the last line that is a number, but for white space
/// around it: line `i`, or none where `i` is -1.
pub proof fn law_new_id(raw: Seq<char>, i: int)
    requires
        -1 <= i < lines_of(raw).len(),
        i >= 0 ==> ({
            let t = trim_of(lines_of(raw)[i]);
            t.len() > 0 && forall|k: int| 0 <= k < t.len() ==> '0' <= #[trigger] t[k] <= '9'
        }),
        forall|j: int|
            i < j < lines_of(raw).len() ==> ({
                let t = trim_of(#[trigger] lines_of(raw)[j]);
                t.len() == 0 || exists|k: int| 0 <= k < t.len() && !('0' <= #[trigger] t[k] <= '9')
            }),
    ensures
        i >= 0 ==> new_id_of(raw) == trim_of(lines_of(raw)[i]),
        i == -1 ==> new_id_of(raw).len() == 0,
{
    lemma_last_number_is(lines_of(raw), i);
}

/// Where the last number stands.
proof fn lemma_last_number_is(ls: Seq<Seq<char>>, i: int)
    requires
        -1 <= i < ls.len(),
        i >= 0 ==> ({
            let t = trim_of(ls[i]);
            t.len() > 0 && forall|k: int| 0 <= k < t.len() ==> '0' <= #[trigger] t[k] <= '9'
        }),
        forall|j: int|
            i < j < ls.len() ==> ({
                let t = trim_of(#[trigger] ls[j]);
                t.len() == 0 || exists|k: int| 0 <= k < t.len() && !('0' <= #[trigger] t[k] <= '9')
            }),
    ensures
        i >= 0 ==> last_number(ls) == trim_of(ls[i]),
        i == -1 ==> last_number(ls).len() == 0,
    decreases ls.len(),
{
    if ls.len() > 0 {
        let n = ls.len() - 1;
        law_digits(trim_of(ls[n]));
        if i < n {
            let t = trim_of(ls[n]);
            assert(!is_number_line(ls[n]));
            let rest = ls.drop_last();
            assert forall|j: int| i < j < rest.len() implies ({
                let t = trim_of(#[trigger] rest[j]);
                t.len() == 0 || exists|k: int| 0 <= k < t.len() && !('0' <= #[trigger] t[k] <= '9')
            }) by {
                assert(rest[j] == ls[j]);
            }
            lemma_last_number_is(rest, i);
        }
    }
}

} // verus!

//! The commands of `wpa_cli` that the manager uses.

use crate::text::string_views;
use vstd::prelude::*;

verus! {

/// `text` between double quotes.
pub open spec fn quoted(text: Seq<char>) -> Seq<char> {
    seq!['"'] + text + seq!['"']
}

/// `text` between double quotes.
pub fn quote(text: &str) -> (r: String)
    ensures
        r@ == quoted(text@),
{
    proof {
        reveal_strlit("\"");
    }
    let mut r: String = "\"".to_owned();
    r.append(text);
    r.append("\"");
    proof {
        assert("\""@ =~= seq!['"']);
    }
    r
}

/// A `wpa_cli` command without arguments.
pub open spec fn wpa(command: Seq<char>) -> Seq<Seq<char>> {
    seq!["wpa_cli"@, command]
}

/// A `wpa_cli` command without arguments.
pub fn wpa_cli(command: &str) -> (r: Vec<String>)
    ensures
        string_views(r@) == wpa(command@),
{
    let mut r: Vec<String> = Vec::new();
    r.push("wpa_cli".to_owned());
    r.push(command.to_owned());
    proof {
        assert(string_views(r@) =~= wpa(command@));
    }
    r
}

/// A `wpa_cli` command on the network `id`.
pub open spec fn wpa_on(command: Seq<char>, id: Seq<char>) -> Seq<Seq<char>> {
    seq!["wpa_cli"@, command, id]
}

/// A `wpa_cli` command on the network `id`.
pub fn wpa_cli_on(command: &str, id: &str) -> (r: Vec<String>)
    ensures
        string_views(r@) == wpa_on(command@, id@),
{
    let mut r: Vec<String> = wpa_cli(command);
    let ghost before = string_views(r@);
    r.push(id.to_owned());
    proof {
        assert(string_views(r@) =~= before.push(id@));
        assert(string_views(r@) =~= wpa_on(command@, id@));
    }
    r
}

/// The command that sets a variable of the network `id`.
pub open spec fn wpa_set(id: Seq<char>, name: Seq<char>, value: Seq<char>) -> Seq<Seq<char>> {
    seq!["wpa_cli"@, "set_network"@, id, name, value]
}

/// The command that sets a variable of the network `id`.
pub fn wpa_cli_set(id: &str, name: &str, value: &str) -> (r: Vec<String>)
    ensures
        string_views(r@) == wpa_set(id@, name@, value@),
{
    let mut r: Vec<String> = wpa_cli_on("set_network", id);
    let ghost before = string_views(r@);
    r.push(name.to_owned());
    r.push(value.to_owned());
    proof {
        assert(string_views(r@) =~= before.push(name@).push(value@));
        assert(string_views(r@) =~= wpa_set(id@, name@, value@));
    }
    r
}

/// Each command names `wpa_cli` first, then what it is to do, then what it does it to; a quoted
/// text is one character longer at each end.
pub proof fn law_commands(command: Seq<char>, id: Seq<char>, name: Seq<char>, value: Seq<char>)
    ensures
        wpa(command).len() == 2,
        wpa(command)[0] == "wpa_cli"@,
        wpa(command)[1] == command,
        wpa_on(command, id).len() == 3,
        wpa_on(command, id).drop_last() == wpa(command),
        wpa_on(command, id).last() == id,
        wpa_set(id, name, value).len() == 5,
        wpa_set(id, name, value).take(3) == wpa_on("set_network"@, id),
        wpa_set(id, name, value)[3] == name,
        wpa_set(id, name, value)[4] == value,
        quoted(value).len() == value.len() + 2,
        quoted(value).first() == '"',
        quoted(value).last() == '"',
        quoted(value).drop_first().drop_last() == value,
{
    assert(wpa_on(command, id).drop_last() =~= wpa(command));
    assert(wpa_set(id, name, value).take(3) =~= wpa_on("set_network"@, id));
    assert(quoted(value).drop_first().drop_last() =~= value);
}

} // verus!

//! How the strength of a signal is shown, and the colours of the user interface.

use crate::number::{append_i32, decimal};
use crate::text::contains_char;
use eframe::egui::Color32;
use vstd::prelude::*;

verus! {

/// `egui::Color32`, a colour of four channels.
#[verifier::external_type_specification]
#[verifier::external_body]
pub struct ExColor32(eframe::egui::Color32);

/// The opaque colour with the given red, green and blue, as `Color32::from_rgb` makes it.
pub uninterp spec fn rgb_color(r: u8, g: u8, b: u8) -> Color32;

/// `Color32::from_rgb` makes a colour of its three arguments and nothing else, and keeps each
/// of them in a channel of its own: other arguments give another colour.
pub assume_specification[ Color32::from_rgb ](r: u8, g: u8, b: u8) -> (c: Color32)
    ensures
        c == rgb_color(r, g, b),
        forall|r2: u8, g2: u8, b2: u8| #[trigger]
            rgb_color(r2, g2, b2) == c ==> r2 == r && g2 == g && b2 == b,
;

/// How many of four bars a signal level fills.
pub open spec fn signal_level(dbm: i32) -> nat {
    if dbm >= -50 {
        4
    } else if dbm >= -60 {
        3
    } else if dbm >= -70 {
        2
    } else if dbm >= -80 {
        1
    } else {
        0
    }
}

/// The bars for a number of filled ones.
pub open spec fn bars_text(level: nat) -> Seq<char> {
    if level == 4 {
        "▂▄▆█"@
    } else if level == 3 {
        "▂▄▆_"@
    } else if level == 2 {
        "▂▄__"@
    } else if level == 1 {
        "▂___"@
    } else {
        "____"@
    }
}

/// The colour for a number of filled bars, from green for four to red for none.
pub open spec fn bars_color(level: nat) -> Color32 {
    if level == 4 {
        rgb_color(80, 210, 80)
    } else if level == 3 {
        rgb_color(150, 220, 80)
    } else if level == 2 {
        rgb_color(220, 200, 60)
    } else if level == 1 {
        rgb_color(220, 130, 40)
    } else {
        rgb_color(180, 60, 60)
    }
}

/// How many characters of `t` are no underscore.
pub open spec fn filled(t: Seq<char>) -> nat {
    t.filter(|c: char| c != '_').len()
}

/// The bars for a signal level, and their colour.  Two signal levels have the same colour
/// exactly if they have the same bars.
pub fn signal_bars(dbm: i32) -> (r: (&'static str, Color32))
    ensures
        r.0@ == bars_text(signal_level(dbm)),
        r.1 == bars_color(signal_level(dbm)),
        forall|other: i32|
            #![trigger signal_level(other)]
            r.1 == bars_color(signal_level(other)) <==> r.0@ == bars_text(signal_level(other)),
{
    let r: (&'static str, Color32) = if dbm >= -50 {
        ("▂▄▆█", Color32::from_rgb(80, 210, 80))
    } else if dbm >= -60 {
        ("▂▄▆_", Color32::from_rgb(150, 220, 80))
    } else if dbm >= -70 {
        ("▂▄__", Color32::from_rgb(220, 200, 60))
    } else if dbm >= -80 {
        ("▂___", Color32::from_rgb(220, 130, 40))
    } else {
        ("____", Color32::from_rgb(180, 60, 60))
    };
    proof {
        let level = signal_level(dbm);
        assert forall|other: i32|
            #![trigger signal_level(other)]
            r.1 == bars_color(signal_level(other)) <==> r.0@ == bars_text(signal_level(other)) by {
            if r.0@ == bars_text(signal_level(other)) {
                lemma_bars_differ(level, signal_level(other));
            }
            assert(r.1 == bars_color(signal_level(other)) ==> signal_level(other) == level);
        }
    }
    r
}

/// The bars of two numbers differ.
proof fn lemma_bars_differ(a: nat, b: nat)
    requires
        a <= 4,
        b <= 4,
        bars_text(a) == bars_text(b),
    ensures
        a == b,
{
    lemma_bars(a);
    lemma_bars(b);
    if a < b {
        assert(bars_text(b)[a as int] != '_');
    } else if b < a {
        assert(bars_text(a)[b as int] != '_');
    }
}

/// The bars are four characters, each a bar or an underscore, the underscores at the end.
proof fn lemma_bars(level: nat)
    requires
        level <= 4,
    ensures
        bars_text(level).len() == 4,
        forall|i: int| 0 <= i < 4 ==> "▂▄▆█_"@.contains(#[trigger] bars_text(level)[i]),
        forall|i: int| 0 <= i < 4 ==> (#[trigger] bars_text(level)[i] == '_' <==> i >= level),
        filled(bars_text(level)) == level,
{
    reveal_strlit("▂▄▆█_");
    reveal_strlit("▂▄▆█");
    reveal_strlit("▂▄▆_");
    reveal_strlit("▂▄__");
    reveal_strlit("▂___");
    reveal_strlit("____");
    let chars = "▂▄▆█_"@;
    let t = bars_text(level);
    assert(chars[0] == '▂' && chars[1] == '▄' && chars[2] == '▆' && chars[3] == '█'
        && chars[4] == '_');
    assert forall|i: int| 0 <= i < 4 implies (#[trigger] t[i] == '_' <==> i >= level)
        && chars.contains(t[i]) by {
        if i == 0 {
            assert(t[0] == chars[0] || t[0] == '_');
        } else if i == 1 {
            assert(t[1] == chars[1] || t[1] == '_');
        } else if i == 2 {
            assert(t[2] == chars[2] || t[2] == '_');
        } else {
            assert(t[3] == chars[3] || t[3] == '_');
        }
    }
    let bar = |c: char| c != '_';
    reveal(Seq::filter);
    let t3 = t.drop_last();
    let t2 = t3.drop_last();
    let t1 = t2.drop_last();
    let t0 = t1.drop_last();
    assert(t3.last() == t[2] && t2.last() == t[1] && t1.last() == t[0]);
    assert(t0.filter(bar).len() == 0);
    assert(t1.filter(bar).len() == (if level >= 1 { 1nat } else { 0 }));
    assert(t2.filter(bar).len() == (if level >= 2 { 2nat } else { level }));
    assert(t3.filter(bar).len() == (if level >= 3 { 3nat } else { level }));
    assert(t.filter(bar).len() == level);
}

/// A stronger signal never fills fewer bars, and the bars are always four characters, each a
/// bar or an underscore, the underscores at the end.
pub proof fn law_bars_grow(weak: i32, strong: i32)
    requires
        weak <= strong,
    ensures
        signal_level(weak) <= signal_level(strong) <= 4,
        filled(bars_text(signal_level(weak))) <= filled(bars_text(signal_level(strong))),
        filled(bars_text(signal_level(weak))) == signal_level(weak),
        filled(bars_text(signal_level(strong))) == signal_level(strong),
        bars_text(signal_level(weak)).len() == 4,
        bars_text(signal_level(strong)).len() == 4,
        forall|i: int|
            0 <= i < 4 ==> "▂▄▆█_"@.contains(#[trigger] bars_text(signal_level(weak))[i]),
        forall|i: int|
            0 <= i < 4 ==> "▂▄▆█_"@.contains(#[trigger] bars_text(signal_level(strong))[i]),
        forall|i: int|
            0 <= i < 4 ==> (#[trigger] bars_text(signal_level(weak))[i] == '_' <==> i
                >= signal_level(weak)),
{
    lemma_bars(signal_level(weak));
    lemma_bars(signal_level(strong));
}

/// The signal level in words: the number and its unit.
pub fn signal_text(dbm: i32) -> (r: String)
    ensures
        r@ == decimal(dbm as int) + " dBm"@,
{
    let mut r: String = String::new();
    append_i32(&mut r, dbm);
    r.append(" dBm");
    proof {
        assert(Seq::<char>::empty() + decimal(dbm as int) =~= decimal(dbm as int));
    }
    r
}

/// The colour of what is connected and of good news.
pub open spec fn good_color() -> Color32 {
    rgb_color(80, 210, 80)
}

/// The colour of errors and of bad news.
pub open spec fn bad_color() -> Color32 {
    rgb_color(220, 60, 60)
}

/// The colour of the note that a saved password is in use.
pub open spec fn hint_color() -> Color32 {
    rgb_color(100, 180, 255)
}

/// The colour of what is connected and of good news.
pub fn good() -> (c: Color32)
    ensures
        c == good_color(),
        c != bad_color(),
{
    Color32::from_rgb(80, 210, 80)
}

/// The colour of errors and of bad news.
pub fn bad() -> (c: Color32)
    ensures
        c == bad_color(),
        c != good_color(),
{
    Color32::from_rgb(220, 60, 60)
}

/// The colour of the note that a saved password is in use.
pub fn hint() -> (c: Color32)
    ensures
        c == hint_color(),
{
    Color32::from_rgb(100, 180, 255)
}

/// The colour of the message of a finished job: a check mark makes it good news.
pub fn message_color(message: &str) -> (c: Color32)
    ensures
        c == (if message@.contains('✔') {
            good_color()
        } else {
            bad_color()
        }),
        c == good_color() <==> message@.contains('✔'),
{
    if contains_char(message, '✔') {
        good()
    } else {
        bad()
    }
}

/// Where the bars change: at -50, -60, -70 and -80 dBm, each level counting to the stronger
/// side, with a text and a colour for each of the five ranges.
pub proof fn law_bars_of_levels(dbm: i32)
    ensures
        ({
            let text = bars_text(signal_level(dbm));
            let color = bars_color(signal_level(dbm));
            &&& -50 <= dbm ==> text == "▂▄▆█"@ && color == rgb_color(80, 210, 80)
            &&& -60 <= dbm < -50 ==> text == "▂▄▆_"@ && color == rgb_color(150, 220, 80)
            &&& -70 <= dbm < -60 ==> text == "▂▄__"@ && color == rgb_color(220, 200, 60)
            &&& -80 <= dbm < -70 ==> text == "▂___"@ && color == rgb_color(220, 130, 40)
            &&& dbm < -80 ==> text == "____"@ && color == rgb_color(180, 60, 60)
        }),
{
}

/// The colours of good news, of bad news and of the note on a saved password.
pub proof fn law_colors()
    ensures
        good_color() == rgb_color(80, 210, 80),
        bad_color() == rgb_color(220, 60, 60),
        hint_color() == rgb_color(100, 180, 255),
{
}

} // verus!

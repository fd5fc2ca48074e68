//! The credentials file `password.wifi`.
//!
//! One entry per line: the SSID, a tab, the password.  A line is split at its
//! first tab only, so a password may hold tabs itself.  A line that is not valid
//! UTF-8 holds no entry; saving leaves it as it is.

use crate::bytes::{
    is_line, joined, law_line_by_line, law_text_is_readable, lemma_encode_ends, lemma_joined_append,
    lemma_line_no_feed, lemma_raw_lines_append, lemma_raw_lines_are, lemma_raw_lines_joined,
    lemma_readable_append, lemma_unreadable, line_text, opt_bytes_view, raw_lines, readable,
    slice_views, split_lines, unreadable,
};
use crate::text::{
    blank, contains_char, find_char, is_trimmed, law_lines, law_split_once, law_trim, lemma_find_char,
    lemma_find_char_is, lemma_trim, lemma_trim_identity, lines_of, opt_view, same_text, split_once,
    split_once_of, strip_cr, trim, trim_of, white_space,
};
use vstd::prelude::*;
use vstd::utf8::{encode_utf8, valid_utf8};

verus! {

/// The name of the credentials file.
pub const PW_FILE_NAME: &'static str = "password.wifi";

/// The path of the file `name` in the directory `dir`, on a Unix system: a slash stands
/// between them, unless `dir` is empty or ends with one.
pub open spec fn path_in(dir: Seq<u8>, name: Seq<u8>) -> Seq<u8> {
    if dir.len() == 0 || dir.last() == '/' as u8 {
        dir + name
    } else {
        dir + seq!['/' as u8] + name
    }
}

/// The path of the credentials file, which lies in the home directory.
pub fn pw_file_path(home: &[u8]) -> (r: Vec<u8>)
    ensures
        r@ == path_in(home@, encode_utf8(PW_FILE_NAME@)),
{
    let mut path: Vec<u8> = Vec::new();
    path.extend_from_slice(home);
    if home.len() > 0 && home[home.len() - 1] != '/' as u8 {
        path.push('/' as u8);
    }
    path.extend_from_slice(PW_FILE_NAME.as_bytes());
    proof {
        assert(path@ =~= path_in(home@, encode_utf8(PW_FILE_NAME@)));
    }
    path
}

/// A saved network: its SSID and its password.
pub type Entry = (Seq<char>, Seq<char>);

/// The entry that a line of the file holds: the text before the first tab,
/// trimmed, and all that follows the tab.  A line without a tab, or with a blank
/// SSID, holds none.
pub open spec fn entry_of(line: Seq<char>) -> Option<Entry> {
    match split_once_of(line, '\t') {
        Some((ssid, password)) => if trim_of(ssid).len() > 0 {
            Some((trim_of(ssid), password))
        } else {
            None
        },
        None => None,
    }
}

/// The saved networks that a list of lines holds; a later line replaces an
/// earlier one for the same SSID.
pub open spec fn saved_in_lines(ls: Seq<Seq<char>>) -> Map<Seq<char>, Seq<char>>
    decreases ls.len(),
{
    if ls.len() == 0 {
        Map::empty()
    } else {
        let earlier = saved_in_lines(ls.drop_last());
        match entry_of(ls.last()) {
            Some((ssid, password)) => earlier.insert(ssid, password),
            None => earlier,
        }
    }
}

/// The bytes of the file; `None` is an absent file, which has none.
pub open spec fn bytes_in(content: Option<Seq<u8>>) -> Seq<u8> {
    match content {
        Some(bytes) => bytes,
        None => Seq::empty(),
    }
}

/// The lines of the file that are text.
pub open spec fn text_lines(content: Option<Seq<u8>>) -> Seq<Seq<char>> {
    readable(raw_lines(bytes_in(content)))
}

/// The lines of the file that are not valid UTF-8, with the line feeds that end them.
pub open spec fn other_lines(content: Option<Seq<u8>>) -> Seq<Seq<u8>> {
    unreadable(raw_lines(bytes_in(content)))
}

/// The saved networks that the file holds.
pub open spec fn saved_in(content: Option<Seq<u8>>) -> Map<Seq<char>, Seq<char>> {
    saved_in_lines(text_lines(content))
}

/// The line for one entry.
pub open spec fn entry_line(e: Entry) -> Seq<char> {
    e.0 + seq!['\t'] + e.1 + seq!['\n']
}

/// The lines for a list of entries.
pub open spec fn render(es: Seq<Entry>) -> Seq<char>
    decreases es.len(),
{
    if es.len() == 0 {
        Seq::empty()
    } else {
        render(es.drop_last()) + entry_line(es.last())
    }
}

/// The file for a list of entries, with lines that are no text behind them.
pub open spec fn file_of(es: Seq<Entry>, others: Seq<Seq<u8>>) -> Seq<u8> {
    encode_utf8(render(es)) + joined(others)
}

/// Whether `es` lists the saved networks of `m`, each SSID once, in some order.
pub open spec fn lists(es: Seq<Entry>, m: Map<Seq<char>, Seq<char>>) -> bool {
    &&& forall|i: int, j: int| 0 <= i < j < es.len() ==> es[i].0 != es[j].0
    &&& forall|i: int|
        0 <= i < es.len() ==> m.dom().contains(#[trigger] es[i].0) && m[es[i].0] == es[i].1
    &&& forall|ssid: Seq<char>|
        m.dom().contains(ssid) ==> exists|i: int| 0 <= i < es.len() && #[trigger] es[i].0 == ssid
}

/// The views of a list of saved networks.
pub open spec fn entry_views(v: Seq<(String, String)>) -> Seq<Entry> {
    v.map_values(|e: (String, String)| (e.0@, e.1@))
}

/// The saved networks, each SSID once.
pub struct Credentials {
    entries: Vec<(String, String)>,
}

impl View for Credentials {
    type V = Map<Seq<char>, Seq<char>>;

    closed spec fn view(&self) -> Map<Seq<char>, Seq<char>> {
        Map::new(
            |ssid: Seq<char>|
                exists|i: int|
                    0 <= i < self.entries@.len() && (#[trigger] self.entries@[i]).0@ == ssid,
            |ssid: Seq<char>|
                self.entries@[choose|i: int|
                    0 <= i < self.entries@.len() && (#[trigger] self.entries@[i]).0@ == ssid].1@,
        )
    }
}

impl Credentials {
    /// No SSID occurs twice.
    #[verifier::type_invariant]
    closed spec fn distinct(self) -> bool {
        forall|i: int, j: int|
            0 <= i < j < self.entries@.len() ==> (#[trigger] self.entries@[i]).0@ != (
            #[trigger] self.entries@[j]).0@
    }

    /// The entries list the saved networks.
    proof fn lemma_lists(self)
        requires
            self.distinct(),
        ensures
            lists(entry_views(self.entries@), self@),
    {
        let v = self.entries@;
        let es = entry_views(v);
        assert forall|i: int| 0 <= i < es.len() implies self@.dom().contains(#[trigger] es[i].0)
            && self@[es[i].0] == es[i].1 by {
            assert(v[i].0@ == es[i].0);
            let k = choose|k: int| 0 <= k < v.len() && (#[trigger] v[k]).0@ == es[i].0;
            assert(k == i);
        }
        assert forall|ssid: Seq<char>| self@.dom().contains(ssid) implies exists|i: int|
            0 <= i < es.len() && #[trigger] es[i].0 == ssid by {
            let k = choose|k: int| 0 <= k < v.len() && (#[trigger] v[k]).0@ == ssid;
            assert(es[k].0 == ssid);
        }
        assert forall|i: int, j: int| 0 <= i < j < es.len() implies es[i].0 != es[j].0 by {
            assert(v[i].0@ != v[j].0@);
        }
    }

    /// No saved networks.
    pub fn new() -> (c: Credentials)
        ensures
            c@ == Map::<Seq<char>, Seq<char>>::empty(),
    {
        let c = Credentials { entries: Vec::new() };
        proof {
            assert(c@ =~= Map::<Seq<char>, Seq<char>>::empty());
        }
        c
    }

    /// Where the entry for `ssid` stands, if there is one.
    fn position(&self, ssid: &str) -> (r: Option<usize>)
        ensures
            match r {
                Some(i) => i < self.entries@.len() && self.entries@[i as int].0@ == ssid@,
                None => forall|i: int|
                    0 <= i < self.entries@.len() ==> (#[trigger] self.entries@[i]).0@ != ssid@,
            },
    {
        let mut i: usize = 0;
        while i < self.entries.len()
            invariant
                i <= self.entries@.len(),
                forall|j: int| 0 <= j < i ==> (#[trigger] self.entries@[j]).0@ != ssid@,
            decreases self.entries@.len() - i,
        {
            if same_text(self.entries[i].0.as_str(), ssid) {
                return Some(i);
            }
            i += 1;
        }
        None
    }

    /// Saves `password` for `ssid`, in place of an earlier one.
    pub fn insert(self, ssid: &str, password: &str) -> (c: Credentials)
        ensures
            c@ == self@.insert(ssid@, password@),
    {
        proof {
            use_type_invariant(&self);
            self.lemma_lists();
        }
        let ghost before = self;
        let ghost es = entry_views(self.entries@);
        let at: Option<usize> = self.position(ssid);
        let mut entries: Vec<(String, String)> = self.entries;
        match at {
            Some(i) => {
                entries.set(i, (ssid.to_owned(), password.to_owned()));
            },
            None => {
                entries.push((ssid.to_owned(), password.to_owned()));
            },
        }
        let c = Credentials { entries };
        proof {
            c.lemma_lists();
            let m = before@.insert(ssid@, password@);
            let now = entry_views(c.entries@);
            match at {
                Some(i) => {
                    assert(now =~= es.update(i as int, (ssid@, password@)));
                    assert forall|k: int| 0 <= k < now.len() implies m.dom().contains(
                        #[trigger] now[k].0,
                    ) && m[now[k].0] == now[k].1 by {
                        if k != i {
                            assert(es[k].0 != es[i as int].0);
                            assert(before@[es[k].0] == es[k].1);
                        }
                    }
                    assert forall|s: Seq<char>| m.dom().contains(s) implies exists|k: int|
                        0 <= k < now.len() && #[trigger] now[k].0 == s by {
                        if s == ssid@ {
                            assert(now[i as int].0 == s);
                        } else {
                            let k = choose|k: int| 0 <= k < es.len() && #[trigger] es[k].0 == s;
                            assert(now[k].0 == s);
                        }
                    }
                },
                None => {
                    assert(now =~= es.push((ssid@, password@)));
                    assert forall|k: int| 0 <= k < now.len() implies m.dom().contains(
                        #[trigger] now[k].0,
                    ) && m[now[k].0] == now[k].1 by {
                        if k < es.len() {
                            assert(before.entries@[k].0@ != ssid@);
                            assert(before@[es[k].0] == es[k].1);
                        }
                    }
                    assert forall|s: Seq<char>| m.dom().contains(s) implies exists|k: int|
                        0 <= k < now.len() && #[trigger] now[k].0 == s by {
                        if s == ssid@ {
                            assert(now[es.len() as int].0 == s);
                        } else {
                            let k = choose|k: int| 0 <= k < es.len() && #[trigger] es[k].0 == s;
                            assert(now[k].0 == s);
                        }
                    }
                },
            }
            lemma_lists_unique(now, m, c@);
        }
        c
    }

    /// The password saved for `ssid`, if there is one.
    pub fn get(&self, ssid: &str) -> (r: Option<String>)
        ensures
            opt_view(r) == (if self@.dom().contains(ssid@) {
                Some(self@[ssid@])
            } else {
                None
            }),
    {
        proof {
            use_type_invariant(self);
            self.lemma_lists();
        }
        match self.position(ssid) {
            Some(i) => {
                let password: String = self.entries[i].1.clone();
                proof {
                    let es = entry_views(self.entries@);
                    assert(es[i as int].0 == ssid@);
                    assert(self@[es[i as int].0] == es[i as int].1);
                }
                Some(password)
            },
            None => {
                proof {
                    let es = entry_views(self.entries@);
                    if self@.dom().contains(ssid@) {
                        let k = choose|k: int| 0 <= k < es.len() && #[trigger] es[k].0 == ssid@;
                        assert(self.entries@[k].0@ == ssid@);
                    }
                }
                None
            },
        }
    }

    /// The lines for the saved networks, one for each.
    pub fn to_text(&self) -> (r: String)
        ensures
            exists|es: Seq<Entry>| lists(es, self@) && r@ == #[trigger] render(es),
    {
        proof {
            use_type_invariant(self);
            self.lemma_lists();
            reveal_strlit("\t");
            reveal_strlit("\n");
        }
        let ghost es = entry_views(self.entries@);
        let mut out: String = String::new();
        let mut i: usize = 0;
        while i < self.entries.len()
            invariant
                i <= self.entries@.len(),
                es == entry_views(self.entries@),
                "\t"@ =~= seq!['\t'],
                "\n"@ =~= seq!['\n'],
                out@ == render(es.take(i as int)),
            decreases self.entries@.len() - i,
        {
            let ghost before = out@;
            out.append(self.entries[i].0.as_str());
            out.append("\t");
            out.append(self.entries[i].1.as_str());
            out.append("\n");
            proof {
                assert(es.take(i + 1).drop_last() =~= es.take(i as int));
                assert(es.take(i + 1).last() == es[i as int]);
                assert(out@ =~= before + entry_line(es[i as int]));
            }
            i += 1;
        }
        proof {
            assert(es.take(es.len() as int) =~= es);
        }
        out
    }
}

/// Two maps that one list enumerates are equal.
pub proof fn lemma_lists_unique(
    es: Seq<Entry>,
    m1: Map<Seq<char>, Seq<char>>,
    m2: Map<Seq<char>, Seq<char>>,
)
    requires
        lists(es, m1),
        lists(es, m2),
    ensures
        m1 == m2,
{
    assert forall|ssid: Seq<char>| m1.dom().contains(ssid) implies m2.dom().contains(ssid)
        && m1[ssid] == m2[ssid] by {
        let i = choose|i: int| 0 <= i < es.len() && #[trigger] es[i].0 == ssid;
        assert(m2[es[i].0] == es[i].1);
    }
    assert forall|ssid: Seq<char>| m2.dom().contains(ssid) implies m1.dom().contains(ssid) by {
        let i = choose|i: int| 0 <= i < es.len() && #[trigger] es[i].0 == ssid;
        assert(m1[es[i].0] == es[i].1);
    }
    assert(m1 =~= m2);
}

/// The saved networks in the file; an absent file holds none.
pub fn read_pw_file(content: Option<&[u8]>) -> (c: Credentials)
    ensures
        c@ == saved_in(opt_bytes_view(content)),
{
    let mut saved: Credentials = Credentials::new();
    let bytes: &[u8] = match content {
        Some(bytes) => bytes,
        None => {
            return saved;
        },
    };
    let ls: Vec<&[u8]> = split_lines(bytes);
    let ghost all = raw_lines(bytes@);
    let mut i: usize = 0;
    while i < ls.len()
        invariant
            i <= ls@.len(),
            all == slice_views(ls@),
            saved@ == saved_in_lines(readable(all.take(i as int))),
        decreases ls@.len() - i,
    {
        let ghost before = readable(all.take(i as int));
        let ghost now = readable(all.take(i + 1));
        proof {
            assert(all.take(i + 1).drop_last() =~= all.take(i as int));
            assert(all.take(i + 1).last() == ls@[i as int]@);
        }
        if let Some(line) = line_text(ls[i]) {
            proof {
                assert(now.drop_last() =~= before);
                assert(now.last() == line@);
            }
            if let Some((ssid, password)) = split_once(line, '\t') {
                let ssid: &str = trim(ssid);
                if !ssid.is_empty() {
                    saved = saved.insert(ssid, password);
                }
            }
        }
        i += 1;
    }
    proof {
        assert(all.take(all.len() as int) =~= all);
    }
    saved
}

/// The lines of the file that are not valid UTF-8, one after another.
fn lines_left_alone(content: Option<&[u8]>) -> (r: Vec<u8>)
    ensures
        r@ == joined(other_lines(opt_bytes_view(content))),
{
    let mut out: Vec<u8> = Vec::new();
    let bytes: &[u8] = match content {
        Some(bytes) => bytes,
        None => {
            return out;
        },
    };
    let ls: Vec<&[u8]> = split_lines(bytes);
    let ghost all = raw_lines(bytes@);
    let mut i: usize = 0;
    while i < ls.len()
        invariant
            i <= ls@.len(),
            all == slice_views(ls@),
            out@ == joined(unreadable(all.take(i as int))),
        decreases ls@.len() - i,
    {
        let ghost before = unreadable(all.take(i as int));
        let ghost now = unreadable(all.take(i + 1));
        proof {
            assert(all.take(i + 1).drop_last() =~= all.take(i as int));
            assert(all.take(i + 1).last() == ls@[i as int]@);
        }
        if line_text(ls[i]).is_none() {
            out.extend_from_slice(ls[i]);
            proof {
                assert(now.drop_last() =~= before);
                assert(now.last() == ls@[i as int]@);
            }
        }
        i += 1;
    }
    proof {
        assert(all.take(all.len() as int) =~= all);
    }
    out
}

/// Whether a line of the file can name the SSID: it is not blank, has no white space
/// around it and no tab or line feed in it.
pub open spec fn nameable(ssid: Seq<char>) -> bool {
    &&& ssid.len() > 0
    &&& is_trimmed(ssid)
    &&& !ssid.contains('\t')
    &&& !ssid.contains('\n')
}

/// Whether the file can hold the entry on a line of its own: a line can name the SSID, and
/// the password has no line feed in it.
pub open spec fn storable(e: Entry) -> bool {
    nameable(e.0) && !e.1.contains('\n')
}

/// The SSID under which a password for `ssid` is written: without the white space around
/// it, since a line is read so; as it stands where no line can name it.
pub open spec fn written_ssid(ssid: Seq<char>) -> Seq<char> {
    if nameable(trim_of(ssid)) {
        trim_of(ssid)
    } else {
        ssid
    }
}

/// Whether the file `after` gives back all that `before` held and `e` besides: the networks
/// are those of `before` and that of `e`; each password is the one last saved, less one
/// carriage return at its very end; and the lines that are not valid UTF-8 are the same.
pub open spec fn merges(before: Option<Seq<u8>>, e: Entry, after: Seq<u8>) -> bool {
    &&& saved_in(Some(after)).dom() == saved_in(before).dom().insert(e.0)
    &&& saved_in(Some(after))[e.0] == strip_cr(e.1)
    &&& forall|other: Seq<char>|
        saved_in(before).dom().contains(other) && other != e.0 ==> #[trigger] saved_in(
            Some(after),
        )[other] == strip_cr(saved_in(before)[other])
    &&& other_lines(Some(after)) == other_lines(before)
}

/// The SSID under which a password for `ssid` is written.
fn ssid_to_write<'a>(ssid: &'a str) -> (r: &'a str)
    ensures
        r@ == written_ssid(ssid@),
{
    proof {
        lemma_trim(ssid@);
    }
    let trimmed: &'a str = trim(ssid);
    if !trimmed.is_empty() && !contains_char(trimmed, '\t') && !contains_char(trimmed, '\n') {
        trimmed
    } else {
        ssid
    }
}

/// The new content of the file once `password` is saved for `ssid`, whose surrounding
/// white space does not count.
///
/// Every other entry stays, an earlier password for `ssid` is replaced, and lines that are
/// not valid UTF-8 stay as they are, behind the entries.  The order of the entries is left
/// open.  A carriage return at the very end of a password is read as part of the line ending,
/// so it is not given back.
///
/// What no line can hold is written all the same: a blank SSID or one with a tab or a line
/// feed in it, which is written as it stands, and a password with a line feed in it.  Such
/// text is read back as another entry or as none, and may take the place of another network's
/// password.
pub fn save_pw_file(content: Option<&[u8]>, ssid: &str, password: &str) -> (r: Vec<u8>)
    ensures
        exists|es: Seq<Entry>|
            lists(es, saved_in(opt_bytes_view(content)).insert(written_ssid(ssid@), password@))
                && r@ == #[trigger] file_of(es, other_lines(opt_bytes_view(content))),
        other_lines(Some(r@)) == other_lines(opt_bytes_view(content)),
        storable((trim_of(ssid@), password@)) ==> merges(
            opt_bytes_view(content),
            (trim_of(ssid@), password@),
            r@,
        ),
{
    let entries: String = read_pw_file(content).insert(ssid_to_write(ssid), password).to_text();
    let others: Vec<u8> = lines_left_alone(content);
    let mut out: Vec<u8> = Vec::new();
    out.extend_from_slice(entries.as_str().as_bytes());
    out.extend_from_slice(others.as_slice());
    proof {
        let m = saved_in(opt_bytes_view(content)).insert(written_ssid(ssid@), password@);
        let es = choose|es: Seq<Entry>| lists(es, m) && entries@ == #[trigger] render(es);
        assert(out@ =~= file_of(es, other_lines(opt_bytes_view(content))));
        lemma_file_lines(es, opt_bytes_view(content));
        if storable((trim_of(ssid@), password@)) {
            law_save_then_read(opt_bytes_view(content), ssid@, password@, es);
        }
    }
    out
}

/// The password that the file holds for `ssid`, if there is one.
pub fn lookup_saved_pw(content: Option<&[u8]>, ssid: &str) -> (r: Option<String>)
    ensures
        opt_view(r) == (if saved_in(opt_bytes_view(content)).dom().contains(ssid@) {
            Some(saved_in(opt_bytes_view(content))[ssid@])
        } else {
            None
        }),
{
    read_pw_file(content).get(ssid)
}

// ---------------------------------------------------------------------------
// What the file gives back
// ---------------------------------------------------------------------------

/// The entry as a reader finds it: a carriage return at the very end of the
/// password counts as part of the line ending.
pub open spec fn as_read(e: Entry) -> Entry {
    (e.0, strip_cr(e.1))
}

/// Appending a line to whole lines appends it to the list of lines.
proof fn lemma_lines_append(a: Seq<char>, line: Seq<char>)
    requires
        a.len() > 0 ==> a.last() == '\n',
        !line.contains('\n'),
    ensures
        lines_of(a + line + seq!['\n']) == lines_of(a).push(strip_cr(line)),
    decreases a.len(),
{
    let s = a + line + seq!['\n'];
    if a.len() == 0 {
        assert forall|j: int| 0 <= j < line.len() implies s[j] != '\n' by {
            assert(line.contains(line[j]));
        }
        lemma_find_char_is(s, '\n', line.len() as int);
        assert(s.take(line.len() as int) =~= line);
        assert(s.skip(line.len() as int + 1) =~= Seq::<char>::empty());
        assert(lines_of(Seq::<char>::empty()) =~= Seq::<Seq<char>>::empty());
        assert(lines_of(s) =~= seq![strip_cr(line)]);
        assert(lines_of(a).push(strip_cr(line)) =~= seq![strip_cr(line)]);
    } else {
        lemma_find_char(a, '\n');
        let k = find_char(a, '\n');
        assert(k < a.len());
        lemma_find_char_is(s, '\n', k);
        assert(s.take(k) =~= a.take(k));
        let rest = a.skip(k + 1);
        assert(s.skip(k + 1) =~= rest + line + seq!['\n']);
        if rest.len() > 0 {
            assert(rest.last() == a.last());
        }
        lemma_lines_append(rest, line);
        assert(lines_of(s) =~= lines_of(a).push(strip_cr(line)));
    }
}

/// The line of a storable entry holds that entry.
proof fn lemma_entry_line(e: Entry)
    requires
        storable(e),
    ensures
        !(e.0 + seq!['\t'] + e.1).contains('\n'),
        entry_of(strip_cr(e.0 + seq!['\t'] + e.1)) == Some(as_read(e)),
{
    let line = e.0 + seq!['\t'] + e.1;
    assert forall|j: int| 0 <= j < line.len() implies line[j] != '\n' by {
        if j < e.0.len() {
            assert(e.0.contains(e.0[j]));
        } else if j > e.0.len() {
            assert(e.1.contains(e.1[j - e.0.len() - 1]));
        }
    }
    let read = e.0 + seq!['\t'] + strip_cr(e.1);
    if e.1.len() > 0 {
        assert(line.last() == e.1.last());
    }
    assert(strip_cr(line) =~= read);
    let n = e.0.len() as int;
    assert forall|j: int| 0 <= j < n implies read[j] != '\t' by {
        assert(e.0.contains(e.0[j]));
    }
    lemma_find_char_is(read, '\t', n);
    assert(read.take(n) =~= e.0);
    assert(read.skip(n + 1) =~= strip_cr(e.1));
    lemma_trim_identity(e.0);
}

/// A rendered file consists of whole lines.
proof fn lemma_render_ends(es: Seq<Entry>)
    ensures
        render(es).len() > 0 ==> render(es).last() == '\n',
{
    if es.len() > 0 {
        assert(entry_line(es.last()).last() == '\n');
    }
}

/// Reading a rendered list of entries gives those entries.
proof fn lemma_render_read(es: Seq<Entry>)
    requires
        forall|i: int| 0 <= i < es.len() ==> storable(#[trigger] es[i]),
        forall|i: int, j: int| 0 <= i < j < es.len() ==> es[i].0 != es[j].0,
    ensures
        lines_of(render(es)).len() == es.len(),
        lists(es.map_values(|e: Entry| as_read(e)), saved_in_lines(lines_of(render(es)))),
    decreases es.len(),
{
    let rs = es.map_values(|e: Entry| as_read(e));
    if es.len() == 0 {
    } else {
        let es0 = es.drop_last();
        let rs0 = es0.map_values(|e: Entry| as_read(e));
        assert forall|i: int| 0 <= i < es0.len() implies storable(#[trigger] es0[i]) by {
            assert(storable(es[i]));
        }
        lemma_render_read(es0);
        let e = es.last();
        assert(storable(es[es.len() - 1]));
        lemma_entry_line(e);
        lemma_render_ends(es0);
        let line = e.0 + seq!['\t'] + e.1;
        lemma_lines_append(render(es0), line);
        assert(render(es) =~= render(es0) + line + seq!['\n']);
        let ls0 = lines_of(render(es0));
        let ls = lines_of(render(es));
        assert(ls.drop_last() =~= ls0);
        let m0 = saved_in_lines(ls0);
        let m = saved_in_lines(ls);
        assert(m == m0.insert(e.0, strip_cr(e.1)));
        assert forall|i: int| 0 <= i < rs.len() implies m.dom().contains(#[trigger] rs[i].0)
            && m[rs[i].0] == rs[i].1 by {
            if i < rs0.len() {
                assert(rs0[i] == rs[i]);
                assert(m0.dom().contains(rs0[i].0) && m0[rs0[i].0] == rs0[i].1);
                assert(es[i].0 != es[es.len() - 1].0);
            }
        }
        assert forall|ssid: Seq<char>| m.dom().contains(ssid) implies exists|i: int|
            0 <= i < rs.len() && #[trigger] rs[i].0 == ssid by {
            if ssid == e.0 {
                assert(rs[rs.len() - 1].0 == ssid);
            } else {
                let i = choose|i: int| 0 <= i < rs0.len() && #[trigger] rs0[i].0 == ssid;
                assert(rs[i].0 == ssid);
            }
        }
        assert forall|i: int, j: int| 0 <= i < j < rs.len() implies rs[i].0 != rs[j].0 by {
            assert(es[i].0 != es[j].0);
        }
    }
}

/// The entry of a line without a line feed is storable.
proof fn lemma_entry_storable(line: Seq<char>)
    requires
        !line.contains('\n'),
    ensures
        entry_of(line) matches Some(e) ==> storable(e),
{
    if let Some(e) = entry_of(line) {
        lemma_find_char(line, '\t');
        let k = find_char(line, '\t');
        let before = line.take(k);
        lemma_trim(before);
        if e.0.contains('\t') {
            assert(before.contains('\t'));
            let j = choose|j: int| 0 <= j < before.len() && before[j] == '\t';
            assert(line[j] == '\t');
        }
        if e.0.contains('\n') {
            assert(before.contains('\n'));
            let j = choose|j: int| 0 <= j < before.len() && before[j] == '\n';
            assert(line[j] == '\n');
        }
        if e.1.contains('\n') {
            let j = choose|j: int| 0 <= j < e.1.len() && e.1[j] == '\n';
            assert(line[k + 1 + j] == '\n');
        }
    }
}

/// What lines without line feeds hold is storable.
proof fn lemma_lines_storable(ls: Seq<Seq<char>>)
    requires
        forall|i: int| 0 <= i < ls.len() ==> !(#[trigger] ls[i]).contains('\n'),
    ensures
        forall|ssid: Seq<char>| #[trigger]
            saved_in_lines(ls).dom().contains(ssid) ==> storable((ssid, saved_in_lines(ls)[ssid])),
    decreases ls.len(),
{
    if ls.len() > 0 {
        let ls0 = ls.drop_last();
        assert forall|i: int| 0 <= i < ls0.len() implies !(#[trigger] ls0[i]).contains('\n') by {
            assert(ls0[i] == ls[i]);
        }
        lemma_lines_storable(ls0);
        assert(!ls[ls.len() - 1].contains('\n'));
        lemma_entry_storable(ls.last());
        assert forall|ssid: Seq<char>| #[trigger] saved_in_lines(ls).dom().contains(ssid) implies
            storable((ssid, saved_in_lines(ls)[ssid])) by {
            if let Some(e) = entry_of(ls.last()) {
                if e.0 != ssid {
                    assert(saved_in_lines(ls0).dom().contains(ssid));
                }
            } else {
                assert(saved_in_lines(ls0).dom().contains(ssid));
            }
        }
    }
}

/// The readable lines of a file hold no line feed.
proof fn lemma_readable_no_feed(ls: Seq<Seq<u8>>)
    requires
        forall|i: int| 0 <= i < ls.len() ==> is_line(#[trigger] ls[i]),
    ensures
        forall|i: int|
            0 <= i < readable(ls).len() ==> !(#[trigger] readable(ls)[i]).contains('\n'),
    decreases ls.len(),
{
    if ls.len() > 0 {
        let init = ls.drop_last();
        assert forall|i: int| 0 <= i < init.len() implies is_line(#[trigger] init[i]) by {
            assert(is_line(ls[i]));
        }
        lemma_readable_no_feed(init);
        assert(is_line(ls[ls.len() - 1]));
        if valid_utf8(ls.last()) {
            lemma_line_no_feed(ls.last());
            assert forall|i: int| 0 <= i < readable(ls).len() implies !(
            #[trigger] readable(ls)[i]).contains('\n') by {
                if i < readable(ls).len() - 1 {
                    assert(readable(ls)[i] == readable(init)[i]);
                }
            }
        }
    }
}

/// Whatever the file holds, each entry that is read from it is storable: its SSID
/// is not blank, is trimmed and holds no tab or line feed, and its password holds
/// no line feed.
pub proof fn law_read_entries_storable(content: Option<Seq<u8>>, ssid: Seq<char>)
    requires
        saved_in(content).dom().contains(ssid),
    ensures
        storable((ssid, saved_in(content)[ssid])),
{
    let ls = raw_lines(bytes_in(content));
    lemma_raw_lines_are(bytes_in(content));
    assert forall|i: int| 0 <= i < ls.len() implies is_line(#[trigger] ls[i]) by {
        if i < ls.len() - 1 {
            assert(ls[i] == ls.drop_last()[i]);
        }
    }
    lemma_readable_no_feed(ls);
    lemma_lines_storable(readable(ls));
}

/// A file that is text throughout holds what its lines of text hold.
pub proof fn law_text_file(text: Seq<char>)
    ensures
        saved_in(Some(encode_utf8(text))) == saved_in_lines(lines_of(text)),
        other_lines(Some(encode_utf8(text))) == Seq::<Seq<u8>>::empty(),
{
    law_text_is_readable(text);
}

/// The file of a list of entries has their lines, and beside them the lines that are no text.
proof fn lemma_file_lines(es: Seq<Entry>, content: Option<Seq<u8>>)
    ensures
        text_lines(Some(file_of(es, other_lines(content)))) == lines_of(render(es)),
        other_lines(Some(file_of(es, other_lines(content)))) == other_lines(content),
{
    let head = encode_utf8(render(es));
    let others = other_lines(content);
    let tail = joined(others);
    lemma_raw_lines_are(bytes_in(content));
    lemma_unreadable(raw_lines(bytes_in(content)));
    lemma_raw_lines_joined(others);
    law_text_is_readable(render(es));
    lemma_render_ends(es);
    lemma_encode_ends(render(es));
    lemma_raw_lines_append(head, tail);
    lemma_readable_append(raw_lines(head), others);
    assert(readable(raw_lines(head)) + Seq::<Seq<char>>::empty() =~= lines_of(render(es)));
    assert(Seq::<Seq<u8>>::empty() + others =~= others);
}

/// Saving merges.  After saving an entry that a line can hold, the SSID taken without the
/// white space around it, whatever the file held before and in whatever order the entries are
/// written: the file holds one line of text for each network, gives back what it held and
/// what was saved, and has the lines that are not valid UTF-8 as they were.
pub proof fn law_save_then_read(
    content: Option<Seq<u8>>,
    ssid: Seq<char>,
    password: Seq<char>,
    es: Seq<Entry>,
)
    requires
        storable((trim_of(ssid), password)),
        lists(es, saved_in(content).insert(trim_of(ssid), password)),
    ensures
        text_lines(Some(file_of(es, other_lines(content)))).len() == es.len(),
        merges(content, (trim_of(ssid), password), file_of(es, other_lines(content))),
        ({
            let now = saved_in(Some(file_of(es, other_lines(content))));
            &&& now.dom() == saved_in(content).dom().insert(trim_of(ssid))
            &&& now[trim_of(ssid)] == strip_cr(password)
            &&& forall|other: Seq<char>|
                saved_in(content).dom().contains(other) && other != trim_of(ssid)
                    ==> #[trigger] now[other] == strip_cr(saved_in(content)[other])
        }),
        other_lines(Some(file_of(es, other_lines(content)))) == other_lines(content),
{
    let key = trim_of(ssid);
    let m = saved_in(content).insert(key, password);
    assert forall|i: int| 0 <= i < es.len() implies storable(#[trigger] es[i]) by {
        assert(m.dom().contains(es[i].0) && m[es[i].0] == es[i].1);
        if es[i].0 != key {
            law_read_entries_storable(content, es[i].0);
        }
    }
    lemma_file_lines(es, content);
    lemma_render_read(es);
    let rs = es.map_values(|e: Entry| as_read(e));
    let now = saved_in(Some(file_of(es, other_lines(content))));
    assert forall|s: Seq<char>| #[trigger] m.dom().contains(s) implies now.dom().contains(s)
        && now[s] == strip_cr(m[s]) by {
        let i = choose|i: int| 0 <= i < es.len() && #[trigger] es[i].0 == s;
        assert(rs[i].0 == s);
        assert(now[rs[i].0] == rs[i].1);
        assert(m[es[i].0] == es[i].1);
    }
    assert forall|s: Seq<char>| #[trigger] now.dom().contains(s) implies m.dom().contains(s) by {
        let i = choose|i: int| 0 <= i < rs.len() && #[trigger] rs[i].0 == s;
        assert(m.dom().contains(es[i].0));
    }
    assert(m.dom() =~= saved_in(content).dom().insert(key));
    assert(now.dom() =~= m.dom());
    assert forall|other: Seq<char>|
        saved_in(content).dom().contains(other) && other != key implies #[trigger] now[other]
        == strip_cr(saved_in(content)[other]) by {
        assert(m.dom().contains(other));
    }
    assert(m.dom().contains(key));
}

/// The file gives back what was saved, tabs in the password included, and keeps
/// all other networks: where no password ends with a carriage return, reading the
/// file after saving gives what it gave before with the saved entry put in.
pub proof fn law_save_keeps_others(
    content: Option<Seq<u8>>,
    ssid: Seq<char>,
    password: Seq<char>,
    es: Seq<Entry>,
)
    requires
        storable((trim_of(ssid), password)),
        lists(es, saved_in(content).insert(trim_of(ssid), password)),
        strip_cr(password) == password,
        forall|other: Seq<char>| #[trigger]
            saved_in(content).dom().contains(other) && other != trim_of(ssid) ==> strip_cr(
                saved_in(content)[other],
            ) == saved_in(content)[other],
    ensures
        saved_in(Some(file_of(es, other_lines(content)))) == saved_in(content).insert(
            trim_of(ssid),
            password,
        ),
{
    law_save_then_read(content, ssid, password, es);
    let now = saved_in(Some(file_of(es, other_lines(content))));
    let m = saved_in(content).insert(trim_of(ssid), password);
    assert forall|s: Seq<char>| m.dom().contains(s) implies #[trigger] now[s] == m[s] by {
        if s != trim_of(ssid) {
            assert(saved_in(content).dom().contains(s));
            assert(now[s] == strip_cr(saved_in(content)[s]));
        }
    }
    assert(now =~= m);
}

/// A list of a map's entries is as long as the map is large.
proof fn lemma_lists_len(es: Seq<Entry>, m: Map<Seq<char>, Seq<char>>)
    requires
        lists(es, m),
    ensures
        es.len() == m.dom().len(),
{
    let keys = es.map_values(|e: Entry| e.0);
    assert(keys.no_duplicates());
    keys.unique_seq_to_set();
    assert forall|s: Seq<char>| m.dom().contains(s) implies #[trigger] keys.to_set().contains(s) by {
        let i = choose|i: int| 0 <= i < es.len() && #[trigger] es[i].0 == s;
        assert(keys[i] == s);
    }
    assert forall|s: Seq<char>| #[trigger] keys.to_set().contains(s) implies m.dom().contains(s) by {
        let i = choose|i: int| 0 <= i < keys.len() && keys[i] == s;
        assert(m.dom().contains(es[i].0));
    }
    assert(keys.to_set() =~= m.dom());
}

/// Saving twice for one SSID leaves one entry, however much white space was around the SSID
/// either time: the second file has as many lines of text as the first, and the password is
/// the second one, less one carriage return at its very end.
pub proof fn law_save_again_replaces(
    content: Option<Seq<u8>>,
    first: Entry,
    second: Entry,
    es1: Seq<Entry>,
    es2: Seq<Entry>,
)
    requires
        trim_of(first.0) == trim_of(second.0),
        storable((trim_of(first.0), first.1)),
        storable((trim_of(second.0), second.1)),
        lists(es1, saved_in(content).insert(trim_of(first.0), first.1)),
        lists(
            es2,
            saved_in(Some(file_of(es1, other_lines(content)))).insert(trim_of(second.0), second.1),
        ),
    ensures
        text_lines(Some(file_of(es2, other_lines(content)))).len() == text_lines(
            Some(file_of(es1, other_lines(content))),
        ).len(),
        saved_in(Some(file_of(es2, other_lines(content)))).dom() == saved_in(
            Some(file_of(es1, other_lines(content))),
        ).dom(),
        saved_in(Some(file_of(es2, other_lines(content))))[trim_of(second.0)] == strip_cr(
            second.1,
        ),
{
    let file1 = file_of(es1, other_lines(content));
    law_save_then_read(content, first.0, first.1, es1);
    law_save_then_read(Some(file1), second.0, second.1, es2);
    let m1 = saved_in(content).insert(trim_of(first.0), first.1);
    let m2 = saved_in(Some(file1)).insert(trim_of(second.0), second.1);
    lemma_lists_len(es1, m1);
    lemma_lists_len(es2, m2);
    assert(m1.dom() =~= saved_in(Some(file1)).dom());
    assert(m2.dom() =~= saved_in(Some(file1)).dom());
}

// ---------------------------------------------------------------------------
// The format of the file, character by character
// ---------------------------------------------------------------------------

/// What a line tells: the SSID is what stands before the first tab, without the white space
/// around it, and the password is all that stands behind that tab, further tabs and white space
/// included.  A line without a tab tells nothing, and neither does one with a blank SSID.
pub proof fn law_entry_read(
    left: Seq<char>,
    ssid: Seq<char>,
    right: Seq<char>,
    password: Seq<char>,
)
    requires
        blank(left),
        blank(right),
        !left.contains('\t'),
        !ssid.contains('\t'),
        !right.contains('\t'),
        ssid.len() > 0,
        !white_space(ssid[0]),
        !white_space(ssid.last()),
    ensures
        entry_of(left + ssid + right + seq!['\t'] + password) == Some((ssid, password)),
        entry_of(left + seq!['\t'] + password) is None,
        entry_of(left + ssid + right) is None,
{
    let name = left + ssid + right;
    assert(!name.contains('\t')) by {
        if name.contains('\t') {
            let j = choose|j: int| 0 <= j < name.len() && name[j] == '\t';
            if j < left.len() {
                assert(left[j] == '\t');
            } else if j < left.len() + ssid.len() {
                assert(ssid[j - left.len()] == '\t');
            } else {
                assert(right[j - left.len() - ssid.len()] == '\t');
            }
        }
    }
    law_split_once(name, '\t', name, password);
    law_split_once(name, '\t', left, password);
    law_trim(left, ssid, right);
    let none = Seq::<char>::empty();
    law_trim(left, none, none);
    assert(left + none + none =~= left);
}

/// The last line for an SSID counts: line `i` of the lines that are text gives its password,
/// if no later one is for the same SSID.
pub proof fn law_last_line_counts(
    content: Option<Seq<u8>>,
    i: int,
    ssid: Seq<char>,
    password: Seq<char>,
)
    requires
        0 <= i < text_lines(content).len(),
        entry_of(text_lines(content)[i]) == Some((ssid, password)),
        forall|j: int|
            i < j < text_lines(content).len() ==> (entry_of(
                #[trigger] text_lines(content)[j],
            ) matches Some(e) ==> e.0 != ssid),
    ensures
        saved_in(content).dom().contains(ssid),
        saved_in(content)[ssid] == password,
{
    lemma_last_entry(text_lines(content), i, ssid, password);
}

/// The last entry for an SSID is the one that is kept.
proof fn lemma_last_entry(ls: Seq<Seq<char>>, i: int, ssid: Seq<char>, password: Seq<char>)
    requires
        0 <= i < ls.len(),
        entry_of(ls[i]) == Some((ssid, password)),
        forall|j: int|
            i < j < ls.len() ==> (entry_of(#[trigger] ls[j]) matches Some(e) ==> e.0 != ssid),
    ensures
        saved_in_lines(ls).dom().contains(ssid),
        saved_in_lines(ls)[ssid] == password,
    decreases ls.len(),
{
    let n = ls.len() - 1;
    if i < n {
        let rest = ls.drop_last();
        assert forall|j: int| i < j < rest.len() implies (entry_of(
            #[trigger] rest[j],
        ) matches Some(e) ==> e.0 != ssid) by {
            assert(rest[j] == ls[j]);
        }
        lemma_last_entry(rest, i, ssid, password);
        assert(entry_of(ls[n]) matches Some(e) ==> e.0 != ssid);
    }
}

/// Nothing is saved for an SSID that no line is for.
pub proof fn law_no_line_nothing_saved(content: Option<Seq<u8>>, ssid: Seq<char>)
    requires
        forall|j: int|
            0 <= j < text_lines(content).len() ==> (entry_of(
                #[trigger] text_lines(content)[j],
            ) matches Some(e) ==> e.0 != ssid),
    ensures
        !saved_in(content).dom().contains(ssid),
{
    lemma_no_entry(text_lines(content), ssid);
}

/// Lines that are not for an SSID save nothing for it.
proof fn lemma_no_entry(ls: Seq<Seq<char>>, ssid: Seq<char>)
    requires
        forall|j: int|
            0 <= j < ls.len() ==> (entry_of(#[trigger] ls[j]) matches Some(e) ==> e.0 != ssid),
    ensures
        !saved_in_lines(ls).dom().contains(ssid),
    decreases ls.len(),
{
    if ls.len() > 0 {
        let rest = ls.drop_last();
        assert forall|j: int| 0 <= j < rest.len() implies (entry_of(
            #[trigger] rest[j],
        ) matches Some(e) ==> e.0 != ssid) by {
            assert(rest[j] == ls[j]);
        }
        lemma_no_entry(rest, ssid);
        assert(entry_of(ls[ls.len() - 1]) matches Some(e) ==> e.0 != ssid);
    }
}

/// The lines that are text, in an absent file, in a file of text, and in one with any line in
/// front: they are the lines of the text, and a line that is not valid UTF-8 is left out and
/// set aside.
pub proof fn law_lines_of_file(text: Seq<char>, line: Seq<u8>, rest: Seq<u8>)
    requires
        forall|i: int| 0 <= i < line.len() ==> line[i] != 10,
        !valid_utf8(line.push(10)),
    ensures
        text_lines(None).len() == 0,
        other_lines(None).len() == 0,
        text_lines(Some(encode_utf8(text))) == lines_of(text),
        other_lines(Some(encode_utf8(text))).len() == 0,
        text_lines(Some(line.push(10) + rest)) == text_lines(Some(rest)),
        other_lines(Some(line.push(10) + rest)) == seq![line.push(10)] + other_lines(Some(rest)),
{
    law_text_is_readable(text);
    law_line_by_line(line, rest);
    assert(raw_lines(Seq::<u8>::empty()) =~= Seq::<Seq<u8>>::empty());
}

/// How entries are written: the SSID, a tab, the password and a line feed for each, one after
/// the other.
pub proof fn law_entries_written(e: Entry, a: Seq<Entry>, b: Seq<Entry>)
    ensures
        render(seq![e]) == e.0 + seq!['\t'] + e.1 + seq!['\n'],
        render(a + b) == render(a) + render(b),
    decreases b.len(),
{
    let one = seq![e];
    assert(one.drop_last() =~= Seq::<Entry>::empty());
    assert(render(one.drop_last()) =~= Seq::<char>::empty());
    assert(render(one) =~= e.0 + seq!['\t'] + e.1 + seq!['\n']);
    if b.len() == 0 {
        assert(a + b =~= a);
        assert(render(a) + render(b) =~= render(a));
    } else {
        law_entries_written(e, a, b.drop_last());
        assert((a + b).drop_last() =~= a + b.drop_last());
        assert((a + b).last() == b.last());
        assert(render(a + b) =~= render(a) + render(b));
    }
}

/// A file that was not there before holds the one line.
pub proof fn law_new_file(ssid: Seq<char>, password: Seq<char>, es: Seq<Entry>)
    requires
        lists(es, saved_in(None).insert(ssid, password)),
    ensures
        file_of(es, other_lines(None)) == encode_utf8(
            ssid + seq!['\t'] + password + seq!['\n'],
        ),
{
    assert(raw_lines(Seq::<u8>::empty()) =~= Seq::<Seq<u8>>::empty());
    let m = saved_in(None).insert(ssid, password);
    assert(m.dom().contains(ssid));
    let i = choose|i: int| 0 <= i < es.len() && #[trigger] es[i].0 == ssid;
    assert forall|k: int| 0 <= k < es.len() implies #[trigger] es[k].0 == ssid by {
        assert(m.dom().contains(es[k].0));
    }
    if es.len() > 1 {
        assert(es[0].0 != es[1].0);
    }
    assert(m[es[0].0] == es[0].1);
    assert(es =~= seq![(ssid, password)]);
    law_entries_written((ssid, password), es, es);
    assert(joined(other_lines(None)) =~= Seq::<u8>::empty());
    assert(file_of(es, other_lines(None)) =~= encode_utf8(render(es)));
}

/// What a line can hold: an SSID that is not empty, neither begins nor ends with white space
/// and holds no tab and no line feed, with a password that holds no line feed.  Under such an
/// SSID a password is written, however much white space was given around it; any other SSID is
/// written as it was given.
pub proof fn law_what_a_line_holds(
    ssid: Seq<char>,
    password: Seq<char>,
    left: Seq<char>,
    right: Seq<char>,
)
    requires
        blank(left),
        blank(right),
    ensures
        ({
            let named = ssid.len() > 0 && !white_space(ssid[0]) && !white_space(ssid.last())
                && !ssid.contains('\t') && !ssid.contains('\n');
            &&& storable((ssid, password)) <==> named && !password.contains('\n')
            &&& named ==> written_ssid(left + ssid + right) == ssid
            &&& written_ssid(left) == left
        }),
        trim_of(ssid).contains('\t') || trim_of(ssid).contains('\n') ==> written_ssid(ssid) == ssid,
{
    let none = Seq::<char>::empty();
    if ssid.len() > 0 && !white_space(ssid[0]) && !white_space(ssid.last()) {
        law_trim(left, ssid, right);
    }
    law_trim(left, none, none);
    assert(left + none + none =~= left);
}

/// A line that is not valid UTF-8 stands in the file after saving just as it stood before,
/// line feed included, whatever is saved and wherever the line was.
pub proof fn law_other_line_kept(
    before: Seq<u8>,
    line: Seq<u8>,
    rest: Seq<u8>,
    es: Seq<Entry>,
)
    requires
        before.len() > 0 ==> before.last() == 10,
        forall|i: int| 0 <= i < line.len() ==> line[i] != 10,
        !valid_utf8(line.push(10)),
    ensures
        exists|x: Seq<u8>, y: Seq<u8>|
            file_of(es, other_lines(Some(before + (line.push(10) + rest)))) == #[trigger] x.add(
                line.push(10),
            ).add(y),
{
    let whole = line.push(10);
    law_line_by_line(line, rest);
    lemma_raw_lines_append(before, whole + rest);
    lemma_readable_append(raw_lines(before), raw_lines(whole + rest));
    let u = unreadable(raw_lines(before));
    let w = unreadable(raw_lines(rest));
    let one = seq![whole];
    lemma_joined_append(u, one + w);
    lemma_joined_append(one, w);
    assert(one.drop_last() =~= Seq::<Seq<u8>>::empty());
    assert(joined(one.drop_last()) =~= Seq::<u8>::empty());
    assert(joined(one) =~= whole);
    let x = encode_utf8(render(es)) + joined(u);
    assert(file_of(es, other_lines(Some(before + (whole + rest)))) =~= x.add(whole).add(
        joined(w),
    ));
}

/// The file is `password.wifi`, right in the home directory.
pub proof fn law_pw_path(home: Seq<u8>)
    ensures
        PW_FILE_NAME@ == "password.wifi"@,
        home.len() > 0 && home.last() != 47 ==> path_in(home, encode_utf8(PW_FILE_NAME@))
            == home.push(47) + encode_utf8("password.wifi"@),
        home.len() == 0 || home.last() == 47 ==> path_in(home, encode_utf8(PW_FILE_NAME@)) == home
            + encode_utf8("password.wifi"@),
{
    assert(home + seq!['/' as u8] =~= home.push(47));
}

/// A line of text in front of any content, text or not, is read, without its line ending, and
/// what follows is read as it would be alone.
pub proof fn law_line_before_content(line: Seq<char>, rest: Seq<u8>)
    requires
        !line.contains('\n'),
        line.len() == 0 || line.last() != '\r',
    ensures
        ({
            let content = Some(encode_utf8(line + seq!['\n']) + rest);
            &&& text_lines(content) == seq![line] + text_lines(Some(rest))
            &&& other_lines(content) == other_lines(Some(rest))
        }),
{
    let t = line + seq!['\n'];
    let none = Seq::<char>::empty();
    law_text_is_readable(t);
    law_lines(line, none);
    assert(t + none =~= t);
    assert(lines_of(t) =~= seq![line]);
    lemma_encode_ends(t);
    lemma_raw_lines_append(encode_utf8(t), rest);
    lemma_readable_append(raw_lines(encode_utf8(t)), raw_lines(rest));
    assert(Seq::<Seq<u8>>::empty() + other_lines(Some(rest)) =~= other_lines(Some(rest)));
}

} // verus!

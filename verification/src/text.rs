//! Text handling over Unicode scalar values.
//!
//! The output of `wpa_cli` and the credentials file are plain text made of
//! lines and tab-separated columns.  Each operation comes as a specification
//! over `Seq<char>` and an executable function on `&str` proved against it.

use vstd::prelude::*;

verus! {

/// The views of a list of string slices.
pub open spec fn str_views(v: Seq<&str>) -> Seq<Seq<char>> {
    v.map_values(|s: &str| s@)
}

/// The views of a list of strings.
pub open spec fn string_views(v: Seq<String>) -> Seq<Seq<char>> {
    v.map_values(|s: String| s@)
}

/// The view of an optional string.
pub open spec fn opt_view(o: Option<String>) -> Option<Seq<char>> {
    match o {
        Some(s) => Some(s@),
        None => None,
    }
}

/// The view of an optional string slice.
pub open spec fn opt_str_view(o: Option<&str>) -> Option<Seq<char>> {
    match o {
        Some(s) => Some(s@),
        None => None,
    }
}

/// The characters of `s`.
pub fn chars_of(s: &str) -> (cs: Vec<char>)
    ensures
        cs@ == s@,
{
    let mut cs: Vec<char> = Vec::new();
    for c in it: s.chars()
        invariant
            it.seq() == s@,
            cs@ == s@.take(it.index()),
    {
        cs.push(c);
    }
    assert(s@.take(s@.len() as int) =~= s@);
    cs
}

/// Whether two string slices hold the same text.
pub fn same_text(a: &str, b: &str) -> (r: bool)
    ensures
        r == (a@ == b@),
{
    let x: Vec<char> = chars_of(a);
    let y: Vec<char> = chars_of(b);
    if x.len() != y.len() {
        return false;
    }
    let mut i: usize = 0;
    while i < x.len()
        invariant
            i <= x.len(),
            x@ == a@,
            y@ == b@,
            x.len() == y.len(),
            forall|j: int| 0 <= j < i ==> x@[j] == y@[j],
        decreases x.len() - i,
    {
        if x[i] != y[i] {
            return false;
        }
        i += 1;
    }
    assert(a@ =~= b@);
    true
}

// ---------------------------------------------------------------------------
// Searching
// ---------------------------------------------------------------------------

/// The position of the first `c` in `s`, or the length of `s` if there is none.
pub open spec fn find_char(s: Seq<char>, c: char) -> int
    decreases s.len(),
{
    if s.len() == 0 || s[0] == c {
        0
    } else {
        1 + find_char(s.skip(1), c)
    }
}

/// `find_char` is the first occurrence.
pub proof fn lemma_find_char(s: Seq<char>, c: char)
    ensures
        0 <= find_char(s, c) <= s.len(),
        forall|j: int| 0 <= j < find_char(s, c) ==> s[j] != c,
        find_char(s, c) < s.len() ==> s[find_char(s, c)] == c,
    decreases s.len(),
{
    if s.len() == 0 || s[0] == c {
    } else {
        lemma_find_char(s.skip(1), c);
        let k = find_char(s.skip(1), c);
        assert forall|j: int| 0 <= j < 1 + k implies s[j] != c by {
            if j > 0 {
                assert(s.skip(1)[j - 1] == s[j]);
            }
        }
    }
}

/// The first occurrence is unique.
pub proof fn lemma_find_char_is(s: Seq<char>, c: char, i: int)
    requires
        0 <= i <= s.len(),
        forall|j: int| 0 <= j < i ==> s[j] != c,
        i < s.len() ==> s[i] == c,
    ensures
        find_char(s, c) == i,
{
    lemma_find_char(s, c);
    let k = find_char(s, c);
    if k < i {
        assert(s[k] != c);
    } else if i < k {
        assert(s[i] != c);
    }
}

/// The first position of `c` at or after `from`, or the length if there is none.
pub fn find_from(cs: &Vec<char>, from: usize, c: char) -> (r: usize)
    requires
        from <= cs.len(),
    ensures
        from <= r <= cs.len(),
        r == from + find_char(cs@.skip(from as int), c),
{
    let mut i: usize = from;
    while i < cs.len() && cs[i] != c
        invariant
            from <= i <= cs.len(),
            forall|j: int| from <= j < i ==> cs@[j] != c,
        decreases cs.len() - i,
    {
        i += 1;
    }
    proof {
        lemma_find_char_is(cs@.skip(from as int), c, i - from);
    }
    i
}

/// Whether `p` stands in `s` at position `i`.
pub open spec fn occurs_at(s: Seq<char>, p: Seq<char>, i: int) -> bool {
    0 <= i && i + p.len() <= s.len() && s.subrange(i, i + p.len()) == p
}

/// Whether `p` stands somewhere in `s`.
pub open spec fn contains_text(s: Seq<char>, p: Seq<char>) -> bool {
    exists|i: int| #[trigger] occurs_at(s, p, i)
}

/// Whether `y` stands in `x` at position `i`.
fn matches_at(x: &Vec<char>, y: &Vec<char>, i: usize) -> (r: bool)
    requires
        i <= x.len(),
    ensures
        r == occurs_at(x@, y@, i as int),
{
    if x.len() - i < y.len() {
        return false;
    }
    let mut j: usize = 0;
    while j < y.len()
        invariant
            i <= x.len(),
            y.len() <= x.len() - i,
            j <= y.len(),
            forall|k: int| 0 <= k < j ==> x@[i + k] == y@[k],
        decreases y.len() - j,
    {
        if x[i + j] != y[j] {
            assert(x@.subrange(i as int, i + y@.len())[j as int] != y@[j as int]);
            return false;
        }
        j += 1;
    }
    assert(x@.subrange(i as int, i + y@.len()) =~= y@);
    true
}

/// Whether the text `p` stands somewhere in `s`.
pub fn contains(s: &str, p: &str) -> (r: bool)
    ensures
        r == contains_text(s@, p@),
{
    let x: Vec<char> = chars_of(s);
    let y: Vec<char> = chars_of(p);
    let mut i: usize = 0;
    while i < x.len()
        invariant
            i <= x.len(),
            x@ == s@,
            y@ == p@,
            forall|k: int| 0 <= k < i ==> !occurs_at(s@, p@, k),
        decreases x.len() - i,
    {
        if matches_at(&x, &y, i) {
            return true;
        }
        i += 1;
    }
    let last: bool = matches_at(&x, &y, i);
    proof {
        if !last {
            assert forall|k: int| !(#[trigger] occurs_at(s@, p@, k)) by {
                if 0 <= k < i {
                }
            }
        }
    }
    last
}

/// Whether the character `c` stands in `s`.
pub fn contains_char(s: &str, c: char) -> (r: bool)
    ensures
        r == s@.contains(c),
{
    let cs: Vec<char> = chars_of(s);
    let i: usize = find_from(&cs, 0, c);
    proof {
        assert(cs@.skip(0) =~= s@);
        lemma_find_char(s@, c);
        if i < cs.len() {
            assert(s@[i as int] == c);
        }
    }
    i < cs.len()
}

/// What follows the prefix `p` in `s`, if `s` begins with it.
pub open spec fn strip_prefix_of(s: Seq<char>, p: Seq<char>) -> Option<Seq<char>> {
    if p.is_prefix_of(s) {
        Some(s.skip(p.len() as int))
    } else {
        None
    }
}

/// What follows the prefix `p` in `s`, if `s` begins with it.
pub fn strip_prefix<'a>(s: &'a str, p: &str) -> (r: Option<&'a str>)
    ensures
        opt_str_view(r) == strip_prefix_of(s@, p@),
{
    let x: Vec<char> = chars_of(s);
    let y: Vec<char> = chars_of(p);
    let found: bool = matches_at(&x, &y, 0);
    proof {
        if p@.len() <= s@.len() {
            if found {
                assert(p@ =~= s@.subrange(0, p@.len() as int));
            }
            assert(s@.skip(p@.len() as int) =~= s@.subrange(p@.len() as int, s@.len() as int));
        }
    }
    if found {
        Some(s.substring_char(y.len(), x.len()))
    } else {
        None
    }
}

// ---------------------------------------------------------------------------
// Splitting
// ---------------------------------------------------------------------------

/// The parts before and after the first `c` in `s`, if there is one.
pub open spec fn split_once_of(s: Seq<char>, c: char) -> Option<(Seq<char>, Seq<char>)> {
    let i = find_char(s, c);
    if i < s.len() {
        Some((s.take(i), s.skip(i + 1)))
    } else {
        None
    }
}

/// The parts before and after the first `c` in `s`, if there is one.
pub fn split_once<'a>(s: &'a str, c: char) -> (r: Option<(&'a str, &'a str)>)
    ensures
        match split_once_of(s@, c) {
            Some((a, b)) => r matches Some(p) && p.0@ == a && p.1@ == b,
            None => r is None,
        },
{
    let cs: Vec<char> = chars_of(s);
    let i: usize = find_from(&cs, 0, c);
    proof {
        assert(cs@.skip(0) =~= s@);
    }
    if i < cs.len() {
        proof {
            assert(s@.take(i as int) =~= s@.subrange(0, i as int));
            assert(s@.skip(i + 1) =~= s@.subrange(i + 1, s@.len() as int));
        }
        Some((s.substring_char(0, i), s.substring_char(i + 1, cs.len())))
    } else {
        None
    }
}

/// The pieces of `s` between the first `n - 1` occurrences of `c`; the last
/// piece holds all that is left.
pub open spec fn splitn_of(s: Seq<char>, c: char, n: nat) -> Seq<Seq<char>>
    decreases n,
{
    if n == 0 {
        Seq::empty()
    } else if n == 1 || find_char(s, c) == s.len() {
        seq![s]
    } else {
        seq![s.take(find_char(s, c))] + splitn_of(s.skip(find_char(s, c) + 1), c, (n - 1) as nat)
    }
}

/// The pieces of `s` between the first `n - 1` occurrences of `c`; the last
/// piece holds all that is left.
pub fn splitn<'a>(s: &'a str, c: char, n: usize) -> (v: Vec<&'a str>)
    ensures
        str_views(v@) == splitn_of(s@, c, n as nat),
{
    let cs: Vec<char> = chars_of(s);
    let mut v: Vec<&'a str> = Vec::new();
    let mut start: usize = 0;
    let mut left: usize = n;
    proof {
        assert(s@.skip(0) =~= s@);
        assert(str_views(v@) + splitn_of(s@, c, n as nat) =~= splitn_of(s@, c, n as nat));
    }
    while left > 0
        invariant
            start <= cs.len(),
            cs@ == s@,
            str_views(v@) + splitn_of(s@.skip(start as int), c, left as nat) == splitn_of(
                s@,
                c,
                n as nat,
            ),
        decreases left,
    {
        let ghost rest = s@.skip(start as int);
        let ghost before = str_views(v@);
        let end: usize = find_from(&cs, start, c);
        if left == 1 || end == cs.len() {
            let piece: &'a str = s.substring_char(start, cs.len());
            v.push(piece);
            proof {
                assert(rest =~= s@.subrange(start as int, s@.len() as int));
                assert(str_views(v@) =~= before.push(piece@));
                assert(before + splitn_of(rest, c, left as nat) =~= before.push(rest));
                assert(str_views(v@) + Seq::<Seq<char>>::empty() =~= str_views(v@));
            }
            left = 0;
        } else {
            let piece: &'a str = s.substring_char(start, end);
            v.push(piece);
            proof {
                let k = find_char(rest, c);
                assert(rest.take(k) =~= s@.subrange(start as int, end as int));
                assert(rest.skip(k + 1) =~= s@.skip(end + 1));
                assert(str_views(v@) =~= before.push(piece@));
                assert(before + splitn_of(rest, c, left as nat) =~= before.push(piece@)
                    + splitn_of(s@.skip(end + 1), c, (left - 1) as nat));
            }
            start = end + 1;
            left = left - 1;
        }
    }
    proof {
        assert(str_views(v@) + Seq::<Seq<char>>::empty() =~= str_views(v@));
    }
    v
}

/// `s` without one carriage return at its end.
pub open spec fn strip_cr(s: Seq<char>) -> Seq<char> {
    if s.len() > 0 && s.last() == '\r' {
        s.drop_last()
    } else {
        s
    }
}

/// The lines of `s`.  A line ends with a line feed, or with a carriage return
/// and a line feed; the ending of the final line is optional, and a carriage
/// return that no line feed follows belongs to the line.
pub open spec fn lines_of(s: Seq<char>) -> Seq<Seq<char>>
    decreases s.len(),
{
    if s.len() == 0 {
        Seq::empty()
    } else if !(0 <= find_char(s, '\n') < s.len()) {
        seq![s]
    } else {
        seq![strip_cr(s.take(find_char(s, '\n')))] + lines_of(s.skip(find_char(s, '\n') + 1))
    }
}

/// The lines of `s`.
pub fn lines<'a>(s: &'a str) -> (v: Vec<&'a str>)
    ensures
        str_views(v@) == lines_of(s@),
{
    let cs: Vec<char> = chars_of(s);
    let mut v: Vec<&'a str> = Vec::new();
    let mut start: usize = 0;
    proof {
        assert(s@.skip(0) =~= s@);
        assert(str_views(v@) + lines_of(s@) =~= lines_of(s@));
    }
    while start < cs.len()
        invariant
            start <= cs.len(),
            cs@ == s@,
            str_views(v@) + lines_of(s@.skip(start as int)) == lines_of(s@),
        decreases cs.len() - start,
    {
        let ghost rest = s@.skip(start as int);
        let ghost before = str_views(v@);
        let end: usize = find_from(&cs, start, '\n');
        if end == cs.len() {
            let piece: &'a str = s.substring_char(start, end);
            v.push(piece);
            proof {
                assert(rest =~= s@.subrange(start as int, s@.len() as int));
                assert(str_views(v@) =~= before.push(piece@));
                assert(before + lines_of(rest) =~= before.push(rest));
                assert(lines_of(s@.skip(end as int)) =~= Seq::<Seq<char>>::empty());
                assert(str_views(v@) + Seq::<Seq<char>>::empty() =~= str_views(v@));
            }
            start = end;
        } else {
            let stop: usize = if end > start && cs[end - 1] == '\r' {
                end - 1
            } else {
                end
            };
            let piece: &'a str = s.substring_char(start, stop);
            v.push(piece);
            proof {
                let k = find_char(rest, '\n');
                let line = rest.take(k);
                if k > 0 {
                    assert(line.last() == s@[end - 1]);
                }
                assert(strip_cr(line) =~= s@.subrange(start as int, stop as int));
                assert(rest.skip(k + 1) =~= s@.skip(end + 1));
                assert(str_views(v@) =~= before.push(piece@));
                assert(before + lines_of(rest) =~= before.push(piece@) + lines_of(
                    s@.skip(end + 1),
                ));
            }
            start = end + 1;
        }
    }
    proof {
        assert(lines_of(s@.skip(start as int)) =~= Seq::<Seq<char>>::empty());
        assert(str_views(v@) + Seq::<Seq<char>>::empty() =~= str_views(v@));
    }
    v
}

/// No line holds a line feed.
pub proof fn lemma_lines_no_feed(s: Seq<char>)
    ensures
        forall|i: int| 0 <= i < lines_of(s).len() ==> !(#[trigger] lines_of(s)[i]).contains('\n'),
    decreases s.len(),
{
    if s.len() > 0 {
        lemma_find_char(s, '\n');
        let k = find_char(s, '\n');
        if k == s.len() {
            assert(!s.contains('\n'));
        } else {
            let line = strip_cr(s.take(k));
            assert(!line.contains('\n')) by {
                if line.contains('\n') {
                    let j = choose|j: int| 0 <= j < line.len() && line[j] == '\n';
                    assert(s[j] == '\n');
                }
            }
            lemma_lines_no_feed(s.skip(k + 1));
            assert forall|i: int| 0 <= i < lines_of(s).len() implies !(
            #[trigger] lines_of(s)[i]).contains('\n') by {
                if i > 0 {
                    assert(lines_of(s)[i] == lines_of(s.skip(k + 1))[i - 1]);
                }
            }
        }
    }
}

// ---------------------------------------------------------------------------
// Trimming
// ---------------------------------------------------------------------------

/// Whether `c` has the Unicode property `White_Space`.
pub open spec fn white_space(c: char) -> bool {
    ||| '\u{9}' <= c <= '\u{d}'
    ||| c == ' '
    ||| c == '\u{85}'
    ||| c == '\u{a0}'
    ||| c == '\u{1680}'
    ||| '\u{2000}' <= c <= '\u{200a}'
    ||| c == '\u{2028}'
    ||| c == '\u{2029}'
    ||| c == '\u{202f}'
    ||| c == '\u{205f}'
    ||| c == '\u{3000}'
}

/// Whether `c` has the Unicode property `White_Space`.
pub fn is_whitespace(c: char) -> (r: bool)
    ensures
        r == white_space(c),
{
    ('\u{9}' <= c && c <= '\u{d}') || c == ' ' || c == '\u{85}' || c == '\u{a0}' || c == '\u{1680}'
        || ('\u{2000}' <= c && c <= '\u{200a}') || c == '\u{2028}' || c == '\u{2029}' || c
        == '\u{202f}' || c == '\u{205f}' || c == '\u{3000}'
}

/// `s` without the white space at its start.
pub open spec fn trim_start_of(s: Seq<char>) -> Seq<char>
    decreases s.len(),
{
    if s.len() > 0 && white_space(s[0]) {
        trim_start_of(s.skip(1))
    } else {
        s
    }
}

/// `s` without the white space at its end.
pub open spec fn trim_end_of(s: Seq<char>) -> Seq<char>
    decreases s.len(),
{
    if s.len() > 0 && white_space(s.last()) {
        trim_end_of(s.drop_last())
    } else {
        s
    }
}

/// `s` without the white space at both ends.
pub open spec fn trim_of(s: Seq<char>) -> Seq<char> {
    trim_end_of(trim_start_of(s))
}

/// Whether `s` neither begins nor ends with white space.
pub open spec fn is_trimmed(s: Seq<char>) -> bool {
    s.len() > 0 ==> !white_space(s[0]) && !white_space(s.last())
}

/// What trimming the start keeps is the rest from some position on.
pub proof fn lemma_trim_start(s: Seq<char>)
    ensures
        trim_start_of(s).len() <= s.len(),
        trim_start_of(s) == s.skip(s.len() - trim_start_of(s).len()),
        trim_start_of(s).len() > 0 ==> !white_space(trim_start_of(s)[0]),
    decreases s.len(),
{
    if s.len() > 0 && white_space(s[0]) {
        lemma_trim_start(s.skip(1));
        let t = trim_start_of(s);
        assert(s.skip(1).skip(s.len() - 1 - t.len()) =~= s.skip(s.len() - t.len()));
    } else {
        assert(s =~= s.skip(0));
    }
}

/// What trimming the end keeps is a prefix.
pub proof fn lemma_trim_end(s: Seq<char>)
    ensures
        trim_end_of(s).len() <= s.len(),
        trim_end_of(s) == s.take(trim_end_of(s).len() as int),
        trim_end_of(s).len() > 0 ==> !white_space(trim_end_of(s).last()),
    decreases s.len(),
{
    if s.len() > 0 && white_space(s.last()) {
        lemma_trim_end(s.drop_last());
        let t = trim_end_of(s);
        assert(s.drop_last().take(t.len() as int) =~= s.take(t.len() as int));
    } else {
        assert(s =~= s.take(s.len() as int));
    }
}

/// Trimming leaves a stretch of the text, without white space at its ends.
pub proof fn lemma_trim(s: Seq<char>)
    ensures
        trim_of(s).len() <= s.len(),
        is_trimmed(trim_of(s)),
        forall|c: char| trim_of(s).contains(c) ==> s.contains(c),
{
    lemma_trim_start(s);
    lemma_trim_end(trim_start_of(s));
    let t = trim_start_of(s);
    let u = trim_of(s);
    assert forall|c: char| u.contains(c) implies s.contains(c) by {
        let i = choose|i: int| 0 <= i < u.len() && u[i] == c;
        assert(t[i] == c);
        assert(s[s.len() - t.len() + i] == c);
    }
}

/// Trimming changes nothing where there is nothing to trim.
pub proof fn lemma_trim_identity(s: Seq<char>)
    requires
        is_trimmed(s),
    ensures
        trim_of(s) == s,
{
}

/// `s` without the white space at both ends.
pub fn trim<'a>(s: &'a str) -> (r: &'a str)
    ensures
        r@ == trim_of(s@),
{
    let cs: Vec<char> = chars_of(s);
    let mut from: usize = 0;
    proof {
        assert(s@.skip(0) =~= s@);
    }
    while from < cs.len() && is_whitespace(cs[from])
        invariant
            from <= cs.len(),
            cs@ == s@,
            trim_start_of(s@.skip(from as int)) == trim_start_of(s@),
        decreases cs.len() - from,
    {
        proof {
            assert(s@.skip(from as int).skip(1) =~= s@.skip(from + 1));
        }
        from += 1;
    }
    let ghost rest = s@.skip(from as int);
    let mut to: usize = cs.len();
    proof {
        assert(s@.subrange(from as int, to as int) =~= rest);
    }
    while to > from && is_whitespace(cs[to - 1])
        invariant
            from <= to <= cs.len(),
            cs@ == s@,
            trim_end_of(s@.subrange(from as int, to as int)) == trim_end_of(rest),
        decreases to - from,
    {
        proof {
            assert(s@.subrange(from as int, to as int).drop_last() =~= s@.subrange(
                from as int,
                to - 1,
            ));
        }
        to -= 1;
    }
    s.substring_char(from, to)
}

// ---------------------------------------------------------------------------
// Parts of a text
// ---------------------------------------------------------------------------

/// A part of a part is a part.
pub proof fn lemma_contains_transitive(s: Seq<char>, p: Seq<char>, q: Seq<char>)
    requires
        contains_text(s, p),
        contains_text(p, q),
    ensures
        contains_text(s, q),
{
    let i = choose|i: int| #[trigger] occurs_at(s, p, i);
    let j = choose|j: int| #[trigger] occurs_at(p, q, j);
    assert(s.subrange(i + j, i + j + q.len()) =~= q) by {
        assert forall|k: int| 0 <= k < q.len() implies s[i + j + k] == q[k] by {
            assert(q[k] == p.subrange(j, j + q.len())[k]);
            assert(p[j + k] == s.subrange(i, i + p.len())[j + k]);
        }
    }
    assert(occurs_at(s, q, i + j));
}

/// What trimming leaves is a part of the text.
pub proof fn lemma_trim_contained(s: Seq<char>)
    ensures
        contains_text(s, trim_of(s)),
{
    let t = trim_start_of(s);
    let u = trim_of(s);
    lemma_trim_start(s);
    lemma_trim_end(t);
    let i = s.len() - t.len();
    assert(s.subrange(i, i + u.len()) =~= u);
    assert(occurs_at(s, u, i));
}

/// A line is a part of the text.
pub proof fn lemma_line_contained(s: Seq<char>, i: int)
    requires
        0 <= i < lines_of(s).len(),
    ensures
        contains_text(s, lines_of(s)[i]),
    decreases s.len(),
{
    if s.len() > 0 {
        lemma_find_char(s, '\n');
        let k = find_char(s, '\n');
        if k == s.len() {
            assert(s.subrange(0, s.len() as int) =~= s);
            assert(occurs_at(s, s, 0));
        } else if i == 0 {
            let line = strip_cr(s.take(k));
            assert(s.subrange(0, line.len() as int) =~= line);
            assert(occurs_at(s, line, 0));
        } else {
            let rest = s.skip(k + 1);
            lemma_line_contained(rest, i - 1);
            assert(lines_of(s)[i] == lines_of(rest)[i - 1]);
            assert(s.subrange(k + 1, k + 1 + rest.len()) =~= rest);
            assert(occurs_at(s, rest, k + 1));
            lemma_contains_transitive(s, rest, lines_of(s)[i]);
        }
    }
}

// ---------------------------------------------------------------------------
// What the functions do to a text that is put together from parts
// ---------------------------------------------------------------------------

/// A text holds `p` exactly if it is some text, `p` and some text: `a`, `p` and `b` together
/// hold `p`, and a text `s` that holds `p` can be taken apart so.
pub proof fn law_contains_text(s: Seq<char>, p: Seq<char>, a: Seq<char>, b: Seq<char>)
    ensures
        contains_text(a + p + b, p),
        contains_text(s, p) ==> exists|x: Seq<char>, y: Seq<char>| s == #[trigger] x.add(p).add(y),
{
    let t = a + p + b;
    assert(t.subrange(a.len() as int, (a.len() + p.len()) as int) =~= p);
    assert(occurs_at(t, p, a.len() as int));
    if contains_text(s, p) {
        let i = choose|i: int| #[trigger] occurs_at(s, p, i);
        let x = s.take(i);
        let y = s.skip(i + p.len());
        assert(s.subrange(i, i + p.len()) =~= p);
        assert(s =~= x.add(p).add(y)) by {
            assert forall|k: int| 0 <= k < s.len() implies s[k] == x.add(p).add(y)[k] by {
                if i <= k < i + p.len() {
                    assert(s.subrange(i, i + p.len())[k - i] == s[k]);
                }
            }
        }
    }
}

/// What follows a prefix is what stands behind it, and a text that does not begin with `p` has
/// nothing to give.
pub proof fn law_strip_prefix(s: Seq<char>, p: Seq<char>, rest: Seq<char>)
    ensures
        strip_prefix_of(p + rest, p) == Some(rest),
        strip_prefix_of(s, p) matches Some(t) ==> s == p + t,
{
    assert(p =~= (p + rest).subrange(0, p.len() as int));
    assert((p + rest).skip(p.len() as int) =~= rest);
    if p.is_prefix_of(s) {
        assert(s =~= p + s.skip(p.len() as int));
    }
}

/// A text is split at its first `c`, and only where it has one.
pub proof fn law_split_once(s: Seq<char>, c: char, before: Seq<char>, after: Seq<char>)
    requires
        !before.contains(c),
    ensures
        split_once_of(before + seq![c] + after, c) == Some((before, after)),
        split_once_of(s, c) is None <==> !s.contains(c),
{
    let t = before + seq![c] + after;
    let n = before.len() as int;
    assert forall|j: int| 0 <= j < n implies t[j] != c by {
        assert(before.contains(before[j]));
    }
    lemma_find_char_is(t, c, n);
    assert(t.take(n) =~= before);
    assert(t.skip(n + 1) =~= after);
    lemma_find_char(s, c);
    if s.contains(c) {
        let j = choose|j: int| 0 <= j < s.len() && s[j] == c;
    }
}

/// Splitting into at most `n` pieces cuts at the first `c` and goes on behind it; a text
/// without `c` is one piece, and so is any text where one piece is allowed.
pub proof fn law_splitn(whole: Seq<char>, c: char, first: Seq<char>, rest: Seq<char>, n: nat)
    requires
        !first.contains(c),
        n >= 2,
    ensures
        splitn_of(first + seq![c] + rest, c, n) == seq![first] + splitn_of(
            rest,
            c,
            (n - 1) as nat,
        ),
        splitn_of(first, c, n) == seq![first],
        splitn_of(whole, c, 1) == seq![whole],
{
    let t = first + seq![c] + rest;
    let k = first.len() as int;
    assert forall|j: int| 0 <= j < k implies t[j] != c by {
        assert(first.contains(first[j]));
    }
    assert forall|j: int| 0 <= j < k implies first[j] != c by {
        assert(first.contains(first[j]));
    }
    lemma_find_char_is(t, c, k);
    lemma_find_char_is(first, c, k);
    assert(t.take(k) =~= first);
    assert(t.skip(k + 1) =~= rest);
}

/// The lines of a text: a line feed ends the first one, together with a carriage return in
/// front of it, and the others follow; what no line feed ends is a line as it stands; an empty
/// text has none.
pub proof fn law_lines(first: Seq<char>, rest: Seq<char>)
    requires
        !first.contains('\n'),
    ensures
        lines_of(first + seq!['\r', '\n'] + rest) == seq![first] + lines_of(rest),
        first.len() == 0 || first.last() != '\r' ==> lines_of(first + seq!['\n'] + rest)
            == seq![first] + lines_of(rest),
        first.len() > 0 ==> lines_of(first) == seq![first],
        lines_of(Seq::<char>::empty()) == Seq::<Seq<char>>::empty(),
{
    let n = first.len() as int;
    assert forall|j: int| 0 <= j < n implies first[j] != '\n' by {
        assert(first.contains(first[j]));
    }
    let t = first + seq!['\n'] + rest;
    lemma_find_char_is(t, '\n', n);
    assert(t.take(n) =~= first);
    assert(t.skip(n + 1) =~= rest);
    let u = first + seq!['\r', '\n'] + rest;
    lemma_find_char_is(u, '\n', n + 1);
    assert(u.take(n + 1) =~= first.push('\r'));
    assert(first.push('\r').drop_last() =~= first);
    assert(u.skip(n + 2) =~= rest);
    lemma_find_char_is(first, '\n', n);
}

/// White space, by its code points.
pub proof fn law_white_space(c: char)
    ensures
        white_space(c) <==> ({
            let n = c as u32;
            ||| n == 9 || n == 10 || n == 11 || n == 12 || n == 13
            ||| n == 32 || n == 133 || n == 160 || n == 5760
            ||| n == 8192 || n == 8193 || n == 8194 || n == 8195 || n == 8196 || n == 8197
            ||| n == 8198 || n == 8199 || n == 8200 || n == 8201 || n == 8202
            ||| n == 8232 || n == 8233 || n == 8239 || n == 8287 || n == 12288
        }),
{
}

/// Whether `s` is white space throughout.
pub open spec fn blank(s: Seq<char>) -> bool {
    forall|i: int| 0 <= i < s.len() ==> white_space(#[trigger] s[i])
}

/// Trimming takes off the white space around a text and nothing else: where `middle` neither
/// begins nor ends with white space, it is what is left, and of mere white space nothing is.
pub proof fn law_trim(left: Seq<char>, middle: Seq<char>, right: Seq<char>)
    requires
        blank(left),
        blank(right),
        middle.len() > 0 ==> !white_space(middle[0]) && !white_space(middle.last()),
    ensures
        trim_of(left + middle + right) == middle,
    decreases left.len() + right.len(),
{
    let s = left + middle + right;
    if middle.len() == 0 {
        lemma_trim_blank(s);
    } else if left.len() > 0 {
        assert(white_space(left[0]));
        let rest = left.skip(1);
        assert forall|i: int| 0 <= i < rest.len() implies white_space(#[trigger] rest[i]) by {
            assert(white_space(left[i + 1]));
        }
        law_trim(rest, middle, right);
        assert(s.skip(1) =~= rest + middle + right);
        assert(s[0] == left[0]);
    } else if right.len() > 0 {
        assert(white_space(right[right.len() - 1]));
        let rest = right.drop_last();
        assert forall|i: int| 0 <= i < rest.len() implies white_space(#[trigger] rest[i]) by {
            assert(white_space(right[i]));
        }
        law_trim(left, middle, rest);
        let t = left + middle + rest;
        assert(s.drop_last() =~= t);
        assert(s[0] == middle[0] && t[0] == middle[0]);
        assert(s.last() == right.last());
        assert(trim_start_of(s) == s);
        assert(trim_start_of(t) == t);
    } else {
        assert(s =~= middle);
    }
}

/// Of mere white space nothing is left.
proof fn lemma_trim_blank(s: Seq<char>)
    requires
        blank(s),
    ensures
        trim_of(s) == Seq::<char>::empty(),
    decreases s.len(),
{
    if s.len() > 0 {
        assert(white_space(s[0]));
        let rest = s.skip(1);
        assert forall|i: int| 0 <= i < rest.len() implies white_space(#[trigger] rest[i]) by {
            assert(white_space(s[i + 1]));
        }
        lemma_trim_blank(rest);
    } else {
        assert(s =~= Seq::<char>::empty());
    }
}

/// Every text can be taken apart into white space, what trimming leaves of it, and white space.
pub proof fn law_trim_parts(s: Seq<char>)
    ensures
        exists|left: Seq<char>, right: Seq<char>|
            blank(left) && blank(right) && s == #[trigger] left.add(trim_of(s)).add(right),
        trim_of(s).len() > 0 ==> !white_space(trim_of(s)[0]) && !white_space(trim_of(s).last()),
{
    lemma_trim_start_blank(s);
    let t = trim_start_of(s);
    lemma_trim_end_blank(t);
    lemma_trim(s);
    let u = trim_of(s);
    let left = s.take(s.len() - t.len());
    let right = t.skip(u.len() as int);
    lemma_trim_start(s);
    lemma_trim_end(t);
    assert(s =~= left.add(t));
    assert(t =~= u.add(right));
    assert(s =~= left.add(u).add(right));
}

/// What trimming the start takes off is white space.
proof fn lemma_trim_start_blank(s: Seq<char>)
    ensures
        trim_start_of(s).len() <= s.len(),
        blank(s.take(s.len() - trim_start_of(s).len())),
    decreases s.len(),
{
    if s.len() > 0 && white_space(s[0]) {
        let rest = s.skip(1);
        lemma_trim_start_blank(rest);
        let n = s.len() - trim_start_of(s).len();
        assert forall|i: int| 0 <= i < n implies white_space(#[trigger] s.take(n)[i]) by {
            if i > 0 {
                assert(rest.take(n - 1)[i - 1] == s[i]);
            }
        }
    }
}

/// What trimming the end takes off is white space.
proof fn lemma_trim_end_blank(s: Seq<char>)
    ensures
        trim_end_of(s).len() <= s.len(),
        blank(s.skip(trim_end_of(s).len() as int)),
    decreases s.len(),
{
    if s.len() > 0 && white_space(s.last()) {
        let rest = s.drop_last();
        lemma_trim_end_blank(rest);
        let n = trim_end_of(s).len() as int;
        assert forall|i: int| 0 <= i < s.len() - n implies white_space(
            #[trigger] s.skip(n)[i],
        ) by {
            if n + i < s.len() - 1 {
                assert(rest.skip(n)[i] == s[n + i]);
            }
        }
    }
}

/// One carriage return is taken off the end, and nothing else.
pub proof fn law_strip_cr(s: Seq<char>)
    ensures
        strip_cr(s.push('\r')) == s,
        s.len() == 0 || s.last() != '\r' ==> strip_cr(s) == s,
{
    assert(s.push('\r').drop_last() =~= s);
}

/// The views of optional texts and of lists of texts show each text.
pub proof fn law_text_views(o: Option<String>, p: Option<&str>, v: Seq<&str>, w: Seq<String>)
    ensures
        opt_view(o) == (match o {
            Some(s) => Some(s@),
            None => None,
        }),
        opt_str_view(p) == (match p {
            Some(s) => Some(s@),
            None => None,
        }),
        str_views(v).len() == v.len(),
        forall|i: int| 0 <= i < v.len() ==> #[trigger] str_views(v)[i] == v[i]@,
        string_views(w).len() == w.len(),
        forall|i: int| 0 <= i < w.len() ==> #[trigger] string_views(w)[i] == w[i]@,
{
}

} // verus!

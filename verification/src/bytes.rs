//! Lines of a file that need not be text throughout.
//!
//! The bytes are cut after each line feed.  A line that is valid UTF-8 can be read;
//! any other line is left alone.

use crate::text::{chars_of, find_char, lemma_find_char, lines_of, strip_cr};
use vstd::prelude::*;
use vstd::slice::slice_subrange;
use vstd::utf8::{
    char_is_scalar, decode_utf8, decode_utf8_encode_utf8, encode_scalar, encode_utf8,
    encode_utf8_decode_utf8, encode_utf8_valid_utf8, valid_utf8,
};

verus! {

/// The byte that ends a line.
pub const LINE_FEED: u8 = 10;

/// The length of the first line of `b`, its line feed included.
pub open spec fn first_line_len(b: Seq<u8>) -> int
    decreases b.len(),
{
    if b.len() == 0 {
        0
    } else if b[0] == LINE_FEED {
        1
    } else {
        1 + first_line_len(b.skip(1))
    }
}

/// The lines of `b`, each with the line feed that ends it; the final line may lack one.
pub open spec fn raw_lines(b: Seq<u8>) -> Seq<Seq<u8>>
    decreases b.len(),
{
    let n = first_line_len(b);
    if 0 < n <= b.len() {
        seq![b.take(n)] + raw_lines(b.skip(n))
    } else {
        Seq::empty()
    }
}

/// The lines, one after another.
pub open spec fn joined(ls: Seq<Seq<u8>>) -> Seq<u8>
    decreases ls.len(),
{
    if ls.len() == 0 {
        Seq::empty()
    } else {
        joined(ls.drop_last()) + ls.last()
    }
}

/// `t` without the line ending that it may have: a line feed, or a carriage return and a
/// line feed.
pub open spec fn without_ending(t: Seq<char>) -> Seq<char> {
    if t.len() > 0 && t.last() == '\n' {
        strip_cr(t.drop_last())
    } else {
        t
    }
}

/// The texts of those lines that are valid UTF-8, without their line endings.
pub open spec fn readable(ls: Seq<Seq<u8>>) -> Seq<Seq<char>>
    decreases ls.len(),
{
    if ls.len() == 0 {
        Seq::empty()
    } else if valid_utf8(ls.last()) {
        readable(ls.drop_last()).push(without_ending(decode_utf8(ls.last())))
    } else {
        readable(ls.drop_last())
    }
}

/// Those lines that are not valid UTF-8.
pub open spec fn unreadable(ls: Seq<Seq<u8>>) -> Seq<Seq<u8>>
    decreases ls.len(),
{
    if ls.len() == 0 {
        Seq::empty()
    } else if valid_utf8(ls.last()) {
        unreadable(ls.drop_last())
    } else {
        unreadable(ls.drop_last()).push(ls.last())
    }
}

/// The views of a list of byte slices.
pub open spec fn slice_views(v: Seq<&[u8]>) -> Seq<Seq<u8>> {
    v.map_values(|s: &[u8]| s@)
}

/// The view of optional bytes.
pub open spec fn opt_bytes_view(o: Option<&[u8]>) -> Option<Seq<u8>> {
    match o {
        Some(b) => Some(b@),
        None => None,
    }
}

/// Calls `std::str::from_utf8` and drops what its error tells.
///
/// It succeeds on exactly the bytes that are valid UTF-8, and the text is the one that they
/// encode.
#[verifier::external_body]
fn from_utf8<'a>(bytes: &'a [u8]) -> (r: Option<&'a str>)
    ensures
        r is Some <==> valid_utf8(bytes@),
        r matches Some(s) ==> s@ == decode_utf8(bytes@),
{
    std::str::from_utf8(bytes).ok()
}

/// The first line is as long as up to its line feed.
pub proof fn lemma_first_line_len(b: Seq<u8>)
    ensures
        0 <= first_line_len(b) <= b.len(),
        b.len() > 0 ==> first_line_len(b) > 0,
        forall|j: int| 0 <= j < first_line_len(b) - 1 ==> b[j] != LINE_FEED,
        first_line_len(b) < b.len() ==> b[first_line_len(b) - 1] == LINE_FEED,
    decreases b.len(),
{
    if b.len() > 0 && b[0] != LINE_FEED {
        let rest = b.skip(1);
        lemma_first_line_len(rest);
        let n = first_line_len(rest);
        assert forall|j: int| 0 <= j < n implies b[j] != LINE_FEED by {
            if j > 0 {
                assert(rest[j - 1] == b[j]);
            }
        }
        if n < rest.len() {
            assert(rest[n - 1] == b[n]);
        }
    }
}

/// Where the first line ends.
pub proof fn lemma_first_line_len_is(b: Seq<u8>, n: int)
    requires
        0 < n <= b.len(),
        forall|j: int| 0 <= j < n - 1 ==> b[j] != LINE_FEED,
        n < b.len() ==> b[n - 1] == LINE_FEED,
    ensures
        first_line_len(b) == n,
{
    lemma_first_line_len(b);
    let k = first_line_len(b);
    if k < n {
        assert(b[k - 1] != LINE_FEED);
    } else if n < k {
        assert(b[n - 1] != LINE_FEED);
    }
}

/// The lines of `bytes`, each with the line feed that ends it.
pub fn split_lines<'a>(bytes: &'a [u8]) -> (v: Vec<&'a [u8]>)
    ensures
        slice_views(v@) == raw_lines(bytes@),
{
    let mut v: Vec<&'a [u8]> = Vec::new();
    let mut start: usize = 0;
    proof {
        assert(bytes@.skip(0) =~= bytes@);
        assert(slice_views(v@) + raw_lines(bytes@) =~= raw_lines(bytes@));
    }
    while start < bytes.len()
        invariant
            start <= bytes@.len(),
            slice_views(v@) + raw_lines(bytes@.skip(start as int)) == raw_lines(bytes@),
        decreases bytes@.len() - start,
    {
        let ghost rest = bytes@.skip(start as int);
        let ghost before = slice_views(v@);
        let mut end: usize = start;
        while end < bytes.len() && bytes[end] != LINE_FEED
            invariant
                start <= end <= bytes@.len(),
                forall|j: int| start <= j < end ==> bytes@[j] != LINE_FEED,
            decreases bytes@.len() - end,
        {
            end += 1;
        }
        if end < bytes.len() {
            end += 1;
        }
        let line: &'a [u8] = slice_subrange(bytes, start, end);
        v.push(line);
        proof {
            lemma_first_line_len_is(rest, end - start);
            assert(rest.take(end - start) =~= line@);
            assert(rest.skip(end - start) =~= bytes@.skip(end as int));
            assert(slice_views(v@) =~= before.push(line@));
            assert(before + raw_lines(rest) =~= before.push(line@) + raw_lines(
                bytes@.skip(end as int),
            ));
        }
        start = end;
    }
    proof {
        assert(raw_lines(bytes@.skip(start as int)) =~= Seq::<Seq<u8>>::empty());
        assert(slice_views(v@) + Seq::<Seq<u8>>::empty() =~= slice_views(v@));
    }
    v
}

/// The text of a line without its line ending, if the line is valid UTF-8.
pub fn line_text<'a>(line: &'a [u8]) -> (r: Option<&'a str>)
    ensures
        r is Some <==> valid_utf8(line@),
        r matches Some(s) ==> s@ == without_ending(decode_utf8(line@)),
{
    match from_utf8(line) {
        Some(text) => {
            let cs: Vec<char> = chars_of(text);
            let n: usize = cs.len();
            if n > 0 && cs[n - 1] == '\n' {
                let stop: usize = if n > 1 && cs[n - 2] == '\r' {
                    n - 2
                } else {
                    n - 1
                };
                let body: &'a str = text.substring_char(0, stop);
                proof {
                    let t = text@.drop_last();
                    if n > 1 {
                        assert(t.last() == text@[n - 2]);
                    }
                    assert(strip_cr(t) =~= body@);
                }
                Some(body)
            } else {
                Some(text)
            }
        },
        None => None,
    }
}

// ---------------------------------------------------------------------------
// Lists of lines
// ---------------------------------------------------------------------------

/// Whether `l` is one line: it is not empty, and no line feed stands before its last byte.
pub open spec fn is_line(l: Seq<u8>) -> bool {
    &&& l.len() > 0
    &&& forall|j: int| 0 <= j < l.len() - 1 ==> l[j] != LINE_FEED
}

/// Whether each of `ls` is one line that a line feed ends.
pub open spec fn all_ended(ls: Seq<Seq<u8>>) -> bool {
    forall|i: int|
        0 <= i < ls.len() ==> is_line(#[trigger] ls[i]) && ls[i].last() == LINE_FEED
}

/// Whether `ls` can be the lines of a file: each is one line, and a line feed ends each but
/// perhaps the last.
pub open spec fn file_lines(ls: Seq<Seq<u8>>) -> bool {
    ls.len() > 0 ==> all_ended(ls.drop_last()) && is_line(ls.last())
}

/// One line is the only line of itself.
pub proof fn lemma_raw_lines_one(l: Seq<u8>)
    requires
        is_line(l),
    ensures
        raw_lines(l) == seq![l],
{
    lemma_first_line_len_is(l, l.len() as int);
    assert(l.take(l.len() as int) =~= l);
    assert(l.skip(l.len() as int) =~= Seq::<u8>::empty());
    assert(raw_lines(Seq::<u8>::empty()) =~= Seq::<Seq<u8>>::empty());
    assert(raw_lines(l) =~= seq![l]);
}

/// Behind whole lines the lines go on as they would by themselves.
pub proof fn lemma_raw_lines_append(a: Seq<u8>, b: Seq<u8>)
    requires
        a.len() > 0 ==> a.last() == LINE_FEED,
    ensures
        raw_lines(a + b) == raw_lines(a) + raw_lines(b),
    decreases a.len(),
{
    if a.len() == 0 {
        assert(a + b =~= b);
        assert(raw_lines(a) + raw_lines(b) =~= raw_lines(b));
    } else {
        lemma_first_line_len(a);
        let n = first_line_len(a);
        assert(a[n - 1] == LINE_FEED);
        lemma_first_line_len_is(a + b, n);
        let rest = a.skip(n);
        if rest.len() > 0 {
            assert(rest.last() == a.last());
        }
        lemma_raw_lines_append(rest, b);
        assert((a + b).take(n) =~= a.take(n));
        assert((a + b).skip(n) =~= rest + b);
        assert(raw_lines(a + b) =~= raw_lines(a) + raw_lines(b));
    }
}

/// The lines of a file are such a list.
pub proof fn lemma_raw_lines_are(b: Seq<u8>)
    ensures
        file_lines(raw_lines(b)),
    decreases b.len(),
{
    if b.len() > 0 {
        lemma_first_line_len(b);
        let n = first_line_len(b);
        let rest = b.skip(n);
        lemma_raw_lines_are(rest);
        let ls = raw_lines(b);
        let tail = raw_lines(rest);
        assert(is_line(b.take(n)));
        if rest.len() == 0 {
            assert(ls =~= seq![b.take(n)]);
        } else {
            lemma_first_line_len(rest);
            assert(tail.len() > 0);
            assert(ls.last() == tail.last());
            assert forall|i: int| 0 <= i < ls.drop_last().len() implies is_line(
                #[trigger] ls.drop_last()[i],
            ) && ls.drop_last()[i].last() == LINE_FEED by {
                if i > 0 {
                    assert(ls[i] == tail.drop_last()[i - 1]);
                }
            }
        }
    }
}

/// All lines but the last can be the lines of a file too.
proof fn lemma_file_lines_init(ls: Seq<Seq<u8>>)
    requires
        file_lines(ls),
        ls.len() > 0,
    ensures
        file_lines(ls.drop_last()),
{
    let init = ls.drop_last();
    if init.len() > 0 {
        assert(is_line(init[init.len() - 1]));
        assert forall|i: int| 0 <= i < init.drop_last().len() implies is_line(
            #[trigger] init.drop_last()[i],
        ) && init.drop_last()[i].last() == LINE_FEED by {
            assert(is_line(init[i]) && init[i].last() == LINE_FEED);
        }
    }
}

/// Joined lines are cut where they were joined.
pub proof fn lemma_raw_lines_joined(ls: Seq<Seq<u8>>)
    requires
        file_lines(ls),
    ensures
        raw_lines(joined(ls)) == ls,
        all_ended(ls) && ls.len() > 0 ==> joined(ls).last() == LINE_FEED,
    decreases ls.len(),
{
    if ls.len() > 0 {
        let init = ls.drop_last();
        lemma_file_lines_init(ls);
        lemma_raw_lines_joined(init);
        if init.len() == 0 {
            assert(joined(init) =~= Seq::<u8>::empty());
        }
        lemma_raw_lines_append(joined(init), ls.last());
        lemma_raw_lines_one(ls.last());
        assert(init + seq![ls.last()] =~= ls);
        assert(joined(ls).last() == ls.last().last());
        if all_ended(ls) {
            assert(ls[ls.len() - 1].last() == LINE_FEED);
        }
    }
}

/// What can be read of two lists of lines, one after the other.
pub proof fn lemma_readable_append(a: Seq<Seq<u8>>, b: Seq<Seq<u8>>)
    ensures
        readable(a + b) == readable(a) + readable(b),
        unreadable(a + b) == unreadable(a) + unreadable(b),
    decreases b.len(),
{
    if b.len() == 0 {
        assert(a + b =~= a);
        assert(readable(a) + readable(b) =~= readable(a));
        assert(unreadable(a) + unreadable(b) =~= unreadable(a));
    } else {
        lemma_readable_append(a, b.drop_last());
        assert((a + b).drop_last() =~= a + b.drop_last());
        assert((a + b).last() == b.last());
        assert(readable(a + b) =~= readable(a) + readable(b));
        assert(unreadable(a + b) =~= unreadable(a) + unreadable(b));
    }
}

/// The unreadable lines of a file can be the lines of a file, and none of them can be read.
pub proof fn lemma_unreadable(ls: Seq<Seq<u8>>)
    requires
        file_lines(ls),
    ensures
        file_lines(unreadable(ls)),
        all_ended(ls) ==> all_ended(unreadable(ls)),
        readable(unreadable(ls)) == Seq::<Seq<char>>::empty(),
        unreadable(unreadable(ls)) == unreadable(ls),
    decreases ls.len(),
{
    if ls.len() > 0 {
        let init = ls.drop_last();
        lemma_file_lines_init(ls);
        lemma_unreadable(init);
        let us = unreadable(ls);
        if !valid_utf8(ls.last()) {
            assert(us.drop_last() =~= unreadable(init));
            if all_ended(ls) {
                assert(ls[ls.len() - 1].last() == LINE_FEED);
            }
        } else if us.len() > 0 {
            assert(is_line(us[us.len() - 1]));
        }
    }
}

// ---------------------------------------------------------------------------
// Lines of text
// ---------------------------------------------------------------------------

/// The bytes of two texts, one after the other.
pub proof fn lemma_encode_append(a: Seq<char>, b: Seq<char>)
    ensures
        encode_utf8(a + b) == encode_utf8(a) + encode_utf8(b),
    decreases a.len(),
{
    if a.len() == 0 {
        assert(a + b =~= b);
        assert(encode_utf8(a) + encode_utf8(b) =~= encode_utf8(b));
    } else {
        lemma_encode_append(a.drop_first(), b);
        assert((a + b).drop_first() =~= a.drop_first() + b);
        assert(encode_utf8(a + b) =~= encode_utf8(a) + encode_utf8(b));
    }
}

/// Among the bytes of a character a line feed stands only where the character is one.
proof fn lemma_encode_scalar(c: char)
    ensures
        c == '\n' ==> encode_scalar(c as u32) == seq![LINE_FEED],
        c != '\n' ==> forall|j: int|
            0 <= j < encode_scalar(c as u32).len() ==> #[trigger] encode_scalar(c as u32)[j]
                != LINE_FEED,
{
    char_is_scalar(c);
    let v = c as u32;
    assert(v <= 0x7f ==> (v & 0x7f) as u8 == v) by (bit_vector);
    assert(0xC0u8 | ((v >> 6) & 0x1F) as u8 >= 0x80) by (bit_vector);
    assert(0xE0u8 | ((v >> 12) & 0x0F) as u8 >= 0x80) by (bit_vector);
    assert(0xF0u8 | ((v >> 18) & 0x7) as u8 >= 0x80) by (bit_vector);
    assert(0x80u8 | (v & 0x3F) as u8 >= 0x80) by (bit_vector);
    assert(0x80u8 | ((v >> 6) & 0x3F) as u8 >= 0x80) by (bit_vector);
    assert(0x80u8 | ((v >> 12) & 0x3F) as u8 >= 0x80) by (bit_vector);
}

/// The bytes of a text without a line feed hold none.
pub proof fn lemma_encode_no_feed(t: Seq<char>)
    requires
        !t.contains('\n'),
    ensures
        forall|j: int| 0 <= j < encode_utf8(t).len() ==> encode_utf8(t)[j] != LINE_FEED,
    decreases t.len(),
{
    if t.len() > 0 {
        assert(t.contains(t[0]));
        let rest = t.drop_first();
        if rest.contains('\n') {
            let j = choose|j: int| 0 <= j < rest.len() && rest[j] == '\n';
            assert(t[j + 1] == '\n');
        }
        lemma_encode_no_feed(rest);
        lemma_encode_scalar(t[0]);
        let head = encode_scalar(t[0] as u32);
        let tail = encode_utf8(rest);
        assert forall|j: int| 0 <= j < encode_utf8(t).len() implies encode_utf8(t)[j]
            != LINE_FEED by {
            if j < head.len() {
                assert(encode_utf8(t)[j] == head[j]);
            } else {
                assert(encode_utf8(t)[j] == tail[j - head.len()]);
            }
        }
    }
}

/// The text of one line holds no line feed, its line ending left out.
pub proof fn lemma_line_no_feed(line: Seq<u8>)
    requires
        is_line(line),
        valid_utf8(line),
    ensures
        !without_ending(decode_utf8(line)).contains('\n'),
{
    let t = decode_utf8(line);
    decode_utf8_encode_utf8(line);
    assert forall|j: int| 0 <= j < t.len() - 1 implies t[j] != '\n' by {
        if t[j] == '\n' {
            let before = t.take(j);
            let from = t.skip(j);
            let behind = from.drop_first();
            assert(t =~= before + from);
            lemma_encode_append(before, from);
            lemma_encode_scalar('\n');
            char_is_scalar(behind[0]);
            assert(encode_utf8(behind).len() > 0);
            let k = encode_utf8(before).len() as int;
            assert(encode_utf8(from)[0] == LINE_FEED);
            assert(line[k] == LINE_FEED);
        }
    }
    let body = without_ending(t);
    if body.contains('\n') {
        let j = choose|j: int| 0 <= j < body.len() && body[j] == '\n';
        assert(t[j] == '\n');
    }
}

/// The bytes of one line of text.
proof fn lemma_encode_line(t: Seq<char>)
    requires
        !t.contains('\n'),
    ensures
        is_line(encode_utf8(t + seq!['\n'])),
        encode_utf8(t + seq!['\n']).last() == LINE_FEED,
        t.len() > 0 ==> is_line(encode_utf8(t)),
{
    let nl = seq!['\n'];
    lemma_encode_append(t, nl);
    lemma_encode_no_feed(t);
    lemma_encode_scalar('\n');
    assert(nl.drop_first() =~= Seq::<char>::empty());
    assert(encode_utf8(nl.drop_first()) =~= Seq::<u8>::empty());
    assert(encode_utf8(nl) =~= seq![LINE_FEED]);
    if t.len() > 0 {
        lemma_encode_scalar(t[0]);
        char_is_scalar(t[0]);
        assert(encode_utf8(t).len() > 0);
    }
}

/// The bytes of a text that ends with a line feed end with one.
pub proof fn lemma_encode_ends(t: Seq<char>)
    requires
        t.len() > 0 ==> t.last() == '\n',
    ensures
        encode_utf8(t).len() > 0 ==> encode_utf8(t).last() == LINE_FEED,
{
    if t.len() > 0 {
        let nl = seq!['\n'];
        assert(t =~= t.drop_last() + nl);
        lemma_encode_append(t.drop_last(), nl);
        lemma_encode_line(Seq::<char>::empty());
        assert(Seq::<char>::empty() + nl =~= nl);
    }
}

/// A file that is text throughout is read line by line, as the text is.
pub proof fn law_text_is_readable(t: Seq<char>)
    ensures
        readable(raw_lines(encode_utf8(t))) == lines_of(t),
        unreadable(raw_lines(encode_utf8(t))) == Seq::<Seq<u8>>::empty(),
    decreases t.len(),
{
    if t.len() == 0 {
        assert(encode_utf8(t) =~= Seq::<u8>::empty());
    } else {
        lemma_find_char(t, '\n');
        let k = find_char(t, '\n');
        if k == t.len() {
            assert(!t.contains('\n'));
            let line = encode_utf8(t);
            lemma_encode_line(t);
            lemma_raw_lines_one(line);
            encode_utf8_valid_utf8(t);
            encode_utf8_decode_utf8(t);
            assert(without_ending(t) == t);
            lemma_one_readable(line);
        } else {
            let body = t.take(k);
            assert(!body.contains('\n')) by {
                if body.contains('\n') {
                    let j = choose|j: int| 0 <= j < body.len() && body[j] == '\n';
                    assert(t[j] == '\n');
                }
            }
            let first = body + seq!['\n'];
            let rest = t.skip(k + 1);
            assert(t =~= first + rest);
            lemma_encode_append(first, rest);
            let line = encode_utf8(first);
            lemma_encode_line(body);
            lemma_raw_lines_append(line, encode_utf8(rest));
            lemma_raw_lines_one(line);
            encode_utf8_valid_utf8(first);
            encode_utf8_decode_utf8(first);
            assert(first.drop_last() =~= body);
            lemma_one_readable(line);
            lemma_readable_append(seq![line], raw_lines(encode_utf8(rest)));
            law_text_is_readable(rest);
            assert(unreadable(raw_lines(encode_utf8(t))) =~= Seq::<Seq<u8>>::empty());
        }
    }
}

/// What is read of a single line.
proof fn lemma_one_readable(line: Seq<u8>)
    requires
        valid_utf8(line),
    ensures
        readable(seq![line]) == seq![without_ending(decode_utf8(line))],
        unreadable(seq![line]) == Seq::<Seq<u8>>::empty(),
{
    let ls = seq![line];
    assert(ls.drop_last() =~= Seq::<Seq<u8>>::empty());
    assert(readable(ls.drop_last()) =~= Seq::<Seq<char>>::empty());
    assert(unreadable(ls.drop_last()) =~= Seq::<Seq<u8>>::empty());
    assert(readable(ls) =~= seq![without_ending(decode_utf8(line))]);
}

/// A file is taken line by line: the first line goes up to its line feed, and is read if it is
/// valid UTF-8, without its line ending; otherwise it is set aside as it stands, line feed
/// included.  The others follow.
pub proof fn law_line_by_line(line: Seq<u8>, rest: Seq<u8>)
    requires
        forall|i: int| 0 <= i < line.len() ==> line[i] != 10,
    ensures
        ({
            let whole = line.push(10);
            let ls = raw_lines(whole + rest);
            &&& valid_utf8(whole) ==> readable(ls) == seq![without_ending(decode_utf8(whole))]
                + readable(raw_lines(rest)) && unreadable(ls) == unreadable(raw_lines(rest))
            &&& !valid_utf8(whole) ==> readable(ls) == readable(raw_lines(rest)) && unreadable(ls)
                == seq![whole] + unreadable(raw_lines(rest))
        }),
{
    let whole = line.push(10);
    lemma_raw_lines_append(whole, rest);
    lemma_raw_lines_one(whole);
    lemma_readable_append(seq![whole], raw_lines(rest));
    let one = seq![whole];
    let none = Seq::<Seq<u8>>::empty();
    assert(one.drop_last() =~= none);
    assert(readable(none) =~= Seq::<Seq<char>>::empty());
    assert(unreadable(none) =~= none);
    if valid_utf8(whole) {
        lemma_one_readable(whole);
        assert(none + unreadable(raw_lines(rest)) =~= unreadable(raw_lines(rest)));
    } else {
        assert(readable(one) =~= Seq::<Seq<char>>::empty());
        assert(unreadable(one) =~= one);
        assert(Seq::<Seq<char>>::empty() + readable(raw_lines(rest)) =~= readable(
            raw_lines(rest),
        ));
    }
}

/// What two lists of lines are, one after the other.
pub proof fn lemma_joined_append(a: Seq<Seq<u8>>, b: Seq<Seq<u8>>)
    ensures
        joined(a + b) == joined(a) + joined(b),
    decreases b.len(),
{
    if b.len() == 0 {
        assert(a + b =~= a);
        assert(joined(a) + joined(b) =~= joined(a));
    } else {
        lemma_joined_append(a, b.drop_last());
        assert((a + b).drop_last() =~= a + b.drop_last());
        assert((a + b).last() == b.last());
        assert(joined(a + b) =~= joined(a) + joined(b));
    }
}

/// A line ending is a line feed, with a carriage return in front of it or without.
pub proof fn law_without_ending(t: Seq<char>)
    ensures
        without_ending(t + seq!['\r', '\n']) == t,
        t.len() == 0 || t.last() != '\r' ==> without_ending(t.push('\n')) == t,
        t.len() == 0 || t.last() != '\n' ==> without_ending(t) == t,
{
    assert((t + seq!['\r', '\n']).drop_last() =~= t.push('\r'));
    assert(t.push('\r').drop_last() =~= t);
    assert(t.push('\n').drop_last() =~= t);
}

/// The views of optional bytes and of lists of bytes show each of them.
pub proof fn law_bytes_views(o: Option<&[u8]>, v: Seq<&[u8]>)
    ensures
        opt_bytes_view(o) == (match o {
            Some(b) => Some(b@),
            None => None,
        }),
        slice_views(v).len() == v.len(),
        forall|i: int| 0 <= i < v.len() ==> #[trigger] slice_views(v)[i] == v[i]@,
{
}

} // verus!

use vstd::prelude::*;
use crate::decimal::{
    decimal_of, is_digit, lemma_decimal_of, number_body, parse_bounded, parse_bounded_spec,
    push_decimal,
};

verus! {

/// Line separator of the history file.
pub const NEWLINE: u8 = 10;

/// The largest story identifier.
pub const MAX_STORY_ID: u64 = 4294967295;

/// A one-byte whitespace character: tab, line feed, vertical tab, form feed,
/// carriage return or space.
pub open spec fn is_ascii_space(b: u8) -> bool {
    b == 32u8 || (9u8 <= b && b <= 13u8)
}

/// Whether `c` is the UTF-8 encoding of a character that Rust's
/// `char::is_whitespace` accepts: the ASCII ones, U+0085, U+00A0, U+1680,
/// U+2000 to U+200A, U+2028, U+2029, U+202F, U+205F and U+3000.
pub open spec fn is_space_char(c: Seq<u8>) -> bool {
    ||| c.len() == 1 && is_ascii_space(c[0])
    ||| c.len() == 2 && c[0] == 0xC2u8 && (c[1] == 0x85u8 || c[1] == 0xA0u8)
    ||| c.len() == 3 && c[0] == 0xE1u8 && c[1] == 0x9Au8 && c[2] == 0x80u8
    ||| c.len() == 3 && c[0] == 0xE2u8 && c[1] == 0x80u8 && ((0x80u8 <= c[2] && c[2] <= 0x8Au8)
        || c[2] == 0xA8u8 || c[2] == 0xA9u8 || c[2] == 0xAFu8)
    ||| c.len() == 3 && c[0] == 0xE2u8 && c[1] == 0x81u8 && c[2] == 0x9Fu8
    ||| c.len() == 3 && c[0] == 0xE3u8 && c[1] == 0x80u8 && c[2] == 0x80u8
}

/// The length of the whitespace character that `s` starts with, or 0.
pub open spec fn leading_space_len(s: Seq<u8>) -> nat {
    if s.len() >= 1 && is_space_char(s.take(1)) {
        1
    } else if s.len() >= 2 && is_space_char(s.take(2)) {
        2
    } else if s.len() >= 3 && is_space_char(s.take(3)) {
        3
    } else {
        0
    }
}

/// The length of the whitespace character that `s` ends with, or 0.
pub open spec fn trailing_space_len(s: Seq<u8>) -> nat {
    if s.len() >= 1 && is_space_char(s.skip(s.len() - 1)) {
        1
    } else if s.len() >= 2 && is_space_char(s.skip(s.len() - 2)) {
        2
    } else if s.len() >= 3 && is_space_char(s.skip(s.len() - 3)) {
        3
    } else {
        0
    }
}

/// The lines of `s`, as cut at every newline; text without one is a single line.
pub open spec fn split_lines(s: Seq<u8>) -> Seq<Seq<u8>>
    decreases s.len(),
{
    if s.len() == 0 {
        seq![Seq::<u8>::empty()]
    } else {
        let prev = split_lines(s.drop_last());
        if s.last() == NEWLINE {
            prev.push(Seq::<u8>::empty())
        } else {
            prev.update(prev.len() - 1, prev.last().push(s.last()))
        }
    }
}

/// `s` without its leading whitespace characters.
pub open spec fn trim_start(s: Seq<u8>) -> Seq<u8>
    decreases s.len(),
{
    if leading_space_len(s) > 0 {
        trim_start(s.skip(leading_space_len(s) as int))
    } else {
        s
    }
}

/// `s` without its trailing whitespace characters.
pub open spec fn trim_end(s: Seq<u8>) -> Seq<u8>
    decreases s.len(),
{
    if trailing_space_len(s) > 0 {
        trim_end(s.take(s.len() - trailing_space_len(s)))
    } else {
        s
    }
}

/// `s` without whitespace at either end.
pub open spec fn trim(s: Seq<u8>) -> Seq<u8> {
    trim_end(trim_start(s))
}

/// How one line of the history file reads.
pub enum LineRead {
    /// Nothing but whitespace: the line is skipped.
    Blank,
    /// A story identifier.
    Id(u32),
    /// Anything else: the whole file is refused.
    Malformed,
}

/// What the line `l` holds.
pub open spec fn read_line(l: Seq<u8>) -> LineRead {
    let t = trim(l);
    if t.len() == 0 {
        LineRead::Blank
    } else {
        match parse_bounded_spec(t, MAX_STORY_ID as nat) {
            Some(v) => LineRead::Id(v as u32),
            None => LineRead::Malformed,
        }
    }
}

/// The identifiers that the lines `ls` hold in order, or `None` where one of
/// them is malformed.
pub open spec fn read_lines(ls: Seq<Seq<u8>>) -> Option<Seq<u32>>
    decreases ls.len(),
{
    if ls.len() == 0 {
        Some(Seq::<u32>::empty())
    } else {
        match read_lines(ls.drop_last()) {
            None => None,
            Some(ids) => match read_line(ls.last()) {
                LineRead::Blank => Some(ids),
                LineRead::Id(v) => Some(ids.push(v)),
                LineRead::Malformed => None,
            },
        }
    }
}

/// The identifiers that the history text `s` holds, or `None` where it is malformed.
pub open spec fn parse_history_spec(s: Seq<u8>) -> Option<Seq<u32>> {
    read_lines(split_lines(s))
}

/// The history text of `ids`: each in decimal, one per line, with no newline
/// after the last.
pub open spec fn history_text(ids: Seq<u32>) -> Seq<u8>
    decreases ids.len(),
{
    if ids.len() == 0 {
        Seq::<u8>::empty()
    } else if ids.len() == 1 {
        decimal_of(ids[0] as nat)
    } else {
        history_text(ids.drop_last()).push(NEWLINE) + decimal_of(ids.last() as nat)
    }
}

/// Once a prefix of the lines is refused, so is every longer prefix.
proof fn lemma_read_lines_refused(ls: Seq<Seq<u8>>, i: int, j: int)
    requires
        0 <= i <= j <= ls.len(),
        read_lines(ls.take(i)).is_none(),
    ensures
        read_lines(ls.take(j)).is_none(),
    decreases j - i,
{
    if i < j {
        lemma_read_lines_refused(ls, i, j - 1);
        assert(ls.take(j).drop_last() =~= ls.take(j - 1));
    }
}

/// Appending text without a newline lengthens the last line only.
proof fn lemma_split_extend(p: Seq<u8>, w: Seq<u8>)
    requires
        forall|i: int| 0 <= i < w.len() ==> w[i] != NEWLINE,
    ensures
        split_lines(p + w) == split_lines(p).update(
            split_lines(p).len() - 1,
            split_lines(p).last() + w,
        ),
        split_lines(p + w).len() == split_lines(p).len(),
    decreases w.len(),
{
    lemma_split_nonempty(p);
    if w.len() == 0 {
        assert(p + w =~= p);
        assert(split_lines(p).last() + w =~= split_lines(p).last());
        assert(split_lines(p).update(split_lines(p).len() - 1, split_lines(p).last())
            =~= split_lines(p));
    } else {
        let w0 = w.drop_last();
        lemma_split_extend(p, w0);
        assert((p + w).drop_last() =~= p + w0);
        assert((p + w).last() == w.last());
        assert(split_lines(p).last() + w =~= (split_lines(p).last() + w0).push(w.last()));
        assert(split_lines(p + w) =~= split_lines(p).update(
            split_lines(p).len() - 1,
            split_lines(p).last() + w,
        ));
    }
}

/// Any text has at least one line.
proof fn lemma_split_nonempty(s: Seq<u8>)
    ensures
        split_lines(s).len() >= 1,
    decreases s.len(),
{
    if s.len() > 0 {
        lemma_split_nonempty(s.drop_last());
    }
}

/// A newline followed by text without one starts a last line that is that text.
proof fn lemma_split_new_line(p: Seq<u8>, w: Seq<u8>)
    requires
        forall|i: int| 0 <= i < w.len() ==> w[i] != NEWLINE,
    ensures
        split_lines(p.push(NEWLINE) + w) == split_lines(p).push(w),
{
    let q = p.push(NEWLINE);
    assert(q.drop_last() =~= p);
    lemma_split_extend(q, w);
    assert(split_lines(q) == split_lines(p).push(Seq::<u8>::empty()));
    assert(Seq::<u8>::empty() + w =~= w);
    assert(split_lines(q + w) =~= split_lines(p).push(w));
}

/// A decimal spelling holds no whitespace and no newline, and reads as its number.
proof fn lemma_decimal_line(n: u32)
    ensures
        forall|i: int| 0 <= i < decimal_of(n as nat).len() ==> decimal_of(n as nat)[i] != NEWLINE,
        read_line(decimal_of(n as nat)) == LineRead::Id(n),
{
    let d = decimal_of(n as nat);
    lemma_decimal_of(n as nat);
    assert forall|i: int| 0 <= i < d.len() implies d[i] != NEWLINE by {
        assert(is_digit(d[i]));
    }
    assert(is_digit(d[0]));
    assert(is_digit(d.last()));
    assert(trim_start(d) == d);
    assert(trim_end(d) == d);
    assert(number_body(d) == d);
}

/// Reading back the history text of `ids` gives `ids`, in the same order.
pub proof fn lemma_history_round_trip(ids: Seq<u32>)
    ensures
        parse_history_spec(history_text(ids)) == Some(ids),
    decreases ids.len(),
{
    if ids.len() == 0 {
        assert(split_lines(Seq::<u8>::empty()).drop_last() =~= Seq::<Seq<u8>>::empty());
        assert(trim_start(Seq::<u8>::empty()) == Seq::<u8>::empty());
        assert(trim_end(Seq::<u8>::empty()) == Seq::<u8>::empty());
        assert(read_line(Seq::<u8>::empty()) == LineRead::Blank);
        assert(history_text(ids) =~= Seq::<u8>::empty());
        assert(read_lines(Seq::<Seq<u8>>::empty()) == Some(Seq::<u32>::empty()));
        assert(ids =~= Seq::<u32>::empty());
    } else if ids.len() == 1 {
        let d = decimal_of(ids[0] as nat);
        lemma_decimal_line(ids[0]);
        lemma_split_extend(Seq::<u8>::empty(), d);
        assert(Seq::<u8>::empty() + d =~= d);
        let ls = split_lines(d);
        assert(ls =~= seq![d]);
        assert(ls.drop_last() =~= Seq::<Seq<u8>>::empty());
        assert(Seq::<u32>::empty().push(ids[0]) =~= ids);
        assert(read_lines(Seq::<Seq<u8>>::empty()) == Some(Seq::<u32>::empty()));
        assert(read_lines(ls) == Some(ids));
    } else {
        let init = ids.drop_last();
        let d = decimal_of(ids.last() as nat);
        lemma_history_round_trip(init);
        lemma_decimal_line(ids.last());
        lemma_split_new_line(history_text(init), d);
        let ls = split_lines(history_text(init)).push(d);
        assert(ls.drop_last() =~= split_lines(history_text(init)));
        assert(init.push(ids.last()) =~= ids);
        assert(ls.last() == d);
        assert(read_lines(ls) == Some(ids));
    }
}

/// Whether the `k` bytes of `l` from `a` on encode a whitespace character.
fn is_space_at(l: &Vec<u8>, a: usize, k: usize) -> (r: bool)
    requires
        1 <= k <= 3,
        a + k <= l@.len(),
    ensures
        r == is_space_char(l@.subrange(a as int, a + k)),
{
    let ghost c = l@.subrange(a as int, a + k);
    let len = l.len();
    assert(a + k <= len);
    if k == 1 {
        let b = l[a];
        assert(c[0] == b);
        b == 32u8 || (9u8 <= b && b <= 13u8)
    } else if k == 2 {
        assert(c[0] == l@[a as int] && c[1] == l@[a + 1]);
        l[a] == 0xC2u8 && (l[a + 1] == 0x85u8 || l[a + 1] == 0xA0u8)
    } else {
        let (b0, b1, b2) = (l[a], l[a + 1], l[a + 2]);
        assert(c[0] == b0 && c[1] == b1 && c[2] == b2);
        (b0 == 0xE1u8 && b1 == 0x9Au8 && b2 == 0x80u8) || (b0 == 0xE2u8 && b1 == 0x80u8 && ((0x80u8
            <= b2 && b2 <= 0x8Au8) || b2 == 0xA8u8 || b2 == 0xA9u8 || b2 == 0xAFu8)) || (b0
            == 0xE2u8 && b1 == 0x81u8 && b2 == 0x9Fu8) || (b0 == 0xE3u8 && b1 == 0x80u8 && b2
            == 0x80u8)
    }
}

/// The length of the whitespace character that `l` holds from `i` on, within `j`.
fn leading_space_at(l: &Vec<u8>, i: usize, j: usize) -> (r: usize)
    requires
        i <= j <= l@.len(),
    ensures
        r == leading_space_len(l@.subrange(i as int, j as int)),
        r <= j - i,
{
    let ghost s = l@.subrange(i as int, j as int);
    if j - i >= 1 && is_space_at(l, i, 1) {
        assert(s.take(1) =~= l@.subrange(i as int, i + 1));
        return 1;
    }
    proof {
        if s.len() >= 1 {
            assert(s.take(1) =~= l@.subrange(i as int, i + 1));
        }
    }
    if j - i >= 2 && is_space_at(l, i, 2) {
        assert(s.take(2) =~= l@.subrange(i as int, i + 2));
        return 2;
    }
    proof {
        if s.len() >= 2 {
            assert(s.take(2) =~= l@.subrange(i as int, i + 2));
        }
    }
    if j - i >= 3 && is_space_at(l, i, 3) {
        assert(s.take(3) =~= l@.subrange(i as int, i + 3));
        return 3;
    }
    proof {
        if s.len() >= 3 {
            assert(s.take(3) =~= l@.subrange(i as int, i + 3));
        }
    }
    0
}

/// The length of the whitespace character that `l` holds up to `j`, from `i` on.
fn trailing_space_at(l: &Vec<u8>, i: usize, j: usize) -> (r: usize)
    requires
        i <= j <= l@.len(),
    ensures
        r == trailing_space_len(l@.subrange(i as int, j as int)),
        r <= j - i,
{
    let ghost s = l@.subrange(i as int, j as int);
    if j - i >= 1 && is_space_at(l, j - 1, 1) {
        assert(s.skip(s.len() - 1) =~= l@.subrange(j - 1, j as int));
        return 1;
    }
    proof {
        if s.len() >= 1 {
            assert(s.skip(s.len() - 1) =~= l@.subrange(j - 1, j as int));
        }
    }
    if j - i >= 2 && is_space_at(l, j - 2, 2) {
        assert(s.skip(s.len() - 2) =~= l@.subrange(j - 2, j as int));
        return 2;
    }
    proof {
        if s.len() >= 2 {
            assert(s.skip(s.len() - 2) =~= l@.subrange(j - 2, j as int));
        }
    }
    if j - i >= 3 && is_space_at(l, j - 3, 3) {
        assert(s.skip(s.len() - 3) =~= l@.subrange(j - 3, j as int));
        return 3;
    }
    proof {
        if s.len() >= 3 {
            assert(s.skip(s.len() - 3) =~= l@.subrange(j - 3, j as int));
        }
    }
    0
}

/// Removes the whitespace characters at both ends of `l`.
fn trim_line(l: &Vec<u8>) -> (r: Vec<u8>)
    ensures
        r@ == trim(l@),
{
    let n = l.len();
    let mut i: usize = 0;
    assert(l@.subrange(0, n as int) =~= l@);
    let mut k = leading_space_at(l, i, n);
    while k > 0
        invariant
            i <= n,
            n == l@.len(),
            k == leading_space_len(l@.subrange(i as int, n as int)),
            k <= n - i,
            trim_start(l@) == trim_start(l@.subrange(i as int, n as int)),
        decreases n - i,
    {
        assert(l@.subrange(i as int, n as int).skip(k as int) =~= l@.subrange(i + k, n as int));
        i = i + k;
        k = leading_space_at(l, i, n);
    }
    let ghost s = l@.subrange(i as int, n as int);
    assert(trim_start(s) == s);
    let mut j: usize = n;
    let mut m = trailing_space_at(l, i, j);
    while m > 0
        invariant
            i <= j <= n,
            n == l@.len(),
            s == l@.subrange(i as int, n as int),
            m == trailing_space_len(l@.subrange(i as int, j as int)),
            m <= j - i,
            trim_end(s) == trim_end(l@.subrange(i as int, j as int)),
        decreases j,
    {
        assert(l@.subrange(i as int, j as int).take(j - i - m) =~= l@.subrange(
            i as int,
            j - m,
        ));
        j = j - m;
        m = trailing_space_at(l, i, j);
    }
    let mut r: Vec<u8> = Vec::new();
    let mut p: usize = i;
    while p < j
        invariant
            i <= p <= j <= n,
            n == l@.len(),
            r@ =~= l@.subrange(i as int, p as int),
        decreases j - p,
    {
        r.push(l[p]);
        p = p + 1;
    }
    r
}

/// Cuts `text` into its lines at every newline.
fn split_text(text: &[u8]) -> (r: Vec<Vec<u8>>)
    ensures
        r@.len() == split_lines(text@).len(),
        forall|k: int| 0 <= k < r@.len() ==> (#[trigger] r@[k])@ == split_lines(text@)[k],
{
    let mut lines: Vec<Vec<u8>> = Vec::new();
    let mut cur: Vec<u8> = Vec::new();
    let mut i: usize = 0;
    while i < text.len()
        invariant
            i <= text@.len(),
            lines@.len() + 1 == split_lines(text@.take(i as int)).len(),
            forall|k: int|
                0 <= k < lines@.len() ==> (#[trigger] lines@[k])@ == split_lines(
                    text@.take(i as int),
                )[k],
            cur@ == split_lines(text@.take(i as int)).last(),
        decreases text.len() - i,
    {
        assert(text@.take(i + 1).drop_last() =~= text@.take(i as int));
        assert(text@.take(i + 1).last() == text@[i as int]);
        if text[i] == NEWLINE {
            let done = cur;
            lines.push(done);
            cur = Vec::new();
            assert(cur@ =~= Seq::<u8>::empty());
        } else {
            cur.push(text[i]);
        }
        i = i + 1;
    }
    assert(text@.take(text@.len() as int) =~= text@);
    lines.push(cur);
    lines
}

/// Reads a history text: the identifiers on its lines, in order, with lines
/// of whitespace skipped; `None` where any other line is not an identifier.
pub fn parse_history(text: &[u8]) -> (r: Option<Vec<u32>>)
    ensures
        match parse_history_spec(text@) {
            Some(ids) => r.is_some() && r.unwrap()@ == ids,
            None => r.is_none(),
        },
{
    let lines = split_text(text);
    let ghost ls = split_lines(text@);
    assert(lines@.len() == ls.len());
    let mut ids: Vec<u32> = Vec::new();
    let mut k: usize = 0;
    while k < lines.len()
        invariant
            k <= lines@.len(),
            lines@.len() == ls.len(),
            ls == split_lines(text@),
            forall|m: int| 0 <= m < lines@.len() ==> (#[trigger] lines@[m])@ == ls[m],
            read_lines(ls.take(k as int)) == Some(ids@),
        decreases lines.len() - k,
    {
        let t = trim_line(&lines[k]);
        assert(ls.take(k + 1).drop_last() =~= ls.take(k as int));
        assert(ls.take(k + 1).last() == ls[k as int]);
        if t.len() > 0 {
            match parse_bounded(t.as_slice(), MAX_STORY_ID) {
                Some(v) => {
                    ids.push(v as u32);
                },
                None => {
                    proof {
                        lemma_read_lines_refused(ls, k + 1, ls.len() as int);
                        assert(ls.take(ls.len() as int) =~= ls);
                    }
                    return None;
                },
            }
        }
        k = k + 1;
    }
    assert(ls.take(ls.len() as int) =~= ls);
    Some(ids)
}

/// Writes `ids` as history text: each in decimal, one per line.
pub fn history_bytes(ids: &[u32]) -> (r: Vec<u8>)
    ensures
        r@ == history_text(ids@),
{
    let mut out: Vec<u8> = Vec::new();
    let mut i: usize = 0;
    while i < ids.len()
        invariant
            i <= ids@.len(),
            out@ == history_text(ids@.take(i as int)),
        decreases ids.len() - i,
    {
        assert(ids@.take(i + 1).drop_last() =~= ids@.take(i as int));
        assert(ids@.take(i + 1).last() == ids@[i as int]);
        if i > 0 {
            out.push(NEWLINE);
        } else {
            assert(out@ =~= Seq::<u8>::empty());
            assert(ids@.take(1)[0] == ids@[0]);
        }
        push_decimal(ids[i] as u64, &mut out);
        proof {
            if i == 0 {
                assert(out@ =~= decimal_of(ids@[0] as nat));
            }
        }
        i = i + 1;
    }
    assert(ids@.take(ids@.len() as int) =~= ids@);
    out
}

} // verus!

use vstd::prelude::*;
use vstd::string::*;
use vstd::utf8::encode_utf8;
use crate::decimal::{decimal_of, push_decimal};
use crate::pipeline::RankedEntry;

verus! {

/// The story's permalink: the front end's item address followed by its identifier.
pub open spec fn permalink_text(id: u32) -> Seq<u8> {
    "https://news.ycombinator.com/item?id=".spec_bytes() + decimal_of(id as nat)
}

/// The position shown for `rank`: one more than it, right-aligned in two columns.
pub open spec fn position_text(rank: nat) -> Seq<u8> {
    let d = decimal_of(rank + 1);
    if d.len() < 2 {
        seq![32u8] + d
    } else {
        d
    }
}

/// The first line of an entry: its shown position and the story's title.
pub open spec fn heading_text(e: RankedEntry) -> Seq<u8> {
    position_text(e.rank as nat) + ". ".spec_bytes() + encode_utf8(e.story.title@)
}

/// The second line of an entry: score, comment count and author.
pub open spec fn details_text(e: RankedEntry) -> Seq<u8> {
    "    score: ".spec_bytes() + decimal_of(e.story.score as nat) + "    comments: ".spec_bytes()
        + decimal_of(e.story.descendants as nat) + "    user: ".spec_bytes() + encode_utf8(
        e.story.by@,
    )
}

/// The third line of an entry: the story's permalink.
pub open spec fn link_text(e: RankedEntry) -> Seq<u8> {
    "    url: ".spec_bytes() + permalink_text(e.story.id)
}

/// Appends the bytes `b` to `out`.
fn push_all(out: &mut Vec<u8>, b: &[u8])
    ensures
        final(out)@ == old(out)@ + b@,
{
    let ghost start = out@;
    let mut i: usize = 0;
    while i < b.len()
        invariant
            i <= b@.len(),
            out@ == start + b@.take(i as int),
        decreases b.len() - i,
    {
        out.push(b[i]);
        i = i + 1;
        assert(out@ =~= start + b@.take(i as int));
    }
    assert(b@.take(b@.len() as int) =~= b@);
}

/// The permalink of the story `id`.
pub fn permalink(id: u32) -> (r: Vec<u8>)
    ensures
        r@ == permalink_text(id),
{
    let mut out: Vec<u8> = Vec::new();
    push_all(&mut out, "https://news.ycombinator.com/item?id=".as_bytes());
    push_decimal(id as u64, &mut out);
    assert(out@ =~= permalink_text(id));
    out
}

/// The first line shown for `e`.
pub fn heading(e: &RankedEntry) -> (r: Vec<u8>)
    requires
        e.rank < usize::MAX,
    ensures
        r@ == heading_text(*e),
{
    let mut out: Vec<u8> = Vec::new();
    let shown = e.rank as u64 + 1;
    if shown < 10 {
        out.push(32u8);
    }
    push_decimal(shown, &mut out);
    proof {
        let d = decimal_of(shown as nat);
        if shown < 10 {
            assert(d.len() == 1);
        } else {
            assert(decimal_of(shown as nat) == decimal_of(shown as nat / 10).push(
                (48 + shown as nat % 10) as u8,
            ));
            crate::decimal::lemma_decimal_of(shown as nat / 10);
        }
        assert(out@ =~= position_text(e.rank as nat));
    }
    push_all(&mut out, ". ".as_bytes());
    push_all(&mut out, e.story.title.as_str().as_bytes());
    assert(out@ =~= heading_text(*e));
    out
}

/// The second line shown for `e`.
pub fn details(e: &RankedEntry) -> (r: Vec<u8>)
    ensures
        r@ == details_text(*e),
{
    let mut out: Vec<u8> = Vec::new();
    push_all(&mut out, "    score: ".as_bytes());
    push_decimal(e.story.score as u64, &mut out);
    push_all(&mut out, "    comments: ".as_bytes());
    push_decimal(e.story.descendants as u64, &mut out);
    push_all(&mut out, "    user: ".as_bytes());
    push_all(&mut out, e.story.by.as_str().as_bytes());
    assert(out@ =~= details_text(*e));
    out
}

/// The third line shown for `e`.
pub fn link(e: &RankedEntry) -> (r: Vec<u8>)
    ensures
        r@ == link_text(*e),
{
    let mut out: Vec<u8> = Vec::new();
    push_all(&mut out, "    url: ".as_bytes());
    let p = permalink(e.story.id);
    push_all(&mut out, p.as_slice());
    assert(out@ =~= link_text(*e));
    out
}

} // verus!

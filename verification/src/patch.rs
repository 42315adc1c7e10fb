//! Taking hunks back out of a file's content, line by line.
//!
//! A hunk says which lines of the old content a change replaced by which
//! lines of the new content. To take it out, the new lines are looked for in
//! the current content, at the place where the hunk expects them or up to a
//! tolerance of lines away from it, and are replaced by the old lines.

use vstd::prelude::*;
use crate::bytes::{append_bytes, copy_bytes, same_bytes};

verus! {

/// The header of a hunk: where the change starts in the old and in the new
/// content, counted from line one, and how many lines it covers in each. A
/// side that covers no line gives the line after which the change stands.
#[derive(Clone, Copy, Debug, PartialEq, Eq, Structural, Hash)]
pub struct HunkHeader {
    pub old_start: u32,
    pub old_lines: u32,
    pub new_start: u32,
    pub new_lines: u32,
}

/// The lines of a text, each with its line feed; the last line may lack one.
pub open spec fn split_lines_acc(b: Seq<u8>, i: int, done: Seq<Seq<u8>>, cur: Seq<u8>) -> Seq<Seq<u8>>
    decreases b.len() - i,
{
    if i < 0 || i >= b.len() {
        if cur.len() > 0 {
            done.push(cur)
        } else {
            done
        }
    } else if b[i] == 10 {
        split_lines_acc(b, i + 1, done.push(cur.push(10u8)), Seq::empty())
    } else {
        split_lines_acc(b, i + 1, done, cur.push(b[i]))
    }
}

/// The lines of a text.
pub open spec fn lines_of(b: Seq<u8>) -> Seq<Seq<u8>> {
    split_lines_acc(b, 0, Seq::empty(), Seq::empty())
}

/// The text that lines make up.
pub open spec fn join_lines(lines: Seq<Seq<u8>>) -> Seq<u8>
    decreases lines.len(),
{
    if lines.len() == 0 {
        Seq::empty()
    } else {
        join_lines(lines.drop_last()) + lines.last()
    }
}

/// The views of a list of lines.
pub open spec fn lines_view(v: Seq<Vec<u8>>) -> Seq<Seq<u8>> {
    Seq::new(v.len(), |i: int| v[i]@)
}

proof fn lemma_join_split(b: Seq<u8>, i: int, done: Seq<Seq<u8>>, cur: Seq<u8>)
    requires
        0 <= i <= b.len(),
        join_lines(done) + cur == b.take(i),
    ensures
        join_lines(split_lines_acc(b, i, done, cur)) == b,
    decreases b.len() - i,
{
    if i >= b.len() {
        assert(b.take(i) =~= b);
        if cur.len() > 0 {
            assert(done.push(cur).drop_last() =~= done);
        } else {
            assert(join_lines(done) + cur =~= join_lines(done));
        }
    } else if b[i] == 10 {
        let line = cur.push(10u8);
        assert(done.push(line).drop_last() =~= done);
        assert(join_lines(done.push(line)) + Seq::<u8>::empty() =~= b.take(i + 1)) by {
            assert(b.take(i + 1) =~= b.take(i).push(b[i]));
            assert(join_lines(done) + line =~= (join_lines(done) + cur).push(10u8));
        }
        lemma_join_split(b, i + 1, done.push(line), Seq::empty());
    } else {
        assert(join_lines(done) + cur.push(b[i]) =~= b.take(i + 1)) by {
            assert(b.take(i + 1) =~= b.take(i).push(b[i]));
            assert(join_lines(done) + cur.push(b[i]) =~= (join_lines(done) + cur).push(b[i]));
        }
        lemma_join_split(b, i + 1, done, cur.push(b[i]));
    }
}

/// Splitting a text into lines loses nothing: joined again, the lines are
/// the text.
pub proof fn law_join_lines_of(b: Seq<u8>)
    ensures
        join_lines(lines_of(b)) == b,
{
    assert(join_lines(Seq::<Seq<u8>>::empty()) + Seq::<u8>::empty() =~= b.take(0));
    lemma_join_split(b, 0, Seq::empty(), Seq::empty());
}

/// Splits a text into its lines.
pub fn split_lines(text: &Vec<u8>) -> (r: Vec<Vec<u8>>)
    ensures
        lines_view(r@) == lines_of(text@),
{
    let mut done: Vec<Vec<u8>> = Vec::new();
    let mut cur: Vec<u8> = Vec::new();
    let mut i: usize = 0;
    proof {
        assert(lines_view(done@) =~= Seq::<Seq<u8>>::empty());
    }
    while i < text.len()
        invariant
            i <= text.len(),
            split_lines_acc(text@, i as int, lines_view(done@), cur@) == lines_of(text@),
        decreases text.len() - i,
    {
        let ghost d = lines_view(done@);
        cur.push(text[i]);
        if text[i] == 10 {
            done.push(cur);
            proof {
                assert(lines_view(done@) =~= d.push(cur@));
            }
            cur = Vec::new();
        }
        i += 1;
    }
    if cur.len() > 0 {
        let ghost d = lines_view(done@);
        done.push(cur);
        proof {
            assert(lines_view(done@) =~= d.push(cur@));
        }
    }
    done
}

/// Joins lines into a text.
pub fn join(lines: &Vec<Vec<u8>>) -> (r: Vec<u8>)
    ensures
        r@ == join_lines(lines_view(lines@)),
{
    let ghost all = lines_view(lines@);
    let mut out: Vec<u8> = Vec::new();
    let mut i: usize = 0;
    while i < lines.len()
        invariant
            i <= lines.len(),
            all == lines_view(lines@),
            out@ == join_lines(all.take(i as int)),
        decreases lines.len() - i,
    {
        append_bytes(&mut out, &lines[i]);
        proof {
            assert(all.take(i as int + 1).drop_last() =~= all.take(i as int));
            assert(all.take(i as int + 1).last() == lines@[i as int]@);
        }
        i += 1;
    }
    proof {
        assert(all.take(all.len() as int) =~= all);
    }
    out
}

/// The position, counted from zero, of the first line that a side of a
/// hunk covers, or of the line before which it stands if it covers none.
pub open spec fn side_position(start: u32, lines: u32) -> int {
    if lines == 0 {
        start as int
    } else {
        start - 1
    }
}

/// Whether both sides of a hunk lie within contents of the given numbers of
/// lines.
pub open spec fn hunk_fits(h: HunkHeader, old_len: int, new_len: int) -> bool {
    &&& side_position(h.old_start, h.old_lines) >= 0
    &&& side_position(h.new_start, h.new_lines) >= 0
    &&& side_position(h.old_start, h.old_lines) + h.old_lines <= old_len
    &&& side_position(h.new_start, h.new_lines) + h.new_lines <= new_len
}

/// Whether `block` stands in `text` at position `pos`.
pub open spec fn matches_at(text: Seq<Seq<u8>>, pos: int, block: Seq<Seq<u8>>) -> bool {
    0 <= pos && pos + block.len() <= text.len() && text.subrange(pos, pos + block.len()) == block
}

/// The place of `block` in `text` that is nearest to `expected` and at most
/// `tolerance` lines away from it, the earlier of two equally near; tried
/// from distance `d` outward.
pub open spec fn locate_from(text: Seq<Seq<u8>>, block: Seq<Seq<u8>>, expected: int, d: int, tolerance: int) -> Option<
    int,
>
    decreases tolerance + 1 - d,
{
    if d > tolerance {
        None
    } else if matches_at(text, expected - d, block) {
        Some(expected - d)
    } else if matches_at(text, expected + d, block) {
        Some(expected + d)
    } else {
        locate_from(text, block, expected, d + 1, tolerance)
    }
}

/// The place of `block` in `text` that is nearest to `expected` and at most
/// `tolerance` lines away from it.
pub open spec fn locate(text: Seq<Seq<u8>>, block: Seq<Seq<u8>>, expected: int, tolerance: int) -> Option<int> {
    locate_from(text, block, expected, 0, tolerance)
}

proof fn lemma_locate_from(text: Seq<Seq<u8>>, block: Seq<Seq<u8>>, expected: int, d: int, tolerance: int)
    requires
        0 <= d,
    ensures
        match locate_from(text, block, expected, d, tolerance) {
            Some(p) => matches_at(text, p, block) && d <= vstd::math::abs(p - expected) <= tolerance
                && forall|q: int|
                d <= vstd::math::abs(q - expected) < vstd::math::abs(p - expected) ==> !matches_at(text, q, block),
            None => forall|q: int| d <= vstd::math::abs(q - expected) <= tolerance ==> !matches_at(text, q, block),
        },
    decreases tolerance + 1 - d,
{
    if d <= tolerance && !matches_at(text, expected - d, block) && !matches_at(text, expected + d, block) {
        lemma_locate_from(text, block, expected, d + 1, tolerance);
    }
}

/// What locating finds is a match within the tolerance, and no match is
/// nearer to the expected place; where it finds nothing, there is no match
/// within the tolerance.
pub proof fn law_locate(text: Seq<Seq<u8>>, block: Seq<Seq<u8>>, expected: int, tolerance: int)
    ensures
        match locate(text, block, expected, tolerance) {
            Some(p) => matches_at(text, p, block) && vstd::math::abs(p - expected) <= tolerance && forall|q: int|
                vstd::math::abs(q - expected) < vstd::math::abs(p - expected) ==> !matches_at(text, q, block),
            None => forall|q: int| vstd::math::abs(q - expected) <= tolerance ==> !matches_at(text, q, block),
        },
{
    lemma_locate_from(text, block, expected, 0, tolerance);
}

/// The content after one hunk was taken out of `current`: the lines that
/// the hunk put, found near where it put them moved by `shift`, give way to
/// the lines that it replaced. With it the shift for the hunks that follow.
/// `None` if the hunk does not fit the old and new content or its lines are
/// not found.
pub open spec fn revert_hunk(
    old: Seq<Seq<u8>>,
    new: Seq<Seq<u8>>,
    current: Seq<Seq<u8>>,
    h: HunkHeader,
    shift: int,
    tolerance: int,
) -> Option<(Seq<Seq<u8>>, int)> {
    if !hunk_fits(h, old.len() as int, new.len() as int) {
        None
    } else {
        let op = side_position(h.old_start, h.old_lines);
        let np = side_position(h.new_start, h.new_lines);
        let block = new.subrange(np, np + h.new_lines);
        match locate(current, block, np + shift, tolerance) {
            None => None,
            Some(p) => Some(
                (
                    current.subrange(0, p) + old.subrange(op, op + h.old_lines) + current.subrange(
                        p + h.new_lines,
                        current.len() as int,
                    ),
                    shift + h.old_lines - h.new_lines,
                ),
            ),
        }
    }
}

/// The content after the hunks were taken out one after another; `None` if
/// one of them cannot be.
pub open spec fn revert_hunks(
    old: Seq<Seq<u8>>,
    new: Seq<Seq<u8>>,
    current: Seq<Seq<u8>>,
    hunks: Seq<HunkHeader>,
    shift: int,
    tolerance: int,
) -> Option<Seq<Seq<u8>>>
    decreases hunks.len(),
{
    if hunks.len() == 0 {
        Some(current)
    } else {
        match revert_hunk(old, new, current, hunks[0], shift, tolerance) {
            None => None,
            Some(r) => revert_hunks(old, new, r.0, hunks.drop_first(), r.1, tolerance),
        }
    }
}

/// The text after the hunks of a change from `old` to `new` were taken out
/// of `current`.
pub open spec fn revert_text(old: Seq<u8>, new: Seq<u8>, current: Seq<u8>, hunks: Seq<HunkHeader>, tolerance: int) -> Option<
    Seq<u8>,
> {
    match revert_hunks(lines_of(old), lines_of(new), lines_of(current), hunks, 0, tolerance) {
        None => None,
        Some(lines) => Some(join_lines(lines)),
    }
}

/// A hunk that fits is always found in the content that it describes, and
/// taking it out puts the old lines where the new ones stood.
pub proof fn law_revert_in_place(old: Seq<Seq<u8>>, new: Seq<Seq<u8>>, h: HunkHeader, tolerance: int)
    requires
        hunk_fits(h, old.len() as int, new.len() as int),
        0 <= tolerance,
    ensures
        revert_hunk(old, new, new, h, 0, tolerance) == Some(
            (
                new.subrange(0, side_position(h.new_start, h.new_lines)) + old.subrange(
                    side_position(h.old_start, h.old_lines),
                    side_position(h.old_start, h.old_lines) + h.old_lines,
                ) + new.subrange(side_position(h.new_start, h.new_lines) + h.new_lines, new.len() as int),
                h.old_lines - h.new_lines,
            ),
        ),
{
    let np = side_position(h.new_start, h.new_lines);
    let block = new.subrange(np, np + h.new_lines);
    assert(matches_at(new, np, block));
}

fn block_at(text: &Vec<Vec<u8>>, pos: i128, source: &Vec<Vec<u8>>, from: usize, len: usize) -> (r: bool)
    requires
        from + len <= source.len(),
    ensures
        r == matches_at(lines_view(text@), pos as int, lines_view(source@).subrange(from as int, from + len)),
{
    let ghost t = lines_view(text@);
    let ghost block = lines_view(source@).subrange(from as int, from + len);
    proof {
        assert(block.len() == len);
        assert(t.len() == text.len());
    }
    if pos < 0 || pos > text.len() as i128 || text.len() as i128 - pos < len as i128 {
        return false;
    }
    let p = pos as usize;
    let mut k: usize = 0;
    while k < len
        invariant
            k <= len,
            p == pos,
            p + len <= text.len(),
            block.len() == len,
            t.len() == text.len(),
            from + len <= source.len(),
            t == lines_view(text@),
            block == lines_view(source@).subrange(from as int, from + len),
            forall|m: int| 0 <= m < k ==> t[p + m] == block[m],
        decreases len - k,
    {
        proof {
            assert(t[p + k] == text@[p + k]@);
            assert(block[k as int] == source@[from + k]@);
        }
        if !same_bytes(&text[p + k], &source[from + k]) {
            proof {
                assert(t.subrange(p as int, p + len)[k as int] != block[k as int]);
            }
            return false;
        }
        k += 1;
    }
    proof {
        assert(t.subrange(p as int, p + len) =~= block);
    }
    true
}

fn find_block(
    text: &Vec<Vec<u8>>,
    source: &Vec<Vec<u8>>,
    from: usize,
    len: usize,
    expected: i128,
    tolerance: u32,
) -> (r: Option<usize>)
    requires
        from + len <= source.len(),
        -0x10_0000_0000_0000_0000_0000_0000 <= expected <= 0x10_0000_0000_0000_0000_0000_0000,
    ensures
        match locate(
            lines_view(text@),
            lines_view(source@).subrange(from as int, from + len),
            expected as int,
            tolerance as int,
        ) {
            Some(p) => r == Some(p as usize) && 0 <= p && p + len <= text.len(),
            None => r is None,
        },
{
    let ghost t = lines_view(text@);
    let ghost block = lines_view(source@).subrange(from as int, from + len);
    let mut d: u64 = 0;
    while d <= tolerance as u64
        invariant
            d <= tolerance + 1,
            from + len <= source.len(),
            -0x10_0000_0000_0000_0000_0000_0000 <= expected <= 0x10_0000_0000_0000_0000_0000_0000,
            t == lines_view(text@),
            block == lines_view(source@).subrange(from as int, from + len),
            locate_from(t, block, expected as int, d as int, tolerance as int) == locate(
                t,
                block,
                expected as int,
                tolerance as int,
            ),
        decreases tolerance + 1 - d,
    {
        if block_at(text, expected - d as i128, source, from, len) {
            return Some((expected - d as i128) as usize);
        }
        if block_at(text, expected + d as i128, source, from, len) {
            return Some((expected + d as i128) as usize);
        }
        d += 1;
    }
    None
}

fn push_lines(out: &mut Vec<Vec<u8>>, source: &Vec<Vec<u8>>, from: usize, to: usize)
    requires
        from <= to <= source.len(),
    ensures
        lines_view(final(out)@) == lines_view(old(out)@) + lines_view(source@).subrange(from as int, to as int),
{
    let ghost start = lines_view(out@);
    let ghost src = lines_view(source@);
    let mut k: usize = from;
    proof {
        assert(start + src.subrange(from as int, from as int) =~= start);
    }
    while k < to
        invariant
            from <= k <= to,
            to <= source.len(),
            src == lines_view(source@),
            lines_view(out@) == start + src.subrange(from as int, k as int),
        decreases to - k,
    {
        let ghost before = lines_view(out@);
        out.push(copy_bytes(&source[k]));
        proof {
            assert(lines_view(out@) =~= before.push(source@[k as int]@));
            assert(before.push(src[k as int]) =~= start + src.subrange(from as int, k as int + 1));
        }
        k += 1;
    }
}

fn side_start(start: u32, lines: u32) -> (r: i64)
    ensures
        r == side_position(start, lines),
{
    if lines == 0 {
        start as i64
    } else {
        start as i64 - 1
    }
}

fn fits(h: HunkHeader, old_len: usize, new_len: usize) -> (r: bool)
    ensures
        r == hunk_fits(h, old_len as int, new_len as int),
{
    let op = side_start(h.old_start, h.old_lines);
    let np = side_start(h.new_start, h.new_lines);
    op >= 0 && np >= 0 && op as u128 + h.old_lines as u128 <= old_len as u128 && np as u128 + h.new_lines as u128
        <= new_len as u128
}

/// Takes the hunks of a change from `old` to `new` out of `current`, with
/// the given tolerance in lines; see [`revert_hunks`].
pub fn revert_lines(
    old: &Vec<Vec<u8>>,
    new: &Vec<Vec<u8>>,
    current: Vec<Vec<u8>>,
    hunks: &Vec<HunkHeader>,
    tolerance: u32,
) -> (r: Option<Vec<Vec<u8>>>)
    ensures
        match revert_hunks(lines_view(old@), lines_view(new@), lines_view(current@), hunks@, 0, tolerance as int) {
            Some(lines) => r is Some && lines_view(r.unwrap()@) == lines,
            None => r is None,
        },
{
    let ghost o = lines_view(old@);
    let ghost n = lines_view(new@);
    let ghost start = lines_view(current@);
    let mut cur = current;
    let mut shift: i128 = 0;
    let mut i: usize = 0;
    proof {
        assert(hunks@.subrange(0, hunks@.len() as int) =~= hunks@);
    }
    while i < hunks.len()
        invariant
            i <= hunks.len(),
            o == lines_view(old@),
            n == lines_view(new@),
            start == lines_view(current@),
            -(i as int) * 0x1_0000_0000 <= shift <= (i as int) * 0x1_0000_0000,
            revert_hunks(
                o,
                n,
                lines_view(cur@),
                hunks@.subrange(i as int, hunks@.len() as int),
                shift as int,
                tolerance as int,
            ) == revert_hunks(o, n, start, hunks@, 0, tolerance as int),
        decreases hunks.len() - i,
    {
        let h = hunks[i];
        let ghost rest = hunks@.subrange(i as int, hunks@.len() as int);
        let ghost c = lines_view(cur@);
        proof {
            assert(rest[0] == h);
            assert(rest.drop_first() =~= hunks@.subrange(i as int + 1, hunks@.len() as int));
            assert((i as int) * 0x1_0000_0000 <= 0x1_0000_0000_0000_0000 * 0x1_0000_0000) by (nonlinear_arith)
                requires
                    i <= 0x1_0000_0000_0000_0000,
            ;
            assert(((i + 1) as int) * 0x1_0000_0000 == (i as int) * 0x1_0000_0000 + 0x1_0000_0000) by (nonlinear_arith);
        }
        proof {
            assert(o.len() == old.len() && n.len() == new.len());
        }
        if !fits(h, old.len(), new.len()) {
            proof {
                assert(revert_hunk(o, n, c, h, shift as int, tolerance as int) is None);
            }
            return None;
        }
        let op = side_start(h.old_start, h.old_lines) as usize;
        let np = side_start(h.new_start, h.new_lines) as usize;
        let ol = h.old_lines as usize;
        let nl = h.new_lines as usize;
        match find_block(&cur, new, np, nl, np as i128 + shift, tolerance) {
            None => {
                proof {
                    assert(revert_hunk(o, n, c, h, shift as int, tolerance as int) is None);
                }
                return None;
            },
            Some(p) => {
                let mut next: Vec<Vec<u8>> = Vec::new();
                proof {
                    assert(lines_view(next@) =~= Seq::<Seq<u8>>::empty());
                }
                push_lines(&mut next, &cur, 0, p);
                push_lines(&mut next, old, op, op + ol);
                push_lines(&mut next, &cur, p + nl, cur.len());
                proof {
                    assert(lines_view(next@) =~= c.subrange(0, p as int) + o.subrange(op as int, op + ol)
                        + c.subrange(p + nl, c.len() as int));
                }
                cur = next;
                shift = shift + h.old_lines as i128 - h.new_lines as i128;
            },
        }
        i += 1;
    }
    Some(cur)
}

/// Takes the hunks of a change from `old` to `new` out of the text
/// `current`; see [`revert_text`].
pub fn revert_content(old: &Vec<u8>, new: &Vec<u8>, current: &Vec<u8>, hunks: &Vec<HunkHeader>, tolerance: u32) -> (r:
    Option<Vec<u8>>)
    ensures
        match revert_text(old@, new@, current@, hunks@, tolerance as int) {
            Some(text) => r is Some && r.unwrap()@ == text,
            None => r is None,
        },
{
    let old_lines = split_lines(old);
    let new_lines = split_lines(new);
    let current_lines = split_lines(current);
    match revert_lines(&old_lines, &new_lines, current_lines, hunks, tolerance) {
        None => None,
        Some(lines) => Some(join(&lines)),
    }
}

} // verus!

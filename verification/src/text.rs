//! Character-level access to text, and cutting text into fields and lines.

use vstd::prelude::*;
use vstd::std_specs::iter::IteratorSpec;

verus! {

/// The pieces of `s` between occurrences of `sep`, in order. There is always
/// one piece more than there are separators, so text without a separator is
/// one piece, and a trailing separator is followed by an empty piece.
pub open spec fn split(s: Seq<char>, sep: char) -> Seq<Seq<char>>
    decreases s.len(),
{
    if s.len() == 0 {
        seq![Seq::<char>::empty()]
    } else {
        let before = split(s.drop_last(), sep);
        if s.last() == sep {
            before.push(Seq::<char>::empty())
        } else {
            before.drop_last().push(before.last().push(s.last()))
        }
    }
}

/// `piece` without one trailing carriage return, if it has one.
pub open spec fn without_return(piece: Seq<char>) -> Seq<char> {
    if piece.len() > 0 && piece.last() == '\r' {
        piece.drop_last()
    } else {
        piece
    }
}

/// The lines of `s`. A line ends at a line feed; a carriage return directly
/// before that line feed belongs to the line ending. Text after the last line
/// feed is a line too, unless it is empty.
pub open spec fn lines(s: Seq<char>) -> Seq<Seq<char>> {
    let pieces = split(s, '\n');
    let ended = Seq::new((pieces.len() - 1) as nat, |k: int| without_return(pieces[k]));
    if pieces.last().len() == 0 {
        ended
    } else {
        ended.push(pieces.last())
    }
}

/// Whether `a` comes before `b` when the two are compared character by
/// character from position `i` on, a missing character coming first.
pub open spec fn precedes_from(a: Seq<char>, b: Seq<char>, i: int) -> bool
    decreases a.len() - i,
{
    if i >= b.len() {
        false
    } else if i >= a.len() {
        true
    } else if a[i] != b[i] {
        (a[i] as u32) < (b[i] as u32)
    } else {
        precedes_from(a, b, i + 1)
    }
}

/// Whether `a` comes before `b` in the order of text: at the first place
/// where they differ, `a` ends or has the character with the smaller code.
pub open spec fn precedes(a: Seq<char>, b: Seq<char>) -> bool {
    precedes_from(a, b, 0)
}

/// How `precedes_from` goes on past a stretch on which the texts agree.
proof fn lemma_precedes_skip(a: Seq<char>, b: Seq<char>, i: int, k: int)
    requires
        0 <= i <= k <= a.len(),
        k <= b.len(),
        forall|m: int| i <= m < k ==> a[m] == b[m],
    ensures
        precedes_from(a, b, i) == precedes_from(a, b, k),
    decreases k - i,
{
    if i < k {
        lemma_precedes_skip(a, b, i + 1, k);
    }
}

/// The first place from `i` on at which `a` and `b` differ or one of them ends.
spec fn first_gap(a: Seq<char>, b: Seq<char>, i: int) -> int
    decreases a.len() - i,
{
    if i >= a.len() || i >= b.len() || a[i] != b[i] {
        i
    } else {
        first_gap(a, b, i + 1)
    }
}

proof fn lemma_first_gap(a: Seq<char>, b: Seq<char>, i: int)
    requires
        0 <= i <= a.len(),
        i <= b.len(),
    ensures
        i <= first_gap(a, b, i) <= a.len(),
        first_gap(a, b, i) <= b.len(),
        forall|m: int| i <= m < first_gap(a, b, i) ==> a[m] == b[m],
        first_gap(a, b, i) < a.len() && first_gap(a, b, i) < b.len() ==> a[first_gap(a, b, i)] != b[first_gap(
            a,
            b,
            i,
        )],
    decreases a.len() - i,
{
    if i >= a.len() || i >= b.len() || a[i] != b[i] {
    } else {
        lemma_first_gap(a, b, i + 1);
    }
}

/// No text comes before itself.
pub proof fn lemma_precedes_irreflexive(a: Seq<char>)
    ensures
        !precedes(a, a),
{
    lemma_precedes_skip(a, a, 0, a.len() as int);
}

/// Of two different texts, one comes before the other.
pub proof fn lemma_precedes_total(a: Seq<char>, b: Seq<char>)
    ensures
        a != b ==> precedes(a, b) || precedes(b, a),
        !(precedes(a, b) && precedes(b, a)),
{
    lemma_first_gap(a, b, 0);
    let g = first_gap(a, b, 0);
    lemma_precedes_skip(a, b, 0, g);
    lemma_precedes_skip(b, a, 0, g);
    if g == a.len() && g == b.len() {
        assert(a =~= b);
    }
    if g < a.len() && g < b.len() {
        vstd::utf8::char_u32_cast(a[g], a[g] as u32);
        vstd::utf8::char_u32_cast(b[g], b[g] as u32);
    }
}

/// The order of text is transitive.
pub proof fn lemma_precedes_transitive(a: Seq<char>, b: Seq<char>, c: Seq<char>)
    requires
        precedes(a, b),
        precedes(b, c),
    ensures
        precedes(a, c),
{
    lemma_first_gap(a, b, 0);
    lemma_first_gap(b, c, 0);
    let g = first_gap(a, b, 0);
    let h = first_gap(b, c, 0);
    lemma_precedes_skip(a, b, 0, g);
    lemma_precedes_skip(b, c, 0, h);
    let m = if g <= h { g } else { h };
    assert(m <= a.len() && m <= c.len());
    lemma_precedes_skip(a, c, 0, m);
}

/// Whether `a` comes before `b` in the order of text.
pub fn comes_before(a: &str, b: &str) -> (result: bool)
    ensures
        result == precedes(a@, b@),
{
    let x = chars_of(a);
    let y = chars_of(b);
    let mut i: usize = 0;
    while i < x.len() && i < y.len() && x[i] == y[i]
        invariant
            i <= x.len(),
            i <= y.len(),
            forall|m: int| 0 <= m < i ==> x@[m] == y@[m],
        decreases x.len() - i,
    {
        i = i + 1;
    }
    proof {
        lemma_precedes_skip(x@, y@, 0, i as int);
    }
    if i >= y.len() {
        false
    } else if i >= x.len() {
        true
    } else {
        (x[i] as u32) < (y[i] as u32)
    }
}

/// Cutting text always gives at least one piece.
pub proof fn lemma_split_nonempty(s: Seq<char>, sep: char)
    ensures
        split(s, sep).len() >= 1,
    decreases s.len(),
{
    if s.len() > 0 {
        lemma_split_nonempty(s.drop_last(), sep);
    }
}

/// The characters of `text`, in order, as an indexable vector.
pub fn chars_of(text: &str) -> (chars: Vec<char>)
    ensures
        chars@ == text@,
{
    let mut chars: Vec<char> = Vec::new();
    for c in it: text.chars()
        invariant
            chars@ == it.seq().take(it.index() as int),
    {
        chars.push(c);
    }
    chars
}

/// Where the pieces of `chars` between occurrences of `sep` begin and end:
/// piece `k` is `chars[ranges[k].0 .. ranges[k].1]`.
pub fn split_ranges(chars: &Vec<char>, sep: char) -> (ranges: Vec<(usize, usize)>)
    ensures
        ranges.len() == split(chars@, sep).len(),
        forall|k: int|
            0 <= k < ranges.len() ==> {
                &&& (#[trigger] ranges[k]).0 <= ranges[k].1 <= chars.len()
                &&& chars@.subrange(ranges[k].0 as int, ranges[k].1 as int) == split(chars@, sep)[k]
            },
{
    let mut ranges: Vec<(usize, usize)> = Vec::new();
    let mut start: usize = 0;
    let mut i: usize = 0;
    proof {
        assert(chars@.take(0) =~= Seq::<char>::empty());
        assert(chars@.subrange(0, 0) =~= Seq::<char>::empty());
    }
    while i < chars.len()
        invariant
            start <= i <= chars.len(),
            split(chars@.take(i as int), sep).len() == ranges.len() + 1,
            split(chars@.take(i as int), sep).last() == chars@.subrange(start as int, i as int),
            forall|k: int|
                0 <= k < ranges.len() ==> {
                    &&& (#[trigger] ranges[k]).0 <= ranges[k].1 <= i
                    &&& chars@.subrange(ranges[k].0 as int, ranges[k].1 as int) == split(
                        chars@.take(i as int),
                        sep,
                    )[k]
                },
        decreases chars.len() - i,
    {
        let ghost before = split(chars@.take(i as int), sep);
        let ghost old_ranges = ranges@;
        proof {
            assert(chars@.take(i + 1).drop_last() =~= chars@.take(i as int));
            assert(chars@.take(i + 1).last() == chars@[i as int]);
        }
        if chars[i] == sep {
            ranges.push((start, i));
            start = i + 1;
            proof {
                let after = split(chars@.take(i + 1), sep);
                assert(after == before.push(Seq::<char>::empty()));
                assert(chars@.subrange(i + 1, i + 1) =~= Seq::<char>::empty());
                assert forall|k: int| 0 <= k < ranges.len() implies {
                    &&& (#[trigger] ranges[k]).0 <= ranges[k].1 <= i + 1
                    &&& chars@.subrange(ranges[k].0 as int, ranges[k].1 as int) == after[k]
                } by {
                    if k < old_ranges.len() {
                        assert(ranges[k] == old_ranges[k]);
                        assert(after[k] == before[k]);
                    } else {
                        assert(after[k] == before.last());
                    }
                }
            }
        } else {
            proof {
                let after = split(chars@.take(i + 1), sep);
                assert(after == before.drop_last().push(before.last().push(chars@[i as int])));
                assert(chars@.subrange(start as int, i + 1) =~= chars@.subrange(
                    start as int,
                    i as int,
                ).push(chars@[i as int]));
                assert forall|k: int| 0 <= k < ranges.len() implies {
                    &&& (#[trigger] ranges[k]).0 <= ranges[k].1 <= i + 1
                    &&& chars@.subrange(ranges[k].0 as int, ranges[k].1 as int) == after[k]
                } by {
                    assert(after[k] == before[k]);
                }
            }
        }
        i = i + 1;
    }
    proof {
        assert(chars@.take(i as int) =~= chars@);
    }
    let ghost done = ranges@;
    ranges.push((start, i));
    proof {
        assert forall|k: int| 0 <= k < ranges.len() implies {
            &&& (#[trigger] ranges[k]).0 <= ranges[k].1 <= chars.len()
            &&& chars@.subrange(ranges[k].0 as int, ranges[k].1 as int) == split(chars@, sep)[k]
        } by {
            if k < done.len() {
                assert(ranges[k] == done[k]);
            }
        }
    }
    ranges
}

/// The lines of `text`, each without its line ending.
pub fn split_lines(text: &str) -> (result: Vec<String>)
    ensures
        result.len() == lines(text@).len(),
        forall|k: int| 0 <= k < result.len() ==> (#[trigger] result[k])@ == lines(text@)[k],
{
    let chars = chars_of(text);
    let ranges = split_ranges(&chars, '\n');
    proof {
        lemma_split_nonempty(text@, '\n');
    }
    let ghost pieces = split(text@, '\n');
    let mut result: Vec<String> = Vec::new();
    let mut k: usize = 0;
    while k < ranges.len()
        invariant
            k <= ranges.len(),
            chars@ == text@,
            pieces == split(text@, '\n'),
            ranges.len() == pieces.len(),
            ranges.len() >= 1,
            forall|m: int|
                0 <= m < ranges.len() ==> {
                    &&& (#[trigger] ranges[m]).0 <= ranges[m].1 <= chars.len()
                    &&& chars@.subrange(ranges[m].0 as int, ranges[m].1 as int) == pieces[m]
                },
            k < ranges.len() ==> result.len() == k,
            k == ranges.len() ==> result.len() == lines(text@).len(),
            forall|m: int| 0 <= m < result.len() ==> (#[trigger] result[m])@ == lines(text@)[m],
        decreases ranges.len() - k,
    {
        let (from, to) = ranges[k];
        assert(chars@.subrange(from as int, to as int) == pieces[k as int]);
        let last = k + 1 == ranges.len();
        let ghost old_result = result@;
        if !last {
            let end = if from < to && chars[to - 1] == '\r' { (to - 1) as usize } else { to };
            let piece = text.substring_char(from, end);
            result.push(piece.to_owned());
            proof {
                if from < to {
                    assert(chars@.subrange(from as int, to as int).last() == chars@[to - 1]);
                }
                assert(chars@.subrange(from as int, end as int) =~= without_return(pieces[k as int]));
                assert forall|m: int| 0 <= m < result.len() implies (#[trigger] result[m])@ == lines(
                    text@,
                )[m] by {
                    if m < old_result.len() {
                        assert(result[m] == old_result[m]);
                    }
                }
            }
        } else if from < to {
            let piece = text.substring_char(from, to);
            result.push(piece.to_owned());
            proof {
                assert forall|m: int| 0 <= m < result.len() implies (#[trigger] result[m])@ == lines(
                    text@,
                )[m] by {
                    if m < old_result.len() {
                        assert(result[m] == old_result[m]);
                    }
                }
            }
        }
        k = k + 1;
    }
    result
}

} // verus!

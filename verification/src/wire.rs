//! Line terminators in byte sequences: where the first one is, which lines a
//! sequence holds, and the executable scans that find them.

use vstd::prelude::*;
use crate::consts::{CR, LF};

verus! {

/// The two bytes that end a line.
pub open spec fn crlf() -> Seq<u8> {
    seq![CR, LF]
}

/// A line terminator starts at index `i` of `s`.
pub open spec fn crlf_at(s: Seq<u8>, i: int) -> bool {
    0 <= i && i + 1 < s.len() && s[i] == CR && s[i + 1] == LF
}

/// `s` holds at least one line terminator.
pub open spec fn has_crlf(s: Seq<u8>) -> bool {
    exists|i: int| crlf_at(s, i)
}

/// `s` holds no line terminator.
pub open spec fn free_of_crlf(s: Seq<u8>) -> bool {
    forall|i: int| !crlf_at(s, i)
}

/// The first line terminator of `s` starts at index `p`.
pub open spec fn is_first_crlf(s: Seq<u8>, p: int) -> bool {
    crlf_at(s, p) && forall|j: int| 0 <= j < p ==> !crlf_at(s, j)
}

/// Where the first line terminator of `s` starts; meaningful when `s` has one.
pub open spec fn first_crlf(s: Seq<u8>) -> int {
    choose|p: int| is_first_crlf(s, p)
}

/// `head` ends in CR and `tail` begins with LF: a terminator lies across the seam.
pub open spec fn spans_boundary(head: Seq<u8>, tail: Seq<u8>) -> bool {
    head.len() > 0 && head.last() == CR && tail.len() > 0 && tail[0] == LF
}

/// `line` is the first line of `input`, without its terminator, and `rest` is
/// what follows that terminator.
pub open spec fn line_taken(input: Seq<u8>, line: Seq<u8>, rest: Seq<u8>) -> bool {
    &&& is_first_crlf(input, line.len() as int)
    &&& line == input.take(line.len() as int)
    &&& rest == input.skip(line.len() as int + 2)
}

/// The terminated lines of `s`, in order, each without its terminator.
pub open spec fn lines(s: Seq<u8>) -> Seq<Seq<u8>>
    decreases s.len(),
{
    if has_crlf(s) {
        let p = first_crlf(s);
        if 0 <= p && p + 2 <= s.len() {
            seq![s.take(p)] + lines(s.skip(p + 2))
        } else {
            seq![]
        }
    } else {
        seq![]
    }
}

/// What follows the last terminated line of `s`: the start of a line that is
/// still to be completed.
pub open spec fn residue(s: Seq<u8>) -> Seq<u8>
    decreases s.len(),
{
    if has_crlf(s) {
        let p = first_crlf(s);
        if 0 <= p && p + 2 <= s.len() {
            residue(s.skip(p + 2))
        } else {
            s
        }
    } else {
        s
    }
}

/// A sequence with a terminator has a first one, and only one index is it.
pub proof fn lemma_first_crlf(s: Seq<u8>)
    requires
        has_crlf(s),
    ensures
        is_first_crlf(s, first_crlf(s)),
        forall|q: int| is_first_crlf(s, q) ==> q == first_crlf(s),
{
    let w = choose|i: int| crlf_at(s, i);
    lemma_least_crlf(s, w);
    let p = first_crlf(s);
    assert forall|q: int| is_first_crlf(s, q) implies q == p by {
        if q < p {
            assert(!crlf_at(s, q));
        } else if p < q {
            assert(!crlf_at(s, p));
        }
    }
}

/// A terminator at index `w` means that some index at or before it is the first.
proof fn lemma_least_crlf(s: Seq<u8>, w: int)
    requires
        crlf_at(s, w),
    ensures
        exists|p: int| 0 <= p <= w && is_first_crlf(s, p),
    decreases w,
{
    if forall|j: int| 0 <= j < w ==> !crlf_at(s, j) {
        assert(is_first_crlf(s, w));
    } else {
        let j = choose|j: int| 0 <= j < w && crlf_at(s, j);
        lemma_least_crlf(s, j);
    }
}

/// Joining two sequences makes no terminator but across the seam.
pub proof fn lemma_free_concat(a: Seq<u8>, b: Seq<u8>)
    requires
        free_of_crlf(a),
        free_of_crlf(b),
        !spans_boundary(a, b),
    ensures
        free_of_crlf(a + b),
{
    assert forall|i: int| !crlf_at(a + b, i) by {
        if crlf_at(a + b, i) {
            if i + 1 < a.len() {
                assert(crlf_at(a, i));
            } else if i >= a.len() {
                assert(crlf_at(b, i - a.len()));
            } else {
                assert(a.last() == CR && b[0] == LF);
            }
        }
    }
}

/// Where a terminator lies across the seam of two sequences and none lies
/// before it, the first line of the two joined is the first sequence without
/// its last byte, and what is left is the second without its first byte.
pub proof fn lemma_line_across(head: Seq<u8>, tail: Seq<u8>)
    requires
        free_of_crlf(head),
        spans_boundary(head, tail),
    ensures
        line_taken(head + tail, head.drop_last(), tail.skip(1)),
{
    let input = head + tail;
    let p = head.len() - 1;
    assert(crlf_at(input, p));
    assert forall|j: int| 0 <= j < p implies !crlf_at(input, j) by {
        if crlf_at(input, j) {
            assert(crlf_at(head, j));
        }
    }
    assert(head.drop_last() =~= input.take(p));
    assert(tail.skip(1) =~= input.skip(p + 2));
}

/// Where the first sequence holds no terminator, none lies across the seam
/// and the first one of the second sequence starts at `p`, the first line of
/// the two joined is the first sequence and the second up to `p`, and what
/// is left is the second behind that terminator.
pub proof fn lemma_line_within(head: Seq<u8>, tail: Seq<u8>, p: int)
    requires
        free_of_crlf(head),
        !spans_boundary(head, tail),
        is_first_crlf(tail, p),
    ensures
        line_taken(head + tail, head + tail.take(p), tail.skip(p + 2)),
{
    let input = head + tail;
    let q = head.len() + p;
    assert(crlf_at(tail, p));
    assert(crlf_at(input, q));
    assert forall|j: int| 0 <= j < q implies !crlf_at(input, j) by {
        if crlf_at(input, j) {
            if j + 1 < head.len() {
                assert(crlf_at(head, j));
            } else if j >= head.len() {
                assert(crlf_at(tail, j - head.len()));
            }
        }
    }
    assert(head + tail.take(p) =~= input.take(q));
    assert(tail.skip(p + 2) =~= input.skip(q + 2));
}

/// The first terminator of a sequence stays the first when bytes are appended.
pub proof fn lemma_first_crlf_extends(a: Seq<u8>, b: Seq<u8>, p: int)
    requires
        is_first_crlf(a, p),
    ensures
        is_first_crlf(a + b, p),
        (a + b).take(p) == a.take(p),
        (a + b).skip(p + 2) == a.skip(p + 2) + b,
{
    assert(crlf_at(a + b, p));
    assert forall|j: int| 0 <= j < p implies !crlf_at(a + b, j) by {
        if crlf_at(a + b, j) {
            assert(crlf_at(a, j));
        }
    }
    assert((a + b).take(p) =~= a.take(p));
    assert((a + b).skip(p + 2) =~= a.skip(p + 2) + b);
}

/// A line that was taken from the front of some bytes is the first of their
/// lines, and the lines of what is left are the others.
pub proof fn lemma_first_line(input: Seq<u8>, line: Seq<u8>, rest: Seq<u8>)
    requires
        line_taken(input, line, rest),
    ensures
        lines(input) == seq![line] + lines(rest),
        residue(input) == residue(rest),
{
    assert(crlf_at(input, line.len() as int));
    lemma_first_crlf(input);
}

/// Lines put back on the wire, each with its terminator.
pub open spec fn joined_lines(lines: Seq<Seq<u8>>) -> Seq<u8>
    decreases lines.len(),
{
    if lines.len() == 0 {
        Seq::empty()
    } else {
        joined_lines(lines.drop_last()) + lines.last() + crlf()
    }
}

/// A line without a terminator, followed by a terminator, ends at that
/// terminator.
pub proof fn lemma_line_then_crlf(line: Seq<u8>, tail: Seq<u8>)
    requires
        free_of_crlf(line),
    ensures
        is_first_crlf(line + crlf() + tail, line.len() as int),
        has_crlf(line + crlf() + tail),
        first_crlf(line + crlf() + tail) == line.len(),
        (line + crlf() + tail).take(line.len() as int) == line,
        (line + crlf() + tail).skip(line.len() as int + 2) == tail,
{
    let s = line + crlf() + tail;
    let p = line.len() as int;
    assert(crlf_at(s, p));
    assert forall|j: int| 0 <= j < p implies !crlf_at(s, j) by {
        if crlf_at(s, j) {
            if j + 1 < p {
                assert(crlf_at(line, j));
            }
        }
    }
    lemma_first_crlf(s);
    assert(s.take(p) =~= line);
    assert(s.skip(p + 2) =~= tail);
}

/// A line that was taken from the front of some bytes holds no terminator,
/// and the bytes are that line, a terminator and the rest.
pub proof fn lemma_line_was_taken(input: Seq<u8>, line: Seq<u8>, rest: Seq<u8>)
    requires
        line_taken(input, line, rest),
    ensures
        free_of_crlf(line),
        input == line + crlf() + rest,
{
    assert forall|j: int| !crlf_at(line, j) by {
        if crlf_at(line, j) {
            assert(crlf_at(input, j));
        }
    }
    assert(input =~= line + crlf() + rest);
}

/// Lines put back on the wire, with one more line behind them.
pub proof fn lemma_joined_push(lines: Seq<Seq<u8>>, line: Seq<u8>)
    ensures
        joined_lines(lines.push(line)) == joined_lines(lines) + line + crlf(),
{
    assert(lines.push(line).drop_last() =~= lines);
}

/// Lines put back on the wire take up two bytes each at the least.
pub proof fn lemma_joined_long(lines: Seq<Seq<u8>>)
    ensures
        joined_lines(lines).len() >= 2 * lines.len(),
    decreases lines.len(),
{
    if lines.len() > 0 {
        lemma_joined_long(lines.drop_last());
    }
}

/// Two runs of lines put back on the wire, one behind the other.
pub proof fn lemma_joined_concat(a: Seq<Seq<u8>>, b: Seq<Seq<u8>>)
    ensures
        joined_lines(a + b) == joined_lines(a) + joined_lines(b),
    decreases b.len(),
{
    if b.len() == 0 {
        assert(a + b =~= a);
        assert(joined_lines(a) + joined_lines(b) =~= joined_lines(a));
    } else {
        lemma_joined_concat(a, b.drop_last());
        assert((a + b).drop_last() =~= a + b.drop_last());
        assert((a + b).last() == b.last());
        assert(joined_lines(a + b) =~= joined_lines(a) + joined_lines(b));
    }
}

/// Lines without a terminator inside them, put on the wire each with its
/// terminator, are read back as they were, and nothing is left over.
pub proof fn lemma_lines_read_back(written: Seq<Seq<u8>>)
    requires
        forall|i: int| 0 <= i < written.len() ==> free_of_crlf(#[trigger] written[i]),
    ensures
        lines(joined_lines(written)) == written,
        residue(joined_lines(written)) == Seq::<u8>::empty(),
    decreases written.len(),
{
    if written.len() > 0 {
        let earlier = written.drop_last();
        let last = written.last();
        assert forall|i: int| 0 <= i < earlier.len() implies free_of_crlf(
            #[trigger] earlier[i],
        ) by {
            assert(earlier[i] == written[i]);
        }
        lemma_lines_read_back(earlier);
        lemma_lines_resume(joined_lines(earlier), last + crlf());
        let end = Seq::<u8>::empty();
        lemma_line_then_crlf(last, end);
        assert(last + crlf() + end =~= last + crlf());
        assert(Seq::<u8>::empty() + (last + crlf()) =~= last + crlf());
        assert(joined_lines(written) =~= joined_lines(earlier) + (last + crlf()));
        assert(!has_crlf(end)) by {
            assert forall|i: int| !crlf_at(end, i) by {}
        }
        assert(lines(end) =~= Seq::<Seq<u8>>::empty());
        assert(lines(last + crlf()) =~= seq![last]);
        assert(residue(end) == end);
        assert(residue(last + crlf()) == end);
        assert(earlier + seq![last] =~= written);
    } else {
        let end = joined_lines(written);
        assert(!has_crlf(end)) by {
            assert forall|i: int| !crlf_at(end, i) by {}
        }
        assert(lines(end) =~= written);
    }
}

/// However a buffer is cut in two, the lines of the first part, followed by
/// the lines of what the first part left unfinished joined with the second
/// part, are the lines of the whole buffer; and the same bytes are left
/// unfinished at the end. The cut may fall between CR and LF.
pub proof fn lemma_split_boundary(buf: Seq<u8>, k: int)
    requires
        0 <= k <= buf.len(),
    ensures
        lines(buf) == lines(buf.take(k)) + lines(residue(buf.take(k)) + buf.skip(k)),
        residue(buf) == residue(residue(buf.take(k)) + buf.skip(k)),
{
    assert(buf =~= buf.take(k) + buf.skip(k));
    lemma_lines_resume(buf.take(k), buf.skip(k));
}

/// The lines of `a + b` are those of `a`, then those of what `a` left
/// unfinished joined with `b`.
pub proof fn lemma_lines_resume(a: Seq<u8>, b: Seq<u8>)
    ensures
        lines(a + b) == lines(a) + lines(residue(a) + b),
        residue(a + b) == residue(residue(a) + b),
    decreases a.len(),
{
    if has_crlf(a) {
        lemma_first_crlf(a);
        let p = first_crlf(a);
        lemma_first_crlf_extends(a, b, p);
        assert(has_crlf(a + b));
        lemma_first_crlf(a + b);
        assert(first_crlf(a + b) == p);
        lemma_lines_resume(a.skip(p + 2), b);
        assert(lines(a + b) =~= lines(a) + lines(residue(a) + b));
    } else {
        assert(lines(a) =~= Seq::<Seq<u8>>::empty());
        assert(lines(a + b) =~= lines(a) + lines(residue(a) + b));
    }
}

/// Whether `head` ends in CR while `tail` begins with LF.
pub fn cross_boundary_separator(head: &[u8], tail: &[u8]) -> (r: bool)
    ensures
        r == spans_boundary(head@, tail@),
{
    if head.len() == 0 || tail.len() == 0 {
        return false;
    }
    head[head.len() - 1] == CR && tail[0] == LF
}

/// The index in `window` of the first terminator that lies wholly inside
/// `window[start..end]`.
pub fn find_crlf(window: &[u8], start: usize, end: usize) -> (r: Option<usize>)
    requires
        start <= end <= window@.len(),
    ensures
        match r {
            Some(p) => start <= p && p + 2 <= end && is_first_crlf(
                window@.subrange(start as int, end as int),
                p - start,
            ),
            None => free_of_crlf(window@.subrange(start as int, end as int)),
        },
{
    let ghost part = window@.subrange(start as int, end as int);
    let mut i: usize = start;
    while end - i >= 2
        invariant
            start <= i <= end <= window@.len(),
            part == window@.subrange(start as int, end as int),
            forall|j: int| 0 <= j < i - start ==> !crlf_at(part, j),
        decreases end - i,
    {
        if window[i] == CR && window[i + 1] == LF {
            assert(crlf_at(part, i - start));
            return Some(i);
        }
        i += 1;
    }
    assert forall|j: int| !crlf_at(part, j) by {
        if crlf_at(part, j) {
            assert(j + 1 < part.len());
            assert(j < i - start);
        }
    }
    None
}

/// Appends `src[from..to]` to `dst`.
pub fn append_range(dst: &mut Vec<u8>, src: &[u8], from: usize, to: usize)
    requires
        from <= to <= src@.len(),
    ensures
        final(dst)@ == old(dst)@ + src@.subrange(from as int, to as int),
{
    let mut i: usize = from;
    while i < to
        invariant
            from <= i <= to <= src@.len(),
            dst@ == old(dst)@ + src@.subrange(from as int, i as int),
        decreases to - i,
    {
        dst.push(src[i]);
        assert(src@.subrange(from as int, i + 1) =~= src@.subrange(from as int, i as int).push(
            src@[i as int],
        ));
        i += 1;
    }
}

/// Whether two byte strings hold the same bytes.
pub fn bytes_equal(a: &[u8], b: &[u8]) -> (r: bool)
    ensures
        r == (a@ == b@),
{
    if a.len() != b.len() {
        return false;
    }
    let mut i: usize = 0;
    while i < a.len()
        invariant
            a@.len() == b@.len(),
            i <= a@.len(),
            forall|j: int| 0 <= j < i ==> a@[j] == b@[j],
        decreases a.len() - i,
    {
        if a[i] != b[i] {
            return false;
        }
        i += 1;
    }
    assert(a@ =~= b@);
    true
}

/// The first `b` of `s` is at index `p`.
pub open spec fn first_at(s: Seq<u8>, b: u8, p: int) -> bool {
    0 <= p < s.len() && s[p] == b && forall|j: int| 0 <= j < p ==> s[j] != b
}

/// Where the first `b` of `s` is; meaningful when `s` holds one.
pub open spec fn index_of_first(s: Seq<u8>, b: u8) -> int {
    choose|p: int| first_at(s, b, p)
}

/// The pieces into which the occurrences of `sep` cut `s`. There is always
/// one piece more than there are separators, and a piece may be empty.
pub open spec fn split_on(s: Seq<u8>, sep: u8) -> Seq<Seq<u8>>
    decreases s.len(),
{
    if s.contains(sep) {
        let p = index_of_first(s, sep);
        if 0 <= p < s.len() {
            seq![s.take(p)] + split_on(s.skip(p + 1), sep)
        } else {
            seq![s]
        }
    } else {
        seq![s]
    }
}

/// The byte sequences that the vectors hold.
pub open spec fn views(v: Seq<Vec<u8>>) -> Seq<Seq<u8>> {
    v.map_values(|t: Vec<u8>| t@)
}

/// A sequence that holds a byte holds a first one.
pub proof fn lemma_index_of_first(s: Seq<u8>, b: u8)
    requires
        s.contains(b),
    ensures
        first_at(s, b, index_of_first(s, b)),
{
    let w = choose|i: int| 0 <= i < s.len() && s[i] == b;
    lemma_least_byte(s, b, w);
}

/// An occurrence at index `w` means that some index at or before it is the first.
proof fn lemma_least_byte(s: Seq<u8>, b: u8, w: int)
    requires
        0 <= w < s.len(),
        s[w] == b,
    ensures
        exists|p: int| first_at(s, b, p),
    decreases w,
{
    if forall|j: int| 0 <= j < w ==> s[j] != b {
        assert(first_at(s, b, w));
    } else {
        let j = choose|j: int| 0 <= j < w && s[j] == b;
        lemma_least_byte(s, b, j);
    }
}

/// Only one index is the first occurrence of a byte.
pub proof fn lemma_first_at_unique(s: Seq<u8>, b: u8, p: int)
    requires
        first_at(s, b, p),
    ensures
        s.contains(b),
        index_of_first(s, b) == p,
{
    assert(s[p] == b);
    let q = index_of_first(s, b);
    assert(first_at(s, b, q));
    if q < p {
        assert(s[q] != b);
    } else if p < q {
        assert(s[p] != b);
    }
}

/// Cutting at the first separator gives the piece before it, then the pieces
/// of what follows it.
pub proof fn lemma_split_first(s: Seq<u8>, sep: u8, p: int)
    requires
        first_at(s, sep, p),
    ensures
        split_on(s, sep) == seq![s.take(p)] + split_on(s.skip(p + 1), sep),
        split_on(s, sep).len() >= 2,
        split_on(s, sep)[0] == s.take(p),
{
    lemma_first_at_unique(s, sep, p);
    lemma_split_some(s.skip(p + 1), sep);
}

/// There is always a piece.
pub proof fn lemma_split_some(s: Seq<u8>, sep: u8)
    ensures
        split_on(s, sep).len() >= 1,
        !s.contains(sep) ==> split_on(s, sep) == seq![s],
{
}

/// The index of the first `b` in `s[from..]`, counted in `s`.
pub fn find_byte(s: &[u8], b: u8, from: usize) -> (r: Option<usize>)
    requires
        from <= s@.len(),
    ensures
        match r {
            Some(p) => from <= p < s@.len() && first_at(s@.skip(from as int), b, p - from),
            None => !s@.skip(from as int).contains(b),
        },
{
    let ghost part = s@.skip(from as int);
    let mut i: usize = from;
    while i < s.len()
        invariant
            from <= i <= s@.len(),
            part == s@.skip(from as int),
            forall|j: int| 0 <= j < i - from ==> part[j] != b,
        decreases s.len() - i,
    {
        if s[i] == b {
            assert(part[i - from] == b);
            return Some(i);
        }
        i += 1;
    }
    assert(!part.contains(b)) by {
        if part.contains(b) {
            let j = choose|j: int| 0 <= j < part.len() && part[j] == b;
            assert(part[j] != b);
        }
    }
    None
}

/// Cuts `s` at every `sep`.
pub fn split_bytes(s: &[u8], sep: u8) -> (r: Vec<Vec<u8>>)
    ensures
        views(r@) == split_on(s@, sep),
{
    let mut pieces: Vec<Vec<u8>> = Vec::new();
    let mut start: usize = 0;
    assert(s@.skip(0) =~= s@);
    assert(views(pieces@) =~= Seq::<Seq<u8>>::empty());
    loop
        invariant
            start <= s@.len(),
            split_on(s@, sep) == views(pieces@) + split_on(s@.skip(start as int), sep),
        decreases s@.len() - start,
    {
        let ghost tail = s@.skip(start as int);
        let ghost done = views(pieces@);
        match find_byte(s, sep, start) {
            Some(p) => {
                let mut piece: Vec<u8> = Vec::new();
                append_range(&mut piece, s, start, p);
                pieces.push(piece);
                proof {
                    lemma_first_at_unique(tail, sep, p - start);
                    assert(piece@ =~= tail.take(p - start));
                    assert(tail.skip(p - start + 1) =~= s@.skip(p + 1));
                    assert(views(pieces@) =~= done.push(piece@));
                    assert(done + (seq![piece@] + split_on(s@.skip(p + 1), sep)) =~= done.push(
                        piece@,
                    ) + split_on(s@.skip(p + 1), sep));
                }
                assert(p < s.len());
                start = p + 1;
            },
            None => {
                let mut piece: Vec<u8> = Vec::new();
                append_range(&mut piece, s, start, s.len());
                pieces.push(piece);
                proof {
                    assert(piece@ =~= tail);
                    assert(views(pieces@) =~= done.push(piece@));
                    assert(done + seq![tail] =~= done.push(tail));
                }
                return pieces;
            },
        }
    }
}

/// The byte `b` stands at index `i` of `s` and again right behind it.
pub open spec fn pair_at(s: Seq<u8>, b: u8, i: int) -> bool {
    0 <= i && i + 1 < s.len() && s[i] == b && s[i + 1] == b
}

/// `s` holds the byte `b` twice in a row.
pub open spec fn has_pair(s: Seq<u8>, b: u8) -> bool {
    exists|i: int| pair_at(s, b, i)
}

/// Whether `s` holds the byte `b` twice in a row.
pub fn find_pair(s: &[u8], b: u8) -> (r: bool)
    ensures
        r == has_pair(s@, b),
{
    let mut i: usize = 0;
    while s.len() - i >= 2
        invariant
            i <= s@.len(),
            forall|j: int| 0 <= j < i ==> !pair_at(s@, b, j),
        decreases s.len() - i,
    {
        if s[i] == b && s[i + 1] == b {
            assert(pair_at(s@, b, i as int));
            return true;
        }
        i += 1;
    }
    assert forall|j: int| !pair_at(s@, b, j) by {
        if pair_at(s@, b, j) {
            assert(j < i);
        }
    }
    false
}

} // verus!

use crate::text::{
    chars_of, decimal, is_white, is_word, lemma_decimal, lemma_decimal_reads_back, lemma_words_blank,
    lemma_words_concat, lemma_words_single, parse_usize_chars, push_char, push_decimal, usize_literal,
    views, words, words_of,
};
use vstd::prelude::*;

verus! {

/// What a line of the point stream announces, by its first character.
#[derive(PartialEq, Eq, Structural, Debug, Clone, Copy)]
pub enum LineKind {
    /// An empty line or a comment (`#`): nothing to do.
    Skip,
    /// `n`: the total number of points.
    PointCount,
    /// `c`: the cell size.
    CellSize,
    /// `d`: the grid dimensions.
    GridDimensions,
    /// `b`: the lower-left corner of the bounding box.
    BoundingBox,
    /// `v`: a vertex.
    Vertex,
    /// `x`: a cell is complete.
    FinaliseCell,
    /// Any other first character: the stream is malformed.
    Malformed,
}

/// The kind of a line, by its first character.
pub open spec fn line_kind(l: Seq<char>) -> LineKind {
    if l.len() == 0 {
        LineKind::Skip
    } else if l[0] == '#' {
        LineKind::Skip
    } else if l[0] == 'n' {
        LineKind::PointCount
    } else if l[0] == 'c' {
        LineKind::CellSize
    } else if l[0] == 'd' {
        LineKind::GridDimensions
    } else if l[0] == 'b' {
        LineKind::BoundingBox
    } else if l[0] == 'v' {
        LineKind::Vertex
    } else if l[0] == 'x' {
        LineKind::FinaliseCell
    } else {
        LineKind::Malformed
    }
}

/// The number that ends a line: its last word, read as a `usize`.
pub open spec fn last_usize(l: Seq<char>) -> Option<usize> {
    let w = words(l);
    if w.len() == 0 {
        None
    } else {
        usize_literal(w.last())
    }
}

/// The two numbers of a line `k a b ...`: its second and third words, read as `usize`.
pub open spec fn two_usizes(l: Seq<char>) -> Option<(usize, usize)> {
    let w = words(l);
    if w.len() >= 3 && usize_literal(w[1]) is Some && usize_literal(w[2]) is Some {
        Some((usize_literal(w[1])->0, usize_literal(w[2])->0))
    } else {
        None
    }
}

/// Tells what a line of the stream announces.
pub fn classify_line(l: &str) -> (k: LineKind)
    ensures
        k == line_kind(l@),
{
    let cs = chars_of(l);
    if cs.len() == 0 {
        return LineKind::Skip;
    }
    let c = cs[0];
    if c == '#' {
        LineKind::Skip
    } else if c == 'n' {
        LineKind::PointCount
    } else if c == 'c' {
        LineKind::CellSize
    } else if c == 'd' {
        LineKind::GridDimensions
    } else if c == 'b' {
        LineKind::BoundingBox
    } else if c == 'v' {
        LineKind::Vertex
    } else if c == 'x' {
        LineKind::FinaliseCell
    } else {
        LineKind::Malformed
    }
}

/// Reads the number that ends a line (as in `n 1000` or `c 5`), if that last
/// word is a `usize`.
pub fn parse_last_usize(l: &str) -> (res: Option<usize>)
    ensures
        res == last_usize(l@),
{
    let cs = chars_of(l);
    let ws = words_of(&cs);
    let n = ws.len();
    if n == 0 {
        return None;
    }
    assert(views(ws@)[n - 1] == ws@[n - 1]@);
    parse_usize_chars(&ws[n - 1])
}

/// Reads the two numbers of a line `k a b`, if it has at least three words
/// and the second and third are `usize`s.
pub fn try_parse_2_usize(l: &str) -> (res: Option<(usize, usize)>)
    ensures
        res == two_usizes(l@),
{
    let cs = chars_of(l);
    let ws = words_of(&cs);
    if ws.len() < 3 {
        return None;
    }
    assert(views(ws@)[1] == ws@[1]@);
    assert(views(ws@)[2] == ws@[2]@);
    match parse_usize_chars(&ws[1]) {
        None => None,
        Some(a) => match parse_usize_chars(&ws[2]) {
            None => None,
            Some(b) => Some((a, b)),
        },
    }
}

/// The two numbers of a line `k a b` (a grid dimension, or the cell to
/// finalise), from a line that has them.
pub fn parse_2_usize(l: &String) -> (res: (usize, usize))
    requires
        two_usizes(l@) is Some,
    ensures
        Some(res) == two_usizes(l@),
{
    try_parse_2_usize(l.as_str()).unwrap()
}

/// The kind of a non-empty line depends on its first character alone: two
/// lines that start with the same character announce the same thing, whatever
/// follows.
pub proof fn lemma_kind_by_first_char(l1: Seq<char>, l2: Seq<char>)
    requires
        l1.len() > 0,
        l2.len() > 0,
        l1[0] == l2[0],
    ensures
        line_kind(l1) == line_kind(l2),
{
}

/// What each first character announces: an empty line or `#` nothing, `n`
/// the point count, `c` the cell size, `d` the grid dimensions, `b` the
/// bounding box, `v` a vertex, `x` a completed cell, and anything else a
/// malformed stream. (With the law above: a line is a vertex exactly when it
/// starts with `v`, whatever its coordinates.)
pub proof fn lemma_line_kinds(l: Seq<char>)
    ensures
        l.len() == 0 ==> line_kind(l) == LineKind::Skip,
        l.len() > 0 ==> (line_kind(l) == LineKind::Skip <==> l[0] == '#'),
        l.len() > 0 ==> (line_kind(l) == LineKind::PointCount <==> l[0] == 'n'),
        l.len() > 0 ==> (line_kind(l) == LineKind::CellSize <==> l[0] == 'c'),
        l.len() > 0 ==> (line_kind(l) == LineKind::GridDimensions <==> l[0] == 'd'),
        l.len() > 0 ==> (line_kind(l) == LineKind::BoundingBox <==> l[0] == 'b'),
        l.len() > 0 ==> (line_kind(l) == LineKind::Vertex <==> l[0] == 'v'),
        l.len() > 0 ==> (line_kind(l) == LineKind::FinaliseCell <==> l[0] == 'x'),
        l.len() > 0 ==> (line_kind(l) == LineKind::Malformed <==> !(l[0] == '#' || l[0] == 'n' || l[0] == 'c'
            || l[0] == 'd' || l[0] == 'b' || l[0] == 'v' || l[0] == 'x')),
{
}

/// Writes the line `tag n` (without line end), as the stream carries a
/// count: the tag, a space, and `n` in decimal.
pub fn number_line(tag: char, n: usize) -> (res: String)
    ensures
        res@ == seq![tag, ' '] + decimal(n as nat),
{
    let mut res = String::new();
    push_char(&mut res, tag);
    push_char(&mut res, ' ');
    push_decimal(&mut res, n);
    assert(res@ =~= seq![tag, ' '] + decimal(n as nat));
    res
}

/// Writes the line `tag a b` (without line end), as the stream carries a
/// cell or a grid size: the tag, then `a` and `b` in decimal, each after a
/// space.
pub fn pair_line(tag: char, a: usize, b: usize) -> (res: String)
    ensures
        res@ == seq![tag, ' '] + decimal(a as nat) + seq![' '] + decimal(b as nat),
{
    let mut res = String::new();
    push_char(&mut res, tag);
    push_char(&mut res, ' ');
    push_decimal(&mut res, a);
    push_char(&mut res, ' ');
    push_decimal(&mut res, b);
    assert(res@ =~= seq![tag, ' '] + decimal(a as nat) + seq![' '] + decimal(b as nat));
    res
}

/// The words of a decimal writing and of a lone space.
proof fn lemma_decimal_word(n: nat)
    ensures
        is_word(decimal(n)),
        words(decimal(n)) == seq![decimal(n)],
        words(seq![' ']) == Seq::<Seq<char>>::empty(),
{
    lemma_decimal(n);
    lemma_words_single(decimal(n));
    assert(is_white(seq![' '][0]));
    lemma_words_blank(seq![' ']);
}

/// A line `t a b` reads back as `a` and `b`: whatever word `t` tags it, and
/// whatever follows it, if that starts with whitespace.
pub proof fn lemma_pair_line_reads_back(t: Seq<char>, a: usize, b: usize, s: Seq<char>)
    requires
        is_word(t),
        s.len() == 0 || is_white(s[0]),
    ensures
        two_usizes(t + seq![' '] + decimal(a as nat) + seq![' '] + decimal(b as nat) + s) == Some((a, b)),
{
    let sp = seq![' '];
    let d1 = decimal(a as nat);
    let d2 = decimal(b as nat);
    lemma_decimal_word(a as nat);
    lemma_decimal_word(b as nat);
    lemma_words_single(t);
    lemma_decimal_reads_back(a);
    lemma_decimal_reads_back(b);
    let line = t + sp + d1 + sp + d2 + s;
    let r3 = d2 + s;
    let r2 = sp + r3;
    let r1 = d1 + r2;
    assert(line =~= (t + sp) + r1);
    assert(is_white(sp[0]));
    lemma_words_concat(t, sp);
    lemma_words_concat(t + sp, r1);
    lemma_words_concat(d1, r2);
    lemma_words_concat(sp, r3);
    lemma_words_concat(d2, s);
    let w = words(line);
    assert(w =~= seq![t, d1, d2] + words(s));
    assert(w[1] == d1);
    assert(w[2] == d2);
}

/// A line `t n` reads back as `n` by its last word: whatever word `t` tags
/// it, and whatever whitespace follows it.
pub proof fn lemma_number_line_reads_back(t: Seq<char>, n: usize, s: Seq<char>)
    requires
        is_word(t),
        forall|i: int| 0 <= i < s.len() ==> is_white(#[trigger] s[i]),
    ensures
        last_usize(t + seq![' '] + decimal(n as nat) + s) == Some(n),
{
    let sp = seq![' '];
    let d = decimal(n as nat);
    lemma_decimal_word(n as nat);
    lemma_words_single(t);
    lemma_decimal_reads_back(n);
    lemma_words_blank(s);
    let line = t + sp + d + s;
    let r2 = d + s;
    let r1 = sp + r2;
    assert(line =~= t + r1);
    assert(is_white(sp[0]));
    lemma_words_concat(t, r1);
    lemma_words_concat(sp, r2);
    if s.len() > 0 {
        assert(is_white(s[0]));
    }
    lemma_words_concat(d, s);
    assert(words(line) =~= seq![t, d]);
}

} // verus!

use vstd::arithmetic::div_mod::lemma_fundamental_div_mod_converse;
use vstd::prelude::*;

verus! {

/// Whether `c` has the Unicode `White_Space` property, which is what
/// `char::is_whitespace` tests.
pub open spec fn is_white(c: char) -> bool {
    let n = c as u32;
    ||| 0x09 <= n <= 0x0d
    ||| n == 0x20
    ||| n == 0x85
    ||| n == 0xa0
    ||| n == 0x1680
    ||| 0x2000 <= n <= 0x200a
    ||| n == 0x2028
    ||| n == 0x2029
    ||| n == 0x202f
    ||| n == 0x205f
    ||| n == 0x3000
}

/// The words of `s`: its maximal runs of non-whitespace characters, in order.
/// Defined by a left-to-right scan: a non-whitespace character starts a new
/// word unless it directly follows another non-whitespace character.
pub open spec fn words(s: Seq<char>) -> Seq<Seq<char>>
    decreases s.len(),
{
    if s.len() == 0 {
        Seq::empty()
    } else {
        let prev = words(s.drop_last());
        let c = s.last();
        if is_white(c) {
            prev
        } else if s.len() >= 2 && !is_white(s[s.len() - 2]) {
            prev.update(prev.len() - 1, prev.last().push(c))
        } else {
            prev.push(seq![c])
        }
    }
}

/// Whether `c` is one of the ASCII digits `0` to `9`.
pub open spec fn is_digit(c: char) -> bool {
    0x30 <= (c as u32) <= 0x39
}

/// The value of a decimal digit.
pub open spec fn digit_value(c: char) -> nat {
    ((c as u32) - 0x30) as nat
}

/// The value of a sequence of decimal digits, most significant first.
pub open spec fn decimal_value(d: Seq<char>) -> nat
    decreases d.len(),
{
    if d.len() == 0 {
        0
    } else {
        decimal_value(d.drop_last()) * 10 + digit_value(d.last())
    }
}

/// The digits of an unsigned literal: the text after one optional leading `+`.
pub open spec fn literal_digits(s: Seq<char>) -> Seq<char> {
    if s.len() > 0 && s[0] == '+' {
        s.drop_first()
    } else {
        s
    }
}

/// What parsing `s` as a `usize` gives (as `str::parse::<usize>` does):
/// an optional `+`, then one or more ASCII digits whose value fits in a `usize`.
pub open spec fn usize_literal(s: Seq<char>) -> Option<usize> {
    let d = literal_digits(s);
    if d.len() > 0 && (forall|i: int| 0 <= i < d.len() ==> is_digit(#[trigger] d[i]))
        && decimal_value(d) <= usize::MAX {
        Some(decimal_value(d) as usize)
    } else {
        None
    }
}

/// Tests whether a character is whitespace.
pub fn is_whitespace(c: char) -> (res: bool)
    ensures
        res == is_white(c),
{
    let n = c as u32;
    (0x09 <= n && n <= 0x0d) || n == 0x20 || n == 0x85 || n == 0xa0 || n == 0x1680 || (0x2000
        <= n && n <= 0x200a) || n == 0x2028 || n == 0x2029 || n == 0x202f || n == 0x205f || n
        == 0x3000
}

/// Copies the characters of a string into a vector.
pub fn chars_of(s: &str) -> (res: Vec<char>)
    ensures
        res@ == s@,
{
    let mut res: Vec<char> = Vec::new();
    for c in it: s.chars()
        invariant
            res@ == it.seq().take(it.index()),
    {
        res.push(c);
    }
    proof {
        vstd::string::axiom_spec_iter(s);
    }
    res
}

/// A sequence that ends in a non-whitespace character has at least one word.
proof fn lemma_words_nonempty(s: Seq<char>)
    requires
        s.len() > 0,
        !is_white(s.last()),
    ensures
        words(s).len() > 0,
    decreases s.len(),
{
    if s.len() >= 2 && !is_white(s[s.len() - 2]) {
        assert(s.drop_last().last() == s[s.len() - 2]);
        lemma_words_nonempty(s.drop_last());
    }
}

/// The character sequences held by a sequence of vectors.
pub open spec fn views(v: Seq<Vec<char>>) -> Seq<Seq<char>> {
    v.map_values(|w: Vec<char>| w@)
}

/// Splits a sequence of characters into its words.
pub fn words_of(cs: &Vec<char>) -> (res: Vec<Vec<char>>)
    ensures
        views(res@) == words(cs@),
{
    let n = cs.len();
    let mut done: Vec<Vec<char>> = Vec::new();
    let mut cur: Vec<char> = Vec::new();
    let mut in_word = false;
    for i in 0..n
        invariant
            n == cs@.len(),
            in_word == (i > 0 && !is_white(cs@[i - 1])),
            in_word ==> views(done@).push(cur@) == words(cs@.take(i as int)),
            !in_word ==> views(done@) == words(cs@.take(i as int)),
    {
        let c = cs[i];
        let ghost dv = views(done@);
        let ghost pre = cs@.take(i as int);
        let ghost next = cs@.take(i + 1);
        assert(next.drop_last() == pre);
        assert(next.last() == c);
        if is_whitespace(c) {
            if in_word {
                let mut w: Vec<char> = Vec::new();
                std::mem::swap(&mut w, &mut cur);
                done.push(w);
                assert(views(done@) =~= dv.push(w@));
            }
            in_word = false;
        } else {
            if in_word {
                proof {
                    assert(next[next.len() - 2] == cs@[i - 1]);
                    lemma_words_nonempty(pre);
                }
                let ghost old_cur = cur@;
                cur.push(c);
                assert(dv.push(old_cur).update(dv.len() as int, old_cur.push(c)) =~= dv.push(cur@));
            } else {
                cur = Vec::new();
                cur.push(c);
                proof {
                    assert(i == 0 || is_white(next[next.len() - 2]));
                    assert(cur@ == seq![c]);
                }
            }
            in_word = true;
        }
    }
    let ghost dv = views(done@);
    if in_word {
        let ghost last = cur@;
        done.push(cur);
        assert(views(done@) =~= dv.push(last));
    }
    assert(cs@.take(n as int) == cs@);
    done
}

/// The value of a digit sequence is at least the value of any of its prefixes.
proof fn lemma_decimal_value_prefix(d: Seq<char>, k: int)
    requires
        0 <= k <= d.len(),
    ensures
        decimal_value(d.take(k)) <= decimal_value(d),
    decreases d.len(),
{
    if k < d.len() {
        assert(d.drop_last().take(k) == d.take(k));
        lemma_decimal_value_prefix(d.drop_last(), k);
    } else {
        assert(d.take(k) == d);
    }
}

/// Parses a sequence of characters as an unsigned decimal literal.
pub fn parse_usize_chars(cs: &Vec<char>) -> (res: Option<usize>)
    ensures
        res == usize_literal(cs@),
{
    let n = cs.len();
    let start: usize = if n > 0 && cs[0] == '+' { 1 } else { 0 };
    let ghost d = literal_digits(cs@);
    assert(d == cs@.subrange(start as int, n as int));
    if start == n {
        return None;
    }
    let mut acc: usize = 0;
    let mut i: usize = start;
    while i < n
        invariant
            start <= i <= n,
            n == cs@.len(),
            d == cs@.subrange(start as int, n as int),
            d == literal_digits(cs@),
            forall|k: int| 0 <= k < i - start ==> is_digit(#[trigger] d[k]),
            acc == decimal_value(d.take(i - start)),
        decreases n - i,
    {
        let c = cs[i];
        let ghost j: int = i - start;
        assert(d[j] == c);
        assert(d.take(j + 1).drop_last() == d.take(j));
        assert(d.take(j + 1).last() == c);
        let code = c as u32;
        if code < 0x30 || code > 0x39 {
            assert(!is_digit(d[j]));
            return None;
        }
        let dv = (code - 0x30) as usize;
        match acc.checked_mul(10) {
            None => {
                proof {
                    lemma_decimal_value_prefix(d, j + 1);
                    if forall|k: int| 0 <= k < d.len() ==> is_digit(#[trigger] d[k]) {
                        assert(decimal_value(d) > usize::MAX);
                    }
                }
                return None;
            },
            Some(m) => match m.checked_add(dv) {
                None => {
                    proof {
                        lemma_decimal_value_prefix(d, j + 1);
                        if forall|k: int| 0 <= k < d.len() ==> is_digit(#[trigger] d[k]) {
                            assert(decimal_value(d) > usize::MAX);
                        }
                    }
                    return None;
                },
                Some(v) => {
                    acc = v;
                },
            },
        }
        i = i + 1;
    }
    assert(d.take(n - start) == d);
    Some(acc)
}

/// Parses a string as a `usize`, as `str::parse::<usize>` does.
pub fn parse_usize(s: &str) -> (res: Option<usize>)
    ensures
        res == usize_literal(s@),
{
    let cs = chars_of(s);
    parse_usize_chars(&cs)
}

/// `String::push`, which appends one character at the end of the string.
#[verifier::external_body]
pub(crate) fn push_char(s: &mut String, c: char)
    ensures
        final(s)@ == old(s)@.push(c),
{
    s.push(c);
}

/// Builds a string holding the given characters.
pub fn string_of(cs: &Vec<char>) -> (res: String)
    ensures
        res@ == cs@,
{
    let mut res = String::new();
    for i in 0..cs.len()
        invariant
            res@ == cs@.take(i as int),
    {
        push_char(&mut res, cs[i]);
        assert(cs@.take(i + 1) == cs@.take(i as int).push(cs@[i as int]));
    }
    assert(cs@.take(cs@.len() as int) == cs@);
    res
}

/// The words of a string (as `str::split_whitespace` gives them).
pub fn split_whitespace(s: &str) -> (res: Vec<String>)
    ensures
        res.deep_view() == words(s@),
{
    let cs = chars_of(s);
    let ws = words_of(&cs);
    let mut res: Vec<String> = Vec::new();
    for i in 0..ws.len()
        invariant
            views(ws@) == words(s@),
            res.deep_view() == views(ws@).take(i as int),
    {
        let w = string_of(&ws[i]);
        let ghost before = res.deep_view();
        res.push(w);
        assert(res.deep_view() =~= before.push(w@));
        assert(views(ws@).take(i + 1) =~= views(ws@).take(i as int).push(ws@[i as int]@));
    }
    assert(views(ws@).take(ws@.len() as int) =~= views(ws@));
    res
}

/// The characters of `s` that are not whitespace, in order.
pub open spec fn non_white(s: Seq<char>) -> Seq<char>
    decreases s.len(),
{
    if s.len() == 0 {
        Seq::empty()
    } else if is_white(s.last()) {
        non_white(s.drop_last())
    } else {
        non_white(s.drop_last()).push(s.last())
    }
}

/// Words put back to back.
pub open spec fn joined(ws: Seq<Seq<char>>) -> Seq<char>
    decreases ws.len(),
{
    if ws.len() == 0 {
        Seq::empty()
    } else {
        joined(ws.drop_last()) + ws.last()
    }
}

/// Whether `w` is a non-empty run of non-whitespace characters.
pub open spec fn is_word(w: Seq<char>) -> bool {
    w.len() > 0 && forall|m: int| 0 <= m < w.len() ==> !is_white(#[trigger] w[m])
}

/// Splitting at whitespace loses nothing but the whitespace: every word is a
/// non-empty run of non-whitespace characters, and the words, put back to
/// back, are the non-whitespace characters of the text, in order.
pub proof fn lemma_words_partition(s: Seq<char>)
    ensures
        forall|k: int| 0 <= k < words(s).len() ==> is_word(#[trigger] words(s)[k]),
        joined(words(s)) == non_white(s),
    decreases s.len(),
{
    if s.len() > 0 {
        let pre = s.drop_last();
        let c = s.last();
        let prev = words(pre);
        lemma_words_partition(pre);
        if is_white(c) {
        } else if s.len() >= 2 && !is_white(s[s.len() - 2]) {
            assert(pre.last() == s[s.len() - 2]);
            lemma_words_nonempty(pre);
            let w = prev.last();
            let ws = words(s);
            assert(ws == prev.update(prev.len() - 1, w.push(c)));
            assert(ws.drop_last() == prev.drop_last());
            assert(joined(prev) == joined(prev.drop_last()) + w);
            assert(joined(ws) == joined(ws.drop_last()) + w.push(c));
            assert(joined(ws) =~= joined(prev).push(c));
            assert(is_word(prev[prev.len() - 1]));
            assert forall|k: int| 0 <= k < ws.len() implies is_word(#[trigger] ws[k]) by {
                if k == ws.len() - 1 {
                    assert(ws[k] == w.push(c));
                    assert forall|m: int| 0 <= m < ws[k].len() implies !is_white(#[trigger] ws[k][m]) by {
                        if m < w.len() {
                            assert(ws[k][m] == w[m]);
                        }
                    }
                } else {
                    assert(ws[k] == prev[k]);
                }
            }
        } else {
            let ws = words(s);
            assert(ws == prev.push(seq![c]));
            assert(ws.drop_last() == prev);
            assert(joined(ws) =~= joined(prev).push(c));
            assert forall|k: int| 0 <= k < ws.len() implies is_word(#[trigger] ws[k]) by {
                if k < prev.len() {
                    assert(ws[k] == prev[k]);
                }
            }
        }
    }
}

/// The decimal digit character of `d`, for `d < 10`.
pub open spec fn digit_char(d: nat) -> char {
    if d == 0 {
        '0'
    } else if d == 1 {
        '1'
    } else if d == 2 {
        '2'
    } else if d == 3 {
        '3'
    } else if d == 4 {
        '4'
    } else if d == 5 {
        '5'
    } else if d == 6 {
        '6'
    } else if d == 7 {
        '7'
    } else if d == 8 {
        '8'
    } else {
        '9'
    }
}

/// The decimal writing of `n`: its digits, most significant first, with no
/// leading zero (as `usize`'s `Display` writes it).
pub open spec fn decimal(n: nat) -> Seq<char>
    decreases n,
{
    if n < 10 {
        seq![digit_char(n)]
    } else {
        decimal(n / 10).push(digit_char(n % 10))
    }
}

/// The digit character of `d`.
fn digit_of(d: usize) -> (c: char)
    requires
        d < 10,
    ensures
        c == digit_char(d as nat),
{
    if d == 0 {
        '0'
    } else if d == 1 {
        '1'
    } else if d == 2 {
        '2'
    } else if d == 3 {
        '3'
    } else if d == 4 {
        '4'
    } else if d == 5 {
        '5'
    } else if d == 6 {
        '6'
    } else if d == 7 {
        '7'
    } else if d == 8 {
        '8'
    } else {
        '9'
    }
}

/// Appends the decimal writing of `n` to `s`.
pub fn push_decimal(s: &mut String, n: usize)
    ensures
        final(s)@ == old(s)@ + decimal(n as nat),
    decreases n,
{
    if n >= 10 {
        push_decimal(s, n / 10);
    }
    push_char(s, digit_of(n % 10));
    proof {
        if n >= 10 {
            assert(decimal(n as nat) == decimal((n / 10) as nat).push(digit_char((n % 10) as nat)));
        } else {
            assert(n % 10 == n);
        }
    }
    assert(final(s)@ =~= old(s)@ + decimal(n as nat)) by {
        if n >= 10 {
            assert(decimal(n as nat) == decimal((n / 10) as nat).push(digit_char((n % 10) as nat)));
        } else {
            assert(n % 10 == n);
        }
    }
}

/// A digit character is an ASCII digit of the same value, and not whitespace.
proof fn lemma_digit_char(d: nat)
    requires
        d < 10,
    ensures
        is_digit(digit_char(d)),
        digit_value(digit_char(d)) == d,
        !is_white(digit_char(d)),
{
    assert(('0' as u32) == 0x30 && ('9' as u32) == 0x39);
}

/// The decimal writing of `n` is a word of digits whose value is `n`.
pub proof fn lemma_decimal(n: nat)
    ensures
        decimal(n).len() > 0,
        forall|i: int| 0 <= i < decimal(n).len() ==> is_digit(#[trigger] decimal(n)[i]),
        forall|i: int| 0 <= i < decimal(n).len() ==> !is_white(#[trigger] decimal(n)[i]),
        decimal_value(decimal(n)) == n,
    decreases n,
{
    if n < 10 {
        lemma_digit_char(n);
        assert(decimal(n).drop_last() =~= Seq::<char>::empty());
        assert(decimal(n).last() == digit_char(n));
        assert(decimal_value(decimal(n)) == decimal_value(Seq::<char>::empty()) * 10 + digit_value(digit_char(n)));
    } else {
        lemma_decimal(n / 10);
        lemma_digit_char(n % 10);
        let d = decimal(n);
        let p = decimal(n / 10);
        assert(d == p.push(digit_char(n % 10)));
        assert(d.drop_last() == p);
        assert(d.last() == digit_char(n % 10));
        assert((n / 10) * 10 + n % 10 == n) by (nonlinear_arith);
        assert(decimal_value(d) == decimal_value(p) * 10 + digit_value(digit_char(n % 10)));
        assert forall|i: int| 0 <= i < d.len() implies is_digit(#[trigger] d[i]) && !is_white(d[i]) by {
            if i < p.len() {
                assert(d[i] == p[i]);
            }
        }
    }
}

/// Reading the decimal writing of a `usize` as a `usize` gives it back.
pub proof fn lemma_decimal_reads_back(n: usize)
    ensures
        usize_literal(decimal(n as nat)) == Some(n),
{
    lemma_decimal(n as nat);
    let d = decimal(n as nat);
    assert(literal_digits(d) == d);
}

/// Text made only of whitespace has no words.
pub proof fn lemma_words_blank(s: Seq<char>)
    requires
        forall|i: int| 0 <= i < s.len() ==> is_white(#[trigger] s[i]),
    ensures
        words(s) == Seq::<Seq<char>>::empty(),
    decreases s.len(),
{
    if s.len() > 0 {
        assert(is_white(s[s.len() - 1]));
        lemma_words_blank(s.drop_last());
    }
}

/// A word on its own is its only word.
pub proof fn lemma_words_single(w: Seq<char>)
    requires
        is_word(w),
    ensures
        words(w) == seq![w],
    decreases w.len(),
{
    let p = w.drop_last();
    assert(!is_white(w[w.len() - 1]));
    if w.len() == 1 {
        assert(p.len() == 0);
        assert(words(p) == Seq::<Seq<char>>::empty());
        assert(words(w) == words(p).push(seq![w.last()]));
        assert(seq![w.last()] =~= w);
        assert(words(w) =~~= seq![w]);
    } else {
        assert(is_word(p)) by {
            assert forall|m: int| 0 <= m < p.len() implies !is_white(#[trigger] p[m]) by {
                assert(p[m] == w[m]);
            }
        }
        lemma_words_single(p);
        assert(!is_white(w[w.len() - 2]));
        assert(p.push(w.last()) =~= w);
        assert(words(w) == words(p).update(0, p.push(w.last())));
        assert(seq![p].update(0, p.push(w.last())) =~~= seq![w]);
    }
}

/// Words of two texts put back to back are the words of each, when the two
/// meet at whitespace (or one is empty).
pub proof fn lemma_words_concat(a: Seq<char>, b: Seq<char>)
    requires
        a.len() == 0 || is_white(a.last()) || b.len() == 0 || is_white(b[0]),
    ensures
        words(a + b) == words(a) + words(b),
    decreases b.len(),
{
    if b.len() == 0 {
        assert(a + b =~= a);
        assert(words(a) + words(b) =~= words(a));
    } else {
        let ab = a + b;
        let b1 = b.drop_last();
        let c = b.last();
        assert(ab.drop_last() =~= a + b1);
        assert(ab.last() == c);
        lemma_words_concat(a, b1);
        let wa = words(a);
        let w1 = words(b1);
        if is_white(c) {
            assert(words(ab) == words(a + b1));
            assert(words(b) == w1);
        } else if b.len() == 1 {
            // the character before `c` in `a + b` is the end of `a`, which is whitespace
            assert(b1.len() == 0);
            assert(w1 == Seq::<Seq<char>>::empty());
            assert(words(b) == w1.push(seq![c]));
            if a.len() > 0 {
                assert(ab[ab.len() - 2] == a.last());
            }
            assert(words(ab) == words(a + b1).push(seq![c]));
            assert(words(ab) =~= wa + words(b));
        } else {
            assert(ab[ab.len() - 2] == b[b.len() - 2]);
            assert(b1.last() == b[b.len() - 2]);
            if !is_white(b[b.len() - 2]) {
                lemma_words_nonempty(b1);
                assert(words(b) == w1.update(w1.len() - 1, w1.last().push(c)));
                assert(words(ab) == (wa + w1).update((wa + w1).len() - 1, (wa + w1).last().push(c)));
                assert(words(ab) =~= wa + words(b));
            } else {
                assert(words(b) == w1.push(seq![c]));
                assert(words(ab) == (wa + w1).push(seq![c]));
                assert(words(ab) =~= wa + words(b));
            }
        }
    }
}

/// The digit character of a digit's value is that digit.
proof fn lemma_digit_char_of_value(c: char)
    requires
        is_digit(c),
    ensures
        digit_char(digit_value(c)) == c,
{
    let n = c as u32;
    assert(('0' as u32) == 0x30 && ('1' as u32) == 0x31 && ('2' as u32) == 0x32 && ('3' as u32) == 0x33
        && ('4' as u32) == 0x34 && ('5' as u32) == 0x35 && ('6' as u32) == 0x36 && ('7' as u32) == 0x37
        && ('8' as u32) == 0x38 && ('9' as u32) == 0x39);
    assert(digit_char(digit_value(c)) as u32 == n);
}

/// The decimal writing of a number has no leading zero: only 0 is written
/// starting with `0`, and it is written `0` alone.
pub proof fn lemma_decimal_no_leading_zero(n: nat)
    ensures
        decimal(0) == seq!['0'],
        n > 0 ==> decimal(n)[0] != '0',
    decreases n,
{
    assert(('0' as u32) == 0x30);
    if n >= 10 {
        lemma_decimal_no_leading_zero(n / 10);
        lemma_decimal(n / 10);
        assert(decimal(n)[0] == decimal(n / 10)[0]);
    } else if n > 0 {
        lemma_digit_char(n);
        assert(digit_value(decimal(n)[0]) == n);
    }
}

/// Decimal writing is the only way to write a number with digits and no
/// leading zero: any such digit sequence of value `n` is `decimal(n)`.
pub proof fn lemma_decimal_unique(d: Seq<char>, n: nat)
    requires
        d.len() > 0,
        forall|i: int| 0 <= i < d.len() ==> is_digit(#[trigger] d[i]),
        d.len() == 1 || d[0] != '0',
        decimal_value(d) == n,
    ensures
        d == decimal(n),
    decreases d.len(),
{
    let c = d.last();
    assert(is_digit(d[d.len() - 1]));
    lemma_digit_char_of_value(c);
    assert(('0' as u32) == 0x30);
    if d.len() == 1 {
        assert(d.drop_last() =~= Seq::<char>::empty());
        assert(decimal_value(d.drop_last()) == 0);
        assert(n == digit_value(c));
        assert(d =~= seq![digit_char(n)]);
    } else {
        let p = d.drop_last();
        assert(p[0] == d[0]);
        assert forall|i: int| 0 <= i < p.len() implies is_digit(#[trigger] p[i]) by {
            assert(p[i] == d[i]);
        }
        lemma_decimal_value_prefix(p, 1);
        assert(p.take(1).drop_last() =~= Seq::<char>::empty());
        assert(p.take(1).last() == p[0]);
        assert(is_digit(d[0]));
        lemma_digit_char_of_value(p[0]);
        assert(digit_value(p[0]) >= 1);
        assert(decimal_value(p) >= 1);
        lemma_fundamental_div_mod_converse(n as int, 10, decimal_value(p) as int, digit_value(c) as int);
        lemma_decimal_unique(p, n / 10);
        assert(d == p.push(c));
    }
}

} // verus!

//! Character-level text handling: lines, whitespace-separated words and
//! decimal integers, with their specifications over `Seq<char>`.
use vstd::prelude::*;

verus! {

broadcast use vstd::string::group_string_axioms;

/// The views of a sequence of character vectors.
pub open spec fn views(v: Seq<Vec<char>>) -> Seq<Seq<char>> {
    v.map_values(|l: Vec<char>| l@)
}

// ---------------------------------------------------------------------
// Strings and characters
// ---------------------------------------------------------------------

/// The characters of `s`, in order.
pub fn chars_of(s: &str) -> (v: Vec<char>)
    ensures
        v@ == s@,
{
    let mut v: Vec<char> = Vec::new();
    for c in it: s.chars()
        invariant
            v@ == it.seq().take(it.index()),
    {
        v.push(c);
    }
    assert(v@ =~= s@);
    v
}

/// Appends one character to a string, through `String::push`.
#[verifier::external_body]
pub(crate) fn push_char(s: &mut String, c: char)
    ensures
        final(s)@ == old(s)@.push(c),
{
    s.push(c);
}

/// A string made of the given characters.
pub fn string_from_chars(v: &[char]) -> (s: String)
    ensures
        s@ == v@,
{
    let mut s = String::new();
    for i in 0..v.len()
        invariant
            s@ == v@.take(i as int),
    {
        push_char(&mut s, v[i]);
        assert(v@.take(i as int).push(v@[i as int]) =~= v@.take(i + 1));
    }
    assert(v@.take(v@.len() as int) =~= v@);
    s
}

// ---------------------------------------------------------------------
// Whitespace
// ---------------------------------------------------------------------

/// The characters with the Unicode `White_Space` property, which is what
/// `char::is_whitespace` tests.
pub open spec fn is_white(c: char) -> bool {
    ||| ('\u{9}' <= c && c <= '\u{d}')
    ||| c == ' '
    ||| c == '\u{85}'
    ||| c == '\u{a0}'
    ||| c == '\u{1680}'
    ||| ('\u{2000}' <= c && c <= '\u{200a}')
    ||| c == '\u{2028}'
    ||| c == '\u{2029}'
    ||| c == '\u{202f}'
    ||| c == '\u{205f}'
    ||| c == '\u{3000}'
}

/// Whether `c` is a whitespace character.
pub fn is_whitespace(c: char) -> (b: bool)
    ensures
        b == is_white(c),
{
    ('\u{9}' <= c && c <= '\u{d}') || c == ' ' || c == '\u{85}' || c == '\u{a0}' || c == '\u{1680}'
        || ('\u{2000}' <= c && c <= '\u{200a}') || c == '\u{2028}' || c == '\u{2029}' || c
        == '\u{202f}' || c == '\u{205f}' || c == '\u{3000}'
}

// ---------------------------------------------------------------------
// Lines
// ---------------------------------------------------------------------

/// The pieces of `s` between newline characters: one more piece than
/// there are newlines.
pub open spec fn segments(s: Seq<char>) -> Seq<Seq<char>>
    decreases s.len(),
{
    if s.len() == 0 {
        seq![Seq::empty()]
    } else {
        let prev = segments(s.drop_last());
        if s.last() == '\n' {
            prev.push(Seq::empty())
        } else {
            prev.update(prev.len() - 1, prev.last().push(s.last()))
        }
    }
}

/// A line without the carriage return that ends it, if any.
pub open spec fn strip_cr(l: Seq<char>) -> Seq<char> {
    if l.len() > 0 && l.last() == '\r' {
        l.drop_last()
    } else {
        l
    }
}

/// The lines of `s` as `str::lines` gives them: a line ends at `\n` or at
/// `\r\n`, and the final line needs no line ending.  So a final newline
/// does not start an empty line, and the text "" has no line at all.
pub open spec fn lines(s: Seq<char>) -> Seq<Seq<char>> {
    let segs = segments(s);
    let ended = segs.drop_last().map_values(|l: Seq<char>| strip_cr(l));
    if segs.last().len() == 0 {
        ended
    } else {
        ended.push(segs.last())
    }
}

pub proof fn lemma_segments_len(s: Seq<char>)
    ensures
        segments(s).len() >= 1,
    decreases s.len(),
{
    if s.len() > 0 {
        lemma_segments_len(s.drop_last());
    }
}

/// The pieces of a concatenation: the last piece of `p` and the first of
/// `q` join into one.
proof fn lemma_segments_concat(p: Seq<char>, q: Seq<char>)
    ensures
        segments(p + q) == segments(p).drop_last() + seq![segments(p).last() + segments(q)[0]]
            + segments(q).skip(1),
    decreases q.len(),
{
    lemma_segments_len(p);
    lemma_segments_len(q);
    let sp = segments(p);
    if q.len() == 0 {
        assert(p + q =~= p);
        assert(segments(q) == seq![Seq::<char>::empty()]);
        assert(sp.last() + Seq::<char>::empty() =~= sp.last());
        assert(sp.drop_last() + seq![sp.last()] =~= sp);
        assert(segments(q).skip(1) =~= Seq::<Seq<char>>::empty());
        assert(sp.drop_last() + seq![sp.last() + segments(q)[0]] + segments(q).skip(1) =~= sp);
    } else {
        let qp = q.drop_last();
        let c = q.last();
        lemma_segments_concat(p, qp);
        lemma_segments_len(qp);
        assert((p + q).drop_last() =~= p + qp);
        assert((p + q).last() == c);
        let sq = segments(qp);
        let s1 = segments(p + qp);
        if c == '\n' {
            assert(segments(q) == sq.push(Seq::<char>::empty()));
            assert(segments(q)[0] == sq[0]);
            assert(segments(q).skip(1) =~= sq.skip(1).push(Seq::<char>::empty()));
            assert(segments(p + q) =~= sp.drop_last() + seq![sp.last() + segments(q)[0]] + segments(q).skip(1));
        } else {
            assert(segments(q) == sq.update(sq.len() - 1, sq.last().push(c)));
            if sq.len() == 1 {
                assert(segments(q)[0] == sq[0].push(c));
                assert(segments(q).skip(1) =~= Seq::<Seq<char>>::empty());
                assert(sq.skip(1) =~= Seq::<Seq<char>>::empty());
                assert((sp.last() + sq[0]).push(c) =~= sp.last() + sq[0].push(c));
                assert(segments(p + q) =~= sp.drop_last() + seq![sp.last() + segments(q)[0]] + segments(q).skip(1));
            } else {
                assert(segments(q)[0] == sq[0]);
                assert(segments(q).skip(1) =~= sq.skip(1).update(sq.len() - 2, sq.last().push(c)));
                assert(segments(p + q) =~= sp.drop_last() + seq![sp.last() + segments(q)[0]] + segments(q).skip(1));
            }
        }
    }
}

/// The lines of two texts joined by a newline: every piece of the first
/// text ends at that newline, so it loses a trailing carriage return,
/// and the lines of the second text follow.
pub proof fn lemma_lines_join(a: Seq<char>, b: Seq<char>)
    ensures
        lines(a + seq!['\n'] + b) == segments(a).map_values(|l: Seq<char>| strip_cr(l)) + lines(b),
{
    let p = a + seq!['\n'];
    lemma_segments_len(a);
    lemma_segments_len(b);
    assert(p.drop_last() =~= a);
    assert(segments(p) == segments(a).push(Seq::<char>::empty()));
    lemma_segments_concat(p, b);
    let sa = segments(a);
    let sb = segments(b);
    assert(segments(p).drop_last() =~= sa);
    assert(Seq::<char>::empty() + sb[0] =~= sb[0]);
    assert(seq![sb[0]] + sb.skip(1) =~= sb);
    let s = segments(p + b);
    assert(s =~= sa + sb);
    assert(s.drop_last() =~= sa + sb.drop_last());
    assert(s.last() == sb.last());
    let f = |l: Seq<char>| strip_cr(l);
    assert((sa + sb.drop_last()).map_values(f) =~= sa.map_values(f) + sb.drop_last().map_values(f));
    if sb.last().len() == 0 {
        assert(lines(p + b) =~= sa.map_values(f) + lines(b));
    } else {
        assert(lines(p + b) =~= sa.map_values(f) + lines(b));
    }
}

/// A text without a newline is a single piece.
pub proof fn lemma_segments_single(x: Seq<char>)
    requires
        !x.contains('\n'),
    ensures
        segments(x) == seq![x],
    decreases x.len(),
{
    if x.len() > 0 {
        let d = x.drop_last();
        assert(!d.contains('\n')) by {
            if d.contains('\n') {
                let i = choose|i: int| 0 <= i < d.len() && d[i] == '\n';
                assert(x[i] == '\n');
            }
        }
        lemma_segments_single(d);
        assert(x[x.len() - 1] == x.last());
        assert(d.push(x.last()) =~= x);
    } else {
        assert(x =~= Seq::<char>::empty());
    }
}

/// A line's words do not depend on a trailing carriage return.
pub proof fn lemma_words_strip_cr(l: Seq<char>)
    ensures
        words(strip_cr(l)) == words(l),
{
}

/// The lines of `s`.
pub fn lines_of(s: &[char]) -> (r: Vec<Vec<char>>)
    ensures
        views(r@) == lines(s@),
{
    let mut done: Vec<Vec<char>> = Vec::new();
    let mut cur: Vec<char> = Vec::new();
    for i in 0..s.len()
        invariant
            segments(s@.take(i as int)).len() >= 1,
            views(done@) == segments(s@.take(i as int)).drop_last().map_values(
                |l: Seq<char>| strip_cr(l),
            ),
            cur@ == segments(s@.take(i as int)).last(),
    {
        let c = s[i];
        let ghost pre = s@.take(i as int);
        let ghost next = s@.take(i + 1);
        proof {
            assert(next.drop_last() =~= pre);
            assert(next.last() == c);
            lemma_segments_len(next);
        }
        if c == '\n' {
            let mut line = cur;
            let n = line.len();
            if n > 0 && line[n - 1] == '\r' {
                line.pop();
            }
            let ghost old_done = views(done@);
            assert(line@ == strip_cr(segments(pre).last()));
            done.push(line);
            cur = Vec::new();
            proof {
                assert(segments(next) == segments(pre).push(Seq::empty()));
                assert(segments(next).drop_last() =~= segments(pre));
                let want = segments(pre).map_values(|l: Seq<char>| strip_cr(l));
                assert(views(done@) =~= old_done.push(line@));
                assert(want =~= segments(pre).drop_last().map_values(|l: Seq<char>| strip_cr(l)).push(
                    strip_cr(segments(pre).last()),
                ));
                assert(views(done@) =~= want);
            }
        } else {
            cur.push(c);
            assert(segments(next).drop_last() =~= segments(pre).drop_last());
        }
    }
    assert(s@.take(s@.len() as int) =~= s@);
    if cur.len() > 0 {
        done.push(cur);
        assert(views(done@) =~= lines(s@));
    }
    done
}

// ---------------------------------------------------------------------
// Words
// ---------------------------------------------------------------------

/// The words of `s` as `str::split_whitespace` gives them: the maximal
/// runs of characters that are not whitespace, in order.
pub open spec fn words(s: Seq<char>) -> Seq<Seq<char>>
    decreases s.len(),
{
    if s.len() == 0 {
        Seq::empty()
    } else if is_white(s.last()) {
        words(s.drop_last())
    } else if s.len() == 1 || is_white(s[s.len() - 2]) {
        words(s.drop_last()).push(seq![s.last()])
    } else {
        let prev = words(s.drop_last());
        prev.update(prev.len() - 1, prev.last().push(s.last()))
    }
}

proof fn lemma_words_nonempty(s: Seq<char>)
    requires
        s.len() > 0,
        !is_white(s.last()),
    ensures
        words(s).len() >= 1,
    decreases s.len(),
{
    let d = s.drop_last();
    if s.len() >= 2 && !is_white(s[s.len() - 2]) {
        assert(d.last() == s[s.len() - 2]);
        assert(d.len() > 0);
        if d.len() >= 2 && !is_white(d[d.len() - 2]) {
            lemma_words_nonempty(d);
        }
    }
}

/// The words of a text are not empty and hold no whitespace.
pub proof fn lemma_words_nonempty_words(s: Seq<char>)
    ensures
        forall|i: int| 0 <= i < words(s).len() ==> #[trigger] words(s)[i].len() > 0,
        forall|i: int, j: int|
            0 <= i < words(s).len() && 0 <= j < words(s)[i].len() ==> !is_white(#[trigger] words(s)[i][j]),
    decreases s.len(),
{
    if s.len() > 0 {
        let d = s.drop_last();
        lemma_words_nonempty_words(d);
        if !is_white(s.last()) && !(s.len() == 1 || is_white(s[s.len() - 2])) {
            lemma_words_nonempty(s);
            assert(d.last() == s[s.len() - 2]);
            lemma_words_nonempty(d);
            let prev = words(d);
            let k = prev.len() - 1;
            assert forall|i: int, j: int|
                0 <= i < words(s).len() && 0 <= j < words(s)[i].len() implies !is_white(#[trigger] words(s)[i][j]) by {
                if i == k {
                    if j < prev[k].len() {
                        assert(words(s)[i][j] == prev[k][j]);
                    }
                } else {
                    assert(words(s)[i] == prev[i]);
                }
            }
        } else if !is_white(s.last()) {
            let prev = words(d);
            assert forall|i: int, j: int|
                0 <= i < words(s).len() && 0 <= j < words(s)[i].len() implies !is_white(#[trigger] words(s)[i][j]) by {
                if i < prev.len() {
                    assert(words(s)[i] == prev[i]);
                }
            }
        }
    }
}

/// The whitespace-separated words of `s`.
pub fn words_of(s: &[char]) -> (r: Vec<Vec<char>>)
    ensures
        views(r@) == words(s@),
{
    let mut r: Vec<Vec<char>> = Vec::new();
    let mut in_word = false;
    for i in 0..s.len()
        invariant
            views(r@) == words(s@.take(i as int)),
            in_word == (i > 0 && !is_white(s@[i - 1])),
    {
        let c = s[i];
        let ghost pre = s@.take(i as int);
        let ghost next = s@.take(i + 1);
        proof {
            assert(next.drop_last() =~= pre);
            assert(next.last() == c);
            if i > 0 {
                assert(next[next.len() - 2] == s@[i - 1]);
            }
        }
        if is_whitespace(c) {
            in_word = false;
        } else if !in_word {
            let mut w: Vec<char> = Vec::new();
            w.push(c);
            r.push(w);
            in_word = true;
            assert(views(r@) =~= words(next));
        } else {
            proof {
                assert(pre.last() == s@[i - 1]);
                lemma_words_nonempty(pre);
            }
            let k = r.len() - 1;
            let mut w = r.remove(k);
            w.push(c);
            r.push(w);
            assert(views(r@) =~= words(next));
        }
    }
    assert(s@.take(s@.len() as int) =~= s@);
    r
}

// ---------------------------------------------------------------------
// Decimal integers
// ---------------------------------------------------------------------

pub open spec fn is_digit(c: char) -> bool {
    '0' <= c && c <= '9'
}

pub open spec fn all_digits(d: Seq<char>) -> bool {
    forall|i: int| 0 <= i < d.len() ==> is_digit(#[trigger] d[i])
}

/// The number that the decimal digits `d` denote.
pub open spec fn digits_value(d: Seq<char>) -> int
    decreases d.len(),
{
    if d.len() == 0 {
        0
    } else {
        digits_value(d.drop_last()) * 10 + (d.last() as int - '0' as int)
    }
}

/// The digits of an integer literal: what follows an optional sign.
pub open spec fn unsigned_part(t: Seq<char>) -> Seq<char> {
    if t.len() > 0 && (t[0] == '-' || t[0] == '+') {
        t.skip(1)
    } else {
        t
    }
}

/// The value of the literal `t` without regard to range: an optional
/// `+` or `-`, then one or more decimal digits.
pub open spec fn literal_value(t: Seq<char>) -> int {
    if t.len() > 0 && t[0] == '-' {
        -digits_value(unsigned_part(t))
    } else {
        digits_value(unsigned_part(t))
    }
}

/// What `str::parse::<i32>` gives for `t`: the value of an optional sign
/// followed by one or more ASCII digits, if it lies in the range of `i32`.
pub open spec fn parse_i32_spec(t: Seq<char>) -> Option<i32> {
    let d = unsigned_part(t);
    if d.len() > 0 && all_digits(d) && i32::MIN <= literal_value(t) <= i32::MAX {
        Some(literal_value(t) as i32)
    } else {
        None
    }
}

proof fn lemma_digits_value_grows(d: Seq<char>, k: int)
    requires
        all_digits(d),
        0 <= k <= d.len(),
    ensures
        0 <= digits_value(d.take(k)) <= digits_value(d),
    decreases d.len(),
{
    if k < d.len() {
        let p = d.drop_last();
        assert(all_digits(p));
        assert(p.take(k) =~= d.take(k));
        lemma_digits_value_grows(p, k);
        assert(is_digit(d[d.len() - 1]));
    } else {
        assert(d.take(k) =~= d);
        if d.len() > 0 {
            let p = d.drop_last();
            assert(all_digits(p));
            lemma_digits_value_grows(p, p.len() as int);
            assert(p.take(p.len() as int) =~= p);
            assert(is_digit(d[d.len() - 1]));
        }
    }
}

/// Parses `t` as a decimal `i32`, as `str::parse::<i32>` does.
pub fn parse_i32(t: &[char]) -> (r: Option<i32>)
    ensures
        r == parse_i32_spec(t@),
{
    let n = t.len();
    let mut start: usize = 0;
    let mut negative = false;
    if n > 0 && (t[0] == '-' || t[0] == '+') {
        start = 1;
        negative = t[0] == '-';
    }
    let ghost d = unsigned_part(t@);
    assert(d =~= t@.skip(start as int));
    if start == n {
        return None;
    }
    // The magnitude of the most negative i32.
    let bound: i64 = 2147483648;
    let mut acc: i64 = 0;
    let mut i: usize = start;
    while i < n
        invariant
            start <= i <= n,
            n == t@.len(),
            d == t@.skip(start as int),
            d == unsigned_part(t@),
            negative == (t@.len() > 0 && t@[0] == '-'),
            all_digits(d.take(i - start)),
            acc == digits_value(d.take(i - start)),
            bound == 2147483648,
            0 <= acc <= bound,
        decreases n - i,
    {
        let c = t[i];
        assert(d[i - start] == c);
        if !('0' <= c && c <= '9') {
            assert(!all_digits(d));
            return None;
        }
        let digit: i64 = (c as u32 - '0' as u32) as i64;
        assert(0 <= digit <= 9);
        proof {
            assert(d.take(i + 1 - start).drop_last() =~= d.take(i - start));
            assert(all_digits(d.take(i + 1 - start)));
        }
        acc = acc * 10 + digit;
        i = i + 1;
        if acc > bound {
            proof {
                if all_digits(d) {
                    lemma_digits_value_grows(d, i - start);
                }
            }
            return None;
        }
    }
    assert(d.take(n - start) =~= d);
    if negative {
        Some((-acc) as i32)
    } else if acc <= 2147483647 {
        Some(acc as i32)
    } else {
        None
    }
}

} // verus!

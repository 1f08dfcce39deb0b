//! Character-level helpers shared by the puzzle parsers: turning a string
//! into characters, cutting it into lines and reading decimal integers.
use vstd::prelude::*;

verus! {

/// The characters of `s`, in order.
pub fn chars_of(s: &str) -> (r: Vec<char>)
    ensures
        r@ == s@,
{
    let mut v: Vec<char> = Vec::new();
    for c in it: s.chars()
        invariant
            v@ == it.seq().take(it.index() as int),
    {
        v.push(c);
    }
    v
}

/// The views of a sequence of character vectors.
pub open spec fn views(v: Seq<Vec<char>>) -> Seq<Seq<char>> {
    v.map_values(|x: Vec<char>| x@)
}

/// `s` cut at every `sep`: the pieces between separators, in order, with the
/// separators dropped. There is always one piece more than separators.
pub open spec fn pieces(s: Seq<char>, sep: char) -> Seq<Seq<char>>
    decreases s.len(),
{
    if s.len() == 0 {
        seq![Seq::empty()]
    } else {
        let p = pieces(s.drop_last(), sep);
        if s.last() == sep {
            p.push(Seq::empty())
        } else {
            p.update(p.len() - 1, p.last().push(s.last()))
        }
    }
}

pub proof fn lemma_pieces_nonempty(s: Seq<char>, sep: char)
    ensures
        pieces(s, sep).len() >= 1,
    decreases s.len(),
{
    if s.len() > 0 {
        lemma_pieces_nonempty(s.drop_last(), sep);
    }
}

/// Cuts `s` at every `sep`.
pub fn split_on(s: &Vec<char>, sep: char) -> (r: Vec<Vec<char>>)
    ensures
        views(r@) == pieces(s@, sep),
{
    let mut out: Vec<Vec<char>> = Vec::new();
    let mut cur: Vec<char> = Vec::new();
    for i in 0..s.len()
        invariant
            views(out@).push(cur@) == pieces(s@.take(i as int), sep),
    {
        let ghost pre = s@.take(i as int);
        assert(s@.take(i + 1).drop_last() == pre);
        proof {
            lemma_pieces_nonempty(pre, sep);
        }
        if s[i] == sep {
            out.push(cur);
            cur = Vec::new();
            assert(views(out@).push(cur@) =~= pieces(s@.take(i + 1), sep));
        } else {
            cur.push(s[i]);
            assert(views(out@).push(cur@) =~= pieces(s@.take(i + 1), sep));
        }
    }
    assert(s@.take(s@.len() as int) == s@);
    out.push(cur);
    assert(views(out@) =~= pieces(s@, sep));
    out
}

/// A line without the `\r` of a `\r\n` line ending.
pub open spec fn strip_cr(l: Seq<char>) -> Seq<char> {
    if l.len() > 0 && l.last() == '\r' {
        l.drop_last()
    } else {
        l
    }
}

/// The lines of `s`: the pieces between `\n` characters, each line that a
/// `\n` ends losing a `\r` before it. A `\n` at the very end starts no
/// further line, so the empty text has no lines.
pub open spec fn lines(s: Seq<char>) -> Seq<Seq<char>> {
    let p = pieces(s, '\n');
    let body = p.drop_last().map_values(|l: Seq<char>| strip_cr(l));
    if p.last().len() == 0 {
        body
    } else {
        body.push(p.last())
    }
}

/// Cuts `s` into its lines.
pub fn split_lines(s: &Vec<char>) -> (r: Vec<Vec<char>>)
    ensures
        views(r@) == lines(s@),
{
    let p = split_on(s, '\n');
    proof {
        lemma_pieces_nonempty(s@, '\n');
    }
    let n = p.len();
    let mut out: Vec<Vec<char>> = Vec::new();
    for i in 0..n - 1
        invariant
            n == p@.len(),
            n >= 1,
            views(p@) == pieces(s@, '\n'),
            views(out@) == pieces(s@, '\n').take(i as int).map_values(|l: Seq<char>| strip_cr(l)),
    {
        let line = &p[i];
        let mut len = line.len();
        if len > 0 && line[len - 1] == '\r' {
            len = len - 1;
        }
        let mut l: Vec<char> = Vec::new();
        for j in 0..len
            invariant
                len <= line@.len(),
                l@ == line@.take(j as int),
        {
            l.push(line[j]);
        }
        assert(l@ == strip_cr(line@));
        assert(views(p@)[i as int] == line@);
        let ghost prev = views(out@);
        out.push(l);
        assert(views(out@) =~= prev.push(l@));
        assert(views(out@) =~= pieces(s@, '\n').take(i + 1).map_values(
            |l: Seq<char>| strip_cr(l),
        ));
    }
    assert(pieces(s@, '\n').take(n - 1) =~= pieces(s@, '\n').drop_last());
    let last = &p[n - 1];
    if last.len() > 0 {
        let mut l: Vec<char> = Vec::new();
        for j in 0..last.len()
            invariant
                l@ == last@.take(j as int),
        {
            l.push(last[j]);
        }
        assert(last@.take(last@.len() as int) == last@);
        out.push(l);
        assert(views(out@) =~= lines(s@));
    } else {
        assert(views(out@) =~= lines(s@));
    }
    out
}

/// The characters that Unicode calls white space (those of `char::is_whitespace`).
pub open spec fn is_space(c: char) -> bool {
    let u = c as u32;
    (9 <= u && u <= 13) || u == 32 || u == 0x85 || u == 0xa0 || u == 0x1680 || (0x2000 <= u && u
        <= 0x200a) || u == 0x2028 || u == 0x2029 || u == 0x202f || u == 0x205f || u == 0x3000
}

/// Whether `c` is white space.
pub fn is_space_char(c: char) -> (r: bool)
    ensures
        r == is_space(c),
{
    let u = c as u32;
    (9 <= u && u <= 13) || u == 32 || u == 0x85 || u == 0xa0 || u == 0x1680 || (0x2000 <= u && u
        <= 0x200a) || u == 0x2028 || u == 0x2029 || u == 0x202f || u == 0x205f || u == 0x3000
}

/// The words of `s`: its maximal runs of characters other than white space,
/// in order.
pub open spec fn words(s: Seq<char>) -> Seq<Seq<char>>
    decreases s.len(),
{
    if s.len() == 0 {
        Seq::empty()
    } else {
        let w = words(s.drop_last());
        let c = s.last();
        if is_space(c) {
            w
        } else if s.len() >= 2 && !is_space(s[s.len() - 2]) {
            w.update(w.len() - 1, w.last().push(c))
        } else {
            w.push(seq![c])
        }
    }
}

/// Cuts `s` into its words.
pub fn split_words(s: &Vec<char>) -> (r: Vec<Vec<char>>)
    ensures
        views(r@) == words(s@),
{
    let mut out: Vec<Vec<char>> = Vec::new();
    let mut cur: Vec<char> = Vec::new();
    for i in 0..s.len()
        invariant
            i > 0 && !is_space(s@[i - 1]) ==> views(out@).push(cur@) == words(s@.take(i as int)),
            i > 0 && !is_space(s@[i - 1]) ==> cur@.len() > 0,
            !(i > 0 && !is_space(s@[i - 1])) ==> views(out@) == words(s@.take(i as int)) && cur@.len()
                == 0,
    {
        let ghost pre = s@.take(i as int);
        assert(s@.take(i + 1).drop_last() == pre);
        let c = s[i];
        assert(s@.take(i + 1).last() == c);
        let ghost prev = views(out@);
        if is_space_char(c) {
            if cur.len() > 0 {
                let ghost last = cur@;
                out.push(cur);
                cur = Vec::new();
                assert(views(out@) =~= prev.push(last));
            }
            assert(views(out@) =~= words(s@.take(i + 1)));
        } else {
            if i > 0 {
                assert(s@.take(i + 1)[i - 1] == s@[i - 1]);
            }
            let ghost before = cur@;
            cur.push(c);
            assert(cur@ == before.push(c));
            proof {
                let w = words(pre);
                if i > 0 && !is_space(s@[i - 1]) {
                    assert(w == prev.push(before));
                    assert(words(s@.take(i + 1)) == w.update(w.len() - 1, w.last().push(c)));
                    assert(views(out@).push(cur@) =~= w.update(w.len() - 1, w.last().push(c)));
                } else {
                    assert(words(s@.take(i + 1)) == w.push(seq![c]));
                    assert(w == prev);
                    assert(cur@ =~= seq![c]);
                    assert(views(out@).push(cur@) =~= w.push(seq![c]));
                }
            }
        }
    }
    assert(s@.take(s@.len() as int) == s@);
    let ghost prev = views(out@);
    if cur.len() > 0 {
        let ghost last = cur@;
        out.push(cur);
        assert(views(out@) =~= prev.push(last));
    }
    assert(views(out@) =~= words(s@));
    out
}

/// A decimal digit.
pub open spec fn is_digit(c: char) -> bool {
    '0' <= c && c <= '9'
}

pub open spec fn all_digits(t: Seq<char>) -> bool {
    forall|i: int| 0 <= i < t.len() ==> is_digit(#[trigger] t[i])
}

/// The number that the digits `t` write in base ten.
pub open spec fn digits_value(t: Seq<char>) -> int
    decreases t.len(),
{
    if t.len() == 0 {
        0
    } else {
        digits_value(t.drop_last()) * 10 + (t.last() as int - '0' as int)
    }
}

proof fn lemma_digits_value_nonneg(t: Seq<char>)
    requires
        all_digits(t),
    ensures
        digits_value(t) >= 0,
    decreases t.len(),
{
    if t.len() > 0 {
        lemma_digits_value_nonneg(t.drop_last());
    }
}

/// The integer that `t` writes: an optional sign (`+`, or `-` when `signed`)
/// followed by one or more decimal digits and nothing else.
pub open spec fn decimal_value(t: Seq<char>, signed: bool) -> Option<int> {
    if t.len() > 0 && (t[0] == '+' || (signed && t[0] == '-')) {
        let d = t.skip(1);
        if d.len() > 0 && all_digits(d) {
            Some(
                if t[0] == '-' {
                    -digits_value(d)
                } else {
                    digits_value(d)
                },
            )
        } else {
            None
        }
    } else if t.len() > 0 && all_digits(t) {
        Some(digits_value(t))
    } else {
        None
    }
}

/// The `u32` that `t` writes, if it writes one.
pub open spec fn u32_of(t: Seq<char>) -> Option<u32> {
    match decimal_value(t, false) {
        Some(v) => if 0 <= v <= u32::MAX {
            Some(v as u32)
        } else {
            None
        },
        None => None,
    }
}

/// The `i32` that `t` writes, if it writes one.
pub open spec fn i32_of(t: Seq<char>) -> Option<i32> {
    match decimal_value(t, true) {
        Some(v) => if i32::MIN <= v <= i32::MAX {
            Some(v as i32)
        } else {
            None
        },
        None => None,
    }
}

/// The value of the digits `t[start..end]` if they are one or more digits and
/// their value is at most `bound`.
pub fn digits_upto(t: &Vec<char>, start: usize, end: usize, bound: u64) -> (r: Option<u64>)
    requires
        start <= end <= t@.len(),
        bound <= u32::MAX + 1,
    ensures
        r == (if end > start && all_digits(t@.subrange(start as int, end as int)) && digits_value(
            t@.subrange(start as int, end as int),
        ) <= bound {
            Some(digits_value(t@.subrange(start as int, end as int)) as u64)
        } else {
            None
        }),
        r matches Some(v) ==> v <= bound && v == digits_value(t@.subrange(start as int, end as int)),
{
    let ghost d = t@.subrange(start as int, end as int);
    let mut acc: u64 = 0;
    let mut i: usize = start;
    while i < end
        invariant
            start <= i <= end <= t@.len(),
            d == t@.subrange(start as int, end as int),
            bound <= u32::MAX + 1,
            all_digits(d.take(i - start)),
            acc <= bound + 1,
            digits_value(d.take(i - start)) >= 0,
            digits_value(d.take(i - start)) <= bound ==> acc == digits_value(d.take(i - start)),
            digits_value(d.take(i - start)) > bound ==> acc == bound + 1,
        decreases end - i,
    {
        let c = t[i];
        if !('0' <= c && c <= '9') {
            assert(d[i - start] == c);
            return None;
        }
        let ghost j = i - start;
        let ghost prev = digits_value(d.take(j));
        assert(d.take(j + 1).drop_last() == d.take(j));
        assert(d.take(j + 1).last() == c);
        let dig = (c as u32 - '0' as u32) as u64;
        assert(digits_value(d.take(j + 1)) == prev * 10 + dig);
        if acc > bound {
            assert(prev * 10 + dig >= prev) by (nonlinear_arith)
                requires
                    prev >= 0,
                    dig >= 0,
            ;
        } else {
            acc = acc * 10 + dig;
            if acc > bound {
                acc = bound + 1;
            }
        }
        assert(all_digits(d.take(j + 1))) by {
            assert forall|m: int| 0 <= m < j + 1 implies is_digit(#[trigger] d.take(j + 1)[m]) by {
                if m < j {
                    assert(d.take(j)[m] == d.take(j + 1)[m]);
                }
            }
        }
        i = i + 1;
    }
    assert(d.take(end - start) == d);
    proof {
        if all_digits(d) {
            lemma_digits_value_nonneg(d);
        }
    }
    if i == start {
        None
    } else if acc > bound {
        None
    } else {
        Some(acc)
    }
}

/// Reads a `u32` written as by `u32_of`.
pub fn parse_u32(t: &Vec<char>) -> (r: Option<u32>)
    ensures
        r == u32_of(t@),
{
    assert(t@.subrange(1, t@.len() as int) == t@.skip(1));
    assert(t@.subrange(0, t@.len() as int) == t@);
    let start: usize = if t.len() > 0 && t[0] == '+' {
        1
    } else {
        0
    };
    assert(t@.skip(0) == t@);
    match digits_upto(t, start, t.len(), 0xffff_ffff) {
        Some(v) => Some(v as u32),
        None => None,
    }
}

/// Reads an `i32` written as by `i32_of`.
pub fn parse_i32(t: &Vec<char>) -> (r: Option<i32>)
    ensures
        r == i32_of(t@),
{
    assert(t@.subrange(1, t@.len() as int) == t@.skip(1));
    assert(t@.subrange(0, t@.len() as int) == t@);
    assert(t@.skip(0) == t@);
    if t.len() > 0 && t[0] == '-' {
        match digits_upto(t, 1, t.len(), 0x8000_0000) {
            Some(v) => Some((0 - (v as i64)) as i32),
            None => None,
        }
    } else {
        let start: usize = if t.len() > 0 && t[0] == '+' {
            1
        } else {
            0
        };
        match digits_upto(t, start, t.len(), 0x7fff_ffff) {
            Some(v) => Some(v as i32),
            None => None,
        }
    }
}

} // verus!

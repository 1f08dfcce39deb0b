//! Reactor reports: lines of levels, safe when they move steadily in one
//! direction by small steps.
use crate::text::{chars_of, i32_of, lines, parse_i32, split_lines, split_words, views, words};
use vstd::prelude::*;

verus! {

/// At least two levels, and every step between neighbours goes up by 1 to 3,
/// or every step goes down by 1 to 3.
pub open spec fn is_safe(v: Seq<i32>) -> bool {
    &&& v.len() >= 2
    &&& {
        ||| forall|i: int| 0 <= i < v.len() - 1 ==> 1 <= #[trigger] v[i + 1] - v[i] <= 3
        ||| forall|i: int| 0 <= i < v.len() - 1 ==> 1 <= v[i] - #[trigger] v[i + 1] <= 3
    }
}

/// The levels of a report line: its words, each an `i32`.
pub open spec fn report_of(l: Seq<char>) -> Option<Seq<i32>> {
    let w = words(l);
    if forall|i: int| 0 <= i < w.len() ==> #[trigger] i32_of(w[i]) is Some {
        Some(w.map_values(|x: Seq<char>| i32_of(x)->0))
    } else {
        None
    }
}

/// How many of the lines `ls` are safe reports (all lines being reports).
pub open spec fn safe_count(ls: Seq<Seq<char>>) -> nat
    decreases ls.len(),
{
    if ls.len() == 0 {
        0
    } else {
        safe_count(ls.drop_last()) + if is_safe(report_of(ls.last())->0) {
            1nat
        } else {
            0nat
        }
    }
}

/// Every line of `ls` is a report.
pub open spec fn all_reports(ls: Seq<Seq<char>>) -> bool {
    forall|k: int| 0 <= k < ls.len() ==> #[trigger] report_of(ls[k]) is Some
}

/// Whether the levels form a safe report.
pub fn is_safe_levels(levels: &Vec<i32>) -> (r: bool)
    ensures
        r == is_safe(levels@),
{
    let n = levels.len();
    if n < 2 {
        return false;
    }
    let mut up = true;
    let mut down = true;
    for i in 0..n - 1
        invariant
            n == levels@.len(),
            n >= 2,
            up == forall|j: int| 0 <= j < i ==> 1 <= #[trigger] levels@[j + 1] - levels@[j] <= 3,
            down == forall|j: int| 0 <= j < i ==> 1 <= levels@[j] - #[trigger] levels@[j + 1] <= 3,
    {
        let d = levels[i + 1] as i64 - levels[i] as i64;
        if !(1 <= d && d <= 3) {
            up = false;
        }
        if !(-3 <= d && d <= -1) {
            down = false;
        }
    }
    up || down
}

fn read_report(l: &Vec<char>) -> (r: Option<Vec<i32>>)
    ensures
        r is None <==> report_of(l@) is None,
        r matches Some(v) ==> report_of(l@) == Some(v@),
{
    let w = split_words(l);
    let ghost ws = words(l@);
    let mut v: Vec<i32> = Vec::new();
    for i in 0..w.len()
        invariant
            views(w@) == ws,
            ws == words(l@),
            v@.len() == i,
            forall|j: int| 0 <= j < i ==> #[trigger] i32_of(ws[j]) == Some(v@[j]),
    {
        assert(views(w@)[i as int] == w@[i as int]@);
        match parse_i32(&w[i]) {
            Some(x) => {
                v.push(x);
            },
            None => {
                return None;
            },
        }
    }
    assert(v@ =~= ws.map_values(|x: Seq<char>| i32_of(x)->0));
    Some(v)
}

/// Whether one line is a safe report; `None` when a word of it is not an `i32`.
pub fn is_safe_report(line: &str) -> (r: Option<bool>)
    ensures
        match report_of(line@) {
            Some(v) => r == Some(is_safe(v)),
            None => r is None,
        },
{
    let l = chars_of(line);
    match read_report(&l) {
        Some(v) => Some(is_safe_levels(&v)),
        None => None,
    }
}

/// How many lines of `input` are safe reports; `None` when some line holds a
/// word that is not an `i32`.
pub fn solve(input: &str) -> (r: Option<usize>)
    ensures
        all_reports(lines(input@)) ==> r == Some(safe_count(lines(input@)) as usize),
        !all_reports(lines(input@)) ==> r is None,
{
    let cs = chars_of(input);
    let ls = split_lines(&cs);
    let ghost lv = lines(input@);
    let mut count: usize = 0;
    for i in 0..ls.len()
        invariant
            views(ls@) == lv,
            lv == lines(input@),
            count == safe_count(lv.take(i as int)),
            count <= i,
            all_reports(lv.take(i as int)),
    {
        assert(views(ls@)[i as int] == ls@[i as int]@);
        assert(lv.take(i + 1).drop_last() == lv.take(i as int));
        assert(lv.take(i + 1).last() == lv[i as int]);
        match read_report(&ls[i]) {
            Some(v) => {
                if is_safe_levels(&v) {
                    count = count + 1;
                }
            },
            None => {
                assert(report_of(lv[i as int]) is None);
                return None;
            },
        }
        assert forall|k: int| 0 <= k < i + 1 implies #[trigger] report_of(lv.take(i + 1)[k]) is Some by {
            if k < i {
                assert(lv.take(i + 1)[k] == lv.take(i as int)[k]);
            }
        }
    }
    assert(lv.take(ls@.len() as int) == lv);
    Some(count)
}

} // verus!

//! Two lists of location IDs, written side by side one pair per line, and
//! the two ways of comparing them: the total distance between the sorted
//! lists and the similarity score.
use crate::text::{chars_of, i32_of, lines, parse_i32, split_lines, split_words, views, words};
use vstd::prelude::*;
use vstd::relations::{sorted_by, total_ordering};
use vstd::seq_lib::{lemma_sorted_unique, to_multiset_build, to_multiset_insert};

verus! {

/// The two lists, left and right, in the order of the lines.
pub struct HistorianLists {
    pub left: Vec<i32>,
    pub right: Vec<i32>,
}

/// Why the lists could not be read or compared.
#[derive(Debug, Clone, Copy, PartialEq, Eq, Structural)]
pub enum ListError {
    /// A line that is not blank holds other than two words.
    WrongTokenCount,
    /// A word is not an `i32`.
    InvalidNumber,
    /// A term or a partial sum leaves the `i32` range.
    Overflow,
}

/// The pair of a line: none for a blank line.
pub open spec fn pair_of(l: Seq<char>) -> Result<Option<(i32, i32)>, ListError> {
    let w = words(l);
    if w.len() == 0 {
        Ok(None)
    } else if w.len() != 2 {
        Err(ListError::WrongTokenCount)
    } else if i32_of(w[0]) is Some && i32_of(w[1]) is Some {
        Ok(Some((i32_of(w[0])->0, i32_of(w[1])->0)))
    } else {
        Err(ListError::InvalidNumber)
    }
}

/// The two lists that the lines `ls` write; the first bad line gives the error.
pub open spec fn lists_of(ls: Seq<Seq<char>>) -> Result<(Seq<i32>, Seq<i32>), ListError>
    decreases ls.len(),
{
    if ls.len() == 0 {
        Ok((Seq::empty(), Seq::empty()))
    } else {
        match lists_of(ls.drop_last()) {
            Err(e) => Err(e),
            Ok((l, r)) => match pair_of(ls.last()) {
                Err(e) => Err(e),
                Ok(None) => Ok((l, r)),
                Ok(Some((a, b))) => Ok((l.push(a), r.push(b))),
            },
        }
    }
}

proof fn lemma_lists_error_stays(ls: Seq<Seq<char>>, i: int, j: int)
    requires
        0 <= i <= j <= ls.len(),
        lists_of(ls.take(i)) is Err,
    ensures
        lists_of(ls.take(j)) == lists_of(ls.take(i)),
    decreases j - i,
{
    if j > i {
        lemma_lists_error_stays(ls, i, j - 1);
        assert(ls.take(j).drop_last() == ls.take(j - 1));
    }
}

/// A line with other than zero or two words makes the whole input fail.
pub proof fn lemma_wrong_token_count_fails(ls: Seq<Seq<char>>, k: int)
    requires
        0 <= k < ls.len(),
        words(ls[k]).len() != 0,
        words(ls[k]).len() != 2,
    ensures
        lists_of(ls) is Err,
    decreases ls.len(),
{
    if k < ls.len() - 1 {
        assert(ls.drop_last()[k] == ls[k]);
        lemma_wrong_token_count_fails(ls.drop_last(), k);
    }
}

/// The ascending order on `i32`.
pub open spec fn ascending() -> spec_fn(i32, i32) -> bool {
    |a: i32, b: i32| a <= b
}

/// `s` sorted into ascending order.
pub open spec fn sorted_seq(s: Seq<i32>) -> Seq<i32> {
    s.sort_by(ascending())
}

/// The sum of `terms` added from the first on, as long as every term and
/// every partial sum lies in the `i32` range.
pub open spec fn checked_total(terms: Seq<int>) -> Option<int>
    decreases terms.len(),
{
    if terms.len() == 0 {
        Some(0)
    } else {
        match checked_total(terms.drop_last()) {
            None => None,
            Some(t) => {
                let x = terms.last();
                if i32::MIN <= x <= i32::MAX && i32::MIN <= t + x <= i32::MAX {
                    Some(t + x)
                } else {
                    None
                }
            },
        }
    }
}

proof fn lemma_checked_total_stays_none(terms: Seq<int>, i: int, j: int)
    requires
        0 <= i <= j <= terms.len(),
        checked_total(terms.take(i)) is None,
    ensures
        checked_total(terms.take(j)) is None,
    decreases j - i,
{
    if j > i {
        lemma_checked_total_stays_none(terms, i, j - 1);
        assert(terms.take(j).drop_last() == terms.take(j - 1));
    }
}

/// The distances between the lists paired by index, the shorter list
/// deciding how many pairs there are.
pub open spec fn distance_terms(a: Seq<i32>, b: Seq<i32>) -> Seq<int> {
    let n = if a.len() <= b.len() {
        a.len()
    } else {
        b.len()
    };
    Seq::new(
        n,
        |i: int|
            if a[i] >= b[i] {
                a[i] - b[i]
            } else {
                b[i] - a[i]
            },
    )
}

/// How many times `v` occurs in `s`.
pub open spec fn occurrences(s: Seq<i32>, v: i32) -> nat
    decreases s.len(),
{
    if s.len() == 0 {
        0
    } else {
        occurrences(s.drop_last(), v) + if s.last() == v {
            1nat
        } else {
            0nat
        }
    }
}

/// Each left value times the number of its occurrences on the right.
pub open spec fn similarity_terms(left: Seq<i32>, right: Seq<i32>) -> Seq<int> {
    Seq::new(left.len(), |i: int| left[i] * occurrences(right, left[i]))
}

proof fn lemma_ascending_total()
    ensures
        total_ordering(ascending()),
{
    assert(total_ordering(ascending()));
}

/// `v` in ascending order.
fn sorted_copy(v: &Vec<i32>) -> (r: Vec<i32>)
    ensures
        r@ == sorted_seq(v@),
{
    let mut out: Vec<i32> = Vec::new();
    assert(out@ == v@.take(0));
    for i in 0..v.len()
        invariant
            sorted_by(out@, ascending()),
            out@.to_multiset() == v@.take(i as int).to_multiset(),
    {
        let x = v[i];
        let mut j: usize = 0;
        while j < out.len() && out[j] <= x
            invariant
                j <= out@.len(),
                forall|k: int| 0 <= k < j ==> out@[k] <= x,
            decreases out@.len() - j,
        {
            j = j + 1;
        }
        let ghost prev = out@;
        out.insert(j, x);
        proof {
            assert(forall|k: int| j <= k < prev.len() ==> prev[k] > x) by {
                assert forall|k: int| j <= k < prev.len() implies prev[k] > x by {
                    assert(ascending()(prev[j as int], prev[k]));
                }
            }
            assert forall|p: int, q: int| 0 <= p < q < out@.len() implies #[trigger] ascending()(
                out@[p],
                out@[q],
            ) by {
                if q < j {
                    assert(ascending()(prev[p], prev[q]));
                } else if q == j {
                } else if p < j {
                } else if p == j {
                } else {
                    assert(ascending()(prev[p - 1], prev[q - 1]));
                }
            }
            to_multiset_insert(prev, j as int, x);
            to_multiset_build(v@.take(i as int), x);
            assert(v@.take(i + 1) == v@.take(i as int).push(x));
        }
    }
    proof {
        assert(v@.take(v@.len() as int) == v@);
        lemma_ascending_total();
        v@.lemma_sort_by_ensures(ascending());
        lemma_sorted_unique(out@, v@.sort_by(ascending()), ascending());
    }
    out
}

fn read_pair(l: &Vec<char>) -> (r: Result<Option<(i32, i32)>, ListError>)
    ensures
        r == pair_of(l@),
{
    let w = split_words(l);
    if w.len() == 0 {
        return Ok(None);
    }
    if w.len() != 2 {
        return Err(ListError::WrongTokenCount);
    }
    assert(views(w@)[0] == w@[0]@);
    assert(views(w@)[1] == w@[1]@);
    match (parse_i32(&w[0]), parse_i32(&w[1])) {
        (Some(a), Some(b)) => Ok(Some((a, b))),
        _ => Err(ListError::InvalidNumber),
    }
}

impl HistorianLists {
    /// Reads the lists: each line that is not blank holds two `i32`s
    /// separated by white space, the first for the left list and the second
    /// for the right.
    pub fn from_str(s: &str) -> (r: Result<HistorianLists, ListError>)
        ensures
            match r {
                Ok(h) => lists_of(lines(s@)) == Ok::<_, ListError>((h.left@, h.right@)),
                Err(e) => lists_of(lines(s@)) == Err::<(Seq<i32>, Seq<i32>), _>(e),
            },
    {
        let cs = chars_of(s);
        let ls = split_lines(&cs);
        let ghost lv = lines(s@);
        let mut left: Vec<i32> = Vec::new();
        let mut right: Vec<i32> = Vec::new();
        for i in 0..ls.len()
            invariant
                views(ls@) == lv,
                lv == lines(s@),
                lists_of(lv.take(i as int)) == Ok::<_, ListError>((left@, right@)),
        {
            assert(views(ls@)[i as int] == ls@[i as int]@);
            assert(lv.take(i + 1).drop_last() == lv.take(i as int));
            assert(lv.take(i + 1).last() == lv[i as int]);
            match read_pair(&ls[i]) {
                Ok(Some((a, b))) => {
                    left.push(a);
                    right.push(b);
                },
                Ok(None) => {},
                Err(e) => {
                    proof {
                        lemma_lists_error_stays(lv, i + 1, lv.len() as int);
                        assert(lv.take(lv.len() as int) == lv);
                    }
                    return Err(e);
                },
            }
        }
        assert(lv.take(ls@.len() as int) == lv);
        Ok(HistorianLists { left, right })
    }

    /// The total distance: the sum of the distances between the two lists
    /// sorted ascending and paired by index. `None` when a distance or a
    /// partial sum leaves the `i32` range.
    pub fn calculate_total_distance(&self) -> (r: Option<i32>)
        ensures
            r == (match checked_total(
                distance_terms(sorted_seq(self.left@), sorted_seq(self.right@)),
            ) {
                Some(t) => Some(t as i32),
                None => None,
            }),
    {
        let a = sorted_copy(&self.left);
        let b = sorted_copy(&self.right);
        let n = if a.len() <= b.len() {
            a.len()
        } else {
            b.len()
        };
        let ghost terms = distance_terms(a@, b@);
        let mut sum: i64 = 0;
        for i in 0..n
            invariant
                terms == distance_terms(a@, b@),
                a@ == sorted_seq(self.left@),
                b@ == sorted_seq(self.right@),
                n == terms.len(),
                n <= a@.len(),
                n <= b@.len(),
                checked_total(terms.take(i as int)) == Some(sum as int),
        {
            assert(terms.take(i + 1).drop_last() == terms.take(i as int));
            let d: i64 = if a[i] >= b[i] {
                a[i] as i64 - b[i] as i64
            } else {
                b[i] as i64 - a[i] as i64
            };
            assert(terms.take(i + 1).last() == d as int);
            if d > 0x7fff_ffff || sum + d > 0x7fff_ffff {
                proof {
                    lemma_checked_total_stays_none(terms, i + 1, n as int);
                    assert(terms.take(n as int) == terms);
                }
                return None;
            }
            sum = sum + d;
        }
        assert(terms.take(n as int) == terms);
        Some(sum as i32)
    }

    /// The similarity score: each left value times the number of times it
    /// occurs in the right list, summed. `None` when a term or a partial sum
    /// leaves the `i32` range.
    pub fn calculate_similarity_score(&self) -> (r: Option<i32>)
        ensures
            r == (match checked_total(similarity_terms(self.left@, self.right@)) {
                Some(t) => Some(t as i32),
                None => None,
            }),
    {
        let ghost terms = similarity_terms(self.left@, self.right@);
        let n = self.left.len();
        let mut sum: i64 = 0;
        for i in 0..n
            invariant
                terms == similarity_terms(self.left@, self.right@),
                n == terms.len(),
                checked_total(terms.take(i as int)) == Some(sum as int),
                i32::MIN <= sum <= i32::MAX,
        {
            assert(terms.take(i + 1).drop_last() == terms.take(i as int));
            let v = self.left[i];
            let mut count: usize = 0;
            for k in 0..self.right.len()
                invariant
                    count == occurrences(self.right@.take(k as int), v),
                    count <= k,
            {
                assert(self.right@.take(k + 1).drop_last() == self.right@.take(k as int));
                if self.right[k] == v {
                    count = count + 1;
                }
            }
            assert(self.right@.take(self.right@.len() as int) == self.right@);
            assert(-0x8000_0000 * 0x1_0000_0000_0000_0000 <= v as int * count as int
                <= 0x8000_0000 * 0x1_0000_0000_0000_0000) by (nonlinear_arith)
                requires
                    -0x8000_0000 <= v <= 0x7fff_ffff,
                    0 <= count <= 0xffff_ffff_ffff_ffff,
            ;
            let term: i128 = v as i128 * count as i128;
            assert(terms.take(i + 1).last() == term as int);
            if term < -0x8000_0000 || term > 0x7fff_ffff {
                proof {
                    lemma_checked_total_stays_none(terms, i + 1, n as int);
                    assert(terms.take(n as int) == terms);
                }
                return None;
            }
            let t = term as i64;
            if sum + t < -0x8000_0000 || sum + t > 0x7fff_ffff {
                proof {
                    lemma_checked_total_stays_none(terms, i + 1, n as int);
                    assert(terms.take(n as int) == terms);
                }
                return None;
            }
            sum = sum + t;
        }
        assert(terms.take(n as int) == terms);
        Some(sum as i32)
    }
}

/// The total distance of the lists that `input` writes.
pub fn solve_part1(input: &str) -> (r: Result<i32, ListError>)
    ensures
        r == (match lists_of(lines(input@)) {
            Err(e) => Err(e),
            Ok((l, rt)) => match checked_total(distance_terms(sorted_seq(l), sorted_seq(rt))) {
                Some(t) => Ok(t as i32),
                None => Err(ListError::Overflow),
            },
        }),
{
    let lists = HistorianLists::from_str(input)?;
    match lists.calculate_total_distance() {
        Some(d) => Ok(d),
        None => Err(ListError::Overflow),
    }
}

/// The similarity score of the lists that `input` writes.
pub fn solve_part2(input: &str) -> (r: Result<i32, ListError>)
    ensures
        r == (match lists_of(lines(input@)) {
            Err(e) => Err(e),
            Ok((l, rt)) => match checked_total(similarity_terms(l, rt)) {
                Some(t) => Ok(t as i32),
                None => Err(ListError::Overflow),
            },
        }),
{
    let lists = HistorianLists::from_str(input)?;
    match lists.calculate_similarity_score() {
        Some(s) => Ok(s),
        None => Err(ListError::Overflow),
    }
}

} // verus!

//! Page ordering: updates are lists of page numbers, and rules `a|b` say that
//! page `a` has to be printed somewhere before page `b` whenever both occur in
//! the same update.
use crate::text::{
    chars_of, lemma_pieces_nonempty, lines, parse_u32, pieces, split_lines, split_on, u32_of, views,
};
use vstd::prelude::*;

verus! {

/// One update: the pages it prints, in the order given.
pub struct Update {
    pub pages: Vec<u32>,
}

impl Update {
    /// The page in the middle position (index `len / 2`).
    pub fn middle_page(&self) -> (r: u32)
        requires
            self.pages@.len() > 0,
        ensures
            r == self.pages@[(self.pages@.len() / 2) as int],
    {
        self.pages[self.pages.len() / 2]
    }
}

/// The rule list holds the rule "`a` before `b`".
pub open spec fn precedes(rules: Seq<(u32, u32)>, a: u32, b: u32) -> bool {
    exists|k: int| 0 <= k < rules.len() && rules[k] == (a, b)
}

/// Every pair of pages of the update that a rule relates stands in the rule's
/// order: each occurrence of the earlier page lies at a lower index than each
/// occurrence of the later one.
pub open spec fn is_ordered(pages: Seq<u32>, rules: Seq<(u32, u32)>) -> bool {
    forall|i: int, j: int|
        0 <= i < pages.len() && 0 <= j < pages.len() && #[trigger] precedes(
            rules,
            pages[i],
            pages[j],
        ) ==> i < j
}

/// Some page of the update that is not yet placed has to come before `p`.
pub open spec fn has_pending_pred(
    pages: Seq<u32>,
    rules: Seq<(u32, u32)>,
    placed: Seq<u32>,
    p: u32,
) -> bool {
    exists|q: u32| pages.contains(q) && !placed.contains(q) && #[trigger] precedes(rules, q, p)
}

/// `p` is a page of the update, not yet placed, with no unplaced page that has
/// to come before it.
pub open spec fn is_ready(pages: Seq<u32>, rules: Seq<(u32, u32)>, placed: Seq<u32>, p: u32) -> bool {
    &&& pages.contains(p)
    &&& !placed.contains(p)
    &&& !has_pending_pred(pages, rules, placed, p)
}

/// `r` is the outcome of Kahn's algorithm on the pages of an update, taking at
/// each step the smallest page number among the ready pages, and stopping when
/// no page is ready (every page is placed, or the rest lies on or behind a
/// cycle of rules).
pub open spec fn is_kahn_order(pages: Seq<u32>, rules: Seq<(u32, u32)>, r: Seq<u32>) -> bool {
    &&& forall|k: int| 0 <= k < r.len() ==> is_ready(pages, rules, r.take(k), #[trigger] r[k])
    &&& forall|k: int, p: u32|
        0 <= k < r.len() && #[trigger] is_ready(pages, rules, r.take(k), p) ==> r[k] <= p
    &&& forall|p: u32| !#[trigger] is_ready(pages, rules, r, p)
}

/// Each occurrence of `rule.0` in `pages` lies before each occurrence of `rule.1`.
pub open spec fn rule_kept(pages: Seq<u32>, rule: (u32, u32)) -> bool {
    forall|i: int, j: int|
        #![trigger pages[i], pages[j]]
        0 <= i < pages.len() && 0 <= j < pages.len() && pages[i] == rule.0 && pages[j] == rule.1
            ==> i < j
}

/// Whether the update's pages already follow every rule that relates two of them.
pub fn is_valid_order(pages: &[u32], rules: &[(u32, u32)]) -> (r: bool)
    ensures
        r == is_ordered(pages@, rules@),
{
    let n = pages.len();
    for k in 0..rules.len()
        invariant
            n == pages@.len(),
            forall|kk: int| 0 <= kk < k ==> rule_kept(pages@, #[trigger] rules@[kk]),
    {
        let (a, b) = rules[k];
        for i in 0..n
            invariant
                n == pages@.len(),
                k < rules@.len(),
                rules@[k as int] == (a, b),
                forall|kk: int| 0 <= kk < k ==> rule_kept(pages@, #[trigger] rules@[kk]),
                forall|ii: int, j: int|
                    #![trigger pages@[ii], pages@[j]]
                    0 <= ii < i && 0 <= j < n && pages@[ii] == a && pages@[j] == b ==> ii < j,
        {
            if pages[i] == a {
                for j in 0..i + 1
                    invariant
                        n == pages@.len(),
                        i < n,
                        k < rules@.len(),
                        rules@[k as int] == (a, b),
                        pages@[i as int] == a,
                        forall|jj: int| 0 <= jj < j ==> #[trigger] pages@[jj] != b,
                {
                    if pages[j] == b {
                        assert(rules@[k as int] == (pages@[i as int], pages@[j as int]));
                        assert(precedes(rules@, pages@[i as int], pages@[j as int]));
                        return false;
                    }
                }
            }
        }
    }
    assert forall|i: int, j: int|
        0 <= i < n && 0 <= j < n && #[trigger] precedes(rules@, pages@[i], pages@[j]) implies i < j by {
        let kk = choose|kk: int| 0 <= kk < rules@.len() && rules@[kk] == (pages@[i], pages@[j]);
        assert(rule_kept(pages@, rules@[kk]));
    }
    true
}

/// Whether `v` holds `x`.
fn holds(v: &Vec<u32>, x: u32) -> (r: bool)
    ensures
        r == v@.contains(x),
{
    for i in 0..v.len()
        invariant
            forall|ii: int| 0 <= ii < i ==> v@[ii] != x,
    {
        if v[i] == x {
            assert(v@[i as int] == x);
            return true;
        }
    }
    false
}

/// Whether some rule puts a page of `remaining` before `p`.
fn has_pred_among(remaining: &Vec<u32>, rules: &[(u32, u32)], p: u32) -> (r: bool)
    ensures
        r == exists|q: u32| remaining@.contains(q) && #[trigger] precedes(rules@, q, p),
{
    for k in 0..rules.len()
        invariant
            forall|kk: int|
                0 <= kk < k && (#[trigger] rules@[kk]).1 == p ==> !remaining@.contains(rules@[kk].0),
    {
        let (a, b) = rules[k];
        if b == p && holds(remaining, a) {
            assert(precedes(rules@, a, p));
            return true;
        }
    }
    assert forall|q: u32| remaining@.contains(q) implies !#[trigger] precedes(rules@, q, p) by {
        if precedes(rules@, q, p) {
            let kk = choose|kk: int| 0 <= kk < rules@.len() && rules@[kk] == (q, p);
            assert(rules@[kk].1 == p);
        }
    }
    false
}

/// The elements of `v` other than `x`, in order.
fn without(v: &Vec<u32>, x: u32) -> (r: Vec<u32>)
    ensures
        forall|y: u32| r@.contains(y) <==> v@.contains(y) && y != x,
        r@.len() <= v@.len(),
        v@.contains(x) ==> r@.len() < v@.len(),
{
    let mut r: Vec<u32> = Vec::new();
    for i in 0..v.len()
        invariant
            forall|y: u32| r@.contains(y) <==> v@.take(i as int).contains(y) && y != x,
            r@.len() <= i,
            v@.take(i as int).contains(x) ==> r@.len() < i,
    {
        let ghost prev = r@;
        let ghost pre = v@.take(i as int);
        assert(v@.take(i + 1) == pre.push(v@[i as int]));
        if v[i] != x {
            r.push(v[i]);
            assert(r@ == prev.push(v@[i as int]));
        }
        assert forall|y: u32| r@.contains(y) <==> v@.take(i + 1).contains(y) && y != x by {
            if v@.take(i + 1).contains(y) && y != x {
                let m = choose|m: int| 0 <= m < i + 1 && #[trigger] v@.take(i + 1)[m] == y;
                if m < i {
                    assert(pre[m] == y);
                    assert(pre.contains(y));
                    assert(prev.contains(y));
                    let m2 = choose|m2: int| 0 <= m2 < prev.len() && #[trigger] prev[m2] == y;
                    assert(r@[m2] == y);
                } else {
                    assert(r@[r@.len() - 1] == y);
                }
            }
            if r@.contains(y) {
                let m = choose|m: int| 0 <= m < r@.len() && #[trigger] r@[m] == y;
                if m == prev.len() {
                    assert(v@.take(i + 1)[i as int] == y);
                } else {
                    assert(prev[m] == y);
                    assert(prev.contains(y));
                    assert(pre.contains(y));
                    let m2 = choose|m2: int| 0 <= m2 < i && #[trigger] pre[m2] == y;
                    assert(v@.take(i + 1)[m2] == y);
                }
            }
        }
        proof {
            if v@.take(i + 1).contains(x) && !pre.contains(x) {
                let m = choose|m: int| 0 <= m < i + 1 && #[trigger] v@.take(i + 1)[m] == x;
                if m < i {
                    assert(pre[m] == x);
                }
            }
        }
    }
    assert(v@.take(v@.len() as int) == v@);
    r
}

/// With `remaining` holding exactly the unplaced pages of the update, a page
/// of `remaining` is ready iff no page of `remaining` has to come before it.
proof fn lemma_ready_among(
    pages: Seq<u32>,
    rules: Seq<(u32, u32)>,
    placed: Seq<u32>,
    remaining: Seq<u32>,
    p: u32,
)
    requires
        forall|y: u32| remaining.contains(y) <==> pages.contains(y) && !placed.contains(y),
        remaining.contains(p),
    ensures
        is_ready(pages, rules, placed, p) <==> !exists|q: u32|
            remaining.contains(q) && #[trigger] precedes(rules, q, p),
{
    if exists|q: u32| remaining.contains(q) && #[trigger] precedes(rules, q, p) {
        let q = choose|q: u32| remaining.contains(q) && #[trigger] precedes(rules, q, p);
        assert(pages.contains(q) && !placed.contains(q));
    }
    if has_pending_pred(pages, rules, placed, p) {
        let q = choose|q: u32|
            pages.contains(q) && !placed.contains(q) && #[trigger] precedes(rules, q, p);
        assert(remaining.contains(q));
    }
}

/// Puts the pages of an update in an order that follows the rules between
/// them, by Kahn's algorithm: repeatedly place the smallest page number among
/// the unplaced pages that no unplaced page has to precede. Each page number
/// is placed once; pages caught on a cycle of rules are left out.
pub fn topological_sort(pages: &[u32], rules: &[(u32, u32)]) -> (r: Vec<u32>)
    ensures
        is_kahn_order(pages@, rules@, r@),
        r@ == kahn_order(pages@, rules@),
{
    let mut remaining: Vec<u32> = Vec::new();
    for i in 0..pages.len()
        invariant
            remaining@ == pages@.take(i as int),
    {
        remaining.push(pages[i]);
        assert(pages@.take(i + 1) == pages@.take(i as int).push(pages@[i as int]));
    }
    assert(pages@.take(pages@.len() as int) == pages@);
    let mut out: Vec<u32> = Vec::new();
    loop
        invariant
            forall|y: u32| remaining@.contains(y) <==> pages@.contains(y) && !out@.contains(y),
            forall|k: int|
                0 <= k < out@.len() ==> is_ready(pages@, rules@, out@.take(k), #[trigger] out@[k]),
            forall|k: int, p: u32|
                0 <= k < out@.len() && #[trigger] is_ready(pages@, rules@, out@.take(k), p)
                    ==> out@[k] <= p,
        decreases remaining@.len(),
    {
        let mut best: Option<u32> = None;
        for i in 0..remaining.len()
            invariant
                forall|y: u32| remaining@.contains(y) <==> pages@.contains(y) && !out@.contains(y),
                best matches Some(b) ==> is_ready(pages@, rules@, out@, b),
                best matches Some(b) ==> forall|ii: int|
                    0 <= ii < i && is_ready(pages@, rules@, out@, #[trigger] remaining@[ii]) ==> b
                        <= remaining@[ii],
                best is None ==> forall|ii: int|
                    0 <= ii < i ==> !is_ready(pages@, rules@, out@, #[trigger] remaining@[ii]),
        {
            let p = remaining[i];
            proof {
                lemma_ready_among(pages@, rules@, out@, remaining@, p);
            }
            if !has_pred_among(&remaining, rules, p) {
                match best {
                    Some(b) => {
                        if p < b {
                            best = Some(p);
                        }
                    },
                    None => {
                        best = Some(p);
                    },
                }
            }
        }
        match best {
            None => {
                assert forall|p: u32| !#[trigger] is_ready(pages@, rules@, out@, p) by {
                    if is_ready(pages@, rules@, out@, p) {
                        let ii = choose|ii: int| 0 <= ii < remaining@.len() && remaining@[ii] == p;
                        assert(!is_ready(pages@, rules@, out@, remaining@[ii]));
                    }
                }
                proof {
                    assert(is_kahn_order(pages@, rules@, out@));
                    lemma_kahn_order_unique(pages@, rules@, out@, kahn_order(pages@, rules@));
                }
                return out;
            },
            Some(p) => {
                let ghost prev = out@;
                assert forall|q: u32| #[trigger] is_ready(pages@, rules@, prev, q) implies p <= q by {
                    let ii = choose|ii: int| 0 <= ii < remaining@.len() && remaining@[ii] == q;
                    assert(is_ready(pages@, rules@, out@, remaining@[ii]));
                }
                out.push(p);
                assert(out@.take(prev.len() as int) == prev);
                assert forall|k: int| 0 <= k < prev.len() implies out@.take(k) == prev.take(k) by {
                    assert(out@.take(k) =~= prev.take(k));
                }
                assert forall|y: u32| out@.contains(y) <==> prev.contains(y) || y == p by {
                    if out@.contains(y) && y != p {
                        let m = choose|m: int| 0 <= m < out@.len() && #[trigger] out@[m] == y;
                        assert(prev[m] == y);
                    }
                    if prev.contains(y) {
                        let m = choose|m: int| 0 <= m < prev.len() && #[trigger] prev[m] == y;
                        assert(out@[m] == y);
                    }
                    if y == p {
                        assert(out@[prev.len() as int] == y);
                    }
                }
                remaining = without(&remaining, p);
            },
        }
    }
}

/// Kahn's order is valid: checking the order that `topological_sort` hands
/// back against the same rules finds every rule between its pages kept.
pub proof fn lemma_kahn_order_is_ordered(pages: Seq<u32>, rules: Seq<(u32, u32)>, r: Seq<u32>)
    requires
        is_kahn_order(pages, rules, r),
    ensures
        is_ordered(r, rules),
{
    assert forall|i: int, j: int|
        0 <= i < r.len() && 0 <= j < r.len() && #[trigger] precedes(rules, r[i], r[j]) implies i
        < j by {
        if j <= i {
            assert(is_ready(pages, rules, r.take(i), r[i]));
            assert(is_ready(pages, rules, r.take(j), r[j]));
            if r.take(j).contains(r[i]) {
                let m = choose|m: int| 0 <= m < j && #[trigger] r.take(j)[m] == r[i];
                assert(r.take(i)[m] == r[i]);
            }
            assert(!has_pending_pred(pages, rules, r.take(j), r[j]));
        }
    }
}

proof fn lemma_kahn_prefix(
    pages: Seq<u32>,
    rules: Seq<(u32, u32)>,
    r1: Seq<u32>,
    r2: Seq<u32>,
    k: int,
)
    requires
        is_kahn_order(pages, rules, r1),
        is_kahn_order(pages, rules, r2),
        0 <= k <= r1.len(),
        k <= r2.len(),
    ensures
        r1.take(k) == r2.take(k),
    decreases k,
{
    if k > 0 {
        lemma_kahn_prefix(pages, rules, r1, r2, k - 1);
        let pre = r1.take(k - 1);
        assert(is_ready(pages, rules, pre, r1[k - 1]));
        assert(is_ready(pages, rules, r2.take(k - 1), r2[k - 1]));
        assert(r1[k - 1] <= r2[k - 1]);
        assert(r2[k - 1] <= r1[k - 1]);
        assert(r1.take(k) =~= pre.push(r1[k - 1]));
        assert(r2.take(k) =~= r2.take(k - 1).push(r2[k - 1]));
    }
}

/// There is one Kahn order with the smallest-first choice.
pub proof fn lemma_kahn_order_unique(
    pages: Seq<u32>,
    rules: Seq<(u32, u32)>,
    r1: Seq<u32>,
    r2: Seq<u32>,
)
    requires
        is_kahn_order(pages, rules, r1),
        is_kahn_order(pages, rules, r2),
    ensures
        r1 == r2,
{
    if r1.len() < r2.len() {
        lemma_kahn_prefix(pages, rules, r1, r2, r1.len() as int);
        assert(r1.take(r1.len() as int) == r1);
        assert(is_ready(pages, rules, r2.take(r1.len() as int), r2[r1.len() as int]));
    } else if r2.len() < r1.len() {
        lemma_kahn_prefix(pages, rules, r1, r2, r2.len() as int);
        assert(r2.take(r2.len() as int) == r2);
        assert(is_ready(pages, rules, r1.take(r2.len() as int), r1[r2.len() as int]));
    } else {
        lemma_kahn_prefix(pages, rules, r1, r2, r1.len() as int);
        assert(r1.take(r1.len() as int) == r1);
        assert(r2.take(r2.len() as int) == r2);
    }
}

/// The Kahn order of an update's pages (see `is_kahn_order`).
pub open spec fn kahn_order(pages: Seq<u32>, rules: Seq<(u32, u32)>) -> Seq<u32> {
    choose|r: Seq<u32>| is_kahn_order(pages, rules, r)
}

/// Why a manual of rules and updates could not be read or summed up.
#[derive(Debug, Clone, Copy, PartialEq, Eq, Structural)]
pub enum PageError {
    /// No empty line separates the rules from the updates.
    MissingBlankLine,
    /// A rule line is not two page numbers joined by `|`.
    BadRule,
    /// An update line is not page numbers joined by `,`.
    BadUpdate,
    /// Every page of an update that needs correcting lies on a cycle of rules.
    NoOrder,
    /// The sum does not fit in a `u32`.
    Overflow,
}

/// A rule line `a|b`.
pub open spec fn rule_of(l: Seq<char>) -> Option<(u32, u32)> {
    let p = pieces(l, '|');
    if p.len() == 2 && u32_of(p[0]) is Some && u32_of(p[1]) is Some {
        Some((u32_of(p[0])->0, u32_of(p[1])->0))
    } else {
        None
    }
}

/// An update line `a,b,...,z`.
pub open spec fn update_of(l: Seq<char>) -> Option<Seq<u32>> {
    let p = pieces(l, ',');
    if forall|i: int| 0 <= i < p.len() ==> #[trigger] u32_of(p[i]) is Some {
        Some(p.map_values(|x: Seq<char>| u32_of(x)->0))
    } else {
        None
    }
}

/// The rules that the lines `ls` state, one per line.
pub open spec fn rules_of(ls: Seq<Seq<char>>) -> Option<Seq<(u32, u32)>> {
    if forall|k: int| 0 <= k < ls.len() ==> #[trigger] rule_of(ls[k]) is Some {
        Some(ls.map_values(|l: Seq<char>| rule_of(l)->0))
    } else {
        None
    }
}

/// The updates of the lines `ls` that are not empty, in order.
pub open spec fn update_values(ls: Seq<Seq<char>>) -> Seq<Seq<u32>>
    decreases ls.len(),
{
    if ls.len() == 0 {
        Seq::empty()
    } else {
        let u = update_values(ls.drop_last());
        if ls.last().len() == 0 {
            u
        } else {
            u.push(update_of(ls.last())->0)
        }
    }
}

/// The updates that the lines `ls` state; empty lines are skipped.
pub open spec fn updates_of(ls: Seq<Seq<char>>) -> Option<Seq<Seq<u32>>> {
    if forall|k: int| 0 <= k < ls.len() && ls[k].len() > 0 ==> #[trigger] update_of(ls[k]) is Some {
        Some(update_values(ls))
    } else {
        None
    }
}

/// Line `e` is the first empty line.
pub open spec fn blank_at(ls: Seq<Seq<char>>, e: int) -> bool {
    &&& 0 <= e < ls.len()
    &&& ls[e].len() == 0
    &&& forall|k: int| 0 <= k < e ==> #[trigger] ls[k].len() > 0
}

/// A manual: rule lines, the first empty line, then update lines.
pub open spec fn manual_of(s: Seq<char>) -> Result<(Seq<(u32, u32)>, Seq<Seq<u32>>), PageError> {
    let ls = lines(s);
    if exists|e: int| blank_at(ls, e) {
        let e = choose|e: int| blank_at(ls, e);
        match rules_of(ls.take(e)) {
            None => Err(PageError::BadRule),
            Some(r) => match updates_of(ls.skip(e + 1)) {
                None => Err(PageError::BadUpdate),
                Some(u) => Ok((r, u)),
            },
        }
    } else {
        Err(PageError::MissingBlankLine)
    }
}

/// The page lists of some updates.
pub open spec fn pages_of(ups: Seq<Update>) -> Seq<Seq<u32>> {
    ups.map_values(|u: Update| u.pages@)
}

fn read_rule(l: &Vec<char>) -> (r: Option<(u32, u32)>)
    ensures
        r == rule_of(l@),
{
    let p = split_on(l, '|');
    if p.len() != 2 {
        return None;
    }
    assert(views(p@)[0] == p@[0]@);
    assert(views(p@)[1] == p@[1]@);
    match (parse_u32(&p[0]), parse_u32(&p[1])) {
        (Some(a), Some(b)) => Some((a, b)),
        _ => None,
    }
}

fn read_update(l: &Vec<char>) -> (r: Option<Vec<u32>>)
    ensures
        r is None <==> update_of(l@) is None,
        r matches Some(v) ==> update_of(l@) == Some(v@) && v@.len() > 0,
{
    let p = split_on(l, ',');
    proof {
        lemma_pieces_nonempty(l@, ',');
    }
    let ghost ps = pieces(l@, ',');
    let mut v: Vec<u32> = Vec::new();
    for i in 0..p.len()
        invariant
            views(p@) == ps,
            ps == pieces(l@, ','),
            v@.len() == i,
            forall|j: int| 0 <= j < i ==> #[trigger] u32_of(ps[j]) == Some(v@[j]),
    {
        assert(views(p@)[i as int] == p@[i as int]@);
        match parse_u32(&p[i]) {
            Some(x) => {
                v.push(x);
            },
            None => {
                return None;
            },
        }
    }
    assert(v@ =~= ps.map_values(|x: Seq<char>| u32_of(x)->0));
    Some(v)
}

/// Reads a manual: rule lines `a|b`, an empty line, then update lines
/// `a,b,...` (further empty lines are skipped). The errors come in that
/// order: no empty line, then a bad rule, then a bad update.
pub fn parse_input(input: &str) -> (r: Result<(Vec<(u32, u32)>, Vec<Update>), PageError>)
    ensures
        match r {
            Ok((rules, ups)) => manual_of(input@) == Ok::<_, PageError>((rules@, pages_of(ups@))),
            Err(e) => manual_of(input@) == Err::<(Seq<(u32, u32)>, Seq<Seq<u32>>), _>(e),
        },
        r matches Ok((rules, ups)) ==> forall|i: int|
            0 <= i < ups@.len() ==> (#[trigger] ups@[i]).pages@.len() > 0,
{
    let cs = chars_of(input);
    let ls = split_lines(&cs);
    let ghost lv = lines(input@);
    let n = ls.len();
    let mut e: usize = 0;
    while e < n && ls[e].len() > 0
        invariant
            views(ls@) == lv,
            n == lv.len(),
            e <= n,
            forall|k: int| 0 <= k < e ==> #[trigger] lv[k].len() > 0,
        decreases n - e,
    {
        assert(views(ls@)[e as int] == ls@[e as int]@);
        e = e + 1;
    }
    if e == n {
        assert(!exists|e2: int| blank_at(lv, e2));
        return Err(PageError::MissingBlankLine);
    }
    assert(views(ls@)[e as int] == ls@[e as int]@);
    assert(blank_at(lv, e as int));
    assert forall|e2: int| blank_at(lv, e2) implies e2 == e by {
        if e2 < e {
            assert(lv[e2].len() > 0);
        }
        if e2 > e {
            assert(lv[e as int].len() > 0);
        }
    }
    let ghost ch = choose|e2: int| blank_at(lv, e2);
    assert(ch == e);
    let ghost head = lv.take(e as int);
    let ghost tail = lv.skip(e + 1);
    let mut rules: Vec<(u32, u32)> = Vec::new();
    for i in 0..e
        invariant
            views(ls@) == lv,
            n == lv.len(),
            e < n,
            head == lv.take(e as int),
            lv == lines(input@),
            exists|e2: int| blank_at(lv, e2),
            (choose|e2: int| blank_at(lv, e2)) == e,
            rules@.len() == i,
            forall|j: int| 0 <= j < i ==> #[trigger] rule_of(head[j]) == Some(rules@[j]),
    {
        assert(views(ls@)[i as int] == ls@[i as int]@);
        assert(head[i as int] == lv[i as int]);
        match read_rule(&ls[i]) {
            Some(x) => {
                rules.push(x);
            },
            None => {
                assert(rule_of(head[i as int]) is None);
                assert(rules_of(head) is None);
                return Err(PageError::BadRule);
            },
        }
    }
    assert(rules@ =~= head.map_values(|l: Seq<char>| rule_of(l)->0));
    let mut ups: Vec<Update> = Vec::new();
    let mut i: usize = e + 1;
    while i < n
        invariant
            views(ls@) == lv,
            n == lv.len(),
            e < i <= n,
            tail == lv.skip(e + 1),
            lv == lines(input@),
            exists|e2: int| blank_at(lv, e2),
            (choose|e2: int| blank_at(lv, e2)) == e,
            rules_of(lv.take(e as int)) == Some(rules@),
            forall|k: int| 0 <= k < i - e - 1 && tail[k].len() > 0 ==> #[trigger] update_of(tail[k]) is Some,
            pages_of(ups@) == update_values(tail.take(i - e - 1)),
            forall|k: int| 0 <= k < ups@.len() ==> (#[trigger] ups@[k]).pages@.len() > 0,
        decreases n - i,
    {
        let ghost j = i - e - 1;
        assert(views(ls@)[i as int] == ls@[i as int]@);
        assert(tail[j] == lv[i as int]);
        assert(tail.take(j + 1).drop_last() == tail.take(j));
        if ls[i].len() > 0 {
            match read_update(&ls[i]) {
                Some(pages) => {
                    let ghost prev = pages_of(ups@);
                    ups.push(Update { pages });
                    assert(pages_of(ups@) =~= prev.push(update_of(tail[j])->0));
                },
                None => {
                    assert(update_of(tail[j]) is None);
                    assert(updates_of(tail) is None);
                    return Err(PageError::BadUpdate);
                },
            }
        }
        i = i + 1;
    }
    assert(tail.take(n - e - 1) == tail);
    Ok((rules, ups))
}

/// The page in the middle position of a list of pages.
pub open spec fn middle(pages: Seq<u32>) -> u32 {
    pages[(pages.len() / 2) as int]
}

/// The sum of the middle pages of the updates that already follow the rules,
/// added from the first update on; `Overflow` once the sum leaves `u32`.
pub open spec fn valid_middle_total(rules: Seq<(u32, u32)>, ups: Seq<Seq<u32>>) -> Result<
    int,
    PageError,
>
    decreases ups.len(),
{
    if ups.len() == 0 {
        Ok(0)
    } else {
        match valid_middle_total(rules, ups.drop_last()) {
            Err(e) => Err(e),
            Ok(t) => {
                let u = ups.last();
                let t2 = if is_ordered(u, rules) {
                    t + middle(u)
                } else {
                    t
                };
                if t2 > u32::MAX {
                    Err(PageError::Overflow)
                } else {
                    Ok(t2)
                }
            },
        }
    }
}

/// The sum of the middle pages of the Kahn orders of the updates that break a
/// rule, added from the first update on; `NoOrder` at such an update whose
/// Kahn order is empty, `Overflow` once the sum leaves `u32`.
pub open spec fn corrected_middle_total(rules: Seq<(u32, u32)>, ups: Seq<Seq<u32>>) -> Result<
    int,
    PageError,
>
    decreases ups.len(),
{
    if ups.len() == 0 {
        Ok(0)
    } else {
        match corrected_middle_total(rules, ups.drop_last()) {
            Err(e) => Err(e),
            Ok(t) => {
                let u = ups.last();
                if is_ordered(u, rules) {
                    Ok(t)
                } else {
                    let r = kahn_order(u, rules);
                    if r.len() == 0 {
                        Err(PageError::NoOrder)
                    } else if t + middle(r) > u32::MAX {
                        Err(PageError::Overflow)
                    } else {
                        Ok(t + middle(r))
                    }
                }
            },
        }
    }
}

proof fn lemma_error_stays(rules: Seq<(u32, u32)>, ups: Seq<Seq<u32>>, i: int, j: int)
    requires
        0 <= i <= j <= ups.len(),
    ensures
        valid_middle_total(rules, ups.take(i)) is Err ==> valid_middle_total(rules, ups.take(j))
            == valid_middle_total(rules, ups.take(i)),
        corrected_middle_total(rules, ups.take(i)) is Err ==> corrected_middle_total(
            rules,
            ups.take(j),
        ) == corrected_middle_total(rules, ups.take(i)),
    decreases j - i,
{
    if j > i {
        lemma_error_stays(rules, ups, i, j - 1);
        assert(ups.take(j).drop_last() == ups.take(j - 1));
    }
}

/// The outcome of a sum over the updates of a manual, as a `u32`.
pub open spec fn total_result(
    m: Result<(Seq<(u32, u32)>, Seq<Seq<u32>>), PageError>,
    corrected: bool,
) -> Result<u32, PageError> {
    match m {
        Err(e) => Err(e),
        Ok((rules, ups)) => {
            let t = if corrected {
                corrected_middle_total(rules, ups)
            } else {
                valid_middle_total(rules, ups)
            };
            match t {
                Ok(v) => Ok(v as u32),
                Err(e) => Err(e),
            }
        },
    }
}

/// Sums the middle pages of the updates of the manual that already follow
/// its rules.
pub fn solve_part1(input: &str) -> (r: Result<u32, PageError>)
    ensures
        r == total_result(manual_of(input@), false),
{
    let (rules, ups) = match parse_input(input) {
        Ok(x) => x,
        Err(e) => {
            return Err(e);
        },
    };
    let ghost uv = pages_of(ups@);
    let mut acc: u64 = 0;
    for i in 0..ups.len()
        invariant
            uv == pages_of(ups@),
            manual_of(input@) == Ok::<_, PageError>((rules@, uv)),
            forall|k: int| 0 <= k < ups@.len() ==> (#[trigger] ups@[k]).pages@.len() > 0,
            acc <= u32::MAX,
            valid_middle_total(rules@, uv.take(i as int)) == Ok::<int, PageError>(acc as int),
    {
        let u = &ups[i];
        assert(uv.take(i + 1).drop_last() == uv.take(i as int));
        assert(uv.take(i + 1).last() == u.pages@);
        if is_valid_order(u.pages.as_slice(), rules.as_slice()) {
            acc = acc + u.middle_page() as u64;
            if acc > 0xffff_ffff {
                proof {
                    lemma_error_stays(rules@, uv, i + 1, uv.len() as int);
                    assert(uv.take(uv.len() as int) == uv);
                }
                return Err(PageError::Overflow);
            }
        }
    }
    assert(uv.take(ups@.len() as int) == uv);
    Ok(acc as u32)
}

/// Puts each update of the manual that breaks a rule into its Kahn order and
/// sums the middle pages of those orders.
pub fn solve_part2(input: &str) -> (r: Result<u32, PageError>)
    ensures
        r == total_result(manual_of(input@), true),
{
    let (rules, ups) = match parse_input(input) {
        Ok(x) => x,
        Err(e) => {
            return Err(e);
        },
    };
    let ghost uv = pages_of(ups@);
    let mut acc: u64 = 0;
    for i in 0..ups.len()
        invariant
            uv == pages_of(ups@),
            manual_of(input@) == Ok::<_, PageError>((rules@, uv)),
            acc <= u32::MAX,
            corrected_middle_total(rules@, uv.take(i as int)) == Ok::<int, PageError>(acc as int),
    {
        let u = &ups[i];
        assert(uv.take(i + 1).drop_last() == uv.take(i as int));
        assert(uv.take(i + 1).last() == u.pages@);
        if !is_valid_order(u.pages.as_slice(), rules.as_slice()) {
            let ordered = Update { pages: topological_sort(u.pages.as_slice(), rules.as_slice()) };
            if ordered.pages.len() == 0 {
                proof {
                    lemma_error_stays(rules@, uv, i + 1, uv.len() as int);
                    assert(uv.take(uv.len() as int) == uv);
                }
                return Err(PageError::NoOrder);
            }
            acc = acc + ordered.middle_page() as u64;
            if acc > 0xffff_ffff {
                proof {
                    lemma_error_stays(rules@, uv, i + 1, uv.len() as int);
                    assert(uv.take(uv.len() as int) == uv);
                }
                return Err(PageError::Overflow);
            }
        }
    }
    assert(uv.take(ups@.len() as int) == uv);
    Ok(acc as u32)
}

} // verus!

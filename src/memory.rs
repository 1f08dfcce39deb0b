//! A scanner over corrupted memory: it adds up the products of the
//! well-formed `mul(A,B)` instructions, while `do()` and `don't()` switch the
//! counting on and off.
use crate::text::{all_digits, chars_of, digits_upto, digits_value, is_digit};
use vstd::prelude::*;

verus! {

/// `do()` starts at `pos`.
pub open spec fn do_at(t: Seq<char>, pos: int) -> bool {
    0 <= pos && pos + 4 <= t.len() && t[pos] == 'd' && t[pos + 1] == 'o' && t[pos + 2] == '('
        && t[pos + 3] == ')'
}

/// `don't()` starts at `pos`.
pub open spec fn dont_at(t: Seq<char>, pos: int) -> bool {
    0 <= pos && pos + 7 <= t.len() && t[pos] == 'd' && t[pos + 1] == 'o' && t[pos + 2] == 'n'
        && t[pos + 3] == '\'' && t[pos + 4] == 't' && t[pos + 5] == '(' && t[pos + 6] == ')'
}

/// A switch at `pos`: the position after it and whether it turns counting on.
pub open spec fn control_at(t: Seq<char>, pos: int) -> Option<(int, bool)> {
    if do_at(t, pos) {
        Some((pos + 4, true))
    } else if dont_at(t, pos) {
        Some((pos + 7, false))
    } else {
        None
    }
}

/// The number of decimal digits in a row from position `i` on.
pub open spec fn digit_run(t: Seq<char>, i: int) -> nat
    decreases t.len() - i,
{
    if 0 <= i < t.len() && is_digit(t[i]) {
        1 + digit_run(t, i + 1)
    } else {
        0
    }
}

/// An operand of `mul`: one to three digits with a value from 1 to 999.
pub open spec fn operand_ok(d: Seq<char>) -> bool {
    &&& 1 <= d.len() <= 3
    &&& 1 <= digits_value(d) <= 999
}

/// A `mul(A,B)` at `pos`, with `A` and `B` runs of one to three digits whose
/// values lie in 1..=999: the position after it and the product.
pub open spec fn mul_at(t: Seq<char>, pos: int) -> Option<(int, int)> {
    if 0 <= pos && pos + 7 <= t.len() && t[pos] == 'm' && t[pos + 1] == 'u' && t[pos + 2] == 'l'
        && t[pos + 3] == '(' {
        let i1 = pos + 4;
        let c1 = i1 + digit_run(t, i1);
        let i2 = c1 + 1;
        let c2 = i2 + digit_run(t, i2);
        if c1 > i1 && c1 < t.len() && t[c1] == ',' && c2 > i2 && c2 < t.len() && t[c2] == ')'
            && operand_ok(t.subrange(i1, c1)) && operand_ok(t.subrange(i2, c2)) {
            Some((c2 + 1, digits_value(t.subrange(i1, c1)) * digits_value(t.subrange(i2, c2))))
        } else {
            None
        }
    } else {
        None
    }
}

/// The sum of the products that count, scanning from `pos` on with counting
/// `enabled` or not: a switch sets the flag and is skipped, a `mul` adds its
/// product when counting is on and is skipped, any other character is
/// skipped alone.
pub open spec fn scan_total(t: Seq<char>, pos: int, enabled: bool) -> int
    decreases t.len() - pos,
{
    if pos < 0 || pos >= t.len() {
        0
    } else if do_at(t, pos) {
        scan_total(t, pos + 4, true)
    } else if dont_at(t, pos) {
        scan_total(t, pos + 7, false)
    } else {
        match mul_at(t, pos) {
            Some((end, p)) => (if enabled {
                p
            } else {
                0
            }) + scan_total(t, end, enabled),
            None => scan_total(t, pos + 1, enabled),
        }
    }
}

/// A `mul` counts only with both operands of one to three digits and values
/// from 1 to 999: an operand of 0, above 999 or of more than three digits
/// makes it no instruction, so an instruction spans 8 to 12 characters.
pub proof fn lemma_mul_operands_in_range(t: Seq<char>, pos: int)
    requires
        mul_at(t, pos) is Some,
    ensures
        exists|a: int, b: int|
            1 <= a <= 999 && 1 <= b <= 999 && #[trigger] (a * b) == (mul_at(t, pos)->0).1,
        pos + 8 <= (mul_at(t, pos)->0).0 <= pos + 12,
{
    let i1 = pos + 4;
    let c1 = i1 + digit_run(t, i1);
    let c2 = c1 + 1 + digit_run(t, c1 + 1);
    let a = digits_value(t.subrange(i1, c1));
    let b = digits_value(t.subrange(c1 + 1, c2));
    assert(1 <= a <= 999 && 1 <= b <= 999 && a * b == (mul_at(t, pos)->0).1);
}

proof fn lemma_scan_total_nonneg(t: Seq<char>, pos: int, enabled: bool)
    ensures
        scan_total(t, pos, enabled) >= 0,
    decreases t.len() - pos,
{
    if pos < 0 || pos >= t.len() {
    } else if do_at(t, pos) {
        lemma_scan_total_nonneg(t, pos + 4, true);
    } else if dont_at(t, pos) {
        lemma_scan_total_nonneg(t, pos + 7, false);
    } else {
        match mul_at(t, pos) {
            Some((end, p)) => {
                let i1 = pos + 4;
                let c1 = i1 + digit_run(t, i1);
                let c2 = c1 + 1 + digit_run(t, c1 + 1);
                let a = digits_value(t.subrange(i1, c1));
                let b = digits_value(t.subrange(c1 + 1, c2));
                assert(a * b >= 1) by (nonlinear_arith)
                    requires
                        a >= 1,
                        b >= 1,
                ;
                lemma_scan_total_nonneg(t, end, enabled);
            },
            None => {
                lemma_scan_total_nonneg(t, pos + 1, enabled);
            },
        }
    }
}

/// Reads a switch, `do()` or `don't()`, at character position `pos`: the
/// position after it and whether it turns counting on.
pub fn parse_control_instruction(text: &Vec<char>, pos: usize) -> (r: Option<(usize, bool)>)
    ensures
        match r {
            Some((e, on)) => control_at(text@, pos as int) == Some((e as int, on)),
            None => control_at(text@, pos as int) is None,
        },
{
    let n = text.len();
    if pos > n || n - pos < 4 {
        return None;
    }
    if text[pos] == 'd' && text[pos + 1] == 'o' && text[pos + 2] == '(' && text[pos + 3] == ')' {
        Some((pos + 4, true))
    } else if n - pos >= 7 && text[pos] == 'd' && text[pos + 1] == 'o' && text[pos + 2] == 'n'
        && text[pos + 3] == '\'' && text[pos + 4] == 't' && text[pos + 5] == '(' && text[pos + 6]
        == ')' {
        Some((pos + 7, false))
    } else {
        None
    }
}

/// The end of the run of digits that starts at `i`.
fn skip_digits(t: &Vec<char>, i: usize) -> (j: usize)
    requires
        i <= t@.len(),
    ensures
        j == i + digit_run(t@, i as int),
        j <= t@.len(),
        all_digits(t@.subrange(i as int, j as int)),
{
    let mut j = i;
    while j < t.len() && '0' <= t[j] && t[j] <= '9'
        invariant
            i <= j <= t@.len(),
            digit_run(t@, i as int) == (j - i) + digit_run(t@, j as int),
            forall|k: int| i <= k < j ==> is_digit(#[trigger] t@[k]),
        decreases t@.len() - j,
    {
        j = j + 1;
    }
    assert forall|k: int| 0 <= k < j - i implies is_digit(
        #[trigger] t@.subrange(i as int, j as int)[k],
    ) by {
        assert(t@.subrange(i as int, j as int)[k] == t@[i + k]);
    }
    j
}

/// Reads `mul(A,B)` at character position `pos`, where `A` and `B` are runs of
/// one to three digits with values from 1 to 999: the position after it and
/// `A * B`.
pub fn parse_mul_instruction(text: &Vec<char>, pos: usize) -> (r: Option<(usize, u32)>)
    ensures
        match r {
            Some((e, p)) => mul_at(text@, pos as int) == Some((e as int, p as int)),
            None => mul_at(text@, pos as int) is None,
        },
{
    let n = text.len();
    if pos > n || n - pos < 7 {
        return None;
    }
    if !(text[pos] == 'm' && text[pos + 1] == 'u' && text[pos + 2] == 'l' && text[pos + 3] == '(') {
        return None;
    }
    let i1 = pos + 4;
    let c1 = skip_digits(text, i1);
    if c1 == i1 || c1 - i1 > 3 || c1 >= n || text[c1] != ',' {
        return None;
    }
    let i2 = c1 + 1;
    let c2 = skip_digits(text, i2);
    if c2 == i2 || c2 - i2 > 3 || c2 >= n || text[c2] != ')' {
        return None;
    }
    let a = digits_upto(text, i1, c1, 999);
    let b = digits_upto(text, i2, c2, 999);
    match (a, b) {
        (Some(x), Some(y)) => {
            if x >= 1 && y >= 1 {
                assert(x * y <= 999 * 999) by (nonlinear_arith)
                    requires
                        x <= 999,
                        y <= 999,
                ;
                Some((c2 + 1, (x * y) as u32))
            } else {
                None
            }
        },
        _ => None,
    }
}

/// Scans `input` and adds up the products of the `mul` instructions met while
/// counting is on (it starts on). `None` when the sum does not fit in a `u32`.
pub fn process_memory(input: &str) -> (r: Option<u32>)
    ensures
        r == (if scan_total(input@, 0, true) <= u32::MAX {
            Some(scan_total(input@, 0, true) as u32)
        } else {
            None
        }),
{
    let t = chars_of(input);
    let mut pos: usize = 0;
    let mut sum: u64 = 0;
    let mut enabled = true;
    while pos < t.len()
        invariant
            t@ == input@,
            pos <= t@.len(),
            sum <= u32::MAX,
            sum + scan_total(t@, pos as int, enabled) == scan_total(t@, 0, true),
        decreases t@.len() - pos,
    {
        if let Some((next, on)) = parse_control_instruction(&t, pos) {
            enabled = on;
            pos = next;
            continue;
        }
        match parse_mul_instruction(&t, pos) {
            Some((next, product)) => {
                if enabled {
                    sum = sum + product as u64;
                    if sum > 0xffff_ffff {
                        proof {
                            lemma_scan_total_nonneg(t@, next as int, enabled);
                        }
                        return None;
                    }
                }
                pos = next;
            },
            None => {
                pos = pos + 1;
            },
        }
    }
    Some(sum as u32)
}

} // verus!

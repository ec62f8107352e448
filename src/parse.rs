use vstd::prelude::*;

use crate::differentiation::{chalf, cint, derivative_tree, lemma_derivative_wf, rc};
use crate::expr::{node, Elementary};
use crate::number::Number;
use crate::Error;
use vstd::string::StringSliceAdditionalSpecFns;

verus! {

/// The most reduction rounds a parse may take.
pub const ITERATION_LIMIT: u32 = 10000;

/// One element of the sequence that the parser reduces: a parsed
/// expression or an operator still waiting for its operands.
#[derive(Debug)]
pub enum ElemRef {
    Function(Elementary),
    Pow,
    Mul,
    Div,
    Add,
    Sub,
    Factorial,
}

pub open spec fn item_wf(t: ElemRef) -> bool {
    match t {
        ElemRef::Function(e) => e.wf(),
        _ => true,
    }
}

pub open spec fn items_wf(s: Seq<ElemRef>) -> bool {
    forall|k: int| 0 <= k < s.len() ==> item_wf(#[trigger] s[k])
}

pub open spec fn is_space(b: u8) -> bool {
    b == 32 || b == 9 || b == 10 || b == 11 || b == 12 || b == 13
}

/// The text with ASCII letters in lower case.
pub open spec fn lowered(t: Seq<u8>) -> Seq<u8> {
    Seq::new(t.len(), |i: int| lower(t[i]))
}

pub open spec fn lower(b: u8) -> u8 {
    if 65 <= b <= 90 {
        (b + 32) as u8
    } else {
        b
    }
}

/// The text with white space removed and ASCII letters in lower case.
pub open spec fn normalized(s: Seq<u8>) -> Seq<u8>
    decreases s.len(),
{
    if s.len() == 0 {
        s
    } else if is_space(s.last()) {
        normalized(s.drop_last())
    } else {
        normalized(s.drop_last()).push(lower(s.last()))
    }
}

pub open spec fn is_digit(b: u8) -> bool {
    48 <= b <= 57
}

/// Consecutive nonempty spans that cover `[0, n)` exactly.
pub open spec fn partitions(spans: Seq<(usize, usize)>, n: int) -> bool {
    &&& (spans.len() == 0 <==> n == 0)
    &&& (spans.len() > 0 ==> spans[0].0 == 0 && spans.last().1 == n)
    &&& forall|k: int| 0 <= k < spans.len() ==> (#[trigger] spans[k]).0 < spans[k].1
    &&& forall|k: int| 0 <= k < spans.len() - 1 ==> (#[trigger] spans[k]).1 == spans[k + 1].0
}

/// The value of a decimal literal's digits, the point ignored.
pub open spec fn digits_value(s: Seq<u8>) -> int
    decreases s.len(),
{
    if s.len() == 0 {
        0
    } else if s.last() == 46 {
        digits_value(s.drop_last())
    } else {
        digits_value(s.drop_last()) * 10 + (s.last() - 48)
    }
}

/// The number of digits after the point.
pub open spec fn fraction_digits(s: Seq<u8>) -> nat
    decreases s.len(),
{
    if s.len() == 0 {
        0
    } else if s.last() == 46 {
        0
    } else if s.drop_last().contains(46) {
        fraction_digits(s.drop_last()) + 1
    } else {
        0
    }
}

pub open spec fn pow10(k: nat) -> int
    decreases k,
{
    if k == 0 {
        1
    } else {
        10 * pow10((k - 1) as nat)
    }
}

/// Digits with at most one point, and at least one digit.
pub open spec fn is_literal(s: Seq<u8>) -> bool {
    &&& forall|i: int| 0 <= i < s.len() ==> is_digit(#[trigger] s[i]) || s[i] == 46
    &&& exists|i: int| 0 <= i < s.len() && is_digit(#[trigger] s[i])
    &&& forall|i: int, j: int| 0 <= i < j < s.len() && #[trigger] s[i] == 46 ==> #[trigger] s[j] != 46
}

/// The bytes before the first opening parenthesis.
pub open spec fn head_before_paren(t: Seq<u8>) -> Seq<u8>
    decreases t.len(),
{
    if t.len() == 0 || t[0] == 40 {
        Seq::empty()
    } else {
        seq![t[0]] + head_before_paren(t.drop_first())
    }
}

proof fn lemma_head_unique(t: Seq<u8>, a: Seq<u8>, b: Seq<u8>)
    requires
        a + b == t,
        !a.contains(40),
        b.len() > 0,
        b[0] == 40,
    ensures
        head_before_paren(t) == a,
    decreases a.len(),
{
    if a.len() == 0 {
        assert(t[0] == b[0]);
        assert(a =~= Seq::<u8>::empty());
    } else {
        assert(t[0] == a[0]);
        assert(a[0] != 40) by {
            if a[0] == 40 {
                assert(a.contains(40));
            }
        }
        assert(a.drop_first() + b =~= t.drop_first());
        assert(!a.drop_first().contains(40)) by {
            if a.drop_first().contains(40) {
                let j = choose|j: int| 0 <= j < a.drop_first().len() && a.drop_first()[j] == 40;
                assert(a[j + 1] == 40);
            }
        }
        lemma_head_unique(t.drop_first(), a.drop_first(), b);
        assert(seq![a[0]] + a.drop_first() =~= a);
    }
}

/// The names of the functions that a call may use.
pub open spec fn known_name(n: Seq<u8>) -> bool {
    ||| n == seq![115u8, 105u8, 110u8]
    ||| n == seq![99u8, 111u8, 115u8]
    ||| n == seq![116u8, 97u8, 110u8]
    ||| n == seq![115u8, 101u8, 99u8]
    ||| n == seq![99u8, 115u8, 99u8]
    ||| n == seq![99u8, 111u8, 116u8]
    ||| n == seq![97u8, 115u8, 105u8, 110u8]
    ||| n == seq![97u8, 99u8, 111u8, 115u8]
    ||| n == seq![97u8, 116u8, 97u8, 110u8]
    ||| n == seq![115u8, 105u8, 110u8, 104u8]
    ||| n == seq![99u8, 111u8, 115u8, 104u8]
    ||| n == seq![116u8, 97u8, 110u8, 104u8]
    ||| n == seq![108u8, 110u8]
    ||| n == seq![97u8, 98u8, 115u8]
    ||| n == seq![115u8, 113u8, 114u8, 116u8]
    ||| n == seq![100u8]
}

proof fn lemma_digits_nonneg(s: Seq<u8>)
    requires
        forall|k: int| 0 <= k < s.len() ==> is_digit(#[trigger] s[k]) || s[k] == 46,
    ensures
        digits_value(s) >= 0,
    decreases s.len(),
{
    if s.len() > 0 {
        lemma_digits_nonneg(s.drop_last());
    }
}

proof fn lemma_pow10_monotone(a: nat, b: nat)
    requires
        a <= b,
    ensures
        1 <= pow10(a) <= pow10(b),
    decreases b,
{
    if a < b {
        lemma_pow10_monotone(a, (b - 1) as nat);
    } else if a > 0 {
        lemma_pow10_monotone((a - 1) as nat, (a - 1) as nat);
    }
}

/// Along a literal, the digits' value and the scale only grow.
proof fn lemma_prefix_monotone(t: Seq<u8>, i: int, j: int)
    requires
        is_literal(t),
        0 <= i <= j <= t.len(),
    ensures
        digits_value(t.subrange(0, i)) <= digits_value(t.subrange(0, j)),
        pow10(fraction_digits(t.subrange(0, i))) <= pow10(fraction_digits(t.subrange(0, j))),
    decreases j - i,
{
    if i < j {
        lemma_prefix_monotone(t, i, j - 1);
        let p = t.subrange(0, j - 1);
        let q = t.subrange(0, j);
        assert(q.drop_last() =~= p);
        assert(q.last() == t[j - 1]);
        lemma_digits_nonneg(p);
        if t[j - 1] == 46 {
            assert(!p.contains(46)) by {
                if p.contains(46) {
                    let k = choose|k: int| 0 <= k < p.len() && p[k] == 46;
                    assert(t[k] == 46);
                }
            }
            if p.len() > 0 {
                assert(p.last() != 46);
                assert(!p.drop_last().contains(46)) by {
                    if p.drop_last().contains(46) {
                        let k = choose|k: int| 0 <= k < p.drop_last().len() && p.drop_last()[k]
                            == 46;
                        assert(p[k] == 46);
                    }
                }
            }
            assert(fraction_digits(p) == 0);
        } else {
            lemma_pow10_monotone(fraction_digits(p), fraction_digits(q));
            if p.contains(46) {
                assert(fraction_digits(q) == fraction_digits(p) + 1);
            } else {
                if p.len() > 0 {
                    assert(p.last() != 46);
                }
                assert(fraction_digits(p) == 0);
            }
        }
        lemma_pow10_monotone(fraction_digits(p), fraction_digits(p));
        lemma_pow10_monotone(0, fraction_digits(q));
    }
}

proof fn lemma_reduce_fits(n: int, d: int)
    requires
        0 <= n <= 0x7fff_ffff_ffff_ffff,
        0 < d <= 0x7fff_ffff_ffff_ffff,
    ensures
        crate::number::fits(crate::number::reduce(n, d)),
{
    let g = crate::number::gcd(crate::number::abs_int(n), d as nat) as int;
    crate::number::lemma_gcd_pos(crate::number::abs_int(n), d as nat);
    crate::number::lemma_reduce_reduced(n, d);
    vstd::arithmetic::div_mod::lemma_div_is_ordered_by_denominator(n, 1, g);
    vstd::arithmetic::div_mod::lemma_div_is_ordered_by_denominator(d, 1, g);
    vstd::arithmetic::div_mod::lemma_div_basics(n);
    vstd::arithmetic::div_mod::lemma_div_basics(d);
}

/// Removes white space and lowers ASCII letters.
pub fn normalize(text: &str) -> (r: Vec<u8>)
    ensures
        r@ == normalized(text.spec_bytes()),
{
    let bytes = text.as_bytes();
    let mut out: Vec<u8> = Vec::new();
    let mut i: usize = 0;
    while i < bytes.len()
        invariant
            i <= bytes@.len(),
            bytes@ == text.spec_bytes(),
            out@ == normalized(bytes@.subrange(0, i as int)),
        decreases bytes@.len() - i,
    {
        let b = bytes[i];
        proof {
            assert(bytes@.subrange(0, i + 1).drop_last() =~= bytes@.subrange(0, i as int));
        }
        if !(b == 32 || b == 9 || b == 10 || b == 11 || b == 12 || b == 13) {
            let l = if 65 <= b && b <= 90 {
                b + 32
            } else {
                b
            };
            out.push(l);
        }
        i = i + 1;
    }
    proof {
        assert(bytes@.subrange(0, bytes@.len() as int) =~= bytes@);
    }
    out
}

/// The bytes `s[a..b]`.
pub fn copy_range(s: &Vec<u8>, a: usize, b: usize) -> (r: Vec<u8>)
    requires
        a <= b <= s@.len(),
    ensures
        r@ == s@.subrange(a as int, b as int),
{
    let mut out: Vec<u8> = Vec::new();
    let mut i: usize = a;
    while i < b
        invariant
            a <= i <= b,
            b <= s@.len(),
            out@ == s@.subrange(a as int, i as int),
        decreases b - i,
    {
        out.push(s[i]);
        proof {
            assert(out@ =~= s@.subrange(a as int, i + 1));
        }
        i = i + 1;
    }
    out
}

pub fn same_bytes(a: &Vec<u8>, b: &Vec<u8>) -> (r: bool)
    ensures
        r == (a@ == b@),
{
    if a.len() != b.len() {
        return false;
    }
    let mut i: usize = 0;
    while i < a.len()
        invariant
            i <= a@.len(),
            a@.len() == b@.len(),
            forall|j: int| 0 <= j < i ==> a@[j] == b@[j],
        decreases a@.len() - i,
    {
        if a[i] != b[i] {
            return false;
        }
        i = i + 1;
    }
    proof {
        assert(a@ =~= b@);
    }
    true
}

/// Splits at the first `delimiter`: the part before it, and the rest from
/// it on.  When it does not occur the text is split at index 0: nothing
/// before, the whole text after.
pub fn split_first(string: &Vec<u8>, delimiter: u8) -> (r: (Vec<u8>, Vec<u8>))
    ensures
        r.0@ + r.1@ == string@,
        !r.0@.contains(delimiter),
        string@.contains(delimiter) ==> r.1@.len() > 0 && r.1@[0] == delimiter,
        !string@.contains(delimiter) ==> r.0@.len() == 0 && r.1@ == string@,
{
    let mut i: usize = 0;
    while i < string.len() && string[i] != delimiter
        invariant
            i <= string@.len(),
            forall|j: int| 0 <= j < i ==> string@[j] != delimiter,
        decreases string@.len() - i,
    {
        i = i + 1;
    }
    if i == string.len() {
        proof {
            assert(!string@.contains(delimiter));
            assert(Seq::<u8>::empty() + string@ =~= string@);
        }
        return (Vec::new(), copy_range(string, 0, string.len()));
    }
    let head = copy_range(string, 0, i);
    let tail = copy_range(string, i, string.len());
    proof {
        assert(head@ + tail@ =~= string@);
        assert(tail@[0] == delimiter);
        assert(string@.subrange(0, string@.len() as int) =~= string@);
    }
    (head, tail)
}

/// The end of the word that starts at `pos` in the pending text ending at
/// `end`: `pi` is two bytes, `x` and `e` one, anything else runs to the end.
pub open spec fn word_end(s: Seq<u8>, pos: int, end: int) -> int {
    if pos + 1 < end && s[pos] == 112 && s[pos + 1] == 105 {
        pos + 2
    } else if s[pos] == 120 || s[pos] == 101 {
        pos + 1
    } else {
        end
    }
}

/// `spans` followed by the words of the pending text `s[pos..end)`.
pub open spec fn words(s: Seq<u8>, pos: int, end: int, spans: Seq<(usize, usize)>) -> Seq<
    (usize, usize),
>
    decreases end - pos,
{
    if pos >= end {
        spans
    } else {
        let next = word_end(s, pos, end);
        if next <= pos {
            spans
        } else {
            words(s, next, end, spans.push((pos as usize, next as usize)))
        }
    }
}

/// Where a number that goes on at `j` ends: digits, and one point at most.
pub open spec fn literal_end(s: Seq<u8>, j: int, seen_point: bool) -> int
    decreases s.len() - j,
{
    if 0 <= j < s.len() && (is_digit(s[j]) || (s[j] == 46 && !seen_point)) {
        literal_end(s, j + 1, seen_point || s[j] == 46)
    } else {
        j
    }
}

proof fn lemma_literal_end_after(s: Seq<u8>, j: int, seen_point: bool)
    requires
        0 <= j,
    ensures
        literal_end(s, j, seen_point) >= j,
        j <= s.len() ==> literal_end(s, j, seen_point) <= s.len(),
    decreases s.len() - j,
{
    if 0 <= j < s.len() && (is_digit(s[j]) || (s[j] == 46 && !seen_point)) {
        lemma_literal_end_after(s, j + 1, seen_point || s[j] == 46);
    }
}

pub open spec fn is_single_token(c: u8) -> bool {
    c == 43 || c == 45 || c == 42 || c == 47 || c == 94 || c == 33 || c == 41
}

/// The tokens of `s` from position `i` on, given the tokens so far, the
/// start `cut` of the pending text and the parenthesis depth (zero at the
/// top level).  At the top level an operator, `!` or a stray `)` is a token
/// of its own, as is `pi` written as the Greek letter and a number;
/// a parenthesis opens a group that runs, with the name before it, to the
/// matching `)`; other bytes wait in the pending text, which is cut into
/// words (`pi`, `x`, `e`, or the rest) when a token follows or the text ends.
pub open spec fn lex(s: Seq<u8>, i: int, cut: int, depth: int, spans: Seq<(usize, usize)>) -> Seq<
    (usize, usize),
>
    decreases s.len() - i,
{
    if i >= s.len() || i < 0 {
        if depth > 0 {
            if cut < s.len() {
                spans.push((cut as usize, s.len() as usize))
            } else {
                spans
            }
        } else {
            words(s, cut, s.len() as int, spans)
        }
    } else {
        let c = s[i];
        if depth > 0 {
            if c == 40 {
                lex(s, i + 1, cut, depth + 1, spans)
            } else if c == 41 && depth == 1 {
                lex(s, i + 1, i + 1, 0, spans.push((cut as usize, (i + 1) as usize)))
            } else if c == 41 {
                lex(s, i + 1, cut, depth - 1, spans)
            } else {
                lex(s, i + 1, cut, depth, spans)
            }
        } else if c == 40 {
            lex(s, i + 1, cut, 1, spans)
        } else if is_single_token(c) {
            lex(s, i + 1, i + 1, 0, words(s, cut, i, spans).push((i as usize, (i + 1) as usize)))
        } else if c == 0xcf && i + 1 < s.len() && s[i + 1] == 0x80 {
            lex(s, i + 2, i + 2, 0, words(s, cut, i, spans).push((i as usize, (i + 2) as usize)))
        } else if is_digit(c) || c == 46 {
            let j = literal_end(s, i + 1, c == 46);
            if i < j <= s.len() {
                lex(s, j, j, 0, words(s, cut, i, spans).push((i as usize, j as usize)))
            } else {
                spans
            }
        } else {
            lex(s, i + 1, cut, 0, spans)
        }
    }
}

/// The tokens of a normalised text, as spans.
pub open spec fn tokens_of(s: Seq<u8>) -> Seq<(usize, usize)> {
    lex(s, 0, 0, 0, Seq::empty())
}

/// Pushes the spans of the pending text `s[cut..end)`: `pi`, `x` and `e`
/// each on their own, and whatever else as one word.
fn push_words(s: &Vec<u8>, spans: &mut Vec<(usize, usize)>, cut: usize, end: usize)
    requires
        cut <= end <= s@.len(),
        partitions(old(spans)@, cut as int),
    ensures
        partitions(final(spans)@, end as int),
        final(spans)@ == words(s@, cut as int, end as int, old(spans)@),
{
    let mut pos = cut;
    while pos < end
        invariant
            cut <= pos <= end,
            end <= s@.len(),
            partitions(spans@, pos as int),
            words(s@, cut as int, end as int, old(spans)@) == words(
                s@,
                pos as int,
                end as int,
                spans@,
            ),
        decreases end - pos,
    {
        let next = if pos + 1 < end && s[pos] == 112 && s[pos + 1] == 105 {
            pos + 2
        } else if s[pos] == 120 || s[pos] == 101 {
            pos + 1
        } else {
            end
        };
        spans.push((pos, next));
        pos = next;
    }
}

/// Cuts normalised text into tokens: operators, `!`, numbers, `x`, `e`,
/// `pi` (or the Greek letter), and parenthesised groups together with the name in front
/// of them.  The tokens cover the text exactly.
pub fn split_function(s: &Vec<u8>) -> (r: Vec<(usize, usize)>)
    ensures
        partitions(r@, s@.len() as int),
        r@ == tokens_of(s@),
{
    let n = s.len();
    let mut spans: Vec<(usize, usize)> = Vec::new();
    let mut cut: usize = 0;
    let mut depth: usize = 0;
    let mut i: usize = 0;
    while i < n
        invariant
            n == s@.len(),
            cut <= i <= n,
            depth <= i,
            partitions(spans@, cut as int),
            tokens_of(s@) == lex(s@, i as int, cut as int, depth as int, spans@),
        decreases n - i,
    {
        let c = s[i];
        if depth > 0 {
            if c == 40 {
                depth = depth + 1;
            } else if c == 41 {
                depth = depth - 1;
                if depth == 0 {
                    spans.push((cut, i + 1));
                    cut = i + 1;
                }
            }
            i = i + 1;
        } else if c == 40 {
            depth = 1;
            i = i + 1;
        } else if c == 43 || c == 45 || c == 42 || c == 47 || c == 94 || c == 33 || c == 41 {
            push_words(s, &mut spans, cut, i);
            spans.push((i, i + 1));
            cut = i + 1;
            i = i + 1;
        } else if c == 0xcf && i + 1 < n && s[i + 1] == 0x80 {
            push_words(s, &mut spans, cut, i);
            spans.push((i, i + 2));
            cut = i + 2;
            i = i + 2;
        } else if (48 <= c && c <= 57) || c == 46 {
            push_words(s, &mut spans, cut, i);
            let mut j = i + 1;
            let mut seen_point = c == 46;
            while j < n && ((48 <= s[j] && s[j] <= 57) || (s[j] == 46 && !seen_point))
                invariant
                    i < j <= n,
                    n == s@.len(),
                    literal_end(s@, i + 1, c == 46) == literal_end(s@, j as int, seen_point),
                decreases n - j,
            {
                if s[j] == 46 {
                    seen_point = true;
                }
                j = j + 1;
            }
            proof {
                lemma_literal_end_after(s@, i + 1, c == 46);
            }
            spans.push((i, j));
            cut = j;
            i = j;
        } else {
            i = i + 1;
        }
    }
    if depth > 0 {
        if cut < n {
            spans.push((cut, n));
        }
    } else {
        push_words(s, &mut spans, cut, n);
    }
    spans
}

/// The value of a decimal literal, or `None` when it is not one or does not
/// fit.
pub fn parse_literal(t: &Vec<u8>) -> (r: Option<Number>)
    ensures
        r matches Some(v) ==> v.wf() && is_literal(t@) && v.ratio() == crate::number::reduce(
            digits_value(t@),
            pow10(fraction_digits(t@)),
        ) && digits_value(t@) <= i64::MAX && pow10(fraction_digits(t@)) <= i64::MAX,
        !is_literal(t@) ==> r is None,
        t@.len() == 1 && is_digit(t@[0]) ==> r == Some(Number { num: (t@[0] - 48) as i64, den: 1 }),
        is_literal(t@) && digits_value(t@) <= i64::MAX && pow10(fraction_digits(t@)) <= i64::MAX
            ==> r is Some,
{
    let mut mantissa: u64 = 0;
    let mut scale: u64 = 1;
    let mut seen_point = false;
    let mut seen_digit = false;
    let mut i: usize = 0;
    while i < t.len()
        invariant
            i <= t@.len(),
            mantissa as int == digits_value(t@.subrange(0, i as int)),
            scale as int == pow10(fraction_digits(t@.subrange(0, i as int))),
            scale >= 1,
            seen_point == t@.subrange(0, i as int).contains(46),
            seen_digit == exists|k: int| 0 <= k < i && is_digit(#[trigger] t@[k]),
            forall|k: int| 0 <= k < i ==> is_digit(#[trigger] t@[k]) || t@[k] == 46,
            forall|k: int, m: int| 0 <= k < m < i && #[trigger] t@[k] == 46 ==> #[trigger] t@[m] != 46,
        decreases t@.len() - i,
    {
        let b = t[i];
        let ghost pre = t@.subrange(0, i as int);
        proof {
            assert(t@.subrange(0, i + 1).drop_last() =~= pre);
            assert(t@.subrange(0, i + 1).last() == b);
        }
        if b == 46 {
            if seen_point {
                proof {
                    let k = choose|k: int| 0 <= k < pre.len() && #[trigger] pre[k] == 46;
                    assert(t@[k] == 46);
                }
                return None;
            }
            proof {
                assert forall|k: int| 0 <= k < i implies #[trigger] t@[k] != 46 by {
                    if t@[k] == 46 {
                        assert(pre[k] == 46);
                    }
                }
            }
            seen_point = true;
            proof {
                assert(t@.subrange(0, i + 1).contains(46)) by {
                    assert(t@.subrange(0, i + 1)[i as int] == 46);
                }
            }
        } else if 48 <= b && b <= 57 {
            proof {
                if is_literal(t@) {
                    lemma_prefix_monotone(t@, i + 1, t@.len() as int);
                }
                assert(digits_value(t@.subrange(0, i + 1)) == mantissa * 10 + (b - 48));
            }
            if mantissa > 1844674407370955160 {
                proof {
                    if is_literal(t@) {
                        assert(t@.subrange(0, t@.len() as int) =~= t@);
                    }
                }
                return None;
            }
            let m10 = mantissa * 10;
            if m10 > u64::MAX - (b - 48) as u64 {
                proof {
                    assert(digits_value(t@.subrange(0, i + 1)) > i64::MAX);
                    if is_literal(t@) {
                        assert(t@.subrange(0, t@.len() as int) =~= t@);
                    }
                }
                return None;
            }
            mantissa = m10 + (b - 48) as u64;
            if seen_point {
                proof {
                    assert(fraction_digits(t@.subrange(0, i + 1)) == fraction_digits(pre) + 1);
                }
                if scale > 1844674407370955160 {
                    proof {
                        let k = fraction_digits(pre);
                        assert(pow10(k + 1) == 10 * pow10(k));
                        assert(pow10(fraction_digits(t@.subrange(0, i + 1))) > i64::MAX);
                        if is_literal(t@) {
                            assert(t@.subrange(0, t@.len() as int) =~= t@);
                        }
                    }
                    return None;
                }
                scale = scale * 10;
            }
            seen_digit = true;
            proof {
                if !pre.contains(46) {
                    assert(!t@.subrange(0, i + 1).contains(46)) by {
                        if t@.subrange(0, i + 1).contains(46) {
                            let k = choose|k: int|
                                0 <= k < i + 1 && #[trigger] t@.subrange(0, i + 1)[k] == 46;
                            assert(pre[k] == 46);
                        }
                    }
                }
            }
        } else {
            return None;
        }
        i = i + 1;
    }
    proof {
        assert(t@.subrange(0, t@.len() as int) =~= t@);
    }
    proof {
        if t@.len() == 1 && is_digit(t@[0]) {
            assert(t@.drop_last() =~= Seq::<u8>::empty());
            reveal_with_fuel(digits_value, 2);
            reveal_with_fuel(fraction_digits, 2);
            assert(!Seq::<u8>::empty().contains(46));
            assert(digits_value(t@) == t@[0] - 48);
            assert(fraction_digits(t@) == 0);
            assert(scale == 1);
            let d = (t@[0] - 48) as int;
            crate::number::lemma_gcd_one(crate::number::abs_int(d));
            vstd::arithmetic::div_mod::lemma_div_basics(d);
            vstd::arithmetic::div_mod::lemma_div_basics(1);
            assert(crate::number::reduce(d, 1) == crate::number::Ratio { n: d, d: 1 });
        }
    }
    if !seen_digit {
        return None;
    }
    if mantissa > 0x7fff_ffff_ffff_ffff || scale > 0x7fff_ffff_ffff_ffff {
        return None;
    }
    proof {
        lemma_reduce_fits(mantissa as int, scale as int);
    }
    Number::from_parts(mantissa as i128, scale as i128)
}

fn word(t: &Vec<u8>, w: Vec<u8>) -> (r: bool)
    ensures
        r == (t@ == w@),
{
    same_bytes(t, &w)
}

/// Relies on `format!` and `String::from_utf8_lossy`: the message names
/// the identifier.
#[verifier::external_body]
fn unknown_identifier(name: &Vec<u8>) -> String {
    format!("Function identifier '{}' not recognized", String::from_utf8_lossy(name))
}

/// The bytes with ASCII letters in lower case.
pub fn lower_bytes(t: &Vec<u8>) -> (r: Vec<u8>)
    ensures
        r@ == lowered(t@),
{
    let mut out: Vec<u8> = Vec::new();
    let mut i: usize = 0;
    while i < t.len()
        invariant
            i <= t@.len(),
            out@ == lowered(t@).take(i as int),
        decreases t@.len() - i,
    {
        let b = t[i];
        let l = if 65 <= b && b <= 90 {
            b + 32
        } else {
            b
        };
        out.push(l);
        proof {
            assert(out@ =~= lowered(t@).take(i + 1));
        }
        i = i + 1;
    }
    proof {
        assert(lowered(t@).take(t@.len() as int) =~= lowered(t@));
    }
    out
}

/// The item of a one-byte token that is `x`, `e`, an operator or `!`.
pub open spec fn single_char_item(c: u8) -> Option<ElemRef> {
    if c == 120 {
        Some(ElemRef::Function(Elementary::X))
    } else if c == 101 {
        Some(ElemRef::Function(Elementary::E))
    } else if c == 94 {
        Some(ElemRef::Pow)
    } else if c == 42 {
        Some(ElemRef::Mul)
    } else if c == 47 {
        Some(ElemRef::Div)
    } else if c == 43 {
        Some(ElemRef::Add)
    } else if c == 45 {
        Some(ElemRef::Sub)
    } else if c == 33 {
        Some(ElemRef::Factorial)
    } else {
        None
    }
}

/// The node that a call of a known function makes of its argument: `sin`
/// a sine and so on, `ln` a logarithm to base e, `sqrt` a power one half,
/// and `d` the unsimplified derivative.
pub open spec fn call_node(n: Seq<u8>, a: Elementary) -> Elementary {
    if n == seq![115u8, 105u8, 110u8] {
        Elementary::Sin(rc(a))
    } else if n == seq![99u8, 111u8, 115u8] {
        Elementary::Cos(rc(a))
    } else if n == seq![116u8, 97u8, 110u8] {
        Elementary::Tan(rc(a))
    } else if n == seq![115u8, 101u8, 99u8] {
        Elementary::Sec(rc(a))
    } else if n == seq![99u8, 115u8, 99u8] {
        Elementary::Csc(rc(a))
    } else if n == seq![99u8, 111u8, 116u8] {
        Elementary::Cot(rc(a))
    } else if n == seq![97u8, 115u8, 105u8, 110u8] {
        Elementary::Asin(rc(a))
    } else if n == seq![97u8, 99u8, 111u8, 115u8] {
        Elementary::Acos(rc(a))
    } else if n == seq![97u8, 116u8, 97u8, 110u8] {
        Elementary::Atan(rc(a))
    } else if n == seq![115u8, 105u8, 110u8, 104u8] {
        Elementary::Sinh(rc(a))
    } else if n == seq![99u8, 111u8, 115u8, 104u8] {
        Elementary::Cosh(rc(a))
    } else if n == seq![116u8, 97u8, 110u8, 104u8] {
        Elementary::Tanh(rc(a))
    } else if n == seq![108u8, 110u8] {
        Elementary::Log(rc(Elementary::E), rc(a))
    } else if n == seq![97u8, 98u8, 115u8] {
        Elementary::Abs(rc(a))
    } else if n == seq![115u8, 113u8, 114u8, 116u8] {
        Elementary::Pow(rc(a), rc(chalf()))
    } else {
        derivative_tree(a)
    }
}

/// The item of a lower-case token: a group in parentheses is the parse of
/// its inside; `x`, `e`, the operators and `!` stand for themselves; a
/// literal is its exact value; `pi` is pi; `name(arg)` with a known name is
/// that function of the parse of `arg`.  Anything else is no item.
pub open spec fn item_spec(t: Seq<u8>) -> Option<ElemRef>
    decreases t.len(), 0nat, 0nat,
{
    if t.len() == 0 {
        None
    } else if t[0] == 40 {
        if t.len() < 2 || t[t.len() - 1] != 41 {
            None
        } else {
            match parsed(t.subrange(1, t.len() - 1)) {
                Some(e) => Some(ElemRef::Function(e)),
                None => None,
            }
        }
    } else if t.len() == 1 && single_char_item(t[0]) is Some {
        single_char_item(t[0])
    } else if is_literal(t) && digits_value(t) <= i64::MAX && pow10(fraction_digits(t)) <= i64::MAX {
        Some(
            ElemRef::Function(
                Elementary::Con(
                    crate::polynomial::number_of(
                        crate::number::reduce(digits_value(t), pow10(fraction_digits(t))),
                    ),
                ),
            ),
        )
    } else if t == seq![112u8, 105u8] || t == seq![0xcfu8, 0x80u8] {
        Some(ElemRef::Function(Elementary::Pi))
    } else if !t.contains(40) {
        None
    } else {
        let name = head_before_paren(t);
        if name.len() >= t.len() {
            None
        } else {
            let rest = t.subrange(name.len() as int, t.len() as int);
            if rest.len() < 2 || rest[0] != 40 || rest[rest.len() - 1] != 41 {
                None
            } else {
                match parsed(rest.subrange(1, rest.len() - 1)) {
                    Some(a) => if known_name(name) {
                        Some(ElemRef::Function(call_node(name, a)))
                    } else {
                        None
                    },
                    None => None,
                }
            }
        }
    }
}

/// The items of the tokens from the `k`th on, after `acc`.
pub open spec fn items_acc(
    s: Seq<u8>,
    spans: Seq<(usize, usize)>,
    k: nat,
    acc: Seq<ElemRef>,
) -> Option<Seq<ElemRef>>
    decreases s.len(), 1nat, spans.len() - k,
{
    if k >= spans.len() {
        Some(acc)
    } else {
        let a = spans[k as int].0 as int;
        let b = spans[k as int].1 as int;
        if !(0 <= a <= b <= s.len()) {
            None
        } else {
            match item_spec(lowered(s.subrange(a, b))) {
                Some(it) => items_acc(s, spans, k + 1, acc.push(it)),
                None => None,
            }
        }
    }
}

/// The expression that a reduction ends with, if it ends with one.
pub open spec fn single_expression(o: Option<Seq<ElemRef>>) -> Option<Elementary> {
    match o {
        Some(fin) => if fin.len() == 1 && fin[0] is Function {
            Some(fin[0]->Function_0)
        } else {
            None
        },
        None => None,
    }
}

/// The parse of a normalised text: its tokens as items, reduced to a
/// single expression.
pub open spec fn parsed(s: Seq<u8>) -> Option<Elementary>
    decreases s.len(), 2nat, 0nat,
{
    let spans = tokens_of(s);
    if spans.len() == 0 {
        None
    } else {
        match items_acc(s, spans, 0, Seq::empty()) {
            None => None,
            Some(items) => single_expression(reduce_items(items, 0)),
        }
    }
}

/// The expression that an operator makes of its two operands.
pub open spec fn combined(op: ElemRef, a: Elementary, b: Elementary) -> Elementary {
    match op {
        ElemRef::Mul => Elementary::Mul(rc(a), rc(b)),
        ElemRef::Div => Elementary::Div(rc(a), rc(b)),
        ElemRef::Add => Elementary::Add(rc(a), rc(b)),
        ElemRef::Pow => Elementary::Pow(rc(a), rc(b)),
        _ => Elementary::Sub(rc(a), rc(b)),
    }
}

/// The pass over the powers from the right, the `i` leftmost items still
/// to look at.
pub open spec fn pow_from(items: Seq<ElemRef>, i: nat) -> Option<Seq<ElemRef>>
    decreases i,
{
    if i == 0 {
        Some(items)
    } else {
        let j = (i - 1) as int;
        if j < items.len() && kind_match(items[j], ElemRef::Pow) {
            if j == 0 || j + 1 >= items.len() {
                None
            } else if !(items[j + 1] is Function) {
                None
            } else {
                let e = items[j + 1]->Function_0;
                let rest = items.remove(j + 1).remove(j);
                if !(rest[j - 1] is Function) {
                    None
                } else {
                    let b = rest[j - 1]->Function_0;
                    pow_from(
                        rest.remove(j - 1).insert(j - 1, ElemRef::Function(combined(ElemRef::Pow, b, e))),
                        (i - 1) as nat,
                    )
                }
            }
        } else {
            pow_from(items, (i - 1) as nat)
        }
    }
}

/// The left-to-right pass over one operator, from position `i` on, the
/// positions bounded by the list's length `n0` at the start: each
/// occurrence takes its neighbours; a factorial takes the item before it;
/// a leading minus negates the item after it; a missing operand fails.
pub open spec fn op_from(items: Seq<ElemRef>, op: ElemRef, i: nat, n0: nat) -> Option<
    Seq<ElemRef>,
>
    decreases n0 - i,
{
    if i >= n0 {
        Some(items)
    } else if i < items.len() && kind_match(items[i as int], op) {
        if op is Factorial {
            if i == 0 {
                None
            } else {
                let rest = items.remove(i as int);
                if !(rest[i - 1] is Function) {
                    None
                } else {
                    op_from(
                        rest.remove(i - 1).insert(
                            i - 1,
                            ElemRef::Function(Elementary::Factorial(rc(rest[i - 1]->Function_0))),
                        ),
                        op,
                        i + 1,
                        n0,
                    )
                }
            }
        } else if i + 1 >= items.len() || !(items[i as int + 1] is Function) {
            None
        } else {
            let b = items[i as int + 1]->Function_0;
            let rest = items.remove(i as int + 1).remove(i as int);
            if i == 0 {
                if op is Sub {
                    op_from(
                        rest.insert(0, ElemRef::Function(Elementary::Mul(rc(b), rc(cint(-1))))),
                        op,
                        i + 1,
                        n0,
                    )
                } else {
                    None
                }
            } else if !(rest[i - 1] is Function) {
                None
            } else {
                op_from(
                    rest.remove(i - 1).insert(
                        i - 1,
                        ElemRef::Function(combined(op, rest[i - 1]->Function_0, b)),
                    ),
                    op,
                    i + 1,
                    n0,
                )
            }
        }
    } else {
        op_from(items, op, i + 1, n0)
    }
}

/// The pass joining adjacent expressions into products, from position `i`
/// on.
pub open spec fn implied_from(items: Seq<ElemRef>, i: nat) -> Seq<ElemRef>
    decreases items.len() - i,
{
    if items.len() == 0 || i + 1 >= items.len() {
        items
    } else if items[i as int] is Function && items[i as int + 1] is Function {
        implied_from(
            items.remove(i as int + 1).remove(i as int).insert(
                i as int,
                ElemRef::Function(
                    Elementary::Mul(rc(items[i as int]->Function_0), rc(items[i as int + 1]->Function_0)),
                ),
            ),
            i + 1,
        )
    } else {
        implied_from(items, i + 1)
    }
}

/// One round of the reduction by the fixed priorities: powers (from the
/// right) if there are any, else factorials, else products, else adjacent
/// expressions joined as products followed by quotients, sums or
/// differences.  It fails when the pass fails.
pub open spec fn round(items: Seq<ElemRef>) -> Option<Seq<ElemRef>> {
    if has_kind(items, ElemRef::Pow) {
        pow_from(items, items.len())
    } else if has_kind(items, ElemRef::Factorial) {
        op_from(items, ElemRef::Factorial, 0, items.len())
    } else if has_kind(items, ElemRef::Mul) {
        op_from(items, ElemRef::Mul, 0, items.len())
    } else {
        let im = implied_from(items, 0);
        if has_kind(im, ElemRef::Div) {
            op_from(im, ElemRef::Div, 0, im.len())
        } else if has_kind(im, ElemRef::Add) {
            op_from(im, ElemRef::Add, 0, im.len())
        } else if has_kind(im, ElemRef::Sub) {
            op_from(im, ElemRef::Sub, 0, im.len())
        } else {
            Some(im)
        }
    }
}

/// Rounds until one item is left; more than `ITERATION_LIMIT` rounds fail.
pub open spec fn reduce_items(items: Seq<ElemRef>, iteration: nat) -> Option<Seq<ElemRef>>
    decreases ITERATION_LIMIT - iteration,
{
    if items.len() == 1 {
        Some(items)
    } else if iteration >= ITERATION_LIMIT {
        None
    } else {
        match round(items) {
            Some(n) => reduce_items(n, iteration + 1),
            None => None,
        }
    }
}

/// The known function of that name applied to `a`, if the name is known.
/// Whether `t` is the first `len` of the four given bytes.
fn bytes_are(t: &Vec<u8>, b0: u8, b1: u8, b2: u8, b3: u8, len: usize) -> (r: bool)
    requires
        len <= 4,
    ensures
        r == (t@ == seq![b0, b1, b2, b3].take(len as int)),
{
    let ghost w = seq![b0, b1, b2, b3].take(len as int);
    if t.len() != len {
        return false;
    }
    let r = (len < 1 || t[0] == b0) && (len < 2 || t[1] == b1) && (len < 3 || t[2] == b2) && (
    len < 4 || t[3] == b3);
    proof {
        if r {
            assert(t@ =~= w);
        } else {
            if t@ == w {
                assert(t@[0] == w[0] || len < 1);
            }
        }
    }
    r
}

fn call_of(name: &Vec<u8>, a: std::sync::Arc<Elementary>) -> (r: Option<Elementary>)
    requires
        a.wf(),
    ensures
        r is Some ==> known_name(name@) && r->0 == call_node(name@, *a) && r->0.wf(),
        r is None ==> !known_name(name@),
{
    proof {
        assert(Elementary::E.wf());
        assert(seq![115u8, 105u8, 110u8, 0u8].take(3) =~= seq![115u8, 105u8, 110u8]);
        assert(seq![99u8, 111u8, 115u8, 0u8].take(3) =~= seq![99u8, 111u8, 115u8]);
        assert(seq![116u8, 97u8, 110u8, 0u8].take(3) =~= seq![116u8, 97u8, 110u8]);
        assert(seq![115u8, 101u8, 99u8, 0u8].take(3) =~= seq![115u8, 101u8, 99u8]);
        assert(seq![99u8, 115u8, 99u8, 0u8].take(3) =~= seq![99u8, 115u8, 99u8]);
        assert(seq![99u8, 111u8, 116u8, 0u8].take(3) =~= seq![99u8, 111u8, 116u8]);
        assert(seq![97u8, 115u8, 105u8, 110u8].take(4) =~= seq![97u8, 115u8, 105u8, 110u8]);
        assert(seq![97u8, 99u8, 111u8, 115u8].take(4) =~= seq![97u8, 99u8, 111u8, 115u8]);
        assert(seq![97u8, 116u8, 97u8, 110u8].take(4) =~= seq![97u8, 116u8, 97u8, 110u8]);
        assert(seq![115u8, 105u8, 110u8, 104u8].take(4) =~= seq![115u8, 105u8, 110u8, 104u8]);
        assert(seq![99u8, 111u8, 115u8, 104u8].take(4) =~= seq![99u8, 111u8, 115u8, 104u8]);
        assert(seq![116u8, 97u8, 110u8, 104u8].take(4) =~= seq![116u8, 97u8, 110u8, 104u8]);
        assert(seq![108u8, 110u8, 0u8, 0u8].take(2) =~= seq![108u8, 110u8]);
        assert(seq![97u8, 98u8, 115u8, 0u8].take(3) =~= seq![97u8, 98u8, 115u8]);
        assert(seq![115u8, 113u8, 114u8, 116u8].take(4) =~= seq![115u8, 113u8, 114u8, 116u8]);
        assert(seq![100u8, 0u8, 0u8, 0u8].take(1) =~= seq![100u8]);
    }
    let f = if bytes_are(name, 115u8, 105u8, 110u8, 0u8, 3) {
        Elementary::Sin(a)
    } else if bytes_are(name, 99u8, 111u8, 115u8, 0u8, 3) {
        Elementary::Cos(a)
    } else if bytes_are(name, 116u8, 97u8, 110u8, 0u8, 3) {
        Elementary::Tan(a)
    } else if bytes_are(name, 115u8, 101u8, 99u8, 0u8, 3) {
        Elementary::Sec(a)
    } else if bytes_are(name, 99u8, 115u8, 99u8, 0u8, 3) {
        Elementary::Csc(a)
    } else if bytes_are(name, 99u8, 111u8, 116u8, 0u8, 3) {
        Elementary::Cot(a)
    } else if bytes_are(name, 97u8, 115u8, 105u8, 110u8, 4) {
        Elementary::Asin(a)
    } else if bytes_are(name, 97u8, 99u8, 111u8, 115u8, 4) {
        Elementary::Acos(a)
    } else if bytes_are(name, 97u8, 116u8, 97u8, 110u8, 4) {
        Elementary::Atan(a)
    } else if bytes_are(name, 115u8, 105u8, 110u8, 104u8, 4) {
        Elementary::Sinh(a)
    } else if bytes_are(name, 99u8, 111u8, 115u8, 104u8, 4) {
        Elementary::Cosh(a)
    } else if bytes_are(name, 116u8, 97u8, 110u8, 104u8, 4) {
        Elementary::Tanh(a)
    } else if bytes_are(name, 108u8, 110u8, 0u8, 0u8, 2) {
        Elementary::Log(node(Elementary::E), a)
    } else if bytes_are(name, 97u8, 98u8, 115u8, 0u8, 3) {
        Elementary::Abs(a)
    } else if bytes_are(name, 115u8, 113u8, 114u8, 116u8, 4) {
        Elementary::Pow(a, node(Elementary::half()))
    } else if bytes_are(name, 100u8, 0u8, 0u8, 0u8, 1) {
        proof {
            lemma_derivative_wf(crate::expr::inner(a));
        }
        a.differentiate()
    } else {
        return None;
    };
    Some(f)
}

/// Turns one token, in lower case, into an operator or an expression: a
/// group in parentheses or the argument of a named function is parsed in
/// turn.
#[verifier::rlimit(100)]
pub fn parse_function(text: &Vec<u8>) -> (r: Result<ElemRef, Error>)
    ensures
        r matches Ok(item) ==> item_wf(item),
        match r {
            Ok(item) => item_spec(lowered(text@)) == Some(item),
            Err(e) => item_spec(lowered(text@)) is None && e is ParseError,
        },
    decreases text@.len(), 0nat,
{
    let t = lower_bytes(text);
    let n = t.len();
    if n == 0 {
        return Err(Error::ParseError("empty token".to_owned()));
    }
    if t[0] == 40 {
        if n < 2 || t[n - 1] != 41 {
            return Err(Error::ParseError("unbalanced parentheses".to_owned()));
        }
        let content = copy_range(&t, 1, n - 1);
        let e = to_elementary(&content)?;
        return Ok(ElemRef::Function(e));
    }
    if n == 1 {
        let c = t[0];
        if c == 120 {
            return Ok(ElemRef::Function(Elementary::X));
        } else if c == 101 {
            return Ok(ElemRef::Function(Elementary::E));
        } else if c == 94 {
            return Ok(ElemRef::Pow);
        } else if c == 42 {
            return Ok(ElemRef::Mul);
        } else if c == 47 {
            return Ok(ElemRef::Div);
        } else if c == 43 {
            return Ok(ElemRef::Add);
        } else if c == 45 {
            return Ok(ElemRef::Sub);
        } else if c == 33 {
            return Ok(ElemRef::Factorial);
        }
    }
    if let Some(v) = parse_literal(&t) {
        proof {
            assert(v == crate::polynomial::number_of(v.ratio()));
        }
        return Ok(ElemRef::Function(Elementary::Con(v)));
    }
    if word(&t, vec![112u8, 105u8]) || word(&t, vec![0xcfu8, 0x80u8]) {
        return Ok(ElemRef::Function(Elementary::Pi));
    }
    let (name, rest) = split_first(&t, 40);
    proof {
        if t@.contains(40) {
            lemma_head_unique(t@, name@, rest@);
            assert(rest@ =~= t@.subrange(name@.len() as int, t@.len() as int));
        }
    }
    let m = rest.len();
    if m < 2 || rest[0] != 40 || rest[m - 1] != 41 {
        let identifier = if name.len() > 0 {
            name
        } else {
            rest
        };
        return Err(Error::ParseError(unknown_identifier(&identifier)));
    }
    let content = copy_range(&rest, 1, m - 1);
    proof {
        assert(content@.len() < text@.len());
    }
    let arg = to_elementary(&content)?;
    match call_of(&name, node(arg)) {
        Some(f) => Ok(ElemRef::Function(f)),
        None => Err(Error::ParseError(unknown_identifier(&name))),
    }
}

pub open spec fn kind_match(item: ElemRef, kind: ElemRef) -> bool {
    !(kind is Function) && match (item, kind) {
        (ElemRef::Pow, ElemRef::Pow) => true,
        (ElemRef::Mul, ElemRef::Mul) => true,
        (ElemRef::Div, ElemRef::Div) => true,
        (ElemRef::Add, ElemRef::Add) => true,
        (ElemRef::Sub, ElemRef::Sub) => true,
        (ElemRef::Factorial, ElemRef::Factorial) => true,
        _ => false,
    }
}

fn is_kind(item: &ElemRef, kind: &ElemRef) -> (r: bool)
    ensures
        r == (!(*kind is Function) && match (*item, *kind) {
            (ElemRef::Pow, ElemRef::Pow) => true,
            (ElemRef::Mul, ElemRef::Mul) => true,
            (ElemRef::Div, ElemRef::Div) => true,
            (ElemRef::Add, ElemRef::Add) => true,
            (ElemRef::Sub, ElemRef::Sub) => true,
            (ElemRef::Factorial, ElemRef::Factorial) => true,
            _ => false,
        }),
{
    match (item, kind) {
        (ElemRef::Pow, ElemRef::Pow) => true,
        (ElemRef::Mul, ElemRef::Mul) => true,
        (ElemRef::Div, ElemRef::Div) => true,
        (ElemRef::Add, ElemRef::Add) => true,
        (ElemRef::Sub, ElemRef::Sub) => true,
        (ElemRef::Factorial, ElemRef::Factorial) => true,
        _ => false,
    }
}

/// Some item is the given operator.
pub open spec fn has_kind(items: Seq<ElemRef>, kind: ElemRef) -> bool {
    exists|k: int| 0 <= k < items.len() && kind_match(#[trigger] items[k], kind)
}

fn contains_kind(items: &Vec<ElemRef>, kind: &ElemRef) -> (r: bool)
    ensures
        r == has_kind(items@, *kind),
{
    let mut i: usize = 0;
    while i < items.len()
        invariant
            i <= items@.len(),
            forall|k: int| 0 <= k < i ==> !kind_match(#[trigger] items@[k], *kind),
        decreases items@.len() - i,
    {
        if is_kind(&items[i], kind) {
            return true;
        }
        i = i + 1;
    }
    false
}

/// Takes the expression out of an item, or fails on an operator.
fn take_function(items: &mut Vec<ElemRef>, i: usize) -> (r: Result<Elementary, Error>)
    requires
        i < old(items)@.len(),
        items_wf(old(items)@),
    ensures
        final(items)@ == old(items)@.remove(i as int),
        items_wf(final(items)@),
        r matches Ok(e) ==> e.wf(),
        r matches Err(e) ==> e is ParseError,
        r is Ok <==> old(items)@[i as int] is Function,
        old(items)@[i as int] is Function ==> r == Ok::<Elementary, Error>(
            old(items)@[i as int]->Function_0,
        ),
{
    let item = items.remove(i);
    proof {
        assert(item_wf(old(items)@[i as int]));
        assert forall|k: int| 0 <= k < items@.len() implies item_wf(#[trigger] items@[k]) by {
            if k < i {
                assert(items@[k] == old(items)@[k]);
            } else {
                assert(items@[k] == old(items)@[k + 1]);
            }
        }
    }
    match item {
        ElemRef::Function(e) => Ok(e),
        _ => Err(Error::ParseError("an operator is missing an operand".to_owned())),
    }
}

/// Removes an item.
fn drop_item(items: &mut Vec<ElemRef>, i: usize)
    requires
        i < old(items)@.len(),
        items_wf(old(items)@),
    ensures
        final(items)@ == old(items)@.remove(i as int),
        items_wf(final(items)@),
{
    let _ = items.remove(i);
    proof {
        assert forall|k: int| 0 <= k < items@.len() implies item_wf(#[trigger] items@[k]) by {
            if k < i {
                assert(items@[k] == old(items)@[k]);
            } else {
                assert(items@[k] == old(items)@[k + 1]);
            }
        }
    }
}

proof fn lemma_insert_wf(s: Seq<ElemRef>, i: int, t: ElemRef)
    requires
        0 <= i <= s.len(),
        items_wf(s),
        item_wf(t),
    ensures
        items_wf(s.insert(i, t)),
{
    assert forall|k: int| 0 <= k < s.insert(i, t).len() implies item_wf(
        #[trigger] s.insert(i, t)[k],
    ) by {
        if k < i {
            assert(s.insert(i, t)[k] == s[k]);
        } else if k > i {
            assert(s.insert(i, t)[k] == s[k - 1]);
        }
    }
}

/// Applies every occurrence of one operator in a single left-to-right pass;
/// a leading minus negates its operand.
pub fn iterate_operation(functions: &mut Vec<ElemRef>, operation: &ElemRef) -> (r: Result<
    (),
    Error,
>)
    requires
        items_wf(old(functions)@),
    ensures
        items_wf(final(functions)@),
        match r {
            Ok(_) => op_from(old(functions)@, *operation, 0, old(functions)@.len()) == Some(
                final(functions)@,
            ),
            Err(e) => op_from(old(functions)@, *operation, 0, old(functions)@.len()) is None
                && e is ParseError,
        },
        *operation is Factorial && old(functions)@.len() > 0 && old(functions)@[0] is Factorial
            ==> r is Err && final(functions)@ == old(functions)@,
{
    let n0 = functions.len();
    let mut i: usize = 0;
    while i < n0
        invariant
            items_wf(functions@),
            n0 == old(functions)@.len(),
            op_from(old(functions)@, *operation, 0, n0 as nat) == op_from(
                functions@,
                *operation,
                i as nat,
                n0 as nat,
            ),
            i == 0 ==> functions@ == old(functions)@,
            *operation is Factorial && old(functions)@.len() > 0 && old(functions)@[0] is Factorial
                ==> i == 0,
        decreases n0 - i,
    {
        let ghost before = functions@;
        if i < functions.len() && is_kind(&functions[i], operation) {
            match operation {
                ElemRef::Factorial => {
                    if i == 0 {
                        return Err(
                            Error::ParseError(
                                "the factorial needs an expression before it".to_owned(),
                            ),
                        );
                    }
                    drop_item(functions, i);
                    let a = take_function(functions, i - 1)?;
                    let f = ElemRef::Function(Elementary::Factorial(node(a)));
                    proof {
                        lemma_insert_wf(functions@, i - 1, f);
                    }
                    functions.insert(i - 1, f);
                },
                _ => {
                    if i + 1 >= functions.len() {
                        return Err(
                            Error::ParseError("an operator is missing an operand".to_owned()),
                        );
                    }
                    let b = take_function(functions, i + 1)?;
                    drop_item(functions, i);
                    if i == 0 {
                        match operation {
                            ElemRef::Sub => {
                                let f = ElemRef::Function(
                                    Elementary::Mul(node(b), node(Elementary::integer(-1))),
                                );
                                functions.insert(0, f);
                            },
                            _ => {
                                return Err(
                                    Error::ParseError(
                                        "an operator is missing an operand".to_owned(),
                                    ),
                                );
                            },
                        }
                    } else {
                        let a = take_function(functions, i - 1)?;
                        let c = match operation {
                            ElemRef::Mul => Elementary::Mul(node(a), node(b)),
                            ElemRef::Div => Elementary::Div(node(a), node(b)),
                            ElemRef::Add => Elementary::Add(node(a), node(b)),
                            ElemRef::Pow => Elementary::Pow(node(a), node(b)),
                            _ => Elementary::Sub(node(a), node(b)),
                        };
                        functions.insert(i - 1, ElemRef::Function(c));
                    }
                },
            }
        }
        i = i + 1;
    }
    Ok(())
}

/// Parses normalised text: tokens are turned into items, which are then
/// reduced by precedence (powers from the right, factorials, products,
/// adjacent expressions as products, quotients, sums, differences) until one
/// expression is left.
#[verifier::rlimit(100)]
pub fn to_elementary(s: &Vec<u8>) -> (r: Result<Elementary, Error>)
    ensures
        match r {
            Ok(e) => parsed(s@) == Some(e) && e.wf(),
            Err(er) => parsed(s@) is None && er is ParseError,
        },
    decreases s@.len(), 1nat,
{
    let spans = split_function(s);
    if spans.len() == 0 {
        return Err(Error::ParseError("empty expression".to_owned()));
    }
    let mut functions: Vec<ElemRef> = Vec::new();
    let mut k: usize = 0;
    while k < spans.len()
        invariant
            k <= spans@.len(),
            spans@ == tokens_of(s@),
            partitions(spans@, s@.len() as int),
            items_wf(functions@),
            items_acc(s@, spans@, 0, Seq::empty()) == items_acc(s@, spans@, k as nat, functions@),
        decreases spans@.len() - k,
    {
        let (a, b) = spans[k];
        proof {
            lemma_span_bounds(spans@, s@.len() as int, k as int);
        }
        let token = copy_range(s, a, b);
        let item = parse_function(&token)?;
        proof {
            lemma_insert_wf(functions@, functions@.len() as int, item);
            assert(functions@.insert(functions@.len() as int, item) =~= functions@.push(item));
        }
        functions.push(item);
        k = k + 1;
    }
    proof {
        assert(items_acc(s@, spans@, spans@.len() as nat, functions@) == Some(functions@));
    }
    let ghost start = functions@;
    assert(parsed(s@) == single_expression(reduce_items(start, 0)));
    let mut iteration: u32 = 0;
    while functions.len() != 1
        invariant
            items_wf(functions@),
            iteration <= ITERATION_LIMIT,
            reduce_items(start, 0) == reduce_items(functions@, iteration as nat),
            parsed(s@) == single_expression(reduce_items(start, 0)),
        decreases ITERATION_LIMIT - iteration,
    {
        let ghost before = functions@;
        let ghost it0 = iteration as nat;
        if iteration >= ITERATION_LIMIT {
            assert(reduce_items(before, it0) is None);
            return Err(Error::ParseError("iteration limit reached while parsing".to_owned()));
        }
        iteration = iteration + 1;
        let step = reduce_round(&mut functions);
        proof {
            assert(reduce_items(before, it0) == match round(before) {
                Some(n) => reduce_items(n, it0 + 1),
                None => None,
            });
        }
        if let Err(e) = step {
            return Err(e);
        }
    }
    take_function(&mut functions, 0)
}

/// One round of the reduction (see `round`).
fn reduce_round(functions: &mut Vec<ElemRef>) -> (r: Result<(), Error>)
    requires
        items_wf(old(functions)@),
    ensures
        items_wf(final(functions)@),
        match r {
            Ok(_) => round(old(functions)@) == Some(final(functions)@),
            Err(e) => round(old(functions)@) is None && e is ParseError,
        },
{
    if contains_kind(functions, &ElemRef::Pow) {
        return reduce_powers(functions);
    }
    if contains_kind(functions, &ElemRef::Factorial) {
        return iterate_operation(functions, &ElemRef::Factorial);
    }
    if contains_kind(functions, &ElemRef::Mul) {
        return iterate_operation(functions, &ElemRef::Mul);
    }
    implied_products(functions);
    if contains_kind(functions, &ElemRef::Div) {
        return iterate_operation(functions, &ElemRef::Div);
    }
    if contains_kind(functions, &ElemRef::Add) {
        return iterate_operation(functions, &ElemRef::Add);
    }
    if contains_kind(functions, &ElemRef::Sub) {
        return iterate_operation(functions, &ElemRef::Sub);
    }
    Ok(())
}

proof fn lemma_span_bounds(spans: Seq<(usize, usize)>, n: int, k: int)
    requires
        partitions(spans, n),
        0 <= k < spans.len(),
    ensures
        spans[k].0 < spans[k].1 <= n,
    decreases spans.len() - k,
{
    if k < spans.len() - 1 {
        lemma_span_bounds(spans, n, k + 1);
    }
}

/// One right-to-left pass over the powers.
fn reduce_powers(functions: &mut Vec<ElemRef>) -> (r: Result<(), Error>)
    requires
        items_wf(old(functions)@),
    ensures
        items_wf(final(functions)@),
        match r {
            Ok(_) => pow_from(old(functions)@, old(functions)@.len()) == Some(final(functions)@),
            Err(e) => pow_from(old(functions)@, old(functions)@.len()) is None && e is ParseError,
        },
{
    let mut i: usize = functions.len();
    while i > 0
        invariant
            items_wf(functions@),
            pow_from(old(functions)@, old(functions)@.len()) == pow_from(functions@, i as nat),
        decreases i,
    {
        i = i - 1;
        if i < functions.len() && is_kind(&functions[i], &ElemRef::Pow) {
            if i == 0 || i + 1 >= functions.len() {
                return Err(Error::ParseError("a power is missing an operand".to_owned()));
            }
            let exponent = take_function(functions, i + 1)?;
            drop_item(functions, i);
            let base = take_function(functions, i - 1)?;
            let f = ElemRef::Function(Elementary::Pow(node(base), node(exponent)));
            proof {
                lemma_insert_wf(functions@, i - 1, f);
            }
            functions.insert(i - 1, f);
        }
    }
    Ok(())
}

/// One left-to-right pass joining adjacent expressions into products.
fn implied_products(functions: &mut Vec<ElemRef>)
    requires
        items_wf(old(functions)@),
    ensures
        items_wf(final(functions)@),
        final(functions)@ == implied_from(old(functions)@, 0),
{
    let mut i: usize = 0;
    while functions.len() > 0 && i < functions.len() - 1
        invariant
            items_wf(functions@),
            i <= functions@.len(),
            implied_from(old(functions)@, 0) == implied_from(functions@, i as nat),
        decreases functions@.len() - i,
    {
        let both = match (&functions[i], &functions[i + 1]) {
            (ElemRef::Function(_), ElemRef::Function(_)) => true,
            _ => false,
        };
        assert(both ==> functions@[i as int] is Function && functions@[i + 1] is Function);
        if both {
            let b = take_function(functions, i + 1);
            let a = take_function(functions, i);
            if let (Ok(a), Ok(b)) = (a, b) {
                let f = ElemRef::Function(Elementary::Mul(node(a), node(b)));
                proof {
                    lemma_insert_wf(functions@, i as int, f);
                }
                functions.insert(i, f);
            }
        }
        i = i + 1;
    }
}

/// Parses an expression.  White space is ignored and letters may be in
/// either case.
pub fn parse(text: &str) -> (r: Result<Elementary, Error>)
    ensures
        match r {
            Ok(e) => parsed(normalized(text.spec_bytes())) == Some(e) && e.wf(),
            Err(er) => parsed(normalized(text.spec_bytes())) is None && er is ParseError,
        },
{
    let s = normalize(text);
    to_elementary(&s)
}

} // verus!

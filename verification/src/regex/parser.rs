//! The pattern-text parser: a selector (one character, or a class in
//! brackets) followed by an optional quantifier (`*`, `+`, `?`, or
//! `{min,max}`), repeated.

#![verifier::loop_isolation(false)]

use vstd::prelude::*;

verus! {

use crate::regex::patterns::{
    AnyAmountPattern, AtLeastOnePattern, BoundedAmountPattern, ExactAmountPattern,
    MultiCharSelector, OptionalPattern, PatternKind, PatternModel, SelectorKind,
    SingleCharSelector, TokenSelector,
};
use crate::regex::regex::Regex;
use crate::text::{first_index, lemma_first_index};

/// Malformed pattern text.
#[derive(Clone, Copy, Debug, PartialEq, Eq)]
pub enum RegexParseError {
    /// A character class opened with `[` has no closing `]`.
    UnterminatedClass { at: usize },
    /// A `{min,max}` quantifier is cut short, has no digits, or holds
    /// a count too large to represent.
    BadRepetition { at: usize },
}

/// Whether `c` is an ASCII digit.
pub open spec fn spec_is_digit(c: char) -> bool {
    48 <= c as u32 <= 57
}

/// The number of consecutive digits of `cs` from position `i` on.
pub open spec fn digit_run(cs: Seq<char>, i: int) -> int
    decreases cs.len() - i,
{
    if i < 0 || i >= cs.len() || !spec_is_digit(cs[i]) {
        0
    } else {
        1 + digit_run(cs, i + 1)
    }
}

pub proof fn lemma_digit_run(cs: Seq<char>, i: int)
    requires
        0 <= i <= cs.len(),
    ensures
        0 <= digit_run(cs, i),
        i + digit_run(cs, i) <= cs.len(),
    decreases cs.len() - i,
{
    if i < cs.len() && spec_is_digit(cs[i]) {
        lemma_digit_run(cs, i + 1);
    }
}

/// The value of the digits `cs[i..end]`.
pub open spec fn digits_val(cs: Seq<char>, i: int, end: int) -> nat
    decreases end - i,
{
    if end <= i {
        0
    } else {
        digits_val(cs, i, end - 1) * 10 + (cs[end - 1] as u32 - 48) as nat
    }
}

/// Ten to the `k`.
pub open spec fn pow10(k: nat) -> nat
    decreases k,
{
    if k == 0 {
        1nat
    } else {
        10 * pow10((k - 1) as nat)
    }
}

/// A `{min,max}` number: a non-empty digit run of at most 19 digits
/// whose value fits a `usize`, and where it ends.
pub open spec fn spec_number(cs: Seq<char>, i: int) -> Option<(nat, int)> {
    let d = digit_run(cs, i);
    if d == 0 || d > 19 || digits_val(cs, i, i + d) > usize::MAX as nat {
        None
    } else {
        Some((digits_val(cs, i, i + d), i + d))
    }
}

/// A full `{min,max}` specifier at position `i`: the brace, the two
/// numbers, the comma and the closing brace, with where it ends.
pub open spec fn spec_number_pair(cs: Seq<char>, i: int) -> Option<((nat, nat), int)> {
    if 0 <= i < cs.len() && cs[i] == '{' {
        match spec_number(cs, i + 1) {
            None => None,
            Some((mn, j)) => if j < cs.len() && cs[j] == ',' {
                match spec_number(cs, j + 1) {
                    None => None,
                    Some((mx, k)) => if k < cs.len() && cs[k] == '}' {
                        Some(((mn, mx), k + 1))
                    } else {
                        None
                    },
                }
            } else {
                None
            },
        }
    } else {
        None
    }
}

/// A selector at position `i`: a bracketed class or a single
/// character, its character set, and where it ends.
pub open spec fn spec_selector(cs: Seq<char>, i: int) -> Option<(Set<char>, int)> {
    if i < 0 || i >= cs.len() {
        None
    } else if cs[i] == '[' {
        let j = i + 1 + first_index(cs.skip(i + 1), ']');
        if j >= cs.len() {
            None
        } else {
            Some((cs.subrange(i + 1, j).to_set(), j + 1))
        }
    } else {
        Some((Set::empty().insert(cs[i]), i + 1))
    }
}

/// The quantifier following a selector: `*`, `+`, `?`, `{min,max}`, or
/// none (exactly one), as the element it builds and where it ends.
pub open spec fn spec_amount(cs: Seq<char>, i: int, sel: Set<char>) -> Option<(PatternModel, int)> {
    if i < 0 || i > cs.len() {
        None
    } else if i == cs.len() {
        Some((PatternModel::Exact(sel, 1), i))
    } else if cs[i] == '*' {
        Some((PatternModel::Any(sel), i + 1))
    } else if cs[i] == '+' {
        Some((PatternModel::AtLeastOne(sel), i + 1))
    } else if cs[i] == '?' {
        Some((PatternModel::Optional(sel), i + 1))
    } else if cs[i] == '{' {
        match spec_number_pair(cs, i) {
            None => None,
            Some(((mn, mx), k)) => Some((PatternModel::Bounded(sel, mn, mx), k)),
        }
    } else {
        Some((PatternModel::Exact(sel, 1), i))
    }
}

/// The whole pattern from position `i` on, as element descriptions.
pub open spec fn spec_parse_regex(cs: Seq<char>, i: int) -> Option<Seq<PatternModel>>
    decreases cs.len() - i,
{
    if i < 0 || i >= cs.len() {
        if i == cs.len() {
            Some(Seq::empty())
        } else {
            None
        }
    } else {
        match spec_selector(cs, i) {
            None => None,
            Some((sel, j)) => match spec_amount(cs, j, sel) {
                None => None,
                Some((pm, k)) => {
                    proof {
                        lemma_spec_steps(cs, i);
                    }
                    match spec_parse_regex(cs, k) {
                        None => None,
                        Some(rest) => Some(seq![pm] + rest),
                    }
                },
            },
        }
    }
}

/// A selector and its quantifier advance the position and stay within
/// the text.
pub proof fn lemma_spec_steps(cs: Seq<char>, i: int)
    requires
        0 <= i < cs.len(),
    ensures
        spec_selector(cs, i) is Some ==> {
            let (sel, j) = spec_selector(cs, i).unwrap();
            i < j <= cs.len() && (spec_amount(cs, j, sel) is Some ==> {
                let (pm, k) = spec_amount(cs, j, sel).unwrap();
                i < k <= cs.len()
            })
        },
{
    if spec_selector(cs, i) is Some {
        if cs[i] == '[' {
            lemma_first_index(cs.skip(i + 1), ']');
        }
        let (sel, j) = spec_selector(cs, i).unwrap();
        if spec_amount(cs, j, sel) is Some {
            if j < cs.len() && cs[j] == '{' {
                lemma_digit_run(cs, j + 1);
                if spec_number(cs, j + 1) is Some {
                    let (mn, j2) = spec_number(cs, j + 1).unwrap();
                    lemma_digit_run(cs, j2 + 1);
                }
            }
        }
    }
}

/// The characters of `s`, one by one.
fn chars_of(s: &str) -> (r: Vec<char>)
    ensures
        r@ == s@,
{
    let n = s.unicode_len();
    let mut r: Vec<char> = Vec::new();
    let mut i: usize = 0;
    while i < n
        invariant
            i <= n,
            n == s@.len(),
            r@ =~= s@.take(i as int),
        decreases n - i,
    {
        r.push(s.get_char(i));
        proof {
            assert(r@ =~= s@.take(i + 1));
        }
        i += 1;
    }
    proof {
        assert(s@.take(n as int) =~= s@);
    }
    r
}

/// Step over one expected character; `false` without moving when a
/// different one stands there.
fn consume_char(input: char, expected: char, index: &mut usize) -> (r: bool)
    requires
        *old(index) < usize::MAX,
    ensures
        r == (input == expected),
        r ==> *final (index) == *old(index) + 1,
        !r ==> *final (index) == *old(index),
        *old(index) < usize::MAX || !r,
{
    if input != expected {
        return false;
    }
    *index += 1;
    true
}

/// A selector starting at `*i`: a bracketed class or one character.
fn parse_token_selector(chars: &Vec<char>, i: &mut usize) -> (r: Result<
    SelectorKind,
    RegexParseError,
>)
    requires
        *old(i) < chars@.len(),
        chars@.len() < usize::MAX,
    ensures
        r is Ok ==> spec_selector(chars@, *old(i) as int) == Some(
            (r.unwrap().sel(), *final (i) as int),
        ) && *old(i) < *final (i) <= chars@.len(),
        r is Err ==> spec_selector(chars@, *old(i) as int) is None,
{
    let ghost i0 = *i as int;
    if chars[*i] == '[' {
        let start = *i + 1;
        let mut j = start;
        while j < chars.len() && chars[j] != ']'
            invariant
                start <= j <= chars@.len(),
                start == i0 + 1,
                forall|k: int| i0 + 1 <= k < j ==> chars@[k] != ']',
            decreases chars@.len() - j,
        {
            j += 1;
        }
        proof {
            assert forall|k: int|
                0 <= k < j - (i0 + 1) implies (#[trigger] chars@.skip(i0 + 1)[k]) != ']' by {
                assert(chars@.skip(i0 + 1)[k] == chars@[i0 + 1 + k]);
            }
        }
        if j >= chars.len() {
            proof {
                crate::text::lemma_first_index_unique(
                    chars@.skip(i0 + 1),
                    ']',
                    chars@.len() - (i0 + 1),
                );
            }
            return Err(RegexParseError::UnterminatedClass { at: *i });
        }
        proof {
            assert(chars@.skip(i0 + 1)[j - (i0 + 1)] == chars@[j as int]);
            crate::text::lemma_first_index_unique(chars@.skip(i0 + 1), ']', j - (i0 + 1));
        }
        let mut tokens: Vec<char> = Vec::new();
        let mut k = start;
        while k < j
            invariant
                start <= k <= j <= chars@.len(),
                start == i0 + 1,
                tokens@ =~= chars@.subrange(i0 + 1, k as int),
            decreases j - k,
        {
            tokens.push(chars[k]);
            proof {
                assert(tokens@ =~= chars@.subrange(i0 + 1, k + 1));
            }
            k += 1;
        }
        *i = j + 1;
        let sk = SelectorKind::Multi(MultiCharSelector { tokens });
        proof {
            assert(sk.sel() =~= chars@.subrange(i0 + 1, j as int).to_set());
        }
        Ok(sk)
    } else {
        let c = chars[*i];
        *i += 1;
        let sk = SelectorKind::Single(SingleCharSelector { token: c });
        proof {
            assert(sk.sel() =~= Set::empty().insert(chars@[i0]));
        }
        Ok(sk)
    }
}

/// A whole `{min,max}` specifier starting at `*i`.
fn parse_number_specifier(chars: &Vec<char>, i: &mut usize) -> (r: Result<
    (usize, usize),
    RegexParseError,
>)
    requires
        *old(i) <= chars@.len(),
        chars@.len() < usize::MAX,
    ensures
        r is Ok ==> spec_number_pair(chars@, *old(i) as int) == Some(
            ((r.unwrap().0 as nat, r.unwrap().1 as nat), *final (i) as int),
        ) && *old(i) < *final (i) <= chars@.len(),
        r is Err ==> spec_number_pair(chars@, *old(i) as int) is None,
{
    if *i >= chars.len() || !consume_char(chars[*i], '{', i) {
        return Err(RegexParseError::BadRepetition { at: *i });
    }
    let mn = match parse_number(chars, i) {
        Ok(v) => v,
        Err(e) => {
            return Err(e);
        },
    };
    if *i >= chars.len() || !consume_char(chars[*i], ',', i) {
        return Err(RegexParseError::BadRepetition { at: *i });
    }
    let mx = match parse_number(chars, i) {
        Ok(v) => v,
        Err(e) => {
            return Err(e);
        },
    };
    if *i >= chars.len() || !consume_char(chars[*i], '}', i) {
        return Err(RegexParseError::BadRepetition { at: *i });
    }
    Ok((mn, mx))
}

/// One number: a digit run of at most 19 digits fitting a `usize`.
fn parse_number(chars: &Vec<char>, i: &mut usize) -> (r: Result<usize, RegexParseError>)
    requires
        *old(i) <= chars@.len(),
        chars@.len() < usize::MAX,
    ensures
        r is Ok ==> spec_number(chars@, *old(i) as int) == Some(
            (r.unwrap() as nat, *final (i) as int),
        ) && *old(i) <= *final (i) <= chars@.len(),
        r is Err ==> spec_number(chars@, *old(i) as int) is None,
{
    let ghost i0 = *i as int;
    let n = chars.len();
    let mut val: u64 = 0;
    let mut k: usize = 0;
    while *i < n && is_digit_exec(chars[*i])
        invariant
            i0 + k == *i as int,
            0 <= i0 <= *i as int <= n,
            n == chars@.len(),
            k <= 19,
            forall|x: int| i0 <= x < *i as int ==> spec_is_digit(#[trigger] chars@[x]),
            val as nat == digits_val(chars@, i0, *i as int),
            val < pow10(k as nat),
        decreases n - *i,
    {
        if k == 19 {
            // a twentieth digit: the run is longer than allowed
            proof {
                lemma_digit_run_at_least(chars@, i0, *i as int + 1);
            }
            return Err(RegexParseError::BadRepetition { at: *i });
        }
        let d = (chars[*i] as u32 - 48) as u64;
        proof {
            lemma_pow10_vals();
            assert(pow10(k as nat + 1) == 10 * pow10(k as nat));
            assert(val * 10 + d < pow10(k as nat + 1)) by {
                assert(val * 10 <= (pow10(k as nat) - 1) * 10) by (nonlinear_arith)
                    requires
                        val < pow10(k as nat),
                ;
            }
            assert(pow10(k as nat + 1) <= pow10(19)) by {
                lemma_pow10_le(k as nat + 1, 19);
            }
            assert(val * 10 + d <= u64::MAX);
            assert(digits_val(chars@, i0, *i + 1) == digits_val(chars@, i0, *i as int) * 10 + (
            chars@[*i as int] as u32 - 48));
        }
        val = val * 10 + d;
        *i += 1;
        k += 1;
    }
    proof {
        if *i as int == n {
            assert(digit_run(chars@, *i as int) == 0);
        } else {
            assert(!spec_is_digit(chars@[*i as int]));
            assert(digit_run(chars@, *i as int) == 0);
        }
        lemma_digit_run_exact(chars@, i0, *i as int);
        assert(digit_run(chars@, i0) == k as int);
        lemma_pow10_vals();
        lemma_pow10_le(k as nat, 19);
    }
    if k == 0 {
        return Err(RegexParseError::BadRepetition { at: *i });
    }
    if val > (usize::MAX as u64) {
        return Err(RegexParseError::BadRepetition { at: *i });
    }
    Ok(val as usize)
}

/// Executable counterpart of [`spec_is_digit`].
fn is_digit_exec(c: char) -> (r: bool)
    ensures
        r == spec_is_digit(c),
{
    let u = c as u32;
    48 <= u && u <= 57
}

/// A digit run covering `[i0, j)` is at least `j - i0` long.
proof fn lemma_digit_run_at_least(cs: Seq<char>, i0: int, j: int)
    requires
        0 <= i0 <= j <= cs.len(),
        forall|x: int| i0 <= x < j ==> spec_is_digit(#[trigger] cs[x]),
    ensures
        digit_run(cs, i0) >= j - i0,
    decreases j - i0,
{
    if i0 < j {
        assert(spec_is_digit(cs[i0]));
        lemma_digit_run_at_least(cs, i0 + 1, j);
        assert(digit_run(cs, i0) == 1 + digit_run(cs, i0 + 1));
    } else {
        lemma_digit_run(cs, i0);
    }
}

/// A digit run covering `[i0, j)` and stopped at `j` is exactly
/// `j - i0` long.
proof fn lemma_digit_run_exact(cs: Seq<char>, i0: int, j: int)
    requires
        0 <= i0 <= j <= cs.len(),
        forall|x: int| i0 <= x < j ==> spec_is_digit(#[trigger] cs[x]),
        digit_run(cs, j) == 0,
    ensures
        digit_run(cs, i0) == j - i0,
    decreases j - i0,
{
    if i0 < j {
        assert(spec_is_digit(cs[i0]));
        lemma_digit_run_exact(cs, i0 + 1, j);
        assert(digit_run(cs, i0) == 1 + digit_run(cs, i0 + 1));
    }
}

/// The two powers of ten the digit loop leans on.
proof fn lemma_pow10_vals()
    ensures
        pow10(18) == 1000000000000000000,
        pow10(19) == 10000000000000000000,
{
    reveal_with_fuel(pow10, 21);
}

/// Powers of ten grow with the exponent.
proof fn lemma_pow10_le(a: nat, b: nat)
    requires
        a <= b,
    ensures
        pow10(a) <= pow10(b),
    decreases b,
{
    if a < b {
        lemma_pow10_le(a, (b - 1) as nat);
        assert(pow10(b) == 10 * pow10((b - 1) as nat));
    }
}

/// The quantifier after a selector, as a finished pattern element.
fn parse_amount_specifier(chars: &Vec<char>, i: &mut usize, token_selector: SelectorKind) -> (r:
    Result<PatternKind, RegexParseError>)
    requires
        *old(i) <= chars@.len(),
        chars@.len() < usize::MAX,
    ensures
        r is Ok ==> spec_amount(chars@, *old(i) as int, token_selector.sel()) == Some(
            (r.unwrap().model(), *final (i) as int),
        ) && *old(i) <= *final (i) <= chars@.len(),
        r is Err ==> spec_amount(chars@, *old(i) as int, token_selector.sel()) is None,
{
    let ghost i0 = *i as int;
    let ghost sel = token_selector.sel();
    if *i >= chars.len() {
        let pk = PatternKind::Exact(ExactAmountPattern { token_selector, amount: 1 });
        return Ok(pk);
    }
    let next = chars[*i];
    if next == '*' {
        *i += 1;
        return Ok(PatternKind::Any(AnyAmountPattern { token_selector }));
    }
    if next == '+' {
        *i += 1;
        return Ok(PatternKind::AtLeastOne(AtLeastOnePattern { token_selector }));
    }
    if next == '?' {
        *i += 1;
        return Ok(PatternKind::Optional(OptionalPattern { token_selector }));
    }
    if next == '{' {
        let (mn, mx) = match parse_number_specifier(chars, i) {
            Ok(p) => p,
            Err(e) => {
                return Err(e);
            },
        };
        return Ok(PatternKind::Bounded(BoundedAmountPattern {
            token_selector,
            min_amount: mn,
            max_amount: mx,
        }));
    }
    let pk = PatternKind::Exact(ExactAmountPattern { token_selector, amount: 1 });
    Ok(pk)
}

/// The element descriptions of a pattern vector.
pub open spec fn pattern_models(pats: Seq<PatternKind>) -> Seq<PatternModel> {
    Seq::new(pats.len(), |k: int| pats[k].model())
}

/// The compiled elements of the pattern text, exactly when it is well
/// formed.
pub fn parse_regex(pattern: &str) -> (r: Result<Regex, RegexParseError>)
    requires
        pattern@.len() < usize::MAX,
    ensures
        r is Ok <==> spec_parse_regex(pattern@, 0) is Some,
        r is Ok ==> pattern_models(r.unwrap().patterns@) == spec_parse_regex(
            pattern@,
            0,
        ).unwrap(),
{
    let chars = chars_of(pattern);
    let mut patterns: Vec<PatternKind> = Vec::new();
    let mut i: usize = 0;
    proof {
        assert(chars@ == pattern@);
    }
    while i < chars.len()
        invariant
            i <= chars@.len(),
            chars@ == pattern@,
            chars@.len() < usize::MAX,
            spec_parse_regex(chars@, 0) == (match spec_parse_regex(chars@, i as int) {
                Option::None => Option::<Seq<PatternModel>>::None,
                Option::Some(rest) => Option::Some(pattern_models(patterns@) + rest),
            }),
        decreases chars@.len() - i,
    {
        let ghost istart = i as int;
        let sel = match parse_token_selector(&chars, &mut i) {
            Ok(s) => s,
            Err(e) => {
                proof {
                    assert(spec_parse_regex(chars@, istart) is None);
                }
                return Err(e);
            },
        };
        let pk = match parse_amount_specifier(&chars, &mut i, sel) {
            Ok(p) => p,
            Err(e) => {
                proof {
                    assert(spec_parse_regex(chars@, istart) is None);
                }
                return Err(e);
            },
        };
        let ghost p0 = patterns@;
        patterns.push(pk);
        proof {
            lemma_spec_steps(chars@, istart);
            assert(patterns@ =~= p0.push(pk));
            assert(pattern_models(patterns@) =~= pattern_models(p0).push(pk.model()));
            assert(spec_parse_regex(chars@, istart) == (match spec_parse_regex(
                chars@,
                i as int,
            ) {
                Option::None => Option::<Seq<PatternModel>>::None,
                Option::Some(rest) => Option::Some(seq![pk.model()] + rest),
            }));
            if spec_parse_regex(chars@, i as int) is Some {
                let rest = spec_parse_regex(chars@, i as int).unwrap();
                assert(pattern_models(p0) + (seq![pk.model()] + rest) =~= pattern_models(
                    patterns@,
                ) + rest);
            }
        }
    }
    proof {
        assert(spec_parse_regex(chars@, i as int) == Some(Seq::<PatternModel>::empty()));
        assert(pattern_models(patterns@) + Seq::<PatternModel>::empty() =~= pattern_models(
            patterns@,
        ));
    }
    Ok(Regex { patterns })
}

} // verus!

//! A small character-pattern matcher: a pattern is a sequence of
//! single-character tests, and a string matches when some suffix start
//! position satisfies them all in order.

#![verifier::loop_isolation(false)]

pub mod parser;
pub mod patterns;
pub mod regex;

use vstd::prelude::*;

verus! {


/// Model of one pattern element: the accepted characters and how many
/// of them must appear.
pub struct ExactAmountModel {
    pub tokens: Seq<char>,
    pub amount: nat,
}

impl ExactAmountModel {
    /// Whether the first `amount` characters of `input` are all
    /// accepted; on a match the element consumes `amount` characters,
    /// otherwise nothing.
    pub open spec fn matches(self, input: Seq<char>) -> bool {
        self.amount <= input.len() && forall|k: int|
            0 <= k < self.amount ==> self.tokens.contains(#[trigger] input[k])
    }

    /// How many characters the element consumes.
    pub open spec fn offset(self, input: Seq<char>) -> int {
        if self.matches(input) {
            self.amount as int
        } else {
            0
        }
    }
}

/// An element matching a fixed number of characters, each drawn from a
/// fixed set.
pub struct ExactAmountPattern {
    pub tokens: Vec<char>,
    pub amount: usize,
}

impl View for ExactAmountPattern {
    type V = ExactAmountModel;

    open spec fn view(&self) -> ExactAmountModel {
        ExactAmountModel { tokens: self.tokens@, amount: self.amount as nat }
    }
}

impl ExactAmountPattern {
    /// Whether the input starts with `amount` accepted characters, and
    /// how far the element advances. An input shorter than `amount`
    /// never matches.
    pub fn test(&self, input: &str) -> (r: (bool, usize))
        ensures
            r.0 == self@.matches(input@),
            r.1 as int == self@.offset(input@),
    {
        let n = input.unicode_len();
        let mut index: usize = 0;
        while index < self.amount
            invariant
                index <= self.amount,
                n == input@.len(),
                index <= n,
                forall|k: int| 0 <= k < index ==> self@.tokens.contains(#[trigger] input@[k]),
            decreases self.amount - index,
        {
            if index >= n {
                assert(!self@.matches(input@));
                return (false, 0);
            }
            let c = input.get_char(index);
            let mut hit = false;
            let mut t: usize = 0;
            while t < self.tokens.len()
                invariant
                    t <= self.tokens.len(),
                    hit ==> self@.tokens.contains(c),
                    !hit ==> forall|x: int| 0 <= x < t ==> self@.tokens[x] != c,
                decreases self.tokens.len() - t,
            {
                if self.tokens[t] == c {
                    hit = true;
                    assert(self@.tokens[t as int] == c);
                }
                t += 1;
            }
            if hit {
                index += 1;
            } else {
                proof {
                    if self@.tokens.contains(c) {
                        let x = choose|x: int|
                            0 <= x < self@.tokens.len() && self@.tokens[x] == c;
                    }
                    assert(!self@.tokens.contains(input@[index as int]));
                }
                return (false, 0);
            }
        }
        proof {
            assert(self@.matches(input@));
        }
        (true, self.amount)
    }
}

/// What remains of a successful match.
pub struct Match {
    pub captured: String,
}

/// Whether the elements of `pats` match `input` in order, the element
/// `pi` starting at position `pos`.
pub open spec fn substr_match(
    pats: Seq<ExactAmountModel>,
    input: Seq<char>,
    pi: int,
    pos: int,
) -> bool
    decreases pats.len() - pi,
{
    if pi < 0 || pi >= pats.len() {
        true
    } else if pos < 0 || pos > input.len() {
        false
    } else {
        pats[pi].matches(input.skip(pos)) && substr_match(
            pats,
            input,
            pi + 1,
            pos + pats[pi].amount,
        )
    }
}

/// Whether some start position of `input` begins a full match of
/// `pats`; position `input.len()` itself is never tried, so the empty
/// string matches nothing.
pub open spec fn regex_match(pats: Seq<ExactAmountModel>, input: Seq<char>) -> bool {
    exists|s: int| 0 <= s < input.len() && #[trigger] substr_match(pats, input, 0, s)
}

/// A compiled pattern: one element per pattern character.
pub struct Regex {
    patterns: Vec<ExactAmountPattern>,
}

impl View for Regex {
    type V = Seq<ExactAmountModel>;

    closed spec fn view(&self) -> Seq<ExactAmountModel> {
        Seq::new(self.patterns@.len(), |i: int| self.patterns@[i]@)
    }
}

impl Regex {
    /// A matcher for `pattern`: each character of the pattern must
    /// appear once, in order.
    pub fn new(pattern: &str) -> (r: Regex)
        ensures
            r@.len() == pattern@.len(),
            forall|i: int|
                0 <= i < pattern@.len() ==> (#[trigger] r@[i]).tokens == seq![pattern@[i]]
                    && r@[i].amount == 1,
    {
        parse_regex(pattern)
    }

    /// Whether `string` holds a match of this pattern starting at some
    /// position.
    pub fn test(&self, string: &str) -> (r: bool)
        ensures
            r == regex_match(self@, string@),
    {
        let n = string.unicode_len();
        let mut s: usize = 0;
        while s < n
            invariant
                s <= n,
                n == string@.len(),
                forall|s2: int| 0 <= s2 < s ==> !(#[trigger] substr_match(self@, string@, 0, s2)),
            decreases n - s,
        {
            if self.test_substr(string, s) {
                return true;
            }
            s += 1;
        }
        false
    }

    /// Whether the pattern elements match `string` in order starting
    /// at position `from`.
    fn test_substr(&self, string: &str, from: usize) -> (r: bool)
        requires
            from <= string@.len(),
        ensures
            r == substr_match(self@, string@, 0, from as int),
    {
        let n = string.unicode_len();
        let mut index: usize = from;
        let mut pi: usize = 0;
        while pi < self.patterns.len()
            invariant
                pi <= self.patterns.len(),
                from <= index <= n,
                n == string@.len(),
                substr_match(self@, string@, 0, from as int) == substr_match(
                    self@,
                    string@,
                    pi as int,
                    index as int,
                ),
            decreases self.patterns.len() - pi,
        {
            let rest = string.substring_char(index, n);
            let (matches, offset) = self.patterns[pi].test(rest);
            proof {
                assert(rest@ == string@.skip(index as int));
                assert(self@[pi as int] == self.patterns@[pi as int]@);
            }
            if !matches {
                proof {
                    assert(!substr_match(self@, string@, pi as int, index as int));
                }
                return false;
            }
            proof {
                assert(self@[pi as int].matches(string@.skip(index as int)));
                assert(offset == self@[pi as int].amount);
                assert(index + offset <= n);
            }
            index += offset;
            pi += 1;
        }
        proof {
            assert(substr_match(self@, string@, self.patterns@.len() as int, index as int));
        }
        true
    }
}

/// One single-character element per pattern character.
fn parse_regex(pattern: &str) -> (r: Regex)
    ensures
        r@.len() == pattern@.len(),
        forall|i: int|
            0 <= i < pattern@.len() ==> (#[trigger] r@[i]).tokens == seq![pattern@[i]] && r@[
                i
            ].amount == 1,
{
    let n = pattern.unicode_len();
    let mut patterns: Vec<ExactAmountPattern> = Vec::new();
    let mut i: usize = 0;
    while i < n
        invariant
            i <= n,
            n == pattern@.len(),
            patterns@.len() == i,
            forall|x: int|
                0 <= x < i ==> (#[trigger] patterns@[x])@.tokens == seq![pattern@[x]]
                    && patterns@[x]@.amount == 1,
        decreases n - i,
    {
        let c = pattern.get_char(i);
        patterns.push(ExactAmountPattern { tokens: vec![c], amount: 1 });
        proof {
            assert(patterns@[i as int]@.tokens =~= seq![pattern@[i as int]]);
        }
        i += 1;
    }
    let r = Regex { patterns };
    proof {
        assert forall|x: int|
            0 <= x < n implies (#[trigger] r@[x]).tokens == seq![pattern@[x]] && r@[x].amount
                == 1 by {
            assert(r@[x] == r.patterns@[x]@);
        }
    }
    r
}

} // verus!

//! The compiled pattern and its matcher: a string matches when the
//! pattern elements succeed in order from some start position.

#![verifier::loop_isolation(false)]

use vstd::prelude::*;

verus! {

use crate::regex::parser::{parse_regex, spec_parse_regex, RegexParseError};
use crate::regex::patterns::{PatternKind, TestablePattern};

/// What remains of a successful match.
pub struct Match {
    pub captured: String,
}

/// Whether the elements of `pats` match `input` in order, element `pi`
/// starting at position `pos`; a failed element or an element pushing
/// past the end of the input fails the whole attempt.
pub open spec fn substr_match(pats: Seq<PatternKind>, input: Seq<char>, pi: int, pos: int) -> bool
    decreases pats.len() - pi,
{
    if pi < 0 || pi >= pats.len() {
        0 <= pos <= input.len()
    } else if pos < 0 || pos > input.len() {
        false
    } else {
        pats[pi].match_spec(input.skip(pos)) && substr_match(
            pats,
            input,
            pi + 1,
            pos + pats[pi].offset_spec(input.skip(pos)),
        )
    }
}

/// Whether some start position of `input` begins a full match of
/// `pats`; the empty string matches nothing.
pub open spec fn regex_match(pats: Seq<PatternKind>, input: Seq<char>) -> bool {
    exists|s: int| 0 <= s < input.len() && #[trigger] substr_match(pats, input, 0, s)
}

/// A compiled pattern: quantified character-set elements in order.
pub struct Regex {
    pub patterns: Vec<PatternKind>,
}

impl Regex {
    /// The compiled form of `pattern`, exactly when the pattern text is
    /// well formed.
    pub fn new(pattern: &str) -> (r: Result<Regex, RegexParseError>)
        requires
            pattern@.len() < usize::MAX,
        ensures
            r is Ok <==> spec_parse_regex(pattern@, 0) is Some,
            r is Ok ==> Seq::new(
                r.unwrap().patterns@.len(),
                |k: int| r.unwrap().patterns@[k].model(),
            ) == spec_parse_regex(pattern@, 0).unwrap(),
    {
        parse_regex(pattern)
    }

    /// Whether `string` holds a match of this pattern starting at some
    /// position.
    pub fn test(&self, string: &str) -> (r: bool)
        ensures
            r == regex_match(self.patterns@, string@),
    {
        let n = string.unicode_len();
        let mut s: usize = 0;
        while s < n
            invariant
                s <= n,
                n == string@.len(),
                forall|s2: int|
                    0 <= s2 < s ==> !(#[trigger] substr_match(self.patterns@, string@, 0, s2)),
            decreases n - s,
        {
            if self.test_substr(string, s) {
                return true;
            }
            s += 1;
        }
        false
    }

    /// Whether the pattern elements match `string` in order starting
    /// at position `from`.
    fn test_substr(&self, string: &str, from: usize) -> (r: bool)
        requires
            from <= string@.len(),
        ensures
            r == substr_match(self.patterns@, string@, 0, from as int),
    {
        let n = string.unicode_len();
        let mut index: usize = from;
        let mut pi: usize = 0;
        while pi < self.patterns.len()
            invariant
                pi <= self.patterns.len(),
                from <= index <= n,
                n == string@.len(),
                substr_match(self.patterns@, string@, 0, from as int) == substr_match(
                    self.patterns@,
                    string@,
                    pi as int,
                    index as int,
                ),
            decreases self.patterns.len() - pi,
        {
            let rest = string.substring_char(index, n);
            let (matches, offset) = self.patterns[pi].test(rest);
            proof {
                assert(rest@ == string@.skip(index as int));
            }
            if !matches {
                proof {
                    assert(!substr_match(self.patterns@, string@, pi as int, index as int));
                }
                return false;
            }
            if offset > n - index {
                // the element claims more than remains: no match here
                proof {
                    assert(index + self.patterns@[pi as int].offset_spec(
                        string@.skip(index as int),
                    ) > n);
                    assert(!substr_match(
                        self.patterns@,
                        string@,
                        pi + 1,
                        index + self.patterns@[pi as int].offset_spec(
                            string@.skip(index as int),
                        ),
                    ));
                }
                return false;
            }
            index += offset;
            pi += 1;
        }
        proof {
            assert(substr_match(
                self.patterns@,
                string@,
                self.patterns@.len() as int,
                index as int,
            ));
        }
        true
    }
}

} // verus!

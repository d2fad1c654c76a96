//! Pattern elements: character selectors and the quantified tests
//! built on them.

#![verifier::loop_isolation(false)]

use vstd::prelude::*;

verus! {

/// A set of characters, with a membership test.
pub trait TokenSelector {
    /// Which characters belong to the selector.
    spec fn sel(&self) -> Set<char>;

    /// Whether `c` belongs to the selector.
    fn contains(&self, c: char) -> (r: bool)
        ensures
            r == self.sel().contains(c),
    ;
}

/// Exactly one character.
pub struct SingleCharSelector {
    pub token: char,
}

impl TokenSelector for SingleCharSelector {
    open spec fn sel(&self) -> Set<char> {
        Set::empty().insert(self.token)
    }

    fn contains(&self, c: char) -> (r: bool)
        ensures
            r == self.sel().contains(c),
    {
        c == self.token
    }
}

/// Any of a list of characters.
pub struct MultiCharSelector {
    pub tokens: Vec<char>,
}

impl TokenSelector for MultiCharSelector {
    open spec fn sel(&self) -> Set<char> {
        self.tokens@.to_set()
    }

    fn contains(&self, c: char) -> (r: bool)
        ensures
            r == self.sel().contains(c),
    {
        let mut t: usize = 0;
        while t < self.tokens.len()
            invariant
                t <= self.tokens.len(),
                forall|x: int| 0 <= x < t ==> self.tokens@[x] != c,
            decreases self.tokens.len() - t,
        {
            if self.tokens[t] == c {
                assert(self.tokens@[t as int] == c);
                assert(self.tokens@.contains(c));
                return true;
            }
            t += 1;
        }
        proof {
            if self.tokens@.contains(c) {
                let x = choose|x: int| 0 <= x < self.tokens@.len() && self.tokens@[x] == c;
            }
        }
        false
    }
}

/// Either kind of selector, so patterns can hold them uniformly.
pub enum SelectorKind {
    Single(SingleCharSelector),
    Multi(MultiCharSelector),
}

impl TokenSelector for SelectorKind {
    open spec fn sel(&self) -> Set<char> {
        match self {
            SelectorKind::Single(s) => s.sel(),
            SelectorKind::Multi(m) => m.sel(),
        }
    }

    fn contains(&self, c: char) -> (r: bool)
        ensures
            r == self.sel().contains(c),
    {
        match self {
            SelectorKind::Single(s) => s.contains(c),
            SelectorKind::Multi(m) => m.contains(c),
        }
    }
}

/// The length of the longest prefix of `input` drawn from `sel`.
pub open spec fn run_len(sel: Set<char>, input: Seq<char>) -> int
    decreases input.len(),
{
    if input.len() > 0 && sel.contains(input[0]) {
        1 + run_len(sel, input.drop_first())
    } else {
        0
    }
}

/// A pattern element: a test that consumes a prefix of the input.
pub trait TestablePattern {
    /// Whether the element matches at the front of `input`.
    spec fn match_spec(&self, input: Seq<char>) -> bool;

    /// How many characters it consumes.
    spec fn offset_spec(&self, input: Seq<char>) -> int;

    /// The match result and the consumed length.
    fn test(&self, input: &str) -> (r: (bool, usize))
        ensures
            r.0 == self.match_spec(input@),
            r.1 as int == self.offset_spec(input@),
    ;
}

/// Exactly `amount` selector characters; on success it reports a
/// single consumed character, as its one use with `amount == 1`
/// needs, and nothing on failure.
pub struct ExactAmountPattern {
    pub token_selector: SelectorKind,
    pub amount: usize,
}

impl TestablePattern for ExactAmountPattern {
    open spec fn match_spec(&self, input: Seq<char>) -> bool {
        self.amount <= input.len() && forall|k: int|
            0 <= k < self.amount ==> self.token_selector.sel().contains(#[trigger] input[k])
    }

    open spec fn offset_spec(&self, input: Seq<char>) -> int {
        if self.match_spec(input) {
            1
        } else {
            0
        }
    }

    fn test(&self, input: &str) -> (r: (bool, usize))
        ensures
            r.0 == self.match_spec(input@),
            r.1 as int == self.offset_spec(input@),
    {
        let n = input.unicode_len();
        let mut index: usize = 0;
        while index < self.amount
            invariant
                index <= self.amount,
                n == input@.len(),
                index <= n,
                forall|k: int|
                    0 <= k < index ==> self.token_selector.sel().contains(#[trigger] input@[k]),
            decreases self.amount - index,
        {
            if index >= n {
                assert(!self.match_spec(input@));
                return (false, 0);
            }
            let c = input.get_char(index);
            if self.token_selector.contains(c) {
                index += 1;
            } else {
                assert(!self.token_selector.sel().contains(input@[index as int]));
                return (false, 0);
            }
        }
        assert(self.match_spec(input@));
        (true, 1)
    }
}

/// Between `min_amount` and `max_amount` selector characters; the
/// longest run is consumed whether or not its length fits the bounds.
pub struct BoundedAmountPattern {
    pub token_selector: SelectorKind,
    pub min_amount: usize,
    pub max_amount: usize,
}

impl TestablePattern for BoundedAmountPattern {
    open spec fn match_spec(&self, input: Seq<char>) -> bool {
        self.min_amount <= run_len(self.token_selector.sel(), input) <= self.max_amount
    }

    open spec fn offset_spec(&self, input: Seq<char>) -> int {
        run_len(self.token_selector.sel(), input)
    }

    fn test(&self, input: &str) -> (r: (bool, usize))
        ensures
            r.0 == self.match_spec(input@),
            r.1 as int == self.offset_spec(input@),
    {
        let amount_matched = take_run(&self.token_selector, input);
        let matched = self.min_amount <= amount_matched && amount_matched <= self.max_amount;
        (matched, amount_matched)
    }
}

/// Any number of selector characters; always matches.
pub struct AnyAmountPattern {
    pub token_selector: SelectorKind,
}

impl TestablePattern for AnyAmountPattern {
    open spec fn match_spec(&self, input: Seq<char>) -> bool {
        true
    }

    open spec fn offset_spec(&self, input: Seq<char>) -> int {
        run_len(self.token_selector.sel(), input)
    }

    fn test(&self, input: &str) -> (r: (bool, usize))
        ensures
            r.0 == self.match_spec(input@),
            r.1 as int == self.offset_spec(input@),
    {
        let amount_matched = take_run(&self.token_selector, input);
        (true, amount_matched)
    }
}

/// One or more selector characters.
pub struct AtLeastOnePattern {
    pub token_selector: SelectorKind,
}

impl TestablePattern for AtLeastOnePattern {
    open spec fn match_spec(&self, input: Seq<char>) -> bool {
        run_len(self.token_selector.sel(), input) > 0
    }

    open spec fn offset_spec(&self, input: Seq<char>) -> int {
        run_len(self.token_selector.sel(), input)
    }

    fn test(&self, input: &str) -> (r: (bool, usize))
        ensures
            r.0 == self.match_spec(input@),
            r.1 as int == self.offset_spec(input@),
    {
        let amount_matched = take_run(&self.token_selector, input);
        (amount_matched > 0, amount_matched)
    }
}

/// Zero or one selector character; always matches.
pub struct OptionalPattern {
    pub token_selector: SelectorKind,
}

impl TestablePattern for OptionalPattern {
    open spec fn match_spec(&self, input: Seq<char>) -> bool {
        true
    }

    open spec fn offset_spec(&self, input: Seq<char>) -> int {
        if input.len() > 0 && self.token_selector.sel().contains(input[0]) {
            1
        } else {
            0
        }
    }

    fn test(&self, input: &str) -> (r: (bool, usize))
        ensures
            r.0 == self.match_spec(input@),
            r.1 as int == self.offset_spec(input@),
    {
        if input.unicode_len() > 0 && self.token_selector.contains(input.get_char(0)) {
            (true, 1)
        } else {
            (true, 0)
        }
    }
}

/// The length of the longest selector-drawn prefix of `input`.
fn take_run(sel: &SelectorKind, input: &str) -> (r: usize)
    ensures
        r as int == run_len(sel.sel(), input@),
{
    let n = input.unicode_len();
    let mut i: usize = 0;
    proof {
        assert(input@.skip(0) =~= input@);
    }
    while i < n && sel.contains(input.get_char(i))
        invariant
            0 <= i <= n,
            n == input@.len(),
            run_len(sel.sel(), input@) == i + run_len(sel.sel(), input@.skip(i as int)),
            forall|k: int| 0 <= k < i ==> sel.sel().contains(#[trigger] input@[k]),
        decreases n - i,
    {
        proof {
            assert(input@.skip(i as int)[0] == input@[i as int]);
            assert(input@.skip(i as int).drop_first() =~= input@.skip(i + 1));
        }
        i += 1;
    }
    proof {
        if i < n {
            assert(input@.skip(i as int)[0] == input@[i as int]);
            assert(run_len(sel.sel(), input@.skip(i as int)) == 0);
        } else {
            assert(input@.skip(i as int).len() == 0);
            assert(run_len(sel.sel(), input@.skip(i as int)) == 0);
        }
    }
    i
}

/// Any of the five pattern elements, so a compiled pattern can hold
/// them in one vector.
pub enum PatternKind {
    Exact(ExactAmountPattern),
    Bounded(BoundedAmountPattern),
    Any(AnyAmountPattern),
    AtLeastOne(AtLeastOnePattern),
    Optional(OptionalPattern),
}

impl TestablePattern for PatternKind {
    open spec fn match_spec(&self, input: Seq<char>) -> bool {
        match self {
            PatternKind::Exact(p) => p.match_spec(input),
            PatternKind::Bounded(p) => p.match_spec(input),
            PatternKind::Any(p) => p.match_spec(input),
            PatternKind::AtLeastOne(p) => p.match_spec(input),
            PatternKind::Optional(p) => p.match_spec(input),
        }
    }

    open spec fn offset_spec(&self, input: Seq<char>) -> int {
        match self {
            PatternKind::Exact(p) => p.offset_spec(input),
            PatternKind::Bounded(p) => p.offset_spec(input),
            PatternKind::Any(p) => p.offset_spec(input),
            PatternKind::AtLeastOne(p) => p.offset_spec(input),
            PatternKind::Optional(p) => p.offset_spec(input),
        }
    }

    fn test(&self, input: &str) -> (r: (bool, usize))
        ensures
            r.0 == self.match_spec(input@),
            r.1 as int == self.offset_spec(input@),
    {
        match self {
            PatternKind::Exact(p) => p.test(input),
            PatternKind::Bounded(p) => p.test(input),
            PatternKind::Any(p) => p.test(input),
            PatternKind::AtLeastOne(p) => p.test(input),
            PatternKind::Optional(p) => p.test(input),
        }
    }
}

/// Spec-level description of one pattern element: its character set
/// and its quantifier.
pub enum PatternModel {
    Exact(Set<char>, nat),
    Bounded(Set<char>, nat, nat),
    Any(Set<char>),
    AtLeastOne(Set<char>),
    Optional(Set<char>),
}

impl PatternKind {
    /// The description of this element.
    pub open spec fn model(&self) -> PatternModel {
        match self {
            PatternKind::Exact(p) => PatternModel::Exact(
                p.token_selector.sel(),
                p.amount as nat,
            ),
            PatternKind::Bounded(p) => PatternModel::Bounded(
                p.token_selector.sel(),
                p.min_amount as nat,
                p.max_amount as nat,
            ),
            PatternKind::Any(p) => PatternModel::Any(p.token_selector.sel()),
            PatternKind::AtLeastOne(p) => PatternModel::AtLeastOne(p.token_selector.sel()),
            PatternKind::Optional(p) => PatternModel::Optional(p.token_selector.sel()),
        }
    }
}

} // verus!

//! Character-sequence utilities shared by the grammar parser: equality,
//! whitespace trimming and splitting on a separator character.

use vstd::prelude::*;

verus! {

/// Spec-level whitespace test for the characters the grammar format
/// treats as padding around tokens and at line ends.
pub open spec fn is_ws(c: char) -> bool {
    c == ' ' || c == '\t' || c == '\r'
}

/// Index of the first occurrence of `sep` in `s`, or `s.len()` when
/// `sep` does not occur.
pub open spec fn first_index(s: Seq<char>, sep: char) -> int
    decreases s.len(),
{
    if s.len() == 0 {
        0
    } else if s[0] == sep {
        0
    } else {
        1 + first_index(s.drop_first(), sep)
    }
}

pub proof fn lemma_first_index(s: Seq<char>, sep: char)
    ensures
        0 <= first_index(s, sep) <= s.len(),
        first_index(s, sep) < s.len() ==> s[first_index(s, sep)] == sep,
        forall|k: int| 0 <= k < first_index(s, sep) ==> s[k] != sep,
    decreases s.len(),
{
    if s.len() > 0 && s[0] != sep {
        lemma_first_index(s.drop_first(), sep);
        assert forall|k: int| 0 <= k < first_index(s, sep) implies s[k] != sep by {
            if k > 0 {
                assert(s.drop_first()[k - 1] == s[k]);
            }
        }
    }
}

/// The index of the first occurrence is the only index with no
/// occurrence before it.
pub proof fn lemma_first_index_unique(s: Seq<char>, sep: char, i: int)
    requires
        0 <= i <= s.len(),
        i < s.len() ==> s[i] == sep,
        i == s.len() || forall|k: int| 0 <= k < i ==> s[k] != sep,
        i == s.len() ==> forall|k: int| 0 <= k < s.len() ==> s[k] != sep,
    ensures
        first_index(s, sep) == i,
    decreases s.len(),
{
    if s.len() > 0 && s[0] != sep {
        lemma_first_index_unique(s.drop_first(), sep, i - 1);
    }
}

/// The pieces of `s` between occurrences of `sep`, in order. There is
/// always at least one piece; a separator at either end or two adjacent
/// separators yield empty pieces.
pub open spec fn spec_split(s: Seq<char>, sep: char) -> Seq<Seq<char>>
    decreases s.len(),
{
    let i = first_index(s, sep);
    proof {
        lemma_first_index(s, sep);
    }
    if i == s.len() {
        seq![s]
    } else {
        seq![s.subrange(0, i)] + spec_split(s.subrange(i + 1, s.len() as int), sep)
    }
}

pub proof fn lemma_spec_split_len(s: Seq<char>, sep: char)
    ensures
        spec_split(s, sep).len() >= 1,
    decreases s.len(),
{
    lemma_first_index(s, sep);
    let i = first_index(s, sep);
    if i != s.len() {
        lemma_spec_split_len(s.subrange(i + 1, s.len() as int), sep);
    }
}

/// `s` without leading whitespace.
pub open spec fn spec_trim_start(s: Seq<char>) -> Seq<char>
    decreases s.len(),
{
    if s.len() > 0 && is_ws(s[0]) {
        spec_trim_start(s.drop_first())
    } else {
        s
    }
}

/// `s` without trailing whitespace.
pub open spec fn spec_trim_end(s: Seq<char>) -> Seq<char>
    decreases s.len(),
{
    if s.len() > 0 && is_ws(s.last()) {
        spec_trim_end(s.drop_last())
    } else {
        s
    }
}

/// `s` without leading and trailing whitespace.
pub open spec fn spec_trim(s: Seq<char>) -> Seq<char> {
    spec_trim_end(spec_trim_start(s))
}

/// Character-wise equality of two string slices.
pub fn str_eq(a: &str, b: &str) -> (r: bool)
    ensures
        r == (a@ == b@),
{
    let na = a.unicode_len();
    let nb = b.unicode_len();
    if na != nb {
        return false;
    }
    let mut i: usize = 0;
    while i < na
        invariant
            na == a@.len(),
            na == b@.len(),
            0 <= i <= na,
            forall|k: int| 0 <= k < i ==> a@[k] == b@[k],
        decreases na - i,
    {
        if a.get_char(i) != b.get_char(i) {
            return false;
        }
        i += 1;
    }
    proof {
        assert(a@ =~= b@);
    }
    true
}

/// `s` split on `sep`, each piece its own `String`.
pub fn split_str(s: &str, sep: char) -> (r: Vec<String>)
    ensures
        r.deep_view() == spec_split(s@, sep),
{
    let n = s.unicode_len();
    let mut r: Vec<String> = Vec::new();
    let mut st: usize = 0;
    let mut i: usize = 0;
    proof {
        assert(s@.subrange(0, n as int) =~= s@);
        assert(r.deep_view() =~= Seq::<Seq<char>>::empty());
        assert(r.deep_view() + spec_split(s@, sep) =~= spec_split(s@, sep));
    }
    while i < n
        invariant
            n == s@.len(),
            0 <= st <= i <= n,
            forall|k: int| st <= k < i ==> s@[k] != sep,
            spec_split(s@, sep) =~= r.deep_view() + spec_split(
                s@.subrange(st as int, n as int),
                sep,
            ),
        decreases n - i,
    {
        if s.get_char(i) == sep {
            let ghost tail = s@.subrange(st as int, n as int);
            let ghost dv0 = r.deep_view();
            let piece = s.substring_char(st, i).to_owned();
            proof {
                lemma_first_index_unique(tail, sep, i - st);
                assert(tail.subrange(0, i - st) =~= s@.subrange(st as int, i as int));
                assert(tail.subrange(i - st + 1, tail.len() as int) =~= s@.subrange(
                    i as int + 1,
                    n as int,
                ));
                assert(spec_split(tail, sep) == seq![piece@] + spec_split(
                    s@.subrange(i as int + 1, n as int),
                    sep,
                ));
            }
            r.push(piece);
            proof {
                assert(r.deep_view() =~= dv0 + seq![piece@]);
                assert(spec_split(s@, sep) =~= r.deep_view() + spec_split(
                    s@.subrange(i as int + 1, n as int),
                    sep,
                ));
            }
            st = i + 1;
        }
        i += 1;
    }
    let ghost tail = s@.subrange(st as int, n as int);
    let ghost dv0 = r.deep_view();
    let piece = s.substring_char(st, n).to_owned();
    proof {
        lemma_first_index_unique(tail, sep, tail.len() as int);
        assert(spec_split(tail, sep) == seq![piece@]);
    }
    r.push(piece);
    proof {
        assert(r.deep_view() =~= dv0 + seq![piece@]);
        assert(spec_split(s@, sep) =~= r.deep_view());
    }
    r
}

/// `s` without leading and trailing whitespace.
pub fn trim_str(s: &str) -> (r: String)
    ensures
        r@ == spec_trim(s@),
{
    let n = s.unicode_len();
    let mut st: usize = 0;
    proof {
        assert(s@.subrange(0, n as int) =~= s@);
    }
    while st < n && is_ws_exec(s.get_char(st))
        invariant
            n == s@.len(),
            0 <= st <= n,
            spec_trim_start(s@) == spec_trim_start(s@.subrange(st as int, n as int)),
        decreases n - st,
    {
        proof {
            assert(s@.subrange(st as int, n as int).drop_first() =~= s@.subrange(
                st as int + 1,
                n as int,
            ));
        }
        st += 1;
    }
    let ghost mid = s@.subrange(st as int, n as int);
    proof {
        assert(spec_trim_start(s@) == mid);
    }
    let mut en: usize = n;
    while en > st && is_ws_exec(s.get_char(en - 1))
        invariant
            n == s@.len(),
            st <= en <= n,
            mid == s@.subrange(st as int, n as int),
            spec_trim_end(mid) == spec_trim_end(s@.subrange(st as int, en as int)),
        decreases en,
    {
        proof {
            assert(s@.subrange(st as int, en as int).drop_last() =~= s@.subrange(
                st as int,
                en as int - 1,
            ));
        }
        en -= 1;
    }
    proof {
        assert(spec_trim_end(s@.subrange(st as int, en as int)) == s@.subrange(
            st as int,
            en as int,
        ));
    }
    s.substring_char(st, en).to_owned()
}

/// Executable counterpart of [`is_ws`].
pub fn is_ws_exec(c: char) -> (r: bool)
    ensures
        r == is_ws(c),
{
    c == ' ' || c == '\t' || c == '\r'
}

} // verus!

//! Context-free grammars: parsing the textual format, normalization to
//! Chomsky Normal Form, CYK recognition and random sampling.

#![verifier::loop_isolation(false)]

use vstd::prelude::*;

verus! {

use crate::production::{
    clone_syms, lemma_permute_from, lemma_variant_prods_wf, prods_contain,
    spec_null_variants, sym_in, Production, ProductionModel,
};
use crate::text::{
    lemma_spec_split_len, spec_split, spec_trim, split_str, str_eq, trim_str,
};

/// Mathematical model of a grammar: the start symbol, the ordered
/// productions, and the triplet index driving CYK.
#[verifier::ext_equal]
pub struct GrammarModel {
    pub start: Seq<char>,
    pub prods: Seq<ProductionModel>,
    pub triplets: Seq<(int, int, int)>,
}

/// `sym` is the left-hand side of one of `prods`.
pub open spec fn sp_is_var(prods: Seq<ProductionModel>, sym: Seq<char>) -> bool {
    exists|i: int| 0 <= i < prods.len() && (#[trigger] prods[i]).lhs == sym
}

/// `sym` occurs on some right-hand side of `prods`.
pub open spec fn sp_on_rhs(prods: Seq<ProductionModel>, sym: Seq<char>) -> bool {
    exists|i: int, j: int|
        0 <= i < prods.len() && 0 <= j < prods[i].rhs.len() && #[trigger] prods[i].rhs[j] == sym
}

/// Every right-hand side of `prods` is non-empty.
pub open spec fn sp_rhs_nonempty(prods: Seq<ProductionModel>) -> bool {
    forall|i: int| 0 <= i < prods.len() ==> (#[trigger] prods[i]).rhs.len() >= 1
}

/// Every right-hand side of `prods` has length 1 or 2.
pub open spec fn sp_cnf_lengths(prods: Seq<ProductionModel>) -> bool {
    forall|i: int| 0 <= i < prods.len() ==> 1 <= (#[trigger] prods[i]).rhs.len() <= 2
}

/// No production of `prods` derives the empty string.
pub open spec fn sp_no_null(prods: Seq<ProductionModel>) -> bool {
    forall|i: int| 0 <= i < prods.len() ==> !(#[trigger] prods[i]).is_null()
}

/// No production of `prods` is a unit production.
pub open spec fn sp_no_unit(prods: Seq<ProductionModel>) -> bool {
    forall|i: int|
        0 <= i < prods.len() && (#[trigger] prods[i]).rhs.len() == 1 ==> !sp_is_var(
            prods,
            prods[i].rhs[0],
        )
}

/// Every symbol of every length-2-or-more right-hand side of `prods`
/// is a variable.
pub open spec fn sp_terminals_isolated(prods: Seq<ProductionModel>) -> bool {
    forall|i: int, j: int|
        0 <= i < prods.len() && prods[i].rhs.len() >= 2 && 0 <= j < prods[i].rhs.len()
            ==> sp_is_var(prods, #[trigger] prods[i].rhs[j])
}

/// The triplet `(a, b, c)` couples a length-2 production `a` of
/// `prods` with productions `b` and `c` for its two right-hand
/// symbols.
pub open spec fn sp_triplet_matches(prods: Seq<ProductionModel>, a: int, b: int, c: int) -> bool {
    &&& 0 <= a < prods.len()
    &&& 0 <= b < prods.len()
    &&& 0 <= c < prods.len()
    &&& prods[a].rhs.len() == 2
    &&& prods[b].lhs == prods[a].rhs[0]
    &&& prods[c].lhs == prods[a].rhs[1]
}

impl GrammarModel {
    /// `sym` is a variable: it is the left-hand side of some production.
    pub open spec fn is_var(self, sym: Seq<char>) -> bool {
        sp_is_var(self.prods, sym)
    }

    /// `sym` occurs on some right-hand side.
    pub open spec fn on_rhs(self, sym: Seq<char>) -> bool {
        sp_on_rhs(self.prods, sym)
    }

    /// `sym` occurs anywhere in the grammar: as the start symbol, as a
    /// left-hand side, or on a right-hand side.
    pub open spec fn occurs(self, sym: Seq<char>) -> bool {
        sym == self.start || self.is_var(sym) || self.on_rhs(sym)
    }

    /// Every right-hand side is non-empty.
    pub open spec fn rhs_nonempty(self) -> bool {
        sp_rhs_nonempty(self.prods)
    }

    /// Every right-hand side has length 1 or 2.
    pub open spec fn cnf_lengths(self) -> bool {
        sp_cnf_lengths(self.prods)
    }

    /// The start symbol appears on no right-hand side.
    pub open spec fn start_isolated(self) -> bool {
        !self.on_rhs(self.start)
    }

    /// No production derives the empty string.
    pub open spec fn no_null(self) -> bool {
        sp_no_null(self.prods)
    }

    /// No production is a unit production: a length-1 right-hand side is
    /// never a variable.
    pub open spec fn no_unit(self) -> bool {
        sp_no_unit(self.prods)
    }

    /// Every symbol of every right-hand side of length 2 or more is a
    /// variable.
    pub open spec fn terminals_isolated(self) -> bool {
        sp_terminals_isolated(self.prods)
    }

    /// The grammar is in Chomsky Normal Form: every right-hand side is a
    /// single terminal or a pair of variables, no production is null or
    /// a unit production.
    pub open spec fn cnf_shape(self) -> bool {
        &&& self.cnf_lengths()
        &&& self.no_null()
        &&& self.no_unit()
        &&& self.terminals_isolated()
    }

    /// The triplet `(a, b, c)` couples a length-2 production `a` with
    /// productions `b` and `c` for its two right-hand symbols.
    pub open spec fn triplet_matches(self, a: int, b: int, c: int) -> bool {
        sp_triplet_matches(self.prods, a, b, c)
    }

    /// `triplets` holds exactly the matching triples.
    pub open spec fn triplets_exact(self) -> bool {
        &&& forall|k: int|
            0 <= k < self.triplets.len() ==> self.triplet_matches(
                (#[trigger] self.triplets[k]).0,
                self.triplets[k].1,
                self.triplets[k].2,
            )
        &&& forall|a: int, b: int, c: int|
            self.triplet_matches(a, b, c) ==> self.triplets.contains((a, b, c))
    }
}

/// Malformed grammar text: the 1-based line and a short description of
/// what was missing.
#[derive(Clone, Copy, Debug, PartialEq, Eq)]
pub enum GrammarParseError {
    /// The line does not have the shape `LHS -> alternatives`.
    MissingArrow { line: usize },
    /// A symbol, a left-hand side or a whole alternative is empty.
    EmptySymbol { line: usize },
    /// The epsilon marker `#` stands beside other symbols, or as a
    /// left-hand side.
    MisplacedEpsilon { line: usize },
}

/// A context-free grammar, normalized to Chomsky Normal Form on
/// construction and queried through [`CFG::test`] and
/// [`CFG::generate_sample_langauge`].
#[derive(Debug)]
pub struct CFG {
    starting_variable: String,
    productions: Vec<Production>,
    triplets: Vec<(usize, usize, usize)>,
}

/// The triplet vector as a sequence of integer triples.
pub open spec fn tri_model(v: Seq<(usize, usize, usize)>) -> Seq<(int, int, int)> {
    Seq::new(v.len(), |k: int| (v[k].0 as int, v[k].1 as int, v[k].2 as int))
}

impl View for CFG {
    type V = GrammarModel;

    closed spec fn view(&self) -> GrammarModel {
        GrammarModel {
            start: self.starting_variable@,
            prods: self.productions.deep_view(),
            triplets: tri_model(self.triplets@),
        }
    }
}

impl CFG {
    /// All triplet indices point into `productions`.
    #[verifier::type_invariant]
    spec fn tri_wf(self) -> bool {
        forall|k: int|
            0 <= k < self.triplets@.len() ==> (#[trigger] self.triplets@[k]).0
                < self.productions@.len() && self.triplets@[k].1 < self.productions@.len()
                && self.triplets@[k].2 < self.productions@.len()
    }
}

// ---------------------------------------------------------------------
// Parsing the grammar text
// ---------------------------------------------------------------------

/// The lines of the grammar text: newline-separated, one trailing empty
/// line ignored.
pub open spec fn spec_lines(input: Seq<char>) -> Seq<Seq<char>> {
    let ls = spec_split(input, '\n');
    if ls.len() > 1 && ls.last().len() == 0 {
        ls.drop_last()
    } else {
        ls
    }
}

/// The whitespace-separated tokens of a line, after trimming.
pub open spec fn spec_tokens(line: Seq<char>) -> Seq<Seq<char>> {
    spec_split(spec_trim(line), ' ')
}

/// Index of the first token equal to `sep`, or `ts.len()`.
pub open spec fn tok_first_index(ts: Seq<Seq<char>>, sep: Seq<char>) -> int
    decreases ts.len(),
{
    if ts.len() == 0 {
        0
    } else if ts[0] == sep {
        0
    } else {
        1 + tok_first_index(ts.drop_first(), sep)
    }
}

pub proof fn lemma_tok_first_index(ts: Seq<Seq<char>>, sep: Seq<char>)
    ensures
        0 <= tok_first_index(ts, sep) <= ts.len(),
        tok_first_index(ts, sep) < ts.len() ==> ts[tok_first_index(ts, sep)] == sep,
        forall|k: int| 0 <= k < tok_first_index(ts, sep) ==> ts[k] != sep,
    decreases ts.len(),
{
    if ts.len() > 0 && ts[0] != sep {
        lemma_tok_first_index(ts.drop_first(), sep);
        assert forall|k: int| 0 <= k < tok_first_index(ts, sep) implies ts[k] != sep by {
            if k > 0 {
                assert(ts.drop_first()[k - 1] == ts[k]);
            }
        }
    }
}

pub proof fn lemma_tok_first_index_unique(ts: Seq<Seq<char>>, sep: Seq<char>, i: int)
    requires
        0 <= i <= ts.len(),
        i < ts.len() ==> ts[i] == sep,
        forall|k: int| 0 <= k < i ==> ts[k] != sep,
    ensures
        tok_first_index(ts, sep) == i,
    decreases ts.len(),
{
    if ts.len() > 0 && ts[0] != sep {
        lemma_tok_first_index_unique(ts.drop_first(), sep, i - 1);
    }
}

/// The groups of tokens between `sep` tokens, in order; always at least
/// one group, and adjacent separators yield empty groups.
pub open spec fn tok_split(ts: Seq<Seq<char>>, sep: Seq<char>) -> Seq<Seq<Seq<char>>>
    decreases ts.len(),
{
    let i = tok_first_index(ts, sep);
    proof {
        lemma_tok_first_index(ts, sep);
    }
    if i == ts.len() {
        seq![ts]
    } else {
        seq![ts.subrange(0, i)] + tok_split(ts.subrange(i + 1, ts.len() as int), sep)
    }
}

/// The alternatives of a line: the tokens after `LHS ->`, split on `|`.
pub open spec fn spec_alternatives(line: Seq<char>) -> Seq<Seq<Seq<char>>> {
    tok_split(spec_tokens(line).skip(2), seq!['|'])
}

/// A well-formed line: `LHS -> alt1 | alt2 | ...`, every token
/// non-empty, every alternative non-empty, the epsilon marker `#` only
/// as the sole symbol of its alternative and never as the left-hand
/// side.
pub open spec fn spec_line_ok(line: Seq<char>) -> bool {
    let toks = spec_tokens(line);
    let alts = spec_alternatives(line);
    &&& toks.len() >= 3
    &&& forall|k: int| 0 <= k < toks.len() ==> (#[trigger] toks[k]).len() > 0
    &&& toks[1] == seq!['-', '>']
    &&& toks[0] != seq!['#']
    &&& forall|a: int| 0 <= a < alts.len() ==> (#[trigger] alts[a]).len() >= 1
    &&& forall|a: int, j: int|
        0 <= a < alts.len() && 0 <= j < alts[a].len() && #[trigger] alts[a][j] == seq!['#']
            ==> alts[a].len() == 1
}

/// The productions a line contributes, one per alternative, in order.
pub open spec fn spec_line_prods(line: Seq<char>) -> Seq<ProductionModel> {
    spec_alternatives(line).map_values(
        |alt: Seq<Seq<char>>| ProductionModel { lhs: spec_tokens(line)[0], rhs: alt },
    )
}

/// The productions of the first `upto` lines, concatenated in order.
pub open spec fn spec_prods_of_lines(ls: Seq<Seq<char>>, upto: int) -> Seq<ProductionModel>
    decreases upto,
{
    if upto <= 0 {
        Seq::empty()
    } else {
        spec_prods_of_lines(ls, upto - 1) + spec_line_prods(ls[upto - 1])
    }
}

/// What parsing the grammar text yields: the start symbol (the first
/// line's left-hand side) and the productions of every line, or nothing
/// when some line is malformed.
pub open spec fn spec_parse_grammar(input: Seq<char>) -> Option<(Seq<char>, Seq<ProductionModel>)> {
    let ls = spec_lines(input);
    if forall|l: int| 0 <= l < ls.len() ==> spec_line_ok(#[trigger] ls[l]) {
        Some((spec_tokens(ls[0])[0], spec_prods_of_lines(ls, ls.len() as int)))
    } else {
        None
    }
}

pub proof fn lemma_tok_split_len(ts: Seq<Seq<char>>, sep: Seq<char>)
    ensures
        tok_split(ts, sep).len() >= 1,
    decreases ts.len(),
{
    lemma_tok_first_index(ts, sep);
    let i = tok_first_index(ts, sep);
    if i != ts.len() {
        lemma_tok_split_len(ts.subrange(i + 1, ts.len() as int), sep);
    }
}

/// The symbols `v[from..to]`, copied.
fn sub_syms(v: &Vec<String>, from: usize, to: usize) -> (r: Vec<String>)
    requires
        from <= to <= v.len(),
    ensures
        r.deep_view() == v.deep_view().subrange(from as int, to as int),
{
    let mut r: Vec<String> = Vec::new();
    let mut i: usize = from;
    proof {
        assert(r.deep_view() =~= v.deep_view().subrange(from as int, from as int));
    }
    while i < to
        invariant
            from <= i <= to <= v.len(),
            r.deep_view() == v.deep_view().subrange(from as int, i as int),
        decreases to - i,
    {
        let ghost dv0 = r.deep_view();
        r.push(v[i].clone());
        proof {
            assert(r.deep_view() =~= dv0.push(v.deep_view()[i as int]));
            assert(v.deep_view().subrange(from as int, i + 1) =~= v.deep_view().subrange(
                from as int,
                i as int,
            ).push(v.deep_view()[i as int]));
        }
        i += 1;
    }
    r
}

/// The token groups of `toks[from..]` between `|` tokens.
fn split_alternatives(toks: &Vec<String>, from: usize) -> (r: Vec<Vec<String>>)
    requires
        from <= toks.len(),
    ensures
        r.deep_view() == tok_split(toks.deep_view().skip(from as int), seq!['|']),
{
    let ghost sep = seq!['|'];
    let ghost whole = toks.deep_view().skip(from as int);
    let n = toks.len();
    let mut r: Vec<Vec<String>> = Vec::new();
    let mut st: usize = from;
    let mut i: usize = from;
    proof {
        reveal_strlit("|");
        assert("|"@ =~= sep);
        assert(whole.subrange(0, whole.len() as int) =~= whole);
        assert(r.deep_view() =~= Seq::<Seq<Seq<char>>>::empty());
        assert(r.deep_view() + tok_split(whole, sep) =~= tok_split(whole, sep));
        assert(toks.deep_view().skip(st as int) =~= whole);
    }
    while i < n
        invariant
            from <= st <= i <= n,
            n == toks.len(),
            whole == toks.deep_view().skip(from as int),
            forall|k: int| st <= k < i ==> toks.deep_view()[k] != seq!['|'],
            tok_split(whole, seq!['|']) =~= r.deep_view() + tok_split(
                toks.deep_view().skip(st as int),
                seq!['|'],
            ),
        decreases n - i,
    {
        proof {
            reveal_strlit("|");
            assert("|"@ =~= seq!['|']);
        }
        if str_eq(toks[i].as_str(), "|") {
            let ghost tail = toks.deep_view().skip(st as int);
            let ghost dv0 = r.deep_view();
            let piece = sub_syms(toks, st, i);
            proof {
                assert(toks.deep_view()[i as int] == seq!['|']);
                assert forall|k: int| 0 <= k < i - st implies tail[k] != seq!['|'] by {
                    assert(tail[k] == toks.deep_view()[st + k]);
                }
                assert(tail[i - st] == seq!['|']);
                lemma_tok_first_index_unique(tail, seq!['|'], i - st);
                assert(tail.subrange(0, i - st) =~= toks.deep_view().subrange(
                    st as int,
                    i as int,
                ));
                assert(tail.subrange(i - st + 1, tail.len() as int) =~= toks.deep_view().skip(
                    i as int + 1,
                ));
                assert(tok_split(tail, seq!['|']) == seq![piece.deep_view()] + tok_split(
                    toks.deep_view().skip(i as int + 1),
                    seq!['|'],
                ));
            }
            r.push(piece);
            proof {
                assert(r.deep_view() =~= dv0.push(
                    toks.deep_view().subrange(st as int, i as int),
                ));
                assert(tok_split(whole, seq!['|']) =~= r.deep_view() + tok_split(
                    toks.deep_view().skip(i as int + 1),
                    seq!['|'],
                ));
            }
            st = i + 1;
        }
        i += 1;
    }
    let ghost tail = toks.deep_view().skip(st as int);
    let ghost dv0 = r.deep_view();
    let piece = sub_syms(toks, st, n);
    proof {
        assert forall|k: int| 0 <= k < tail.len() implies tail[k] != seq!['|'] by {
            assert(tail[k] == toks.deep_view()[st + k]);
        }
        lemma_tok_first_index_unique(tail, seq!['|'], tail.len() as int);
        assert(piece.deep_view() =~= tail);
        assert(tok_split(tail, seq!['|']) == seq![tail]);
    }
    r.push(piece);
    proof {
        assert(r.deep_view() =~= dv0.push(tail));
        assert(tok_split(whole, seq!['|']) =~= r.deep_view());
    }
    r
}

/// One line of the grammar text, as the productions it contributes.
fn parse_line(line: &String, lnum: usize) -> (r: Result<Vec<Production>, GrammarParseError>)
    ensures
        r is Ok <==> spec_line_ok(line@),
        r is Ok ==> r.unwrap().deep_view() == spec_line_prods(line@),
{
    let ghost toks_spec = spec_tokens(line@);
    let trimmed = trim_str(line.as_str());
    let toks = split_str(trimmed.as_str(), ' ');
    proof {
        assert(toks.deep_view() == toks_spec);
        reveal_strlit("->");
        reveal_strlit("#");
        assert("->"@ =~= seq!['-', '>']);
        assert("#"@ =~= seq!['#']);
    }
    if toks.len() < 3 || !str_eq(toks[1].as_str(), "->") {
        return Err(GrammarParseError::MissingArrow { line: lnum });
    }
    let mut k: usize = 0;
    while k < toks.len()
        invariant
            k <= toks.len(),
            toks.deep_view() == toks_spec,
            forall|j: int| 0 <= j < k ==> (#[trigger] toks_spec[j]).len() > 0,
        decreases toks.len() - k,
    {
        if toks[k].as_str().unicode_len() == 0 {
            assert((spec_tokens(line@)[k as int]).len() == 0);
            assert(!spec_line_ok(line@));
            return Err(GrammarParseError::EmptySymbol { line: lnum });
        }
        k += 1;
    }
    proof {
        reveal_strlit("#");
    }
    if str_eq(toks[0].as_str(), "#") {
        return Err(GrammarParseError::MisplacedEpsilon { line: lnum });
    }
    let alts = split_alternatives(&toks, 2);
    let ghost alts_spec = spec_alternatives(line@);
    proof {
        assert(toks_spec.skip(2) == toks.deep_view().skip(2));
        assert(alts.deep_view() == alts_spec);
    }
    let mut prods: Vec<Production> = Vec::new();
    let mut a: usize = 0;
    proof {
        assert(prods.deep_view() =~= alts_spec.take(0).map_values(
            |alt: Seq<Seq<char>>| ProductionModel { lhs: toks_spec[0], rhs: alt },
        ));
    }
    while a < alts.len()
        invariant
            a <= alts.len(),
            toks.len() >= 1,
            toks.deep_view() == toks_spec,
            alts.deep_view() == alts_spec,
            forall|x: int| 0 <= x < a ==> (#[trigger] alts_spec[x]).len() >= 1,
            forall|x: int, j: int|
                0 <= x < a && 0 <= j < alts_spec[x].len() && #[trigger] alts_spec[x][j]
                    == seq!['#'] ==> alts_spec[x].len() == 1,
            prods.deep_view() == alts_spec.take(a as int).map_values(
                |alt: Seq<Seq<char>>| ProductionModel { lhs: toks_spec[0], rhs: alt },
            ),
        decreases alts.len() - a,
    {
        let alt = &alts[a];
        if alt.len() == 0 {
            assert((spec_alternatives(line@)[a as int]).len() == 0);
            assert(!spec_line_ok(line@));
            return Err(GrammarParseError::EmptySymbol { line: lnum });
        }
        proof {
            reveal_strlit("#");
            assert("#"@ =~= seq!['#']);
        }
        if alt.len() >= 2 {
            let mut j: usize = 0;
            while j < alt.len()
                invariant
                    j <= alt.len(),
                    alts.deep_view() == alts_spec,
                    a < alts.len(),
                    alt == alts[a as int],
                    forall|x: int| 0 <= x < j ==> (#[trigger] alt.deep_view()[x]) != seq!['#'],
                decreases alt.len() - j,
            {
                proof {
                    reveal_strlit("#");
                    assert("#"@ =~= seq!['#']);
                }
                if str_eq(alt[j].as_str(), "#") {
                    assert((spec_alternatives(line@)[a as int])[j as int] == seq!['#']);
                    assert((spec_alternatives(line@)[a as int]).len() >= 2);
                    assert(!spec_line_ok(line@));
                    return Err(GrammarParseError::MisplacedEpsilon { line: lnum });
                }
                j += 1;
            }
            proof {
                assert forall|j: int|
                    0 <= j < alts_spec[a as int].len() implies (#[trigger] alts_spec[a as int][j])
                    != seq!['#'] by {
                    assert(alt.deep_view()[j] == alts_spec[a as int][j]);
                }
            }
        }
        let ghost dv0 = prods.deep_view();
        let p = Production { symbol: toks[0].clone(), value: clone_syms(alt) };
        proof {
            assert(p@ =~~= (ProductionModel { lhs: toks_spec[0], rhs: alts_spec[a as int] }));
        }
        prods.push(p);
        proof {
            assert(prods.deep_view() =~= dv0.push(
                ProductionModel { lhs: toks_spec[0], rhs: alts_spec[a as int] },
            ));
            assert(alts_spec.take(a + 1).map_values(
                |alt: Seq<Seq<char>>| ProductionModel { lhs: toks_spec[0], rhs: alt },
            ) =~= alts_spec.take(a as int).map_values(
                |alt: Seq<Seq<char>>| ProductionModel { lhs: toks_spec[0], rhs: alt },
            ).push(ProductionModel { lhs: toks_spec[0], rhs: alts_spec[a as int] }));
        }
        a += 1;
    }
    proof {
        assert(alts_spec.take(alts_spec.len() as int) =~= alts_spec);
        assert(prods.deep_view() == spec_line_prods(line@));
    }
    Ok(prods)
}

/// The grammar text as a start symbol and a production list, before any
/// normalization: one production per alternative, line order kept, the
/// first line's left-hand side the start symbol.
pub fn read_cfg(input: &str) -> (r: Result<(String, Vec<Production>), GrammarParseError>)
    ensures
        r is Ok <==> spec_parse_grammar(input@) is Some,
        r is Ok ==> spec_parse_grammar(input@) == Some(
            (r.unwrap().0@, r.unwrap().1.deep_view()),
        ),
{
    let ghost ls = spec_lines(input@);
    let mut lines = split_str(input, '\n');
    if lines.len() > 1 && lines[lines.len() - 1].as_str().unicode_len() == 0 {
        let _ = lines.pop();
        proof {
            assert(lines.deep_view() =~= ls);
        }
    }
    proof {
        assert(lines.deep_view() == ls);
        lemma_spec_split_len(input@, '\n');
    }
    let mut prods: Vec<Production> = Vec::new();
    let mut start: String = String::new();
    let mut l: usize = 0;
    proof {
        assert(prods.deep_view() =~= spec_prods_of_lines(ls, 0));
    }
    while l < lines.len()
        invariant
            l <= lines.len(),
            lines.deep_view() == ls,
            forall|x: int| 0 <= x < l ==> spec_line_ok(#[trigger] ls[x]),
            prods.deep_view() == spec_prods_of_lines(ls, l as int),
            l > 0 ==> start@ == spec_tokens(ls[0])[0],
        decreases lines.len() - l,
    {
        let line_prods = match parse_line(&lines[l], l + 1) {
            Ok(ps) => ps,
            Err(e) => {
                assert(!spec_line_ok(spec_lines(input@)[l as int]));
                assert(spec_parse_grammar(input@) is None);
                return Err(e);
            },
        };
        if l == 0 {
            proof {
                lemma_tok_split_len(spec_tokens(ls[0]).skip(2), seq!['|']);
                assert(spec_line_prods(ls[0]).len() >= 1);
            }
            start = line_prods[0].symbol.clone();
            proof {
                assert(line_prods.deep_view()[0].lhs == spec_tokens(ls[0])[0]);
            }
        }
        let ghost dv0 = prods.deep_view();
        let mut q: usize = 0;
        while q < line_prods.len()
            invariant
                q <= line_prods.len(),
                l < lines.len(),
                lines.deep_view() == ls,
                line_prods.deep_view() == spec_line_prods(ls[l as int]),
                prods.deep_view() == dv0 + spec_line_prods(ls[l as int]).take(q as int),
            decreases line_prods.len() - q,
        {
            let ghost dv1 = prods.deep_view();
            prods.push(line_prods[q].dup());
            proof {
                assert(prods.deep_view() =~= dv1.push(line_prods.deep_view()[q as int]));
                assert(dv0 + spec_line_prods(ls[l as int]).take(q + 1) =~= (dv0 + spec_line_prods(
                    ls[l as int],
                ).take(q as int)).push(line_prods.deep_view()[q as int]));
            }
            q += 1;
        }
        proof {
            assert(spec_line_prods(ls[l as int]).take(line_prods.len() as int)
                =~= spec_line_prods(ls[l as int]));
            assert(prods.deep_view() =~= spec_prods_of_lines(ls, l + 1));
        }
        l += 1;
    }
    proof {
        assert(spec_parse_grammar(input@) is Some);
        assert(spec_parse_grammar(input@) == Some((start@, prods.deep_view())));
    }
    Ok((start, prods))
}

// ---------------------------------------------------------------------
// Normalization helpers
// ---------------------------------------------------------------------

/// The grammar model of a start symbol and a production list, before
/// the triplet index exists.
pub open spec fn pm(start: Seq<char>, prods: Seq<ProductionModel>) -> GrammarModel {
    GrammarModel { start: start, prods: prods, triplets: Seq::empty() }
}

impl GrammarModel {
    /// Every symbol anywhere in the grammar is non-empty.
    pub open spec fn syms_nonempty(self) -> bool {
        &&& self.start.len() >= 1
        &&& forall|i: int|
            0 <= i < self.prods.len() ==> (#[trigger] self.prods[i]).lhs.len() >= 1
        &&& forall|i: int, j: int|
            0 <= i < self.prods.len() && 0 <= j < self.prods[i].rhs.len() ==> (
            #[trigger] self.prods[i].rhs[j]).len() >= 1
    }

    /// The epsilon marker occurs only as the whole right-hand side of a
    /// null production.
    pub open spec fn hash_confined(self) -> bool {
        forall|i: int, j: int|
            0 <= i < self.prods.len() && 0 <= j < self.prods[i].rhs.len()
                && #[trigger] self.prods[i].rhs[j] == seq!['#'] ==> self.prods[i].is_null()
    }

    /// No left-hand side is the epsilon marker, nor is the start symbol.
    pub open spec fn lhs_not_hash(self) -> bool {
        &&& self.start != seq!['#']
        &&& forall|i: int|
            0 <= i < self.prods.len() ==> (#[trigger] self.prods[i]).lhs != seq!['#']
    }
}

/// Whether `name` is the left-hand side of one of `prods`.
pub fn is_variable_in(prods: &Vec<Production>, name: &str) -> (r: bool)
    ensures
        r == sp_is_var(prods.deep_view(), name@),
{
    let mut i: usize = 0;
    while i < prods.len()
        invariant
            i <= prods.len(),
            forall|k: int| 0 <= k < i ==> (#[trigger] prods.deep_view()[k]).lhs != name@,
        decreases prods.len() - i,
    {
        if str_eq(prods[i].symbol.as_str(), name) {
            assert(prods.deep_view()[i as int].lhs == name@);
            return true;
        }
        i += 1;
    }
    false
}

/// Whether `name` occurs on some right-hand side of `prods`.
fn on_rhs_in(prods: &Vec<Production>, name: &str) -> (r: bool)
    ensures
        r == sp_on_rhs(prods.deep_view(), name@),
{
    let mut i: usize = 0;
    while i < prods.len()
        invariant
            i <= prods.len(),
            forall|k: int, j: int|
                0 <= k < i && 0 <= j < prods.deep_view()[k].rhs.len() ==> (
                #[trigger] prods.deep_view()[k].rhs[j]) != name@,
        decreases prods.len() - i,
    {
        if sym_in(&prods[i].value, name) {
            proof {
                let dv = prods.deep_view();
                let j = choose|j: int|
                    0 <= j < prods[i as int].value.deep_view().len()
                        && prods[i as int].value.deep_view()[j] == name@;
                assert(dv[i as int].rhs[j] == name@);
                assert(sp_on_rhs(dv, name@));
            }
            return true;
        }
        i += 1;
    }
    false
}

/// Whether `name` occurs anywhere in the grammar: as the start symbol,
/// a left-hand side, or on a right-hand side.
fn occurs_in(start: &String, prods: &Vec<Production>, name: &str) -> (r: bool)
    ensures
        r == pm(start@, prods.deep_view()).occurs(name@),
{
    str_eq(start.as_str(), name) || is_variable_in(prods, name) || on_rhs_in(prods, name)
}

/// An upper bound on the length of every symbol in the grammar.
fn max_sym_len(start: &String, prods: &Vec<Production>) -> (m: usize)
    ensures
        start@.len() <= m,
        forall|i: int|
            0 <= i < prods.deep_view().len() ==> (#[trigger] prods.deep_view()[i]).lhs.len() <= m,
        forall|i: int, j: int|
            0 <= i < prods.deep_view().len() && 0 <= j < prods.deep_view()[i].rhs.len() ==> (
            #[trigger] prods.deep_view()[i].rhs[j]).len() <= m,
{
    let mut m = start.as_str().unicode_len();
    let mut i: usize = 0;
    while i < prods.len()
        invariant
            i <= prods.len(),
            start@.len() <= m,
            forall|k: int|
                0 <= k < i ==> (#[trigger] prods.deep_view()[k]).lhs.len() <= m,
            forall|k: int, j: int|
                0 <= k < i && 0 <= j < prods.deep_view()[k].rhs.len() ==> (
                #[trigger] prods.deep_view()[k].rhs[j]).len() <= m,
        decreases prods.len() - i,
    {
        let l = prods[i].symbol.as_str().unicode_len();
        if l > m {
            m = l;
        }
        let mut j: usize = 0;
        while j < prods[i].value.len()
            invariant
                j <= prods[i as int].value.len(),
                i < prods.len(),
                start@.len() <= m,
                forall|k: int|
                    0 <= k <= i ==> (#[trigger] prods.deep_view()[k]).lhs.len() <= m,
                forall|k: int, x: int|
                    0 <= k < i && 0 <= x < prods.deep_view()[k].rhs.len() ==> (
                    #[trigger] prods.deep_view()[k].rhs[x]) .len() <= m,
                forall|x: int|
                    0 <= x < j ==> (#[trigger] prods.deep_view()[i as int].rhs[x]).len() <= m,
            decreases prods[i as int].value.len() - j,
        {
            let l2 = prods[i].value[j].as_str().unicode_len();
            if l2 > m {
                m = l2;
            }
            assert(prods.deep_view()[i as int].rhs[j as int].len() <= m);
            j += 1;
        }
        i += 1;
    }
    m
}

/// A name not occurring anywhere in the grammar: `base`, extended with
/// back-ticks until it is free.
fn fresh_name(start: &String, prods: &Vec<Production>, base: String) -> (r: String)
    ensures
        !pm(start@, prods.deep_view()).occurs(r@),
        backtick_extension(base@, r@),
        r@.len() >= base@.len(),
        forall|l: int|
            base@.len() <= l < r@.len() ==> pm(start@, prods.deep_view()).occurs(
                #[trigger] r@.subrange(0, l),
            ),
{
    let m = max_sym_len(start, prods);
    let mut cand = base;
    proof {
        reveal_strlit("`");
        assert("`"@ =~= seq!['`']);
        assert(cand@.subrange(0, cand@.len() as int) =~= cand@);
    }
    while occurs_in(start, prods, cand.as_str())
        invariant
            backtick_extension(base@, cand@),
            cand@.len() >= base@.len(),
            cand@.len() == base@.len() || cand@.len() <= m + 1,
            forall|l: int|
                base@.len() <= l < cand@.len() ==> pm(start@, prods.deep_view()).occurs(
                    #[trigger] cand@.subrange(0, l),
                ),
        decreases m + 1 - cand@.len(),
    {
        assert(cand@.len() <= m);
        let ghost c0 = cand@;
        cand = cand.concat("`");
        proof {
            assert(cand@.subrange(0, base@.len() as int) =~= c0.subrange(
                0,
                base@.len() as int,
            ));
            // every strictly shorter candidate was found in use
            assert forall|l: int|
                base@.len() <= l < cand@.len() implies pm(start@, prods.deep_view()).occurs(
                    #[trigger] cand@.subrange(0, l),
                ) by {
                assert(cand@.subrange(0, l) =~= c0.subrange(0, l));
                if l < c0.len() {
                    assert(pm(start@, prods.deep_view()).occurs(c0.subrange(0, l)));
                } else {
                    assert(c0.subrange(0, l) =~= c0);
                }
            }
        }
    }
    cand
}

/// `r` is `base` with zero or more back-ticks appended.
pub open spec fn backtick_extension(base: Seq<char>, r: Seq<char>) -> bool {
    &&& r.len() >= base.len()
    &&& r.subrange(0, base.len() as int) == base
    &&& forall|j: int| base.len() <= j < r.len() ==> r[j] == '`'
}

/// A production fit for insertion during epsilon-elimination: non-empty
/// sides, no epsilon marker anywhere, and the start symbol on no
/// right-hand side.
pub open spec fn good_variant(q: ProductionModel, start: Seq<char>) -> bool {
    &&& q.rhs.len() >= 1
    &&& q.lhs.len() >= 1
    &&& q.lhs != seq!['#']
    &&& forall|k: int|
        0 <= k < q.rhs.len() ==> (#[trigger] q.rhs[k]).len() >= 1 && q.rhs[k] != start && q.rhs[k]
            != seq!['#']
}

impl GrammarModel {
    /// The epsilon marker occurs nowhere on a right-hand side.
    pub open spec fn hash_free(self) -> bool {
        forall|i: int, j: int|
            0 <= i < self.prods.len() && 0 <= j < self.prods[i].rhs.len() ==> (
            #[trigger] self.prods[i].rhs[j]) != seq!['#']
    }

    /// The predicates every normalization pass keeps intact.
    pub open spec fn tidy(self) -> bool {
        &&& self.rhs_nonempty()
        &&& self.syms_nonempty()
        &&& self.lhs_not_hash()
        &&& self.start_isolated()
    }
}

/// What start-symbol isolation does: either the start symbol stood on
/// no right-hand side and nothing changed, or a fresh start symbol —
/// the old one extended with back-ticks, occurring nowhere — took its
/// place, with the single new production `new -> old` appended.
pub open spec fn start_isolation_rel(
    s0: Seq<char>,
    p0: Seq<ProductionModel>,
    s1: Seq<char>,
    p1: Seq<ProductionModel>,
) -> bool {
    if !sp_on_rhs(p0, s0) {
        s1 == s0 && p1 == p0
    } else {
        &&& backtick_extension(s0.push('`'), s1)
        &&& !pm(s0, p0).occurs(s1)
        &&& forall|l: int|
            s0.len() + 1 <= l < s1.len() ==> pm(s0, p0).occurs(#[trigger] s1.subrange(0, l))
        &&& p1 == p0.push((ProductionModel { lhs: s1, rhs: seq![s0] }))
    }
}

/// Start-symbol isolation: when the start symbol occurs on some
/// right-hand side, a fresh start symbol with the single production
/// `new -> old` takes its place; otherwise nothing changes.
pub fn remove_start_symbol(start: &mut String, prods: &mut Vec<Production>)
    ensures
        pm(final (start)@, final (prods).deep_view()).start_isolated(),
        start_isolation_rel(
            old(start)@,
            old(prods).deep_view(),
            final (start)@,
            final (prods).deep_view(),
        ),
{
    let ghost g0 = pm(start@, prods.deep_view());
    if !on_rhs_in(prods, start.as_str()) {
        return ;
    }
    let base = start.clone().concat("`");
    let fresh = fresh_name(start, prods, base);
    proof {
        reveal_strlit("`");
        assert("`"@ =~= seq!['`']);
        assert(base@.len() == start@.len() + 1);
        assert(base@ =~= g0.start.push('`'));
        assert(backtick_extension(g0.start.push('`'), fresh@));
    }
    let old_start = start.clone();
    *start = fresh;
    let ghost dv0 = prods.deep_view();
    let p = Production { symbol: start.clone(), value: vec![old_start] };
    proof {
        assert(p@ =~~= (ProductionModel { lhs: start@, rhs: seq![g0.start] }));
    }
    prods.push(p);
    proof {
        assert(prods.deep_view() =~= dv0.push(
            (ProductionModel { lhs: start@, rhs: seq![g0.start] }),
        ));
        let gf = pm(start@, prods.deep_view());
        assert forall|i: int, j: int|
            0 <= i < gf.prods.len() && 0 <= j < gf.prods[i].rhs.len() implies gf.prods[i].rhs[j]
            != gf.start by {
            if i < dv0.len() {
                assert(g0.prods[i].rhs[j] != gf.start);
            } else {
                assert(gf.prods[i].rhs[j] == g0.start);
            }
        }
    }
}

/// A sequence of distinct variables of `prods` can have no more
/// members than `prods` has productions.
proof fn lemma_distinct_vars_bound(v: Seq<Seq<char>>, prods: Seq<ProductionModel>)
    requires
        v.no_duplicates(),
        forall|i: int| 0 <= i < v.len() ==> sp_is_var(prods, #[trigger] v[i]),
    ensures
        v.len() <= prods.len(),
{
    broadcast use vstd::seq_lib::group_seq_lib_default;

    let lhss = prods.map_values(|p: ProductionModel| p.lhs);
    v.unique_seq_to_set();
    lhss.lemma_cardinality_of_set();
    assert forall|e: Seq<char>| v.to_set().contains(e) implies lhss.to_set().contains(e) by {
        let i = choose|i: int| 0 <= i < v.len() && v[i] == e;
        assert(sp_is_var(prods, v[i]));
        let j = choose|j: int| 0 <= j < prods.len() && (#[trigger] prods[j]).lhs == v[i];
        assert(lhss[j] == e);
        assert(lhss.contains(e));
    }
    assert(v.to_set().subset_of(lhss.to_set()));
    vstd::set_lib::lemma_len_subset(v.to_set(), lhss.to_set());
}

/// Epsilon-elimination: for every variable with a `X -> #` production,
/// the deletion variants of every production whose right-hand side
/// mentions `X` are inserted (duplicates suppressed); all null
/// productions are then deleted.
/// The productions that are not null, as a filter predicate.
pub open spec fn non_null_pred() -> spec_fn(ProductionModel) -> bool {
    |q: ProductionModel| !q.is_null()
}

/// The left-hand symbols of the null productions among the first
/// `upto` entries of `p0`, in order.
pub open spec fn null_lhs_upto(p0: Seq<ProductionModel>, upto: int) -> Seq<Seq<char>>
    decreases upto,
{
    if upto <= 0 {
        Seq::empty()
    } else if p0[upto - 1].is_null() {
        null_lhs_upto(p0, upto - 1).push(p0[upto - 1].lhs)
    } else {
        null_lhs_upto(p0, upto - 1)
    }
}

/// The directly-nullable variables of `p0`, one per null production,
/// in production order: the order epsilon-elimination processes them.
pub open spec fn null_lhs_seq(p0: Seq<ProductionModel>) -> Seq<Seq<char>> {
    null_lhs_upto(p0, p0.len() as int)
}

/// Entry `a` of `next` could be inserted while processing `x`: it is a
/// deletion variant of an entry of the round's list, and no earlier
/// entry equals it.
pub open spec fn sp_round_insertable(
    cur: Seq<ProductionModel>,
    next: Seq<ProductionModel>,
    a: int,
    x: Seq<char>,
) -> bool {
    &&& exists|pi: int|
        0 <= pi < cur.len() && a < next.len() && #[trigger] spec_null_variants(
            cur[pi],
            x,
        ).contains(next[a])
    &&& forall|a2: int| 0 <= a2 < a ==> next[a2] != next[a]
}

/// One round of epsilon-elimination, for the variable `x`: the
/// round's list stands unchanged in front; everything appended is a
/// deletion variant of an entry of that list, duplicates suppressed;
/// and for every entry of that list mentioning `x`, all of its
/// deletion variants are present afterwards.
pub open spec fn null_round_rel(
    cur: Seq<ProductionModel>,
    x: Seq<char>,
    next: Seq<ProductionModel>,
) -> bool {
    &&& cur.len() <= next.len()
    &&& forall|a: int| 0 <= a < cur.len() ==> #[trigger] next[a] == cur[a]
    &&& forall|a: int| cur.len() <= a < next.len() ==> sp_round_insertable(cur, next, a, x)
    &&& forall|i: int, v: ProductionModel|
        0 <= i < cur.len() && cur[i].rhs.contains(x) && #[trigger] spec_null_variants(
            cur[i],
            x,
        ).contains(v) ==> next.contains(v)
}

/// A chain of snapshots from `p0` to `mid`: one round per
/// directly-nullable variable of `p0`, in production order, each round
/// working on the list the previous rounds built.
pub open spec fn null_chain_ok(
    p0: Seq<ProductionModel>,
    mid: Seq<ProductionModel>,
    snaps: Seq<Seq<ProductionModel>>,
) -> bool {
    let xs = null_lhs_seq(p0);
    &&& snaps.len() == xs.len() + 1
    &&& snaps[0] == p0
    &&& snaps[xs.len() as int] == mid
    &&& forall|t: int|
        0 <= t < xs.len() ==> null_round_rel(#[trigger] snaps[t], xs[t], snaps[t + 1])
}

/// The list epsilon-elimination has built before its deletion sweep:
/// some snapshot chain witnesses the rounds.
pub open spec fn null_mid_ok(p0: Seq<ProductionModel>, mid: Seq<ProductionModel>) -> bool {
    exists|snaps: Seq<Seq<ProductionModel>>| #[trigger] null_chain_ok(p0, mid, snaps)
}

/// What epsilon-elimination does: some such intermediate list exists,
/// and the result is that list with exactly the null productions
/// removed, order kept.
pub open spec fn null_elimination_rel(p0: Seq<ProductionModel>, p1: Seq<ProductionModel>) -> bool {
    exists|mid: Seq<ProductionModel>|
        #[trigger] null_mid_ok(p0, mid) && p1 == mid.filter(non_null_pred())
}

/// Epsilon-elimination: for every variable with a `X -> #` production,
/// the deletion variants of every production whose right-hand side
/// mentions `X` are inserted (duplicates suppressed); all null
/// productions are then deleted.
#[verifier::rlimit(100)]
#[verifier::spinoff_prover]
pub fn remove_null_productions(start: &String, prods: &mut Vec<Production>)
    requires
        pm(start@, old(prods).deep_view()).tidy(),
        pm(start@, old(prods).deep_view()).hash_confined(),
    ensures
        pm(start@, final (prods).deep_view()).tidy(),
        pm(start@, final (prods).deep_view()).no_null(),
        pm(start@, final (prods).deep_view()).hash_free(),
        null_elimination_rel(old(prods).deep_view(), final (prods).deep_view()),
{
    let ghost pre = old(prods).deep_view();
    proof {
        reveal_strlit("#");
        assert("#"@ =~= seq!['#']);
    }
    // The variables that are directly nullable now, in production order
    let mut nullable: Vec<String> = Vec::new();
    let mut i: usize = 0;
    while i < prods.len()
        invariant
            i <= prods.len(),
            *prods == *old(prods),
            nullable.deep_view() == null_lhs_upto(pre, i as int),
            forall|t: int|
                0 <= t < nullable.deep_view().len() ==> (#[trigger] nullable.deep_view()[t])
                    != seq!['#'] && nullable.deep_view()[t].len() >= 1,
        decreases prods.len() - i,
    {
        if prods[i].is_null() {
            let ghost nv0 = nullable.deep_view();
            nullable.push(prods[i].symbol.clone());
            proof {
                assert(nullable.deep_view() =~= nv0.push(prods.deep_view()[i as int].lhs));
            }
        }
        i += 1;
    }
    proof {
        assert(nullable.deep_view() == null_lhs_seq(pre));
    }
    // Insert the deletion variants, one nullable variable at a time,
    // each round working on the list the previous rounds built
    let ghost mut snaps: Seq<Seq<ProductionModel>> = seq![pre];
    let mut t: usize = 0;
    while t < nullable.len()
        invariant
            t <= nullable.len(),
            pm(start@, prods.deep_view()).tidy(),
            pm(start@, prods.deep_view()).hash_confined(),
            nullable.deep_view() == null_lhs_seq(pre),
            forall|tt: int|
                0 <= tt < nullable.deep_view().len() ==> (#[trigger] nullable.deep_view()[tt])
                    != seq!['#'] && nullable.deep_view()[tt].len() >= 1,
            snaps.len() == t + 1,
            snaps[0] == pre,
            snaps[t as int] == prods.deep_view(),
            forall|t2: int|
                0 <= t2 < t ==> null_round_rel(
                    #[trigger] snaps[t2],
                    nullable.deep_view()[t2],
                    snaps[t2 + 1],
                ),
        decreases nullable.len() - t,
    {
        let x = nullable[t].clone();
        proof {
            assert(x@ == nullable.deep_view()[t as int]);
        }
        let ghost cur0 = prods.deep_view();
        // Collect the variants of every production that mentions `x`,
        // remembering each variant's source production
        let mut new_prods: Vec<Production> = Vec::new();
        let ghost mut srcs: Seq<int> = Seq::empty();
        let mut i: usize = 0;
        while i < prods.len()
            invariant
                i <= prods.len(),
                x@ != seq!['#'],
                prods.deep_view() == cur0,
                pm(start@, prods.deep_view()).tidy(),
                pm(start@, prods.deep_view()).hash_confined(),
                srcs.len() == new_prods.deep_view().len(),
                forall|q: int|
                    0 <= q < new_prods.deep_view().len() ==> good_variant(
                        #[trigger] new_prods.deep_view()[q],
                        start@,
                    ),
                forall|q: int|
                    0 <= q < srcs.len() ==> 0 <= #[trigger] srcs[q] < cur0.len()
                        && spec_null_variants(cur0[srcs[q]], x@).contains(
                        new_prods.deep_view()[q],
                    ),
                forall|i2: int, v: ProductionModel|
                    0 <= i2 < i && cur0[i2].rhs.contains(x@) && #[trigger] spec_null_variants(
                        cur0[i2],
                        x@,
                    ).contains(v) ==> new_prods.deep_view().contains(v),
            decreases prods.len() - i,
        {
            if sym_in(&prods[i].value, x.as_str()) {
                let vars = prods[i].remove_null_production(x.as_str());
                proof {
                    let p = prods.deep_view()[i as int];
                    assert(!p.is_null()) by {
                        if p.is_null() {
                            let jj = choose|jj: int|
                                0 <= jj < p.rhs.len() && p.rhs[jj] == x@;
                            assert(p.rhs[jj] == seq!['#']);
                        }
                    }
                    assert forall|k: int|
                        0 <= k < p.rhs.len() implies p.rhs.contains(#[trigger] p.rhs[k]) by {}
                    lemma_permute_from(p.rhs, x@, p.rhs);
                    lemma_variant_prods_wf(p.lhs, crate::production::spec_permute(p.rhs, x@), p.rhs);
                    assert forall|q: int|
                        0 <= q < vars.deep_view().len() implies good_variant(
                            #[trigger] vars.deep_view()[q],
                            start@,
                        ) by {
                        let qm = vars.deep_view()[q];
                        assert(qm.lhs == p.lhs && qm.rhs.len() >= 1);
                        assert forall|k: int|
                            0 <= k < qm.rhs.len() implies (#[trigger] qm.rhs[k]).len() >= 1
                                && qm.rhs[k] != start@ && qm.rhs[k] != seq!['#'] by {
                            assert(p.rhs.contains(qm.rhs[k]));
                            let jj = choose|jj: int|
                                0 <= jj < p.rhs.len() && p.rhs[jj] == qm.rhs[k];
                            assert(prods.deep_view()[i as int].rhs[jj] == qm.rhs[k]);
                        }
                    }
                }
                let ghost np0 = new_prods.deep_view();
                let mut v: usize = 0;
                while v < vars.len()
                    invariant
                        v <= vars.len(),
                        i < prods.len(),
                        prods.deep_view() == cur0,
                        vars.deep_view() == spec_null_variants(cur0[i as int], x@),
                        srcs.len() == new_prods.deep_view().len(),
                        new_prods.deep_view().len() == np0.len() + v,
                        forall|q: int|
                            0 <= q < np0.len() ==> #[trigger] new_prods.deep_view()[q] == np0[q],
                        forall|w: int|
                            0 <= w < v ==> #[trigger] new_prods.deep_view()[np0.len() + w]
                                == vars.deep_view()[w],
                        forall|q: int|
                            0 <= q < vars.deep_view().len() ==> good_variant(
                                #[trigger] vars.deep_view()[q],
                                start@,
                            ),
                        forall|q: int|
                            0 <= q < new_prods.deep_view().len() ==> good_variant(
                                #[trigger] new_prods.deep_view()[q],
                                start@,
                            ),
                        forall|q: int|
                            0 <= q < srcs.len() ==> 0 <= #[trigger] srcs[q] < cur0.len()
                                && spec_null_variants(cur0[srcs[q]], x@).contains(
                                new_prods.deep_view()[q],
                            ),
                    decreases vars.len() - v,
                {
                    let ghost nv0 = new_prods.deep_view();
                    new_prods.push(vars[v].dup());
                    proof {
                        srcs = srcs.push(i as int);
                        assert(new_prods.deep_view() =~= nv0.push(vars.deep_view()[v as int]));
                        assert(spec_null_variants(cur0[i as int], x@).contains(
                            new_prods.deep_view()[srcs.len() - 1],
                        ));
                    }
                    v += 1;
                }
                proof {
                    assert forall|i2: int, vv: ProductionModel|
                        0 <= i2 < i + 1 && cur0[i2].rhs.contains(x@)
                            && #[trigger] spec_null_variants(cur0[i2], x@).contains(vv) implies
                        new_prods.deep_view().contains(vv) by {
                        if i2 < i {
                            let w = choose|w: int| 0 <= w < np0.len() && np0[w] == vv;
                            assert(new_prods.deep_view()[w] == vv);
                        } else {
                            let w = choose|w: int|
                                0 <= w < vars.deep_view().len() && vars.deep_view()[w] == vv;
                            assert(new_prods.deep_view()[np0.len() + w] == vv);
                        }
                    }
                }
            } else {
                proof {
                    assert(!cur0[i as int].rhs.contains(x@));
                    assert forall|i2: int, vv: ProductionModel|
                        0 <= i2 < i + 1 && cur0[i2].rhs.contains(x@)
                            && #[trigger] spec_null_variants(cur0[i2], x@).contains(vv) implies
                        new_prods.deep_view().contains(vv) by {
                        assert(i2 < i);
                    }
                }
            }
            i += 1;
        }
        // Insert them, suppressing exact duplicates
        let mut q: usize = 0;
        while q < new_prods.len()
            invariant
                q <= new_prods.len(),
                x@ != seq!['#'],
                pm(start@, prods.deep_view()).tidy(),
                pm(start@, prods.deep_view()).hash_confined(),
                prods.deep_view().len() >= cur0.len(),
                forall|a: int| 0 <= a < cur0.len() ==> #[trigger] prods.deep_view()[a] == cur0[a],
                forall|a: int|
                    cur0.len() <= a < prods.deep_view().len() ==> sp_round_insertable(
                        cur0,
                        prods.deep_view(),
                        a,
                        x@,
                    ),
                srcs.len() == new_prods.deep_view().len(),
                forall|qq: int|
                    0 <= qq < new_prods.deep_view().len() ==> good_variant(
                        #[trigger] new_prods.deep_view()[qq],
                        start@,
                    ),
                forall|qq: int|
                    0 <= qq < srcs.len() ==> 0 <= #[trigger] srcs[qq] < cur0.len()
                        && spec_null_variants(cur0[srcs[qq]], x@).contains(
                        new_prods.deep_view()[qq],
                    ),
                forall|i2: int, v: ProductionModel|
                    0 <= i2 < cur0.len() && cur0[i2].rhs.contains(x@)
                        && #[trigger] spec_null_variants(cur0[i2], x@).contains(v)
                        ==> new_prods.deep_view().contains(v),
                forall|qq: int|
                    0 <= qq < q ==> prods.deep_view().contains(
                        #[trigger] new_prods.deep_view()[qq],
                    ),
            decreases new_prods.len() - q,
        {
            let present = prods_contain(prods, &new_prods[q]);
            if !present {
                let ghost dv0 = prods.deep_view();
                let ghost qm = new_prods.deep_view()[q as int];
                prods.push(new_prods[q].dup());
                proof {
                    assert(prods.deep_view() =~= dv0.push(qm));
                    assert(good_variant(qm, start@));
                    let gf = pm(start@, prods.deep_view());
                    assert forall|a: int, b: int|
                        0 <= a < gf.prods.len() && 0 <= b < gf.prods[a].rhs.len() implies (
                    #[trigger] gf.prods[a].rhs[b]) != start@ && gf.prods[a].rhs[b].len() >= 1 by {
                        if a < dv0.len() {
                            assert(dv0[a].rhs[b] == gf.prods[a].rhs[b]);
                            assert(pm(start@, dv0).prods[a].rhs[b] != start@);
                            assert(pm(start@, dv0).prods[a].rhs[b].len() >= 1);
                        } else {
                            assert(gf.prods[a] == qm);
                        }
                    }
                    assert(gf.tidy());
                    assert forall|a: int, b: int|
                        0 <= a < gf.prods.len() && 0 <= b < gf.prods[a].rhs.len() && #[trigger] gf
                            .prods[a].rhs[b] == seq!['#'] implies gf.prods[a].is_null() by {
                        if a < dv0.len() {
                            assert(pm(start@, dv0).prods[a].rhs[b] == seq!['#']);
                            assert(pm(start@, dv0).prods[a].is_null());
                        } else {
                            assert(gf.prods[a] == qm);
                        }
                    }
                    assert(gf.hash_confined());
                    // the new entry is an allowed insertion for this round
                    let ghost pi = srcs[q as int];
                    assert(sp_round_insertable(cur0, prods.deep_view(), dv0.len() as int, x@))
                        by {
                        assert(spec_null_variants(cur0[pi], x@).contains(
                            prods.deep_view()[dv0.len() as int],
                        ));
                        assert forall|a2: int|
                            0 <= a2 < dv0.len() implies (#[trigger] prods.deep_view()[a2])
                            != prods.deep_view()[dv0.len() as int] by {
                            assert(dv0[a2] != qm);
                        }
                    }
                    // earlier entries stay allowed, earlier work stays present
                    assert forall|a: int|
                        cur0.len() <= a < prods.deep_view().len() implies sp_round_insertable(
                            cur0,
                            prods.deep_view(),
                            a,
                            x@,
                        ) by {
                        if a < dv0.len() {
                            assert(sp_round_insertable(cur0, dv0, a, x@));
                            let pi2 = choose|pi2: int|
                                0 <= pi2 < cur0.len() && a < dv0.len()
                                    && #[trigger] spec_null_variants(cur0[pi2], x@).contains(
                                    dv0[a],
                                );
                            assert(prods.deep_view()[a] == dv0[a]);
                            assert(spec_null_variants(cur0[pi2], x@).contains(
                                prods.deep_view()[a],
                            ));
                        }
                    }
                    assert forall|qq: int|
                        0 <= qq < q + 1 implies prods.deep_view().contains(
                            #[trigger] new_prods.deep_view()[qq],
                        ) by {
                        if qq < q {
                            assert(dv0.contains(new_prods.deep_view()[qq]));
                            let w = choose|w: int|
                                0 <= w < dv0.len() && dv0[w] == new_prods.deep_view()[qq];
                            assert(prods.deep_view()[w] == new_prods.deep_view()[qq]);
                        } else {
                            assert(prods.deep_view()[dv0.len() as int]
                                == new_prods.deep_view()[qq]);
                        }
                    }
                }
            }
            q += 1;
        }
        proof {
            // this round is complete: all variants over its list are in
            assert forall|i2: int, v: ProductionModel|
                0 <= i2 < cur0.len() && cur0[i2].rhs.contains(x@) && #[trigger] spec_null_variants(
                    cur0[i2],
                    x@,
                ).contains(v) implies prods.deep_view().contains(v) by {
                assert(new_prods.deep_view().contains(v));
                let w = choose|w: int|
                    0 <= w < new_prods.deep_view().len() && new_prods.deep_view()[w] == v;
                assert(prods.deep_view().contains(new_prods.deep_view()[w]));
            }
            assert(null_round_rel(cur0, x@, prods.deep_view()));
            let ghost snaps0 = snaps;
            snaps = snaps.push(prods.deep_view());
            assert(snaps.len() == t + 2);
            assert(snaps[0] == pre);
            assert(snaps[t + 1] == prods.deep_view());
            assert forall|t2: int|
                0 <= t2 < t + 1 implies null_round_rel(
                    #[trigger] snaps[t2],
                    nullable.deep_view()[t2],
                    snaps[t2 + 1],
                ) by {
                if t2 < t {
                    assert(snaps[t2] == snaps0[t2]);
                    assert(snaps[t2 + 1] == snaps0[t2 + 1]);
                } else {
                    assert(snaps[t2] == snaps0[t2]);
                    assert(snaps0[t as int] == cur0);
                }
            }
        }
        t += 1;
    }
    // Delete every null production
    let ghost mid = prods.deep_view();
    proof {
        assert(null_chain_ok(pre, mid, snaps)) by {
            assert(nullable.deep_view() == null_lhs_seq(pre));
            assert(snaps.len() == null_lhs_seq(pre).len() + 1);
            assert(snaps[null_lhs_seq(pre).len() as int] == mid);
        }
        assert(null_mid_ok(pre, mid));
    }
    let mut kept: Vec<Production> = Vec::new();
    let mut i: usize = 0;
    proof {
        assert(mid.take(0) =~= Seq::<ProductionModel>::empty());
        assert(kept.deep_view() =~= mid.take(0).filter(non_null_pred()));
    }
    while i < prods.len()
        invariant
            i <= prods.len(),
            prods.deep_view() == mid,
            pm(start@, prods.deep_view()).tidy(),
            pm(start@, prods.deep_view()).hash_confined(),
            pm(start@, kept.deep_view()).tidy(),
            pm(start@, kept.deep_view()).no_null(),
            pm(start@, kept.deep_view()).hash_free(),
            kept.deep_view() == mid.take(i as int).filter(non_null_pred()),
        decreases prods.len() - i,
    {
        let ghost kv0 = kept.deep_view();
        let ghost qm = prods.deep_view()[i as int];
        proof {
            reveal_with_fuel(Seq::filter, 2);
            assert(mid.take(i + 1).drop_last() =~= mid.take(i as int));
            assert(mid.take(i + 1).last() == qm);
            assert(non_null_pred()(qm) == !qm.is_null());
            assert(mid.take(i + 1).filter(non_null_pred()) == (if non_null_pred()(qm) {
                mid.take(i as int).filter(non_null_pred()).push(qm)
            } else {
                mid.take(i as int).filter(non_null_pred())
            }));
        }
        if !prods[i].is_null() {
            kept.push(prods[i].dup());
            proof {
                assert(kept.deep_view() =~= kv0.push(qm));
                let gf = pm(start@, kept.deep_view());
                let gp = pm(start@, prods.deep_view());
                assert forall|a: int, b: int|
                    0 <= a < gf.prods.len() && 0 <= b < gf.prods[a].rhs.len() implies (
                #[trigger] gf.prods[a].rhs[b]) != start@ && gf.prods[a].rhs[b] != seq!['#']
                    && gf.prods[a].rhs[b].len() >= 1 by {
                    if a < kv0.len() {
                        assert(pm(start@, kv0).prods[a].rhs[b] != start@);
                        assert(pm(start@, kv0).prods[a].rhs[b] != seq!['#']);
                    } else {
                        assert(gf.prods[a] == qm);
                        assert(gp.prods[i as int].rhs[b] == qm.rhs[b]);
                        assert(qm.rhs[b] != seq!['#']) by {
                            if qm.rhs[b] == seq!['#'] {
                                assert(gp.prods[i as int].is_null());
                            }
                        }
                    }
                }
                assert(gf.tidy());
                assert(gf.no_null());
                assert(gf.hash_free());
            }
        }
        i += 1;
    }
    *prods = kept;
    proof {
        assert(mid.take(mid.len() as int) =~= mid);
        assert(prods.deep_view() == mid.filter(non_null_pred()));
        assert(null_elimination_rel(pre, prods.deep_view()));
    }
}

/// A unit edge: a production `b -> c` whose single right-hand symbol
/// `c` is itself a variable.
pub open spec fn unit_step(prods: Seq<ProductionModel>, b: Seq<char>, c: Seq<char>) -> bool {
    exists|i: int|
        0 <= i < prods.len() && (#[trigger] prods[i]).lhs == b && prods[i].rhs.len() == 1
            && prods[i].rhs[0] == c && sp_is_var(prods, c)
}

/// `c` is reachable from `b` in exactly `n` unit edges.
pub open spec fn unit_reach_n(
    prods: Seq<ProductionModel>,
    b: Seq<char>,
    c: Seq<char>,
    n: nat,
) -> bool
    decreases n,
{
    if n == 0 {
        b == c
    } else {
        exists|m: Seq<char>|
            #[trigger] unit_step(prods, m, c) && unit_reach_n(prods, b, m, (n - 1) as nat)
    }
}

/// `c` is reachable from `b` along unit edges, `b` itself included.
#[verifier::opaque]
pub open spec fn sp_unit_reach(prods: Seq<ProductionModel>, b: Seq<char>, c: Seq<char>) -> bool {
    exists|n: nat| unit_reach_n(prods, b, c, n)
}

/// Production `i` of `prods` is a unit production.
pub open spec fn sp_is_unit(prods: Seq<ProductionModel>, i: int) -> bool {
    &&& 0 <= i < prods.len()
    &&& prods[i].rhs.len() == 1
    &&& sp_is_var(prods, prods[i].rhs[0])
}

/// The productions that are not unit productions of `p0`, as a filter
/// predicate.
pub open spec fn non_unit_pred(p0: Seq<ProductionModel>) -> spec_fn(ProductionModel) -> bool {
    |q: ProductionModel| !(q.rhs.len() == 1 && sp_is_var(p0, q.rhs[0]))
}

/// `q` is a copy unit-elimination may add: the left-hand symbol of a
/// unit production, over the right-hand side of a non-unit production
/// of a variable unit-reachable from the unit production's target.
pub open spec fn sp_unit_copy(p0: Seq<ProductionModel>, q: ProductionModel) -> bool {
    exists|i0: int, j: int|
        #![trigger p0[i0], p0[j]]
        sp_is_unit(p0, i0) && 0 <= j < p0.len() && !sp_is_unit(p0, j) && sp_unit_reach(
            p0,
            p0[i0].rhs[0],
            p0[j].lhs,
        ) && q == (ProductionModel { lhs: p0[i0].lhs, rhs: p0[j].rhs })
}

/// The copies unit-elimination appends: each one an allowed copy, new
/// to the old list, pairwise distinct; and every owed copy is present
/// among the old non-unit productions or the appended ones.
pub open spec fn unit_adds_ok(p0: Seq<ProductionModel>, adds: Seq<ProductionModel>) -> bool {
    &&& forall|a: int| 0 <= a < adds.len() ==> sp_unit_copy(p0, #[trigger] adds[a])
    &&& forall|a: int| 0 <= a < adds.len() ==> !p0.contains(#[trigger] adds[a])
    &&& forall|a1: int, a2: int|
        #![trigger adds[a1], adds[a2]]
        0 <= a1 < a2 < adds.len() ==> adds[a1] != adds[a2]
    &&& forall|i0: int, j: int|
        sp_is_unit(p0, i0) && 0 <= j < p0.len() && !sp_is_unit(p0, j) && #[trigger] sp_unit_reach(
            p0,
            p0[i0].rhs[0],
            p0[j].lhs,
        ) ==> p0.contains((ProductionModel { lhs: p0[i0].lhs, rhs: p0[j].rhs }))
            || adds.contains((ProductionModel { lhs: p0[i0].lhs, rhs: p0[j].rhs }))
}

/// What unit-elimination does: the non-unit productions are kept in
/// order, and such a sequence of copies is appended.
pub open spec fn unit_elimination_rel(p0: Seq<ProductionModel>, p1: Seq<ProductionModel>) -> bool {
    exists|adds: Seq<ProductionModel>|
        #[trigger] unit_adds_ok(p0, adds) && p1 == p0.filter(non_unit_pred(p0)) + adds
}

/// A worklist that holds `from` and is closed under unit edges holds
/// every symbol unit-reachable from `from`.
proof fn lemma_unit_bfs_complete(
    prods: Seq<ProductionModel>,
    from: Seq<char>,
    rv: Seq<Seq<char>>,
    c: Seq<char>,
    n: nat,
)
    requires
        rv.contains(from),
        forall|t: int, j2: int|
            #![trigger rv[t], prods[j2]]
            0 <= t < rv.len() && 0 <= j2 < prods.len() && prods[j2].lhs == rv[t]
                && prods[j2].rhs.len() == 1 && sp_is_var(prods, prods[j2].rhs[0]) ==> rv.contains(
                prods[j2].rhs[0],
            ),
        unit_reach_n(prods, from, c, n),
    ensures
        rv.contains(c),
    decreases n,
{
    if n > 0 {
        let m = choose|m: Seq<char>|
            #[trigger] unit_step(prods, m, c) && unit_reach_n(prods, from, m, (n - 1) as nat);
        lemma_unit_bfs_complete(prods, from, rv, m, (n - 1) as nat);
        let t = choose|t: int| 0 <= t < rv.len() && rv[t] == m;
        let j2 = choose|j2: int|
            0 <= j2 < prods.len() && (#[trigger] prods[j2]).lhs == m && prods[j2].rhs.len() == 1
                && prods[j2].rhs[0] == c && sp_is_var(prods, c);
        assert(rv.contains(prods[j2].rhs[0]));
    }
}

/// The distinct variables reachable from `from` along unit productions,
/// `from` itself included, in breadth-first order.
fn unit_reachable(prods: &Vec<Production>, from: &String) -> (r: Vec<String>)
    requires
        sp_is_var(prods.deep_view(), from@),
    ensures
        forall|t: int|
            0 <= t < r.deep_view().len() ==> sp_is_var(prods.deep_view(), #[trigger] r.deep_view()[t]),
        forall|t: int|
            0 <= t < r.deep_view().len() ==> sp_unit_reach(
                prods.deep_view(),
                from@,
                #[trigger] r.deep_view()[t],
            ),
        forall|c: Seq<char>|
            #[trigger] sp_unit_reach(prods.deep_view(), from@, c) ==> r.deep_view().contains(c),
{
    let ghost dv = prods.deep_view();
    let mut list: Vec<String> = Vec::new();
    list.push(from.clone());
    proof {
        reveal(sp_unit_reach);
        assert(list.deep_view() =~= seq![from@]);
        lemma_distinct_vars_bound(list.deep_view(), prods.deep_view());
        assert(unit_reach_n(dv, from@, list.deep_view()[0], 0));
    }
    let mut idx: usize = 0;
    while idx < list.len()
        invariant
            idx <= list.len(),
            1 <= list.len() <= prods.len(),
            dv == prods.deep_view(),
            list.deep_view()[0] == from@,
            list.deep_view().no_duplicates(),
            forall|t: int|
                0 <= t < list.deep_view().len() ==> sp_is_var(
                    prods.deep_view(),
                    #[trigger] list.deep_view()[t],
                ),
            forall|t: int|
                0 <= t < list.deep_view().len() ==> sp_unit_reach(
                    dv,
                    from@,
                    #[trigger] list.deep_view()[t],
                ),
            forall|t: int, j2: int|
                #![trigger list.deep_view()[t], dv[j2]]
                0 <= t < idx && 0 <= j2 < dv.len() && dv[j2].lhs == list.deep_view()[t]
                    && dv[j2].rhs.len() == 1 && sp_is_var(dv, dv[j2].rhs[0])
                    ==> list.deep_view().contains(dv[j2].rhs[0]),
        decreases prods.len() - list.len(), list.len() - idx,
    {
        let cur = list[idx].clone();
        let ghost len0 = list.len();
        let mut j: usize = 0;
        while j < prods.len()
            invariant
                j <= prods.len(),
                idx < list.len(),
                len0 <= list.len(),
                1 <= list.len() <= prods.len(),
                dv == prods.deep_view(),
                cur@ == list.deep_view()[idx as int],
                list.deep_view()[0] == from@,
                list.deep_view().no_duplicates(),
                forall|t: int|
                    0 <= t < list.deep_view().len() ==> sp_is_var(
                        prods.deep_view(),
                        #[trigger] list.deep_view()[t],
                    ),
                forall|t: int|
                    0 <= t < list.deep_view().len() ==> sp_unit_reach(
                        dv,
                        from@,
                        #[trigger] list.deep_view()[t],
                    ),
                forall|t: int, j2: int|
                    #![trigger list.deep_view()[t], dv[j2]]
                    0 <= t < idx && 0 <= j2 < dv.len() && dv[j2].lhs == list.deep_view()[t]
                        && dv[j2].rhs.len() == 1 && sp_is_var(dv, dv[j2].rhs[0])
                        ==> list.deep_view().contains(dv[j2].rhs[0]),
                forall|j2: int|
                    0 <= j2 < j && (#[trigger] dv[j2]).lhs == cur@ && dv[j2].rhs.len() == 1
                        && sp_is_var(dv, dv[j2].rhs[0]) ==> list.deep_view().contains(
                        dv[j2].rhs[0],
                    ),
            decreases prods.len() - j,
        {
            if prods[j].value.len() == 1 && str_eq(prods[j].symbol.as_str(), cur.as_str())
                && is_variable_in(prods, prods[j].value[0].as_str()) {
                let cand = prods[j].value[0].clone();
                let absent = !sym_in(&list, cand.as_str());
                if absent {
                    let ghost lv0 = list.deep_view();
                    list.push(cand);
                    proof {
                        reveal(sp_unit_reach);
                        assert(list.deep_view() =~= lv0.push(
                            prods.deep_view()[j as int].rhs[0],
                        ));
                        lemma_distinct_vars_bound(list.deep_view(), prods.deep_view());
                        // the new symbol is reachable: one more unit edge
                        assert(unit_step(dv, cur@, dv[j as int].rhs[0])) by {
                            assert(dv[j as int].lhs == cur@);
                        }
                        let n0 = choose|n0: nat| unit_reach_n(dv, from@, cur@, n0);
                        assert(unit_reach_n(dv, from@, dv[j as int].rhs[0], n0 + 1));
                        assert forall|t: int|
                            0 <= t < list.deep_view().len() implies sp_unit_reach(
                                dv,
                                from@,
                                #[trigger] list.deep_view()[t],
                            ) by {
                            if t < lv0.len() {
                                assert(list.deep_view()[t] == lv0[t]);
                            } else {
                                assert(list.deep_view()[t] == dv[j as int].rhs[0]);
                            }
                        }
                        // earlier closure facts carry over
                        assert forall|t: int, j2: int|
                            #![trigger list.deep_view()[t], dv[j2]]
                            0 <= t < idx && 0 <= j2 < dv.len() && dv[j2].lhs
                                == list.deep_view()[t] && dv[j2].rhs.len() == 1 && sp_is_var(
                                dv,
                                dv[j2].rhs[0],
                            ) implies list.deep_view().contains(dv[j2].rhs[0]) by {
                            assert(list.deep_view()[t] == lv0[t]);
                            assert(lv0.contains(dv[j2].rhs[0]));
                            let w = choose|w: int| 0 <= w < lv0.len() && lv0[w] == dv[j2].rhs[0];
                            assert(list.deep_view()[w] == dv[j2].rhs[0]);
                        }
                        assert forall|j2: int|
                            0 <= j2 < j + 1 && (#[trigger] dv[j2]).lhs == cur@ && dv[j2].rhs.len()
                                == 1 && sp_is_var(dv, dv[j2].rhs[0]) implies
                            list.deep_view().contains(dv[j2].rhs[0]) by {
                            if j2 < j {
                                assert(lv0.contains(dv[j2].rhs[0]));
                                let w = choose|w: int|
                                    0 <= w < lv0.len() && lv0[w] == dv[j2].rhs[0];
                                assert(list.deep_view()[w] == dv[j2].rhs[0]);
                            } else {
                                assert(list.deep_view().last() == dv[j2].rhs[0]);
                            }
                        }
                    }
                } else {
                    proof {
                        assert(list.deep_view().contains(dv[j as int].rhs[0]));
                    }
                }
            }
            j += 1;
        }
        idx += 1;
    }
    proof {
        reveal(sp_unit_reach);
        assert forall|c: Seq<char>|
            #[trigger] sp_unit_reach(dv, from@, c) implies list.deep_view().contains(c) by {
            let n = choose|n: nat| unit_reach_n(dv, from@, c, n);
            assert(list.deep_view().contains(from@)) by {
                assert(list.deep_view()[0] == from@);
            }
            lemma_unit_bfs_complete(dv, from@, list.deep_view(), c, n);
        }
    }
    list
}

/// A production fit for the grammar after unit-elimination: well
/// shaped, its left-hand symbol a variable of the previous grammar, and
/// not a unit production of the previous grammar.
pub open spec fn unit_free_prod(
    q: ProductionModel,
    pre: Seq<ProductionModel>,
    start: Seq<char>,
) -> bool {
    &&& good_variant(q, start)
    &&& sp_is_var(pre, q.lhs)
    &&& q.rhs.len() == 1 ==> !sp_is_var(pre, q.rhs[0])
}


/// Unit-production elimination: every production `A -> B` with `B` a
/// variable is deleted; for every variable `C` reachable from `B`
/// along unit productions, copies `A -> alpha` of the non-unit
/// productions of `C` are inserted, duplicates suppressed. Rewriting
/// round by round, as one pass at a time would, need not terminate
/// when unit productions form a cycle, so the unit-reachability
/// closure is taken in one sweep.
#[verifier::rlimit(100)]
#[verifier::spinoff_prover]
pub fn remove_unit_productions(start: &String, prods: &mut Vec<Production>)
    requires
        pm(start@, old(prods).deep_view()).tidy(),
        pm(start@, old(prods).deep_view()).no_null(),
        pm(start@, old(prods).deep_view()).hash_free(),
    ensures
        pm(start@, final (prods).deep_view()).tidy(),
        pm(start@, final (prods).deep_view()).no_null(),
        pm(start@, final (prods).deep_view()).hash_free(),
        pm(start@, final (prods).deep_view()).no_unit(),
        unit_elimination_rel(old(prods).deep_view(), final (prods).deep_view()),
{
    let ghost pre = old(prods).deep_view();
    let mut new_prods: Vec<Production> = Vec::new();
    let ghost mut wi0: Seq<int> = Seq::empty();
    let ghost mut wj: Seq<int> = Seq::empty();
    let mut i0: usize = 0;
    while i0 < prods.len()
        invariant
            i0 <= prods.len(),
            prods.deep_view() == pre,
            wi0.len() == new_prods.deep_view().len(),
            wj.len() == new_prods.deep_view().len(),
            forall|q: int|
                0 <= q < new_prods.deep_view().len() ==> unit_free_prod(
                    #[trigger] new_prods.deep_view()[q],
                    pre,
                    start@,
                ),
            forall|q: int|
                0 <= q < new_prods.deep_view().len() ==> sp_is_unit(pre, #[trigger] wi0[q]) && 0
                    <= wj[q] < pre.len() && !sp_is_unit(pre, wj[q]) && sp_unit_reach(
                    pre,
                    pre[wi0[q]].rhs[0],
                    pre[wj[q]].lhs,
                ) && new_prods.deep_view()[q] == (ProductionModel {
                    lhs: pre[wi0[q]].lhs,
                    rhs: pre[wj[q]].rhs,
                }),
            forall|q: int|
                0 <= q < new_prods.deep_view().len() ==> !pre.contains(
                    #[trigger] new_prods.deep_view()[q],
                ),
            forall|q1: int, q2: int|
                #![trigger new_prods.deep_view()[q1], new_prods.deep_view()[q2]]
                0 <= q1 < q2 < new_prods.deep_view().len() ==> new_prods.deep_view()[q1]
                    != new_prods.deep_view()[q2],
            forall|i2: int, j2: int|
                0 <= i2 < i0 && sp_is_unit(pre, i2) && 0 <= j2 < pre.len() && !sp_is_unit(
                    pre,
                    j2,
                ) && #[trigger] sp_unit_reach(pre, pre[i2].rhs[0], pre[j2].lhs) ==> pre.contains(
                    (ProductionModel { lhs: pre[i2].lhs, rhs: pre[j2].rhs }),
                ) || new_prods.deep_view().contains(
                    (ProductionModel { lhs: pre[i2].lhs, rhs: pre[j2].rhs }),
                ),
        decreases prods.len() - i0,
    {
        let is_unit_src = prods[i0].value.len() == 1 && is_variable_in(
            prods,
            prods[i0].value[0].as_str(),
        );
        if is_unit_src {
            proof {
                assert(sp_is_unit(pre, i0 as int));
            }
            let a_sym = prods[i0].symbol.clone();
            let b_sym = prods[i0].value[0].clone();
            let targets = unit_reachable(prods, &b_sym);
            proof {
                assert(b_sym@ == pre[i0 as int].rhs[0]);
            }
            let mut t: usize = 0;
            while t < targets.len()
                invariant
                    t <= targets.len(),
                    i0 < prods.len(),
                    prods.deep_view() == pre,
                    sp_is_unit(pre, i0 as int),
                    a_sym@ == pre[i0 as int].lhs,
                    b_sym@ == pre[i0 as int].rhs[0],
                    wi0.len() == new_prods.deep_view().len(),
                    wj.len() == new_prods.deep_view().len(),
                    forall|t2: int|
                        0 <= t2 < targets.deep_view().len() ==> sp_unit_reach(
                            pre,
                            b_sym@,
                            #[trigger] targets.deep_view()[t2],
                        ),
                    forall|c: Seq<char>|
                        #[trigger] sp_unit_reach(pre, b_sym@, c) ==> targets.deep_view().contains(
                            c,
                        ),
                    forall|q: int|
                        0 <= q < new_prods.deep_view().len() ==> unit_free_prod(
                            #[trigger] new_prods.deep_view()[q],
                            pre,
                            start@,
                        ),
                    forall|q: int|
                        0 <= q < new_prods.deep_view().len() ==> sp_is_unit(
                            pre,
                            #[trigger] wi0[q],
                        ) && 0 <= wj[q] < pre.len() && !sp_is_unit(pre, wj[q]) && sp_unit_reach(
                            pre,
                            pre[wi0[q]].rhs[0],
                            pre[wj[q]].lhs,
                        ) && new_prods.deep_view()[q] == (ProductionModel {
                            lhs: pre[wi0[q]].lhs,
                            rhs: pre[wj[q]].rhs,
                        }),
                    forall|q: int|
                        0 <= q < new_prods.deep_view().len() ==> !pre.contains(
                            #[trigger] new_prods.deep_view()[q],
                        ),
                    forall|q1: int, q2: int|
                        #![trigger new_prods.deep_view()[q1], new_prods.deep_view()[q2]]
                        0 <= q1 < q2 < new_prods.deep_view().len() ==> new_prods.deep_view()[q1]
                            != new_prods.deep_view()[q2],
                    forall|i2: int, j2: int|
                        0 <= i2 < i0 && sp_is_unit(pre, i2) && 0 <= j2 < pre.len() && !sp_is_unit(
                            pre,
                            j2,
                        ) && #[trigger] sp_unit_reach(pre, pre[i2].rhs[0], pre[j2].lhs)
                            ==> pre.contains(
                            (ProductionModel { lhs: pre[i2].lhs, rhs: pre[j2].rhs }),
                        ) || new_prods.deep_view().contains(
                            (ProductionModel { lhs: pre[i2].lhs, rhs: pre[j2].rhs }),
                        ),
                    forall|t2: int, j2: int|
                        #![trigger targets.deep_view()[t2], pre[j2]]
                        0 <= t2 < t && 0 <= j2 < pre.len() && !sp_is_unit(pre, j2)
                            && pre[j2].lhs == targets.deep_view()[t2] ==> pre.contains(
                            (ProductionModel { lhs: pre[i0 as int].lhs, rhs: pre[j2].rhs }),
                        ) || new_prods.deep_view().contains(
                            (ProductionModel { lhs: pre[i0 as int].lhs, rhs: pre[j2].rhs }),
                        ),
                decreases targets.len() - t,
            {
                let c_sym = targets[t].clone();
                let mut j: usize = 0;
                while j < prods.len()
                    invariant
                        j <= prods.len(),
                        t < targets.len(),
                        i0 < prods.len(),
                        prods.deep_view() == pre,
                        sp_is_unit(pre, i0 as int),
                        a_sym@ == pre[i0 as int].lhs,
                        b_sym@ == pre[i0 as int].rhs[0],
                        c_sym@ == targets.deep_view()[t as int],
                        wi0.len() == new_prods.deep_view().len(),
                        wj.len() == new_prods.deep_view().len(),
                        sp_unit_reach(pre, b_sym@, c_sym@),
                        forall|q: int|
                            0 <= q < new_prods.deep_view().len() ==> unit_free_prod(
                                #[trigger] new_prods.deep_view()[q],
                                pre,
                                start@,
                            ),
                        forall|q: int|
                            0 <= q < new_prods.deep_view().len() ==> sp_is_unit(
                                pre,
                                #[trigger] wi0[q],
                            ) && 0 <= wj[q] < pre.len() && !sp_is_unit(pre, wj[q])
                                && sp_unit_reach(pre, pre[wi0[q]].rhs[0], pre[wj[q]].lhs)
                                && new_prods.deep_view()[q] == (ProductionModel {
                                lhs: pre[wi0[q]].lhs,
                                rhs: pre[wj[q]].rhs,
                            }),
                        forall|q: int|
                            0 <= q < new_prods.deep_view().len() ==> !pre.contains(
                                #[trigger] new_prods.deep_view()[q],
                            ),
                        forall|q1: int, q2: int|
                            #![trigger new_prods.deep_view()[q1], new_prods.deep_view()[q2]]
                            0 <= q1 < q2 < new_prods.deep_view().len()
                                ==> new_prods.deep_view()[q1] != new_prods.deep_view()[q2],
                        forall|i2: int, j2: int|
                            0 <= i2 < i0 && sp_is_unit(pre, i2) && 0 <= j2 < pre.len()
                                && !sp_is_unit(pre, j2) && #[trigger] sp_unit_reach(
                                pre,
                                pre[i2].rhs[0],
                                pre[j2].lhs,
                            ) ==> pre.contains(
                                (ProductionModel { lhs: pre[i2].lhs, rhs: pre[j2].rhs }),
                            ) || new_prods.deep_view().contains(
                                (ProductionModel { lhs: pre[i2].lhs, rhs: pre[j2].rhs }),
                            ),
                        forall|t2: int, j2: int|
                            #![trigger targets.deep_view()[t2], pre[j2]]
                            0 <= t2 < t && 0 <= j2 < pre.len() && !sp_is_unit(pre, j2)
                                && pre[j2].lhs == targets.deep_view()[t2] ==> pre.contains(
                                (ProductionModel { lhs: pre[i0 as int].lhs, rhs: pre[j2].rhs }),
                            ) || new_prods.deep_view().contains(
                                (ProductionModel { lhs: pre[i0 as int].lhs, rhs: pre[j2].rhs }),
                            ),
                        forall|j2: int|
                            0 <= j2 < j && !sp_is_unit(pre, j2) && (#[trigger] pre[j2]).lhs
                                == c_sym@ ==> pre.contains(
                                (ProductionModel { lhs: pre[i0 as int].lhs, rhs: pre[j2].rhs }),
                            ) || new_prods.deep_view().contains(
                                (ProductionModel { lhs: pre[i0 as int].lhs, rhs: pre[j2].rhs }),
                            ),
                    decreases prods.len() - j,
                {
                    let j_is_unit = prods[j].value.len() == 1 && is_variable_in(
                        prods,
                        prods[j].value[0].as_str(),
                    );
                    if !j_is_unit && str_eq(prods[j].symbol.as_str(), c_sym.as_str()) {
                        proof {
                            assert(!sp_is_unit(pre, j as int));
                            assert(pre[j as int].lhs == c_sym@);
                        }
                        let q = Production {
                            symbol: a_sym.clone(),
                            value: clone_syms(&prods[j].value),
                        };
                        proof {
                            assert(q@ =~~= (ProductionModel {
                                lhs: pre[i0 as int].lhs,
                                rhs: pre[j as int].rhs,
                            }));
                            assert(unit_free_prod(q@, pre, start@)) by {
                                let gp = pm(start@, pre);
                                assert(gp.tidy() && gp.hash_free());
                                assert forall|k: int|
                                    0 <= k < q@.rhs.len() implies (#[trigger] q@.rhs[k]).len()
                                        >= 1 && q@.rhs[k] != start@ && q@.rhs[k] != seq!['#'] by {
                                    assert(gp.prods[j as int].rhs[k] == q@.rhs[k]);
                                }
                                assert(gp.prods[i0 as int].lhs == q@.lhs);
                                assert(gp.prods[j as int].rhs.len() >= 1);
                            }
                        }
                        let in_prods = prods_contain(prods, &q);
                        let in_new = prods_contain(&new_prods, &q);
                        if !in_prods && !in_new {
                            let ghost nv0 = new_prods.deep_view();
                            new_prods.push(q);
                            proof {
                                wi0 = wi0.push(i0 as int);
                                wj = wj.push(j as int);
                                assert(new_prods.deep_view() =~= nv0.push(
                                    (ProductionModel {
                                        lhs: pre[i0 as int].lhs,
                                        rhs: pre[j as int].rhs,
                                    }),
                                ));
                                assert(new_prods.deep_view().last() == (ProductionModel {
                                    lhs: pre[i0 as int].lhs,
                                    rhs: pre[j as int].rhs,
                                }));
                                // earlier containment facts carry over the push
                                assert forall|i2: int, j2: int|
                                    0 <= i2 < i0 && sp_is_unit(pre, i2) && 0 <= j2 < pre.len()
                                        && !sp_is_unit(pre, j2) && #[trigger] sp_unit_reach(
                                        pre,
                                        pre[i2].rhs[0],
                                        pre[j2].lhs,
                                    ) implies pre.contains(
                                        (ProductionModel { lhs: pre[i2].lhs, rhs: pre[j2].rhs }),
                                    ) || new_prods.deep_view().contains(
                                        (ProductionModel { lhs: pre[i2].lhs, rhs: pre[j2].rhs }),
                                    ) by {
                                    let pmv = ProductionModel {
                                        lhs: pre[i2].lhs,
                                        rhs: pre[j2].rhs,
                                    };
                                    if !pre.contains(pmv) {
                                        assert(nv0.contains(pmv));
                                        let w = choose|w: int|
                                            0 <= w < nv0.len() && nv0[w] == pmv;
                                        assert(new_prods.deep_view()[w] == pmv);
                                    }
                                }
                                assert forall|t2: int, j2: int|
                                    #![trigger targets.deep_view()[t2], pre[j2]]
                                    0 <= t2 < t && 0 <= j2 < pre.len() && !sp_is_unit(pre, j2)
                                        && pre[j2].lhs == targets.deep_view()[t2] implies
                                    pre.contains(
                                        (ProductionModel {
                                            lhs: pre[i0 as int].lhs,
                                            rhs: pre[j2].rhs,
                                        }),
                                    ) || new_prods.deep_view().contains(
                                        (ProductionModel {
                                            lhs: pre[i0 as int].lhs,
                                            rhs: pre[j2].rhs,
                                        }),
                                    ) by {
                                    let pmv = ProductionModel {
                                        lhs: pre[i0 as int].lhs,
                                        rhs: pre[j2].rhs,
                                    };
                                    if !pre.contains(pmv) {
                                        assert(nv0.contains(pmv));
                                        let w = choose|w: int|
                                            0 <= w < nv0.len() && nv0[w] == pmv;
                                        assert(new_prods.deep_view()[w] == pmv);
                                    }
                                }
                                assert forall|j2: int|
                                    0 <= j2 < j && !sp_is_unit(pre, j2) && (
                                    #[trigger] pre[j2]).lhs == c_sym@ implies pre.contains(
                                        (ProductionModel {
                                            lhs: pre[i0 as int].lhs,
                                            rhs: pre[j2].rhs,
                                        }),
                                    ) || new_prods.deep_view().contains(
                                        (ProductionModel {
                                            lhs: pre[i0 as int].lhs,
                                            rhs: pre[j2].rhs,
                                        }),
                                    ) by {
                                    let pmv = ProductionModel {
                                        lhs: pre[i0 as int].lhs,
                                        rhs: pre[j2].rhs,
                                    };
                                    if !pre.contains(pmv) {
                                        assert(nv0.contains(pmv));
                                        let w = choose|w: int|
                                            0 <= w < nv0.len() && nv0[w] == pmv;
                                        assert(new_prods.deep_view()[w] == pmv);
                                    }
                                }
                            }
                        } else {
                            proof {
                                if in_new {
                                    assert(new_prods.deep_view().contains(q@));
                                }
                            }
                        }
                        proof {
                            assert(pre.contains(
                                (ProductionModel {
                                    lhs: pre[i0 as int].lhs,
                                    rhs: pre[j as int].rhs,
                                }),
                            ) || new_prods.deep_view().contains(
                                (ProductionModel {
                                    lhs: pre[i0 as int].lhs,
                                    rhs: pre[j as int].rhs,
                                }),
                            ));
                        }
                    }
                    j += 1;
                }
                t += 1;
            }
            proof {
                // every copy owed for this unit production is accounted for
                assert forall|i2: int, j2: int|
                    0 <= i2 < i0 + 1 && sp_is_unit(pre, i2) && 0 <= j2 < pre.len() && !sp_is_unit(
                        pre,
                        j2,
                    ) && #[trigger] sp_unit_reach(pre, pre[i2].rhs[0], pre[j2].lhs) implies
                    pre.contains((ProductionModel { lhs: pre[i2].lhs, rhs: pre[j2].rhs }))
                        || new_prods.deep_view().contains(
                        (ProductionModel { lhs: pre[i2].lhs, rhs: pre[j2].rhs }),
                    ) by {
                    if i2 == i0 {
                        assert(targets.deep_view().contains(pre[j2].lhs));
                        let t2 = choose|t2: int|
                            0 <= t2 < targets.deep_view().len() && targets.deep_view()[t2]
                                == pre[j2].lhs;
                    }
                }
            }
        } else {
            proof {
                assert(!sp_is_unit(pre, i0 as int));
                assert forall|i2: int, j2: int|
                    0 <= i2 < i0 + 1 && sp_is_unit(pre, i2) && 0 <= j2 < pre.len() && !sp_is_unit(
                        pre,
                        j2,
                    ) && #[trigger] sp_unit_reach(pre, pre[i2].rhs[0], pre[j2].lhs) implies
                    pre.contains((ProductionModel { lhs: pre[i2].lhs, rhs: pre[j2].rhs }))
                        || new_prods.deep_view().contains(
                        (ProductionModel { lhs: pre[i2].lhs, rhs: pre[j2].rhs }),
                    ) by {
                    assert(i2 < i0);
                }
            }
        }
        i0 += 1;
    }
    // Delete the unit productions, then append the copies
    let mut kept: Vec<Production> = Vec::new();
    let mut i: usize = 0;
    proof {
        assert(pre.take(0) =~= Seq::<ProductionModel>::empty());
        assert(kept.deep_view() =~= pre.take(0).filter(non_unit_pred(pre)));
    }
    while i < prods.len()
        invariant
            i <= prods.len(),
            prods.deep_view() == pre,
            kept.deep_view() == pre.take(i as int).filter(non_unit_pred(pre)),
            forall|q: int|
                0 <= q < kept.deep_view().len() ==> unit_free_prod(
                    #[trigger] kept.deep_view()[q],
                    pre,
                    start@,
                ),
        decreases prods.len() - i,
    {
        let i_is_unit = prods[i].value.len() == 1 && is_variable_in(
            prods,
            prods[i].value[0].as_str(),
        );
        let ghost kv0 = kept.deep_view();
        let ghost qm = prods.deep_view()[i as int];
        proof {
            reveal_with_fuel(Seq::filter, 2);
            assert(pre.take(i + 1).drop_last() =~= pre.take(i as int));
            assert(pre.take(i + 1).last() == qm);
            assert(non_unit_pred(pre)(qm) == !(qm.rhs.len() == 1 && sp_is_var(pre, qm.rhs[0])));
            assert(i_is_unit == (qm.rhs.len() == 1 && sp_is_var(pre, qm.rhs[0])));
            assert(pre.take(i + 1).filter(non_unit_pred(pre)) == (if non_unit_pred(pre)(qm) {
                pre.take(i as int).filter(non_unit_pred(pre)).push(qm)
            } else {
                pre.take(i as int).filter(non_unit_pred(pre))
            }));
        }
        if !i_is_unit {
            kept.push(prods[i].dup());
            proof {
                assert(kept.deep_view() =~= kv0.push(qm));
                assert(unit_free_prod(qm, pre, start@)) by {
                    let gp = pm(start@, pre);
                    assert(gp.tidy() && gp.hash_free());
                    assert forall|k: int|
                        0 <= k < qm.rhs.len() implies (#[trigger] qm.rhs[k]).len() >= 1 && qm.rhs[
                        k] != start@ && qm.rhs[k] != seq!['#'] by {
                        assert(gp.prods[i as int].rhs[k] == qm.rhs[k]);
                    }
                    assert(gp.prods[i as int].lhs == qm.lhs);
                    assert(gp.prods[i as int].rhs.len() >= 1);
                }
            }
        }
        i += 1;
    }
    let ghost keptv = kept.deep_view();
    let ghost adds = new_prods.deep_view();
    let mut q: usize = 0;
    while q < new_prods.len()
        invariant
            q <= new_prods.len(),
            adds == new_prods.deep_view(),
            kept.deep_view() == keptv + adds.take(q as int),
            forall|qq: int|
                0 <= qq < keptv.len() ==> unit_free_prod(#[trigger] keptv[qq], pre, start@),
            forall|qq: int|
                0 <= qq < adds.len() ==> unit_free_prod(#[trigger] adds[qq], pre, start@),
        decreases new_prods.len() - q,
    {
        let ghost kv0 = kept.deep_view();
        kept.push(new_prods[q].dup());
        proof {
            assert(kept.deep_view() =~= kv0.push(adds[q as int]));
            assert(keptv + adds.take(q + 1) =~= (keptv + adds.take(q as int)).push(
                adds[q as int],
            ));
        }
        q += 1;
    }
    proof {
        assert(adds.take(adds.len() as int) =~= adds);
        assert(kept.deep_view() == keptv + adds);
    }
    *prods = kept;
    proof {
        assert(pre.take(pre.len() as int) =~= pre);
        assert(keptv == pre.filter(non_unit_pred(pre)));
        // the appended copies are exactly the allowed ones
        assert(unit_adds_ok(pre, adds)) by {
            assert forall|a: int| 0 <= a < adds.len() implies sp_unit_copy(
                pre,
                #[trigger] adds[a],
            ) by {
                assert(sp_is_unit(pre, wi0[a]) && !sp_is_unit(pre, wj[a]) && sp_unit_reach(
                    pre,
                    pre[wi0[a]].rhs[0],
                    pre[wj[a]].lhs,
                ) && adds[a] == (ProductionModel { lhs: pre[wi0[a]].lhs, rhs: pre[wj[a]].rhs }));
            }
        }
        assert(prods.deep_view() == pre.filter(non_unit_pred(pre)) + adds);
        assert(unit_elimination_rel(pre, prods.deep_view()));
        // and the shape predicates of the result
        let gf = pm(start@, prods.deep_view());
        assert forall|a: int|
            0 <= a < gf.prods.len() implies unit_free_prod(#[trigger] gf.prods[a], pre, start@)
            by {
            if a < keptv.len() {
                assert(gf.prods[a] == keptv[a]);
            } else {
                assert(gf.prods[a] == adds[a - keptv.len()]);
            }
        }
        assert forall|a: int|
            0 <= a < gf.prods.len() && (#[trigger] gf.prods[a]).rhs.len() == 1 implies !gf.is_var(
            gf.prods[a].rhs[0],
        ) by {
            assert(unit_free_prod(gf.prods[a], pre, start@));
            if gf.is_var(gf.prods[a].rhs[0]) {
                let k = choose|k: int|
                    0 <= k < gf.prods.len() && (#[trigger] gf.prods[k]).lhs == gf.prods[a].rhs[0];
                assert(unit_free_prod(gf.prods[k], pre, start@));
                assert(sp_is_var(pre, gf.prods[a].rhs[0]));
            }
        }
        assert(gf.no_unit());
        assert forall|a: int, b: int|
            0 <= a < gf.prods.len() && 0 <= b < gf.prods[a].rhs.len() implies (
        #[trigger] gf.prods[a].rhs[b]) != start@ && gf.prods[a].rhs[b] != seq!['#'] && gf.prods[
            a
        ].rhs[b].len() >= 1 by {
            assert(unit_free_prod(gf.prods[a], pre, start@));
        }
        assert(gf.tidy());
        assert(gf.no_null());
        assert(gf.hash_free());
    }
}

/// `sym` is reachable from `start` in at most `n` expansion steps:
/// it is the start symbol, or it stands on the right-hand side of a
/// production whose left-hand side is reachable in fewer steps.
pub open spec fn reachable_n(
    prods: Seq<ProductionModel>,
    start: Seq<char>,
    sym: Seq<char>,
    n: nat,
) -> bool
    decreases n,
{
    if sym == start {
        true
    } else if n == 0 {
        false
    } else {
        exists|i: int, j: int|
            #![trigger prods[i].rhs[j]]
            0 <= i < prods.len() && 0 <= j < prods[i].rhs.len() && prods[i].rhs[j] == sym
                && reachable_n(prods, start, prods[i].lhs, (n - 1) as nat)
    }
}

/// `sym` is reachable from `start` by repeated right-hand-side
/// expansion.
#[verifier::opaque]
pub open spec fn sp_reachable(prods: Seq<ProductionModel>, start: Seq<char>, sym: Seq<char>) -> bool {
    exists|n: nat| reachable_n(prods, start, sym, n)
}

/// Worklist provenance: entry `t` of `rv` stands on the right-hand
/// side of a production whose left-hand side is an earlier entry.
pub open spec fn step_from(pre: Seq<ProductionModel>, rv: Seq<Seq<char>>, t: int) -> bool {
    exists|t2: int, j: int, k: int|
        #![trigger pre[j].rhs[k], rv[t2]]
        0 <= t2 < t && 0 <= j < pre.len() && pre[j].lhs == rv[t2] && 0 <= k < pre[j].rhs.len()
            && pre[j].rhs[k] == rv[t]
}

/// Every worklist entry is reachable within the kept productions: the
/// worklist grew along edges whose source production survives the
/// pruning.
proof fn lemma_worklist_reachable(
    pre: Seq<ProductionModel>,
    kept: Seq<ProductionModel>,
    start: Seq<char>,
    rv: Seq<Seq<char>>,
    t: int,
)
    requires
        rv.len() >= 1,
        rv[0] == start,
        forall|t2: int| 1 <= t2 < rv.len() ==> #[trigger] step_from(pre, rv, t2),
        forall|j: int|
            0 <= j < pre.len() && rv.contains((#[trigger] pre[j]).lhs) ==> kept.contains(pre[j]),
        0 <= t < rv.len(),
    ensures
        sp_reachable(kept, start, rv[t]),
    decreases t,
{
    reveal(sp_reachable);
    if t == 0 {
        assert(reachable_n(kept, start, rv[0], 0));
    } else {
        assert(step_from(pre, rv, t));
        let (t2, j, k): (int, int, int) = choose|t2: int, j: int, k: int|
            #![trigger pre[j].rhs[k], rv[t2]]
            0 <= t2 < t && 0 <= j < pre.len() && pre[j].lhs == rv[t2] && 0 <= k < pre[
                j
            ].rhs.len() && pre[j].rhs[k] == rv[t];
        lemma_worklist_reachable(pre, kept, start, rv, t2);
        let n = choose|n: nat| reachable_n(kept, start, rv[t2], n);
        assert(rv.contains(pre[j].lhs)) by {
            assert(rv[t2] == pre[j].lhs);
        }
        assert(kept.contains(pre[j]));
        let jj = choose|jj: int| 0 <= jj < kept.len() && kept[jj] == pre[j];
        assert(reachable_n(kept, start, rv[t], n + 1)) by {
            if rv[t] != start {
                assert(kept[jj].rhs[k] == rv[t]);
                assert(reachable_n(kept, start, kept[jj].lhs, n));
            }
        }
    }
}

/// A longer step budget reaches no fewer symbols.
proof fn lemma_reachable_mono(
    prods: Seq<ProductionModel>,
    start: Seq<char>,
    sym: Seq<char>,
    n: nat,
    m: nat,
)
    requires
        n <= m,
        reachable_n(prods, start, sym, n),
    ensures
        reachable_n(prods, start, sym, m),
    decreases n,
{
    if sym != start && n > 0 {
        let (i, j): (int, int) = choose|i: int, j: int|
            #![trigger prods[i].rhs[j]]
            0 <= i < prods.len() && 0 <= j < prods[i].rhs.len() && prods[i].rhs[j] == sym
                && reachable_n(prods, start, prods[i].lhs, (n - 1) as nat);
        lemma_reachable_mono(prods, start, prods[i].lhs, (n - 1) as nat, (m - 1) as nat);
        assert(prods[i].rhs[j] == sym && reachable_n(prods, start, prods[i].lhs, (m - 1) as nat));
    }
}

/// Reachability survives a rewrite that keeps every left-hand side in
/// place and every variable occurrence at its position.
proof fn lemma_reachable_preserved(
    old_p: Seq<ProductionModel>,
    new_p: Seq<ProductionModel>,
    start: Seq<char>,
    v: Seq<char>,
    n: nat,
)
    requires
        new_p.len() >= old_p.len(),
        forall|a: int| 0 <= a < old_p.len() ==> (#[trigger] new_p[a]).lhs == old_p[a].lhs,
        forall|a: int, k: int|
            0 <= a < old_p.len() && 0 <= k < old_p[a].rhs.len() && sp_is_var(
                old_p,
                #[trigger] old_p[a].rhs[k],
            ) ==> k < new_p[a].rhs.len() && new_p[a].rhs[k] == old_p[a].rhs[k],
        reachable_n(old_p, start, v, n),
        sp_is_var(old_p, v) || v == start,
    ensures
        reachable_n(new_p, start, v, n),
    decreases n,
{
    if v != start {
        let (i, j): (int, int) = choose|i: int, j: int|
            #![trigger old_p[i].rhs[j]]
            0 <= i < old_p.len() && 0 <= j < old_p[i].rhs.len() && old_p[i].rhs[j] == v
                && reachable_n(old_p, start, old_p[i].lhs, (n - 1) as nat);
        assert(sp_is_var(old_p, old_p[i].lhs));
        lemma_reachable_preserved(old_p, new_p, start, old_p[i].lhs, (n - 1) as nat);
        assert(new_p[i].rhs[j] == v);
        assert(reachable_n(new_p, start, new_p[i].lhs, (n - 1) as nat));
    }
}

/// Reachability survives a rewrite that may move a variable occurrence
/// into a relay production whose own left-hand symbol takes its place;
/// each relay lengthens the witnessing chain by one step.
proof fn lemma_reachable_relayed(
    old_p: Seq<ProductionModel>,
    new_p: Seq<ProductionModel>,
    start: Seq<char>,
    v: Seq<char>,
    n: nat,
)
    requires
        new_p.len() >= old_p.len(),
        forall|a: int| 0 <= a < old_p.len() ==> (#[trigger] new_p[a]).lhs == old_p[a].lhs,
        forall|a: int, k: int|
            0 <= a < old_p.len() && 0 <= k < old_p[a].rhs.len() && sp_is_var(
                old_p,
                #[trigger] old_p[a].rhs[k],
            ) ==> (k < new_p[a].rhs.len() && new_p[a].rhs[k] == old_p[a].rhs[k]) || (exists|b: int|
                0 <= b < new_p.len() && (#[trigger] new_p[b]).rhs.contains(old_p[a].rhs[k])
                    && new_p[a].rhs.contains(new_p[b].lhs)),
        reachable_n(old_p, start, v, n),
        sp_is_var(old_p, v) || v == start,
    ensures
        reachable_n(new_p, start, v, 2 * n),
    decreases n,
{
    if v != start {
        let (i, j): (int, int) = choose|i: int, j: int|
            #![trigger old_p[i].rhs[j]]
            0 <= i < old_p.len() && 0 <= j < old_p[i].rhs.len() && old_p[i].rhs[j] == v
                && reachable_n(old_p, start, old_p[i].lhs, (n - 1) as nat);
        assert(sp_is_var(old_p, old_p[i].lhs));
        lemma_reachable_relayed(old_p, new_p, start, old_p[i].lhs, (n - 1) as nat);
        assert(reachable_n(new_p, start, new_p[i].lhs, (2 * n - 2) as nat));
        if j < new_p[i].rhs.len() && new_p[i].rhs[j] == v {
            lemma_reachable_mono(new_p, start, new_p[i].lhs, (2 * n - 2) as nat, (2 * n - 1) as nat);
            assert(reachable_n(new_p, start, v, 2 * n)) by {
                assert(new_p[i].rhs[j] == v && reachable_n(
                    new_p,
                    start,
                    new_p[i].lhs,
                    (2 * n - 1) as nat,
                ));
            }
        } else {
            let b = choose|b: int|
                0 <= b < new_p.len() && (#[trigger] new_p[b]).rhs.contains(old_p[i].rhs[j])
                    && new_p[i].rhs.contains(new_p[b].lhs);
            let jr = choose|jr: int|
                0 <= jr < new_p[i].rhs.len() && new_p[i].rhs[jr] == new_p[b].lhs;
            let jv = choose|jv: int| 0 <= jv < new_p[b].rhs.len() && new_p[b].rhs[jv] == v;
            assert(reachable_n(new_p, start, new_p[b].lhs, (2 * n - 1) as nat)) by {
                assert(new_p[i].rhs[jr] == new_p[b].lhs && reachable_n(
                    new_p,
                    start,
                    new_p[i].lhs,
                    (2 * n - 2) as nat,
                ));
            }
            assert(reachable_n(new_p, start, v, 2 * n)) by {
                assert(new_p[b].rhs[jv] == v && reachable_n(
                    new_p,
                    start,
                    new_p[b].lhs,
                    (2 * n - 1) as nat,
                ));
            }
        }
    }
}

/// A chain of expansions backwards from a variable ends at the start
/// symbol, so the start symbol of a chain that begins at a variable is
/// itself a variable.
proof fn lemma_chain_reaches_start(
    prods: Seq<ProductionModel>,
    start: Seq<char>,
    v: Seq<char>,
    n: nat,
)
    requires
        reachable_n(prods, start, v, n),
        sp_is_var(prods, v),
    ensures
        sp_is_var(prods, start),
    decreases n,
{
    if v != start {
        let (i, j): (int, int) = choose|i: int, j: int|
            #![trigger prods[i].rhs[j]]
            0 <= i < prods.len() && 0 <= j < prods[i].rhs.len() && prods[i].rhs[j] == v
                && reachable_n(prods, start, prods[i].lhs, (n - 1) as nat);
        assert(sp_is_var(prods, prods[i].lhs));
        lemma_chain_reaches_start(prods, start, prods[i].lhs, (n - 1) as nat);
    }
}

/// A grammar with any production at all, and every left-hand side
/// reachable, names its start symbol as a variable: the start symbol
/// is the left-hand side of some production.
pub proof fn lemma_nonempty_grammar_names_start(g: GrammarModel)
    requires
        g.prods.len() > 0,
        g.all_reachable(),
    ensures
        g.is_var(g.start),
{
    reveal(sp_reachable);
    assert(sp_reachable(g.prods, g.start, g.prods[0].lhs));
    let n = choose|n: nat| reachable_n(g.prods, g.start, g.prods[0].lhs, n);
    assert(sp_is_var(g.prods, g.prods[0].lhs));
    lemma_chain_reaches_start(g.prods, g.start, g.prods[0].lhs, n);
}

impl GrammarModel {
    /// Every production's left-hand side is reachable from the start
    /// symbol by repeated right-hand-side expansion.
    pub open spec fn all_reachable(self) -> bool {
        forall|i: int|
            0 <= i < self.prods.len() ==> sp_reachable(
                self.prods,
                self.start,
                (#[trigger] self.prods[i]).lhs,
            )
    }
}

/// The productions whose left-hand side is reachable from `s0`, as a
/// filter predicate.
pub open spec fn reachable_pred(
    p0: Seq<ProductionModel>,
    s0: Seq<char>,
) -> spec_fn(ProductionModel) -> bool {
    |q: ProductionModel| sp_reachable(p0, s0, q.lhs)
}

/// What unreachable-symbol pruning does: exactly the productions with
/// a reachable left-hand side are kept, in order.
pub open spec fn prune_rel(
    s0: Seq<char>,
    p0: Seq<ProductionModel>,
    p1: Seq<ProductionModel>,
) -> bool {
    p1 == p0.filter(reachable_pred(p0, s0))
}

/// A worklist that holds `start` and is closed under right-hand-side
/// expansion holds every reachable variable.
proof fn lemma_var_bfs_complete(
    pre: Seq<ProductionModel>,
    start: Seq<char>,
    rv: Seq<Seq<char>>,
    v: Seq<char>,
    n: nat,
)
    requires
        rv.len() >= 1,
        rv[0] == start,
        forall|t: int, j2: int, k2: int|
            #![trigger rv[t], pre[j2].rhs[k2]]
            0 <= t < rv.len() && 0 <= j2 < pre.len() && pre[j2].lhs == rv[t] && 0 <= k2
                < pre[j2].rhs.len() && sp_is_var(pre, pre[j2].rhs[k2]) ==> rv.contains(
                pre[j2].rhs[k2],
            ),
        reachable_n(pre, start, v, n),
        sp_is_var(pre, v),
    ensures
        rv.contains(v),
    decreases n,
{
    if v == start {
        assert(rv[0] == v);
    } else {
        let (i, j): (int, int) = choose|i: int, j: int|
            #![trigger pre[i].rhs[j]]
            0 <= i < pre.len() && 0 <= j < pre[i].rhs.len() && pre[i].rhs[j] == v && reachable_n(
                pre,
                start,
                pre[i].lhs,
                (n - 1) as nat,
            );
        assert(sp_is_var(pre, pre[i].lhs));
        lemma_var_bfs_complete(pre, start, rv, pre[i].lhs, (n - 1) as nat);
        let t = choose|t: int| 0 <= t < rv.len() && rv[t] == pre[i].lhs;
        assert(rv.contains(pre[i].rhs[j]));
    }
}

/// Unreachable-symbol pruning: the variables reachable from `start`
/// by repeated right-hand-side expansion are collected; every
/// production whose left-hand side is not among them is deleted.
#[verifier::rlimit(100)]
#[verifier::spinoff_prover]
pub fn remove_useless_productions(start: &String, prods: &mut Vec<Production>)
    requires
        pm(start@, old(prods).deep_view()).tidy(),
        pm(start@, old(prods).deep_view()).no_null(),
        pm(start@, old(prods).deep_view()).hash_free(),
        pm(start@, old(prods).deep_view()).no_unit(),
    ensures
        pm(start@, final (prods).deep_view()).tidy(),
        pm(start@, final (prods).deep_view()).no_null(),
        pm(start@, final (prods).deep_view()).hash_free(),
        pm(start@, final (prods).deep_view()).no_unit(),
        pm(start@, final (prods).deep_view()).all_reachable(),
        prune_rel(start@, old(prods).deep_view(), final (prods).deep_view()),
{
    let ghost pre = old(prods).deep_view();
    let mut reachable: Vec<String> = Vec::new();
    reachable.push(start.clone());
    proof {
        assert(reachable.deep_view() =~= seq![start@]);
        assert(reachable.deep_view().drop_first() =~= Seq::<Seq<char>>::empty());
        lemma_distinct_vars_bound(reachable.deep_view().drop_first(), prods.deep_view());
    }
    let mut idx: usize = 0;
    while idx < reachable.len()
        invariant
            idx <= reachable.len(),
            prods.deep_view() == pre,
            1 <= reachable.len() <= prods.len() + 1,
            reachable.deep_view().no_duplicates(),
            reachable.deep_view()[0] == start@,
            forall|t: int|
                1 <= t < reachable.deep_view().len() ==> sp_is_var(
                    prods.deep_view(),
                    #[trigger] reachable.deep_view()[t],
                ),
            forall|t: int|
                1 <= t < reachable.deep_view().len() ==> #[trigger] step_from(
                    pre,
                    reachable.deep_view(),
                    t,
                ),
            forall|t: int, j2: int, k2: int|
                #![trigger reachable.deep_view()[t], pre[j2].rhs[k2]]
                0 <= t < idx && 0 <= j2 < pre.len() && pre[j2].lhs == reachable.deep_view()[t]
                    && 0 <= k2 < pre[j2].rhs.len() && sp_is_var(pre, pre[j2].rhs[k2])
                    ==> reachable.deep_view().contains(pre[j2].rhs[k2]),
        decreases prods.len() + 1 - reachable.len(), reachable.len() - idx,
    {
        let cur = reachable[idx].clone();
        let ghost len0 = reachable.len();
        let mut j: usize = 0;
        while j < prods.len()
            invariant
                j <= prods.len(),
                idx < reachable.len(),
                len0 <= reachable.len(),
                prods.deep_view() == pre,
                1 <= reachable.len() <= prods.len() + 1,
                reachable.deep_view().no_duplicates(),
                reachable.deep_view()[0] == start@,
                forall|t: int|
                    1 <= t < reachable.deep_view().len() ==> sp_is_var(
                        prods.deep_view(),
                        #[trigger] reachable.deep_view()[t],
                    ),
                forall|t: int|
                    1 <= t < reachable.deep_view().len() ==> #[trigger] step_from(
                        pre,
                        reachable.deep_view(),
                        t,
                    ),
                cur@ == reachable.deep_view()[idx as int],
                forall|t: int, j2: int, k2: int|
                    #![trigger reachable.deep_view()[t], pre[j2].rhs[k2]]
                    0 <= t < idx && 0 <= j2 < pre.len() && pre[j2].lhs
                        == reachable.deep_view()[t] && 0 <= k2 < pre[j2].rhs.len() && sp_is_var(
                        pre,
                        pre[j2].rhs[k2],
                    ) ==> reachable.deep_view().contains(pre[j2].rhs[k2]),
                forall|j2: int, k2: int|
                    #![trigger pre[j2].rhs[k2]]
                    0 <= j2 < j && pre[j2].lhs == cur@ && 0 <= k2 < pre[j2].rhs.len()
                        && sp_is_var(pre, pre[j2].rhs[k2]) ==> reachable.deep_view().contains(
                        pre[j2].rhs[k2],
                    ),
            decreases prods.len() - j,
        {
            if str_eq(prods[j].symbol.as_str(), cur.as_str()) {
                let mut k: usize = 0;
                while k < prods[j].value.len()
                    invariant
                        k <= prods[j as int].value.len(),
                        j < prods.len(),
                        idx < reachable.len(),
                        len0 <= reachable.len(),
                        prods.deep_view() == pre,
                        1 <= reachable.len() <= prods.len() + 1,
                        reachable.deep_view().no_duplicates(),
                        reachable.deep_view()[0] == start@,
                        forall|t: int|
                            1 <= t < reachable.deep_view().len() ==> sp_is_var(
                                prods.deep_view(),
                                #[trigger] reachable.deep_view()[t],
                            ),
                        forall|t: int|
                            1 <= t < reachable.deep_view().len() ==> #[trigger] step_from(
                                pre,
                                reachable.deep_view(),
                                t,
                            ),
                        cur@ == reachable.deep_view()[idx as int],
                        pre[j as int].lhs == cur@,
                        forall|t: int, j2: int, k2: int|
                            #![trigger reachable.deep_view()[t], pre[j2].rhs[k2]]
                            0 <= t < idx && 0 <= j2 < pre.len() && pre[j2].lhs
                                == reachable.deep_view()[t] && 0 <= k2 < pre[j2].rhs.len()
                                && sp_is_var(pre, pre[j2].rhs[k2])
                                ==> reachable.deep_view().contains(pre[j2].rhs[k2]),
                        forall|j2: int, k2: int|
                            #![trigger pre[j2].rhs[k2]]
                            0 <= j2 < j && pre[j2].lhs == cur@ && 0 <= k2 < pre[j2].rhs.len()
                                && sp_is_var(pre, pre[j2].rhs[k2])
                                ==> reachable.deep_view().contains(pre[j2].rhs[k2]),
                        forall|k2: int|
                            0 <= k2 < k && sp_is_var(pre, #[trigger] pre[j as int].rhs[k2])
                                ==> reachable.deep_view().contains(pre[j as int].rhs[k2]),
                    decreases prods[j as int].value.len() - k,
                {
                    let s = &prods[j].value[k];
                    let s_is_var = is_variable_in(prods, s.as_str());
                    let s_seen = sym_in(&reachable, s.as_str());
                    proof {
                        if s_is_var && s_seen {
                            assert(reachable.deep_view().contains(pre[j as int].rhs[k as int]));
                        }
                    }
                    if s_is_var && !s_seen {
                        let ghost rv0 = reachable.deep_view();
                        let sc = s.clone();
                        reachable.push(sc);
                        proof {
                            assert(reachable.deep_view() =~= rv0.push(
                                prods.deep_view()[j as int].rhs[k as int],
                            ));
                            assert(reachable.deep_view().drop_first() =~= rv0.drop_first().push(
                                prods.deep_view()[j as int].rhs[k as int],
                            ));
                            assert forall|t: int|
                                0 <= t < reachable.deep_view().drop_first().len() implies
                                sp_is_var(
                                    prods.deep_view(),
                                    #[trigger] reachable.deep_view().drop_first()[t],
                                ) by {
                                assert(reachable.deep_view().drop_first()[t]
                                    == reachable.deep_view()[t + 1]);
                            }
                            lemma_distinct_vars_bound(
                                reachable.deep_view().drop_first(),
                                prods.deep_view(),
                            );
                            assert(reachable.deep_view().last() == pre[j as int].rhs[k as int]);
                            assert forall|t: int, j2: int, k2: int|
                                #![trigger reachable.deep_view()[t], pre[j2].rhs[k2]]
                                0 <= t < idx && 0 <= j2 < pre.len() && pre[j2].lhs
                                    == reachable.deep_view()[t] && 0 <= k2 < pre[j2].rhs.len()
                                    && sp_is_var(pre, pre[j2].rhs[k2]) implies
                                reachable.deep_view().contains(pre[j2].rhs[k2]) by {
                                assert(reachable.deep_view()[t] == rv0[t]);
                                assert(rv0.contains(pre[j2].rhs[k2]));
                                let w = choose|w: int|
                                    0 <= w < rv0.len() && rv0[w] == pre[j2].rhs[k2];
                                assert(reachable.deep_view()[w] == pre[j2].rhs[k2]);
                            }
                            assert forall|j2: int, k2: int|
                                #![trigger pre[j2].rhs[k2]]
                                0 <= j2 < j && pre[j2].lhs == cur@ && 0 <= k2
                                    < pre[j2].rhs.len() && sp_is_var(pre, pre[j2].rhs[k2])
                                    implies reachable.deep_view().contains(pre[j2].rhs[k2]) by {
                                assert(rv0.contains(pre[j2].rhs[k2]));
                                let w = choose|w: int|
                                    0 <= w < rv0.len() && rv0[w] == pre[j2].rhs[k2];
                                assert(reachable.deep_view()[w] == pre[j2].rhs[k2]);
                            }
                            assert forall|k2: int|
                                0 <= k2 < k + 1 && sp_is_var(
                                    pre,
                                    #[trigger] pre[j as int].rhs[k2],
                                ) implies reachable.deep_view().contains(
                                    pre[j as int].rhs[k2],
                                ) by {
                                if k2 < k {
                                    assert(rv0.contains(pre[j as int].rhs[k2]));
                                    let w = choose|w: int|
                                        0 <= w < rv0.len() && rv0[w] == pre[j as int].rhs[k2];
                                    assert(reachable.deep_view()[w] == pre[j as int].rhs[k2]);
                                }
                            }
                            let rv = reachable.deep_view();
                            assert forall|t: int|
                                1 <= t < rv.len() implies #[trigger] step_from(pre, rv, t) by {
                                if t < rv.len() - 1 {
                                    assert(step_from(pre, rv0, t));
                                    let (t2, jw, kw): (int, int, int) = choose|
                                        t2: int,
                                        jw: int,
                                        kw: int,
                                    |
                                        #![trigger pre[jw].rhs[kw], rv0[t2]]
                                        0 <= t2 < t && 0 <= jw < pre.len() && pre[jw].lhs == rv0[
                                            t2
                                        ] && 0 <= kw < pre[jw].rhs.len() && pre[jw].rhs[kw]
                                            == rv0[t];
                                    assert(rv[t2] == rv0[t2] && rv[t] == rv0[t]);
                                    assert(pre[jw].rhs[kw] == rv[t]);
                                } else {
                                    assert(pre[j as int].lhs == rv[idx as int]);
                                    assert(pre[j as int].rhs[k as int] == rv[t]);
                                }
                            }
                        }
                    }
                    k += 1;
                }
            }
            j += 1;
        }
        idx += 1;
    }
    // Keep only the productions with a reachable left-hand side
    let ghost rvg = reachable.deep_view();
    proof {
        // membership in the worklist is exactly reachability
        assert forall|jq: int|
            0 <= jq < pre.len() implies rvg.contains((#[trigger] pre[jq]).lhs) == sp_reachable(
                pre,
                start@,
                pre[jq].lhs,
            ) by {
            reveal(sp_reachable);
            if rvg.contains(pre[jq].lhs) {
                let tq = choose|tq: int| 0 <= tq < rvg.len() && rvg[tq] == pre[jq].lhs;
                lemma_worklist_reachable(pre, pre, start@, rvg, tq);
            }
            if sp_reachable(pre, start@, pre[jq].lhs) {
                let n = choose|n: nat| reachable_n(pre, start@, pre[jq].lhs, n);
                assert(sp_is_var(pre, pre[jq].lhs));
                lemma_var_bfs_complete(pre, start@, rvg, pre[jq].lhs, n);
            }
        }
    }
    let mut kept: Vec<Production> = Vec::new();
    let mut i: usize = 0;
    proof {
        assert(pre.take(0) =~= Seq::<ProductionModel>::empty());
        assert(kept.deep_view() =~= pre.take(0).filter(reachable_pred(pre, start@)));
    }
    while i < prods.len()
        invariant
            i <= prods.len(),
            prods.deep_view() == pre,
            kept.deep_view() == pre.take(i as int).filter(reachable_pred(pre, start@)),
            forall|jq: int|
                0 <= jq < pre.len() ==> rvg.contains((#[trigger] pre[jq]).lhs) == sp_reachable(
                    pre,
                    start@,
                    pre[jq].lhs,
                ),
            forall|q: int|
                0 <= q < kept.deep_view().len() ==> unit_free_prod(
                    #[trigger] kept.deep_view()[q],
                    pre,
                    start@,
                ),
            forall|q: int|
                0 <= q < kept.deep_view().len() ==> rvg.contains(
                    (#[trigger] kept.deep_view()[q]).lhs,
                ),
            forall|jq: int|
                0 <= jq < i && rvg.contains((#[trigger] pre[jq]).lhs)
                    ==> kept.deep_view().contains(pre[jq]),
        decreases prods.len() - i,
    {
        let keep_it = sym_in(&reachable, prods[i].symbol.as_str());
        proof {
            reveal_with_fuel(Seq::filter, 2);
            assert(keep_it == rvg.contains(pre[i as int].lhs));
            assert(keep_it == sp_reachable(pre, start@, pre[i as int].lhs));
            assert(pre.take(i + 1).drop_last() =~= pre.take(i as int));
            assert(pre.take(i + 1).last() == pre[i as int]);
            assert(reachable_pred(pre, start@)(pre[i as int]) == sp_reachable(
                pre,
                start@,
                pre[i as int].lhs,
            ));
            assert(pre.take(i + 1).filter(reachable_pred(pre, start@)) == (if reachable_pred(
                pre,
                start@,
            )(pre[i as int]) {
                pre.take(i as int).filter(reachable_pred(pre, start@)).push(pre[i as int])
            } else {
                pre.take(i as int).filter(reachable_pred(pre, start@))
            }));
        }
        if keep_it {
            let ghost kv0 = kept.deep_view();
            let ghost qm = prods.deep_view()[i as int];
            kept.push(prods[i].dup());
            proof {
                assert(kept.deep_view() =~= kv0.push(qm));
                assert(kept.deep_view().last() == qm);
                assert(kept.deep_view().contains(pre[i as int]));
                assert forall|jq: int|
                    0 <= jq < i + 1 && rvg.contains((#[trigger] pre[jq]).lhs) implies
                    kept.deep_view().contains(pre[jq]) by {
                    if jq < i {
                        let w = choose|w: int|
                            0 <= w < kv0.len() && kv0[w] == pre[jq];
                        assert(kept.deep_view()[w] == pre[jq]);
                    }
                }
                assert(unit_free_prod(qm, pre, start@)) by {
                    let gp = pm(start@, pre);
                    assert(gp.tidy() && gp.hash_free() && gp.no_unit());
                    assert forall|k: int|
                        0 <= k < qm.rhs.len() implies (#[trigger] qm.rhs[k]).len() >= 1
                            && qm.rhs[k] != start@ && qm.rhs[k] != seq!['#'] by {
                        assert(gp.prods[i as int].rhs[k] == qm.rhs[k]);
                    }
                    assert(gp.prods[i as int].lhs == qm.lhs);
                    assert(gp.prods[i as int].rhs.len() >= 1);
                }
            }
        }
        i += 1;
    }
    *prods = kept;
    proof {
        assert(pre.take(pre.len() as int) =~= pre);
        assert(prods.deep_view() == pre.filter(reachable_pred(pre, start@)));
        let gf = pm(start@, prods.deep_view());
        assert forall|a: int|
            0 <= a < gf.prods.len() && (#[trigger] gf.prods[a]).rhs.len() == 1 implies !gf.is_var(
            gf.prods[a].rhs[0],
        ) by {
            assert(unit_free_prod(gf.prods[a], pre, start@));
            if gf.is_var(gf.prods[a].rhs[0]) {
                let k = choose|k: int|
                    0 <= k < gf.prods.len() && (#[trigger] gf.prods[k]).lhs == gf.prods[a].rhs[0];
                assert(unit_free_prod(gf.prods[k], pre, start@));
                assert(sp_is_var(pre, gf.prods[a].rhs[0]));
            }
        }
        assert(gf.no_unit());
        assert forall|a: int, b: int|
            0 <= a < gf.prods.len() && 0 <= b < gf.prods[a].rhs.len() implies (
        #[trigger] gf.prods[a].rhs[b]) != start@ && gf.prods[a].rhs[b] != seq!['#'] && gf.prods[
            a
        ].rhs[b].len() >= 1 by {
            assert(unit_free_prod(gf.prods[a], pre, start@));
        }
        assert(gf.tidy());
        assert(gf.no_null());
        assert(gf.hash_free());
        // every kept left-hand side is reachable within the kept grammar
        assert forall|a: int|
            0 <= a < gf.prods.len() implies sp_reachable(
                gf.prods,
                gf.start,
                (#[trigger] gf.prods[a]).lhs,
            ) by {
            assert(rvg.contains(gf.prods[a].lhs));
            let t = choose|t: int| 0 <= t < rvg.len() && rvg[t] == gf.prods[a].lhs;
            lemma_worklist_reachable(pre, gf.prods, start@, rvg, t);
        }
        assert(gf.all_reachable());
        assert(pm(start@, prods.deep_view()).all_reachable());
    }
}

/// A copy of a production list.
fn clone_prods(prods: &Vec<Production>) -> (r: Vec<Production>)
    ensures
        r.deep_view() == prods.deep_view(),
{
    let mut r: Vec<Production> = Vec::new();
    let mut i: usize = 0;
    proof {
        assert(r.deep_view() =~= prods.deep_view().take(0));
    }
    while i < prods.len()
        invariant
            i <= prods.len(),
            r.deep_view() == prods.deep_view().take(i as int),
        decreases prods.len() - i,
    {
        let ghost rv0 = r.deep_view();
        r.push(prods[i].dup());
        proof {
            assert(r.deep_view() =~= rv0.push(prods.deep_view()[i as int]));
            assert(prods.deep_view().take(i + 1) =~= prods.deep_view().take(i as int).push(
                prods.deep_view()[i as int],
            ));
        }
        i += 1;
    }
    proof {
        assert(prods.deep_view().take(prods.len() as int) =~= prods.deep_view());
    }
    r
}

/// Whether a right-hand side needs terminal isolation: more than one
/// symbol, at least one of them no variable of `prods`.
pub fn is_isolated(prods: &Vec<Production>, strings: &Vec<String>) -> (r: bool)
    ensures
        r == (strings.deep_view().len() != 1 && exists|k: int|
            0 <= k < strings.deep_view().len() && !sp_is_var(
                prods.deep_view(),
                #[trigger] strings.deep_view()[k],
            )),
{
    if strings.len() == 1 {
        return false;
    }
    let mut k: usize = 0;
    while k < strings.len()
        invariant
            k <= strings.len(),
            forall|t: int|
                0 <= t < k ==> sp_is_var(prods.deep_view(), #[trigger] strings.deep_view()[t]),
        decreases strings.len() - k,
    {
        if !is_variable_in(prods, strings[k].as_str()) {
            assert(!sp_is_var(prods.deep_view(), strings.deep_view()[k as int]));
            return true;
        }
        k += 1;
    }
    false
}

/// The index of `s` in `terms`, if present.
fn find_mapping(terms: &Vec<String>, s: &str) -> (r: Option<usize>)
    ensures
        r is Some ==> r.unwrap() < terms.len() && terms.deep_view()[r.unwrap() as int] == s@,
        r is None ==> !terms.deep_view().contains(s@),
{
    let mut e: usize = 0;
    while e < terms.len()
        invariant
            e <= terms.len(),
            forall|t: int| 0 <= t < e ==> (#[trigger] terms.deep_view()[t]) != s@,
        decreases terms.len() - e,
    {
        if str_eq(terms[e].as_str(), s) {
            return Some(e);
        }
        e += 1;
    }
    None
}

/// Among the productions appended from position `n0` on, one has the
/// single symbol `t` as its whole right-hand side.
pub open spec fn has_lone_prod(prods: Seq<ProductionModel>, n0: int, t: Seq<char>) -> bool {
    exists|a: int| n0 <= a < prods.len() && (#[trigger] prods[a]).rhs == seq![t]
}

/// One round of terminal isolation preserves reachability: variables
/// keep their places in the rewritten side, and each variable
/// synthesized this round stands in it.
proof fn lemma_isolation_round_reachable(
    pre: Seq<ProductionModel>,
    iter0: Seq<ProductionModel>,
    dv0: Seq<ProductionModel>,
    newp: Seq<ProductionModel>,
    nvv: Seq<Seq<char>>,
    names: Seq<Seq<char>>,
    start: Seq<char>,
    i: int,
    n0: int,
)
    requires
        0 <= i < n0 <= iter0.len() <= dv0.len(),
        pre.len() == n0,
        iter0[i] == pre[i],
        nvv.len() == pre[i].rhs.len(),
        forall|a2: int| 0 <= a2 < iter0.len() ==> #[trigger] dv0[a2] == iter0[a2],
        newp == dv0.update(i, (ProductionModel { lhs: pre[i].lhs, rhs: nvv })),
        forall|t: int|
            0 <= t < pre[i as int].rhs.len() && sp_is_var(pre, #[trigger] pre[i as int].rhs[t])
                ==> nvv[t] == pre[i as int].rhs[t],
        forall|a: int| 0 <= a < n0 ==> (#[trigger] iter0[a]).lhs == pre[a].lhs,
        forall|w: int|
            n0 <= w < iter0.len() ==> names.contains((#[trigger] iter0[w]).lhs),
        forall|e: int| 0 <= e < names.len() ==> !sp_on_rhs(pre, #[trigger] names[e]),
        forall|a2: int|
            iter0.len() <= a2 < dv0.len() ==> exists|t: int|
                0 <= t < nvv.len() && nvv[t] == (#[trigger] dv0[a2]).lhs,
        pm(start, iter0).all_reachable(),
    ensures
        pm(start, newp).all_reachable(),
{
    reveal(sp_reachable);
    let g0 = pm(start, iter0);
    assert forall|a: int|
        0 <= a < iter0.len() implies sp_reachable(iter0, start, (#[trigger] iter0[a]).lhs) by {
        assert(g0.prods[a] == iter0[a]);
        assert(sp_reachable(g0.prods, g0.start, g0.prods[a].lhs));
    }
    assert forall|a2: int, k2: int|
        0 <= a2 < iter0.len() && 0 <= k2 < iter0[a2].rhs.len() && sp_is_var(
            iter0,
            #[trigger] iter0[a2].rhs[k2],
        ) implies k2 < newp[a2].rhs.len() && newp[a2].rhs[k2] == iter0[a2].rhs[k2] by {
        if a2 == i {
            let sym = iter0[i].rhs[k2];
            assert(sp_is_var(pre, sym)) by {
                let w = choose|w: int| 0 <= w < iter0.len() && (#[trigger] iter0[w]).lhs == sym;
                if w < n0 {
                    assert(iter0[w].lhs == pre[w].lhs);
                } else {
                    assert(names.contains(iter0[w].lhs));
                    let e = choose|e: int|
                        0 <= e < names.len() && (#[trigger] names[e]) == iter0[w].lhs;
                    assert(!sp_on_rhs(pre, names[e]));
                    assert(pre[i].rhs[k2] == sym);
                    assert(sp_on_rhs(pre, pre[i].rhs[k2]));
                }
            }
            assert(nvv[k2] == pre[i].rhs[k2]);
            assert(newp[i].rhs[k2] == nvv[k2]);
        } else {
            assert(newp[a2] == iter0[a2]);
        }
    }
    assert forall|a2: int|
        0 <= a2 < newp.len() implies sp_reachable(newp, start, (#[trigger] newp[a2]).lhs) by {
        if a2 < iter0.len() {
            assert(sp_reachable(iter0, start, iter0[a2].lhs));
            let nn = choose|nn: nat| reachable_n(iter0, start, iter0[a2].lhs, nn);
            assert(sp_is_var(iter0, iter0[a2].lhs));
            lemma_reachable_preserved(iter0, newp, start, iter0[a2].lhs, nn);
            assert(newp[a2].lhs == iter0[a2].lhs);
        } else {
            // a production synthesized this round
            assert(newp[a2] == dv0[a2]);
            let t = choose|t: int| 0 <= t < nvv.len() && nvv[t] == dv0[a2].lhs;
            assert(newp[i].rhs[t] == newp[a2].lhs);
            assert(sp_reachable(iter0, start, iter0[i].lhs));
            let nn = choose|nn: nat| reachable_n(iter0, start, iter0[i].lhs, nn);
            assert(sp_is_var(iter0, iter0[i].lhs));
            lemma_reachable_preserved(iter0, newp, start, iter0[i].lhs, nn);
            assert(reachable_n(newp, start, newp[a2].lhs, nn + 1)) by {
                if newp[a2].lhs != start {
                    assert(newp[i].rhs[t] == newp[a2].lhs && reachable_n(
                        newp,
                        start,
                        newp[i].lhs,
                        nn,
                    ));
                }
            }
        }
    }
    let gn = pm(start, newp);
    assert forall|a2: int|
        0 <= a2 < gn.prods.len() implies sp_reachable(
            gn.prods,
            gn.start,
            (#[trigger] gn.prods[a2]).lhs,
        ) by {
        assert(gn.prods[a2] == newp[a2]);
        assert(sp_reachable(newp, start, newp[a2].lhs));
    }
}

/// A witness that `p1` is `p0` after terminal isolation: left-hand
/// sides unchanged in place, the appended productions the synthesized
/// `t' -> t` ones (their names nowhere in the old grammar, each a
/// variable now), every old right-hand symbol still on some side, and
/// each mapped terminal standing alone in a synthesized production.
pub open spec fn isolation_witness(
    s0: Seq<char>,
    p0: Seq<ProductionModel>,
    p1: Seq<ProductionModel>,
    terms: Seq<Seq<char>>,
    names: Seq<Seq<char>>,
) -> bool {
    &&& terms.len() == names.len()
    &&& p0.len() <= p1.len()
    &&& forall|a: int|
        0 <= a < p0.len() ==> (#[trigger] p1[a]).lhs == p0[a].lhs && p1[a].rhs.len()
            == p0[a].rhs.len()
    &&& forall|a: int| 0 <= a < p0.len() && (#[trigger] p0[a]).rhs.len() == 1 ==> p1[a] == p0[a]
    &&& forall|a: int, k: int|
        0 <= a < p0.len() && 0 <= k < p0[a].rhs.len() && sp_is_var(
            p0,
            #[trigger] p0[a].rhs[k],
        ) ==> p1[a].rhs[k] == p0[a].rhs[k]
    &&& forall|a: int|
        p0.len() <= a < p1.len() ==> (#[trigger] p1[a]).rhs.len() == 1 && names.contains(
            p1[a].lhs,
        )
    &&& forall|a: int, b: int|
        0 <= a < p0.len() && 0 <= b < p0[a].rhs.len() ==> sp_on_rhs(
            p1,
            #[trigger] p0[a].rhs[b],
        )
    &&& forall|e: int|
        0 <= e < names.len() ==> !sp_on_rhs(p0, #[trigger] names[e]) && names[e].len() >= 2
            && names[e] != s0 && sp_is_var(p1, names[e])
    &&& forall|e: int| 0 <= e < terms.len() ==> has_lone_prod(p1, p0.len() as int, #[trigger] terms[e])
    &&& p1.len() == p0.len() + names.len()
    &&& forall|e: int|
        0 <= e < names.len() ==> (#[trigger] p1[p0.len() + e]).lhs == names[e] && p1[p0.len()
            + e].rhs == seq![terms[e]]
    &&& forall|e1: int, e2: int|
        #![trigger terms[e1], terms[e2]]
        0 <= e1 < e2 < terms.len() ==> terms[e1] != terms[e2]
    &&& forall|e1: int, e2: int|
        #![trigger names[e1], names[e2]]
        0 <= e1 < e2 < names.len() ==> names[e1] != names[e2]
    &&& forall|a: int, k: int|
        0 <= a < p0.len() && 0 <= k < p0[a].rhs.len() && p0[a].rhs.len() >= 2 && !sp_is_var(
            p0,
            #[trigger] p0[a].rhs[k],
        ) ==> exists|e: int|
            0 <= e < terms.len() && (#[trigger] terms[e]) == p0[a].rhs[k] && p1[a].rhs[k]
                == names[e]
}

/// What terminal isolation does: some terminal-to-name mapping
/// witnesses the rewrite.
pub open spec fn isolation_rel(
    s0: Seq<char>,
    p0: Seq<ProductionModel>,
    p1: Seq<ProductionModel>,
) -> bool {
    exists|terms: Seq<Seq<char>>, names: Seq<Seq<char>>|
        #[trigger] isolation_witness(s0, p0, p1, terms, names)
}

/// The state the terminal-isolation sweep maintains: shape predicates,
/// reachability, untouched left-hand sides, the synthesized `t' -> t`
/// productions, and the isolation of the first `i` sides.
pub open spec fn isolation_inv(
    start: Seq<char>,
    dv: Seq<ProductionModel>,
    terms: Seq<Seq<char>>,
    names: Seq<Seq<char>>,
    pre: Seq<ProductionModel>,
    n0: int,
    i: int,
) -> bool {
    &&& pre.len() == n0
    &&& n0 <= dv.len()
    &&& terms.len() == names.len()
    &&& pm(start, dv).tidy()
    &&& pm(start, dv).no_null()
    &&& pm(start, dv).hash_free()
    &&& pm(start, dv).no_unit()
    &&& pm(start, dv).all_reachable()
    &&& forall|a: int| 0 <= a < n0 ==> (#[trigger] dv[a]).lhs == pre[a].lhs
    &&& forall|a: int| i <= a < n0 ==> (#[trigger] dv[a]) == pre[a]
    &&& forall|a: int| 0 <= a < n0 ==> (#[trigger] dv[a]).rhs.len() == pre[a].rhs.len()
    &&& forall|a: int| 0 <= a < n0 && (#[trigger] pre[a]).rhs.len() == 1 ==> dv[a] == pre[a]
    &&& forall|a: int, k: int|
        0 <= a < i && 0 <= k < pre[a].rhs.len() && sp_is_var(pre, #[trigger] pre[a].rhs[k])
            ==> dv[a].rhs[k] == pre[a].rhs[k]
    &&& forall|a: int|
        n0 <= a < dv.len() ==> (#[trigger] dv[a]).rhs.len() == 1 && names.contains(dv[a].lhs)
    &&& forall|a: int, b: int|
        0 <= a < pre.len() && 0 <= b < pre[a].rhs.len() ==> sp_on_rhs(
            dv,
            #[trigger] pre[a].rhs[b],
        )
    &&& forall|e: int| 0 <= e < names.len() ==> !sp_on_rhs(pre, #[trigger] names[e])
    &&& forall|e: int|
        0 <= e < names.len() ==> sp_is_var(dv, #[trigger] names[e]) && names[e].len() >= 2
            && names[e] != start
    &&& forall|e: int| 0 <= e < terms.len() ==> has_lone_prod(dv, n0, #[trigger] terms[e])
    &&& forall|a: int, k: int|
        0 <= a < i && dv[a].rhs.len() >= 2 && 0 <= k < dv[a].rhs.len() ==> sp_is_var(
            dv,
            #[trigger] dv[a].rhs[k],
        )
    &&& dv.len() == n0 + names.len()
    &&& forall|e: int|
        0 <= e < names.len() ==> (#[trigger] dv[n0 + e]).lhs == names[e] && dv[n0 + e].rhs
            == seq![terms[e]]
    &&& forall|e1: int, e2: int|
        #![trigger terms[e1], terms[e2]]
        0 <= e1 < e2 < terms.len() ==> terms[e1] != terms[e2]
    &&& forall|e1: int, e2: int|
        #![trigger names[e1], names[e2]]
        0 <= e1 < e2 < names.len() ==> names[e1] != names[e2]
    &&& forall|a: int, k: int|
        0 <= a < i && 0 <= k < pre[a].rhs.len() && pre[a].rhs.len() >= 2 && !sp_is_var(
            pre,
            #[trigger] pre[a].rhs[k],
        ) ==> exists|e: int|
            0 <= e < terms.len() && (#[trigger] terms[e]) == pre[a].rhs[k] && dv[a].rhs[k]
                == names[e]
}

/// One round of terminal isolation: the side of production `i` is
/// rewritten, with fresh `t' -> t` productions appended as needed.
#[verifier::rlimit(100)]
#[verifier::spinoff_prover]
fn isolate_one(
    start: &String,
    snapshot: &Vec<Production>,
    prods: &mut Vec<Production>,
    terms: &mut Vec<String>,
    names: &mut Vec<String>,
    i: usize,
    n0: usize,
    Ghost(pre): Ghost<Seq<ProductionModel>>,
)
    requires
        i < n0,
        snapshot.deep_view() == pre,
        old(terms).len() == old(names).len(),
        isolation_inv(
            start@,
            old(prods).deep_view(),
            old(terms).deep_view(),
            old(names).deep_view(),
            pre,
            n0 as int,
            i as int,
        ),
    ensures
        final (terms).len() == final (names).len(),
        isolation_inv(
            start@,
            final (prods).deep_view(),
            final (terms).deep_view(),
            final (names).deep_view(),
            pre,
            n0 as int,
            i + 1,
        ),
{
        let ghost iter0 = prods.deep_view();
        proof {
            assert(pm(start@, iter0).all_reachable());
            assert(iter0[i as int] == pre[i as int]);
        }
        if is_isolated(&snapshot, &prods[i].value) {
            let val = clone_syms(&prods[i].value);
            proof {
                assert(val.deep_view() == prods.deep_view()[i as int].rhs);
                assert(prods.deep_view()[i as int] == pre[i as int]);
                assert(val.deep_view() == pre[i as int].rhs);
            }
            let mut newval: Vec<String> = Vec::new();
            let mut k: usize = 0;
            while k < val.len()
                invariant
                    k <= val.len(),
                    i < n0,
                    n0 == pre.len(),
                    n0 <= prods.len(),
                    val.deep_view() == pre[i as int].rhs,
                    val.deep_view().len() >= 2,
                    snapshot.deep_view() == pre,
                    terms.len() == names.len(),
                    newval.deep_view().len() == k,
                    pm(start@, prods.deep_view()).tidy(),
                    pm(start@, prods.deep_view()).no_null(),
                    pm(start@, prods.deep_view()).hash_free(),
                    pm(start@, prods.deep_view()).no_unit(),
                    forall|a: int|
                        0 <= a < n0 ==> (#[trigger] prods.deep_view()[a]).lhs == pre[a].lhs,
                    forall|a: int| i <= a < n0 ==> (#[trigger] prods.deep_view()[a]) == pre[a],
                    forall|a: int|
                        n0 <= a < prods.deep_view().len() ==> (
                        #[trigger] prods.deep_view()[a]).rhs.len() == 1
                            && names.deep_view().contains(prods.deep_view()[a].lhs),
                    forall|a: int, b: int|
                        0 <= a < pre.len() && 0 <= b < pre[a].rhs.len() ==> sp_on_rhs(
                            prods.deep_view(),
                            #[trigger] pre[a].rhs[b],
                        ),
                    forall|e: int|
                        0 <= e < names.deep_view().len() ==> !sp_on_rhs(
                            pre,
                            #[trigger] names.deep_view()[e],
                        ),
                    forall|e: int|
                        0 <= e < names.deep_view().len() ==> sp_is_var(
                            prods.deep_view(),
                            #[trigger] names.deep_view()[e],
                        ) && names.deep_view()[e].len() >= 2 && names.deep_view()[e] != start@,
                    forall|e: int|
                        0 <= e < terms.deep_view().len() ==> has_lone_prod(
                            prods.deep_view(),
                            n0 as int,
                            #[trigger] terms.deep_view()[e],
                        ),
                    forall|a: int, kk: int|
                        0 <= a < i && prods.deep_view()[a].rhs.len() >= 2 && 0 <= kk
                            < prods.deep_view()[a].rhs.len() ==> sp_is_var(
                            prods.deep_view(),
                            #[trigger] prods.deep_view()[a].rhs[kk],
                        ),
                    // what is already rebuilt of the right-hand side
                    forall|t: int|
                        0 <= t < k ==> sp_is_var(
                            prods.deep_view(),
                            #[trigger] newval.deep_view()[t],
                        ) && newval.deep_view()[t].len() >= 1 && newval.deep_view()[t] != start@
                            && newval.deep_view()[t] != seq!['#'],
                    // variables were kept in place
                    forall|t: int|
                        0 <= t < k && sp_is_var(pre, #[trigger] val.deep_view()[t])
                            ==> newval.deep_view()[t] == val.deep_view()[t],
                    // terminals met so far are mapped, each to its name
                    forall|t: int|
                        0 <= t < k && !sp_is_var(pre, #[trigger] val.deep_view()[t])
                            ==> terms.deep_view().contains(val.deep_view()[t]),
                    forall|t: int|
                        0 <= t < k && !sp_is_var(pre, #[trigger] val.deep_view()[t])
                            ==> exists|e: int|
                            0 <= e < terms.deep_view().len() && (#[trigger] terms.deep_view()[e])
                                == val.deep_view()[t] && newval.deep_view()[t]
                                == names.deep_view()[e],
                    prods.deep_view().len() == n0 + names.deep_view().len(),
                    forall|e: int|
                        0 <= e < names.deep_view().len() ==> (#[trigger] prods.deep_view()[
                            n0 + e
                        ]).lhs == names.deep_view()[e] && prods.deep_view()[n0 + e].rhs == seq![
                            terms.deep_view()[e],
                        ],
                    forall|e1: int, e2: int|
                        #![trigger terms.deep_view()[e1], terms.deep_view()[e2]]
                        0 <= e1 < e2 < terms.deep_view().len() ==> terms.deep_view()[e1]
                            != terms.deep_view()[e2],
                    forall|e1: int, e2: int|
                        #![trigger names.deep_view()[e1], names.deep_view()[e2]]
                        0 <= e1 < e2 < names.deep_view().len() ==> names.deep_view()[e1]
                            != names.deep_view()[e2],
                    // this round's appended productions: prefix unchanged,
                    // and each new variable already placed in the side
                    old(terms).deep_view().len() <= terms.deep_view().len(),
                    forall|e: int|
                        0 <= e < old(terms).deep_view().len() ==> #[trigger] terms.deep_view()[e]
                            == old(terms).deep_view()[e],
                    forall|e: int|
                        0 <= e < old(names).deep_view().len() ==> #[trigger] names.deep_view()[e]
                            == old(names).deep_view()[e],
                    iter0.len() <= prods.deep_view().len(),
                    forall|a2: int|
                        0 <= a2 < iter0.len() ==> (#[trigger] prods.deep_view()[a2]) == iter0[a2],
                    forall|a2: int|
                        iter0.len() <= a2 < prods.deep_view().len() ==> exists|t: int|
                            0 <= t < newval.deep_view().len() && newval.deep_view()[t] == (
                            #[trigger] prods.deep_view()[a2]).lhs,
                decreases val.len() - k,
            {
                let s = &val[k];
                proof {
                    assert(val.deep_view()[k as int] == pre[i as int].rhs[k as int]);
                    assert(prods.deep_view()[i as int].rhs[k as int] == pre[i as int].rhs[k as int]);
                    assert(sp_on_rhs(prods.deep_view(), val.deep_view()[k as int]));
                    assert(pm(start@, prods.deep_view()).syms_nonempty());
                    assert(val.deep_view()[k as int].len() >= 1 && val.deep_view()[k as int]
                        != start@ && val.deep_view()[k as int] != seq!['#']) by {
                        let gp = pm(start@, prods.deep_view());
                        assert(gp.prods[i as int].rhs[k as int] == val.deep_view()[k as int]);
                    }
                }
                if is_variable_in(&snapshot, s.as_str()) {
                    let ghost nv0 = newval.deep_view();
                    newval.push(s.clone());
                    proof {
                        assert(newval.deep_view() =~= nv0.push(val.deep_view()[k as int]));
                        assert(sp_is_var(pre, val.deep_view()[k as int]));
                        let a = choose|a: int|
                            0 <= a < pre.len() && (#[trigger] pre[a]).lhs == val.deep_view()[
                                k as int
                            ];
                        assert(prods.deep_view()[a].lhs == val.deep_view()[k as int]);
                        assert(sp_is_var(prods.deep_view(), val.deep_view()[k as int]));
                        assert forall|a2: int|
                            iter0.len() <= a2 < prods.deep_view().len() implies exists|t: int|
                                0 <= t < newval.deep_view().len() && newval.deep_view()[t] == (
                                #[trigger] prods.deep_view()[a2]).lhs by {
                            let t = choose|t: int|
                                0 <= t < nv0.len() && nv0[t] == prods.deep_view()[a2].lhs;
                            assert(newval.deep_view()[t] == prods.deep_view()[a2].lhs);
                        }
                    }
                } else {
                    let ghost ktm = terms.deep_view();
                    let ghost knm = names.deep_view();
                    let ghost mut e_hint: int = 0;
                    proof {
                        assert(!sp_is_var(pre, val.deep_view()[k as int]));
                    }
                    let name: String = match find_mapping(&terms, s.as_str()) {
                        Some(e) => {
                            let nm = names[e].clone();
                            proof {
                                assert(nm@ == names.deep_view()[e as int]);
                                assert(names.deep_view().contains(nm@));
                                assert(terms.deep_view().contains(val.deep_view()[k as int]));
                                e_hint = e as int;
                                assert(terms.deep_view()[e_hint] == val.deep_view()[k as int]);
                                assert(names.deep_view()[e_hint] == nm@);
                            }
                            nm
                        },
                        None => {
                            let fresh = fresh_name(start, prods, s.clone().concat("`"));
                            proof {
                                reveal_strlit("`");
                                assert(fresh@.len() >= s@.len() + 1 >= 2);
                                assert(fresh@ != seq!['#']);
                                // the fresh name equals no original symbol
                                assert(!sp_on_rhs(pre, fresh@)) by {
                                    if sp_on_rhs(pre, fresh@) {
                                        let (a, b): (int, int) = choose|a: int, b: int|
                                            0 <= a < pre.len() && 0 <= b < pre[a].rhs.len()
                                                && #[trigger] pre[a].rhs[b] == fresh@;
                                        assert(sp_on_rhs(prods.deep_view(), pre[a].rhs[b]));
                                    }
                                }
                            }
                            let ghost dv0 = prods.deep_view();
                            let ghost nmm0 = names.deep_view();
                            let ghost tmm0 = terms.deep_view();
                            let newp = Production { symbol: fresh.clone(), value: vec![s.clone()] };
                            proof {
                                assert(newp@ =~~= (ProductionModel {
                                    lhs: fresh@,
                                    rhs: seq![val.deep_view()[k as int]],
                                }));
                            }
                            prods.push(newp);
                            terms.push(s.clone());
                            names.push(fresh.clone());
                            proof {
                                let sv = val.deep_view()[k as int];
                                assert(prods.deep_view() =~= dv0.push(
                                    (ProductionModel { lhs: fresh@, rhs: seq![sv] }),
                                ));
                                assert(names.deep_view() =~= nmm0.push(fresh@));
                                assert(terms.deep_view() =~= tmm0.push(sv));
                                assert(terms.deep_view().last() == sv);
                                let gf = pm(start@, prods.deep_view());
                                let gp = pm(start@, dv0);
                                // the new symbol preserves the shape predicates
                                assert forall|a: int, b: int|
                                    0 <= a < gf.prods.len() && 0 <= b < gf.prods[a].rhs.len()
                                        implies (#[trigger] gf.prods[a].rhs[b]) != start@
                                        && gf.prods[a].rhs[b] != seq!['#'] && gf.prods[a].rhs[
                                    b].len() >= 1 by {
                                    if a < dv0.len() {
                                        assert(gp.prods[a].rhs[b] != start@);
                                        assert(gp.prods[a].rhs[b] != seq!['#']);
                                        assert(gp.prods[a].rhs[b].len() >= 1);
                                    } else {
                                        assert(gf.prods[a].rhs[b] == sv);
                                    }
                                }
                                assert(gf.tidy());
                                assert(gf.no_null());
                                assert(gf.hash_free());
                                // no unit production arises: the fresh name is no
                                // right-hand symbol, and the terminal is no variable
                                assert(!sp_is_var(dv0, sv)) by {
                                    if sp_is_var(dv0, sv) {
                                        let a = choose|a: int|
                                            0 <= a < dv0.len() && (#[trigger] dv0[a]).lhs == sv;
                                        if a < n0 {
                                            assert(pre[a].lhs == sv);
                                            assert(sp_is_var(pre, sv));
                                        } else {
                                            assert(nmm0.contains(sv));
                                            let e = choose|e: int|
                                                0 <= e < nmm0.len() && nmm0[e] == sv;
                                            assert(!sp_on_rhs(pre, nmm0[e]));
                                            assert(sp_on_rhs(pre, pre[i as int].rhs[k as int]));
                                        }
                                    }
                                }
                                assert forall|a: int|
                                    0 <= a < gf.prods.len() && (#[trigger] gf.prods[a]).rhs.len()
                                        == 1 implies !gf.is_var(gf.prods[a].rhs[0]) by {
                                    if a < dv0.len() {
                                        assert(!gp.is_var(gp.prods[a].rhs[0]));
                                        if gf.is_var(gf.prods[a].rhs[0]) {
                                            let w = choose|w: int|
                                                0 <= w < gf.prods.len() && (
                                                #[trigger] gf.prods[w]).lhs == gf.prods[a].rhs[0];
                                            if w < dv0.len() {
                                                assert(sp_is_var(dv0, gp.prods[a].rhs[0]));
                                            } else {
                                                // the fresh name occurs on no side
                                                assert(gf.prods[w].lhs == fresh@);
                                                assert(sp_on_rhs(dv0, gp.prods[a].rhs[0]));
                                                assert(!sp_on_rhs(dv0, fresh@));
                                            }
                                        }
                                    } else {
                                        assert(gf.prods[a].rhs[0] == sv);
                                        if gf.is_var(sv) {
                                            let w = choose|w: int|
                                                0 <= w < gf.prods.len() && (
                                                #[trigger] gf.prods[w]).lhs == sv;
                                            if w < dv0.len() {
                                                assert(sp_is_var(dv0, sv));
                                            } else {
                                                assert(gf.prods[w].lhs == fresh@);
                                                assert(sp_on_rhs(dv0, sv));
                                                assert(!sp_on_rhs(dv0, fresh@)) by {
                                                    assert(!pm(start@, dv0).occurs(fresh@));
                                                }
                                            }
                                        }
                                    }
                                }
                                assert(gf.no_unit());
                                // the synthesized production stays available
                                assert forall|e: int|
                                    0 <= e < terms.deep_view().len() implies has_lone_prod(
                                        prods.deep_view(),
                                        n0 as int,
                                        #[trigger] terms.deep_view()[e],
                                    ) by {
                                    if e < terms.deep_view().len() - 1 {
                                        assert(terms.deep_view()[e] == tmm0[e]);
                                        assert(has_lone_prod(dv0, n0 as int, tmm0[e]));
                                        let a = choose|a: int|
                                            n0 <= a < dv0.len() && (#[trigger] dv0[a]).rhs
                                                == seq![tmm0[e]];
                                        assert(prods.deep_view()[a].rhs == seq![
                                            terms.deep_view()[e],
                                        ]);
                                    } else {
                                        assert(terms.deep_view()[e] == sv);
                                        assert(prods.deep_view()[prods.deep_view().len() - 1].rhs
                                            =~= seq![terms.deep_view()[e]]);
                                    }
                                }
                                assert(names.deep_view().contains(fresh@)) by {
                                    assert(names.deep_view().last() == fresh@);
                                }
                                assert(terms.deep_view().contains(sv)) by {
                                    assert(terms.deep_view().last() == sv);
                                }
                                // terminals met before stay mapped
                                assert forall|t: int|
                                    0 <= t < k && !sp_is_var(pre, #[trigger] val.deep_view()[t])
                                        implies terms.deep_view().contains(
                                        val.deep_view()[t],
                                    ) by {
                                    assert(tmm0.contains(val.deep_view()[t]));
                                    let e = choose|e: int|
                                        0 <= e < tmm0.len() && tmm0[e] == val.deep_view()[t];
                                    assert(terms.deep_view()[e] == val.deep_view()[t]);
                                }
                                e_hint = names.deep_view().len() - 1;
                                assert(terms.deep_view()[e_hint] == val.deep_view()[k as int]);
                                assert(names.deep_view()[e_hint] == fresh@);
                                // the new pair lines up with the appended production
                                assert(prods.deep_view().len() == n0 + names.deep_view().len());
                                assert forall|e: int|
                                    0 <= e < names.deep_view().len() implies (
                                #[trigger] prods.deep_view()[n0 + e]).lhs
                                    == names.deep_view()[e] && prods.deep_view()[n0 + e].rhs
                                    == seq![terms.deep_view()[e]] by {
                                    if e < nmm0.len() {
                                        assert(prods.deep_view()[n0 + e] == dv0[n0 + e]);
                                        assert(names.deep_view()[e] == nmm0[e]);
                                        assert(terms.deep_view()[e] == tmm0[e]);
                                    } else {
                                        assert(n0 + e == prods.deep_view().len() - 1);
                                        assert(prods.deep_view()[n0 + e].rhs =~= seq![sv]);
                                    }
                                }
                                // mapped terminals and names stay pairwise distinct
                                assert forall|e1: int, e2: int|
                                    #![trigger terms.deep_view()[e1], terms.deep_view()[e2]]
                                    0 <= e1 < e2 < terms.deep_view().len() implies
                                    terms.deep_view()[e1] != terms.deep_view()[e2] by {
                                    if e2 < tmm0.len() {
                                        assert(terms.deep_view()[e1] == tmm0[e1]);
                                        assert(terms.deep_view()[e2] == tmm0[e2]);
                                    } else {
                                        assert(terms.deep_view()[e2] == sv);
                                        assert(!tmm0.contains(sv));
                                        assert(terms.deep_view()[e1] == tmm0[e1]);
                                        assert(tmm0.contains(tmm0[e1]));
                                    }
                                }
                                assert forall|e1: int, e2: int|
                                    #![trigger names.deep_view()[e1], names.deep_view()[e2]]
                                    0 <= e1 < e2 < names.deep_view().len() implies
                                    names.deep_view()[e1] != names.deep_view()[e2] by {
                                    if e2 < nmm0.len() {
                                        assert(names.deep_view()[e1] == nmm0[e1]);
                                        assert(names.deep_view()[e2] == nmm0[e2]);
                                    } else {
                                        // the fresh name is no existing variable,
                                        // while every earlier name is one
                                        assert(names.deep_view()[e2] == fresh@);
                                        assert(names.deep_view()[e1] == nmm0[e1]);
                                        assert(sp_is_var(dv0, nmm0[e1]));
                                        if nmm0[e1] == fresh@ {
                                            assert(!pm(start@, dv0).occurs(fresh@));
                                        }
                                    }
                                }
                                // the recorded names keep their properties
                                assert forall|e: int|
                                    0 <= e < names.deep_view().len() implies sp_is_var(
                                        prods.deep_view(),
                                        #[trigger] names.deep_view()[e],
                                    ) && names.deep_view()[e].len() >= 2 && names.deep_view()[e]
                                        != start@ && !sp_on_rhs(pre, names.deep_view()[e]) by {
                                    if e < nmm0.len() {
                                        assert(names.deep_view()[e] == nmm0[e]);
                                        assert(sp_is_var(dv0, nmm0[e]));
                                        let w = choose|w: int|
                                            0 <= w < dv0.len() && (#[trigger] dv0[w]).lhs
                                                == nmm0[e];
                                        assert(prods.deep_view()[w].lhs == nmm0[e]);
                                    } else {
                                        assert(names.deep_view()[e] == fresh@);
                                        assert(prods.deep_view()[prods.deep_view().len()
                                            - 1].lhs == fresh@);
                                    }
                                }
                                // the original symbols still occur after the push
                                assert forall|a: int, b: int|
                                    0 <= a < pre.len() && 0 <= b < pre[a].rhs.len() implies
                                    sp_on_rhs(prods.deep_view(), #[trigger] pre[a].rhs[b]) by {
                                    assert(sp_on_rhs(dv0, pre[a].rhs[b]));
                                    let (aw, bw): (int, int) = choose|aw: int, bw: int|
                                        0 <= aw < dv0.len() && 0 <= bw < dv0[aw].rhs.len()
                                            && #[trigger] dv0[aw].rhs[bw] == pre[a].rhs[b];
                                    assert(prods.deep_view()[aw].rhs[bw] == pre[a].rhs[b]);
                                }
                                // already-isolated sides stay isolated after the push
                                assert forall|a: int, kk: int|
                                    0 <= a < i && prods.deep_view()[a].rhs.len() >= 2 && 0 <= kk
                                        < prods.deep_view()[a].rhs.len() implies sp_is_var(
                                        prods.deep_view(),
                                        #[trigger] prods.deep_view()[a].rhs[kk],
                                    ) by {
                                    assert(prods.deep_view()[a] == dv0[a]);
                                    assert(sp_is_var(dv0, dv0[a].rhs[kk]));
                                    let w = choose|w: int|
                                        0 <= w < dv0.len() && (#[trigger] dv0[w]).lhs == dv0[
                                            a
                                        ].rhs[kk];
                                    assert(prods.deep_view()[w].lhs == dv0[a].rhs[kk]);
                                }
                                assert forall|t: int|
                                    0 <= t < k implies sp_is_var(
                                        prods.deep_view(),
                                        #[trigger] newval.deep_view()[t],
                                    ) by {
                                    assert(sp_is_var(dv0, newval.deep_view()[t]));
                                    let w = choose|w: int|
                                        0 <= w < dv0.len() && (#[trigger] dv0[w]).lhs
                                            == newval.deep_view()[t];
                                    assert(prods.deep_view()[w].lhs == newval.deep_view()[t]);
                                }
                                // the appended productions keep their shape
                                assert forall|a: int|
                                    n0 <= a < prods.deep_view().len() implies (
                                    #[trigger] prods.deep_view()[a]).rhs.len() == 1
                                        && names.deep_view().contains(
                                        prods.deep_view()[a].lhs,
                                    ) by {
                                    if a < dv0.len() {
                                        assert(prods.deep_view()[a] == dv0[a]);
                                        assert(nmm0.contains(dv0[a].lhs));
                                        let e = choose|e: int|
                                            0 <= e < nmm0.len() && nmm0[e] == dv0[a].lhs;
                                        assert(names.deep_view()[e] == dv0[a].lhs);
                                    } else {
                                        assert(prods.deep_view()[a].lhs == fresh@);
                                        assert(names.deep_view().last() == fresh@);
                                    }
                                }
                            }
                            fresh
                        },
                    };
                    let ghost nv0 = newval.deep_view();
                    let ghost nm_model = name@;
                    newval.push(name);
                    proof {
                        assert(newval.deep_view() =~= nv0.push(nm_model));
                        assert(names.deep_view().contains(nm_model));
                        assert(terms.deep_view()[e_hint] == val.deep_view()[k as int]);
                        assert(names.deep_view()[e_hint] == nm_model);
                        assert(0 <= e_hint < terms.deep_view().len());
                        assert forall|t: int|
                            0 <= t < k + 1 && !sp_is_var(pre, #[trigger] val.deep_view()[t])
                                implies exists|e: int|
                                0 <= e < terms.deep_view().len() && (
                                #[trigger] terms.deep_view()[e]) == val.deep_view()[t]
                                    && newval.deep_view()[t] == names.deep_view()[e] by {
                            if t < k {
                                let e2 = choose|e2: int|
                                    0 <= e2 < ktm.len() && (#[trigger] ktm[e2]) == val.deep_view()[
                                    t] && nv0[t] == knm[e2];
                                assert(terms.deep_view()[e2] == ktm[e2]);
                                assert(names.deep_view()[e2] == knm[e2]);
                                assert(newval.deep_view()[t] == names.deep_view()[e2]);
                            } else {
                                assert(newval.deep_view()[t] == names.deep_view()[e_hint]);
                            }
                        }
                        let e = choose|e: int|
                            0 <= e < names.deep_view().len() && (#[trigger] names.deep_view()[e])
                                == nm_model;
                        assert(sp_is_var(prods.deep_view(), nm_model));
                        assert(nm_model.len() >= 2);
                        assert(nm_model != seq!['#']);
                        assert forall|a2: int|
                            iter0.len() <= a2 < prods.deep_view().len() implies exists|t: int|
                                0 <= t < newval.deep_view().len() && newval.deep_view()[t] == (
                                #[trigger] prods.deep_view()[a2]).lhs by {
                            if exists|t: int|
                                0 <= t < nv0.len() && nv0[t] == prods.deep_view()[a2].lhs {
                                let t = choose|t: int|
                                    0 <= t < nv0.len() && nv0[t] == prods.deep_view()[a2].lhs;
                                assert(newval.deep_view()[t] == prods.deep_view()[a2].lhs);
                            } else {
                                assert(prods.deep_view()[a2].lhs == nm_model);
                                assert(newval.deep_view()[newval.deep_view().len() - 1]
                                    == nm_model);
                            }
                        }
                    }
                }
                k += 1;
            }
            // replace the right-hand side
            let sym = prods[i].symbol.clone();
            let ghost dv0 = prods.deep_view();
            let ghost nvv = newval.deep_view();
            let newp = Production { symbol: sym, value: newval };
            proof {
                assert(prods.deep_view()[i as int] == pre[i as int]);
                assert(dv0[i as int].lhs == pre[i as int].lhs);
                assert(newp@ =~~= (ProductionModel { lhs: pre[i as int].lhs, rhs: nvv }));
            }
            prods.set(i, newp);
            proof {
                let gf = pm(start@, prods.deep_view());
                let gp = pm(start@, dv0);
                assert(prods.deep_view() =~= dv0.update(
                    i as int,
                    (ProductionModel { lhs: pre[i as int].lhs, rhs: nvv }),
                ));
                assert(gf.prods[i as int].rhs == nvv);
                assert(gf.prods[i as int].rhs.len() == pre[i as int].rhs.len() >= 2);
                assert forall|a: int, b: int|
                    0 <= a < gf.prods.len() && 0 <= b < gf.prods[a].rhs.len() implies (
                #[trigger] gf.prods[a].rhs[b]) != start@ && gf.prods[a].rhs[b] != seq!['#'] && gf
                    .prods[a].rhs[b].len() >= 1 by {
                    if a != i {
                        assert(gp.prods[a].rhs[b] != start@);
                        assert(gp.prods[a].rhs[b] != seq!['#']);
                        assert(gp.prods[a].rhs[b].len() >= 1);
                    }
                }
                assert(gf.tidy());
                assert(gf.no_null());
                assert(gf.hash_free());
                assert forall|a: int|
                    0 <= a < gf.prods.len() && (#[trigger] gf.prods[a]).rhs.len() == 1 implies !gf
                    .is_var(gf.prods[a].rhs[0]) by {
                    assert(a != i);
                    assert(gp.prods[a] == gf.prods[a]);
                    assert(!gp.is_var(gp.prods[a].rhs[0]));
                    if gf.is_var(gf.prods[a].rhs[0]) {
                        let w = choose|w: int|
                            0 <= w < gf.prods.len() && (#[trigger] gf.prods[w]).lhs == gf.prods[
                                a
                            ].rhs[0];
                        assert(dv0[w].lhs == gf.prods[w].lhs);
                        assert(sp_is_var(dv0, gp.prods[a].rhs[0]));
                    }
                }
                assert(gf.no_unit());
                // isolated sides stay isolated across the update
                assert forall|a: int, kk: int|
                    0 <= a <= i && prods.deep_view()[a].rhs.len() >= 2 && 0 <= kk
                        < prods.deep_view()[a].rhs.len() implies sp_is_var(
                        prods.deep_view(),
                        #[trigger] prods.deep_view()[a].rhs[kk],
                    ) by {
                    let sv2 = prods.deep_view()[a].rhs[kk];
                    if a == i {
                        assert(sv2 == nvv[kk]);
                        assert(sp_is_var(dv0, sv2));
                    } else {
                        assert(prods.deep_view()[a] == dv0[a]);
                        assert(sp_is_var(dv0, sv2));
                    }
                    let w = choose|w: int| 0 <= w < dv0.len() && (#[trigger] dv0[w]).lhs == sv2;
                    assert(prods.deep_view()[w].lhs == sv2);
                }
                // the recorded names keep their properties across the update
                assert forall|e: int|
                    0 <= e < names.deep_view().len() implies sp_is_var(
                        prods.deep_view(),
                        #[trigger] names.deep_view()[e],
                    ) by {
                    assert(sp_is_var(dv0, names.deep_view()[e]));
                    let w = choose|w: int|
                        0 <= w < dv0.len() && (#[trigger] dv0[w]).lhs == names.deep_view()[e];
                    assert(prods.deep_view()[w].lhs == names.deep_view()[e]);
                }
                // the synthesized productions are untouched by the update
                assert forall|e: int|
                    0 <= e < terms.deep_view().len() implies has_lone_prod(
                        prods.deep_view(),
                        n0 as int,
                        #[trigger] terms.deep_view()[e],
                    ) by {
                    assert(has_lone_prod(dv0, n0 as int, terms.deep_view()[e]));
                    let aa = choose|aa: int|
                        n0 <= aa < dv0.len() && (#[trigger] dv0[aa]).rhs == seq![
                            terms.deep_view()[e],
                        ];
                    assert(prods.deep_view()[aa].rhs == seq![terms.deep_view()[e]]);
                }
                // every original symbol still occurs somewhere
                assert forall|a: int, b: int|
                    0 <= a < pre.len() && 0 <= b < pre[a].rhs.len() implies sp_on_rhs(
                        prods.deep_view(),
                        #[trigger] pre[a].rhs[b],
                    ) by {
                    let sv = pre[a].rhs[b];
                    if terms.deep_view().contains(sv) {
                        let e = choose|e: int|
                            0 <= e < terms.deep_view().len() && terms.deep_view()[e] == sv;
                        assert(has_lone_prod(dv0, n0 as int, terms.deep_view()[e]));
                        let aa = choose|aa: int|
                            n0 <= aa < dv0.len() && (#[trigger] dv0[aa]).rhs == seq![
                                terms.deep_view()[e],
                            ];
                        assert(aa != i);
                        assert(prods.deep_view()[aa].rhs[0] == sv);
                    } else {
                        assert(sp_on_rhs(dv0, sv));
                        let (aw, bw): (int, int) = choose|aw: int, bw: int|
                            0 <= aw < dv0.len() && 0 <= bw < dv0[aw].rhs.len()
                                && #[trigger] dv0[aw].rhs[bw] == sv;
                        if aw != i {
                            assert(prods.deep_view()[aw].rhs[bw] == sv);
                        } else {
                            // inside the replaced side: `sv` must be a kept variable
                            assert(dv0[i as int] == pre[i as int]);
                            assert(sv == val.deep_view()[bw]);
                            assert(sp_is_var(pre, val.deep_view()[bw]));
                            assert(nvv[bw] == sv);
                            assert(prods.deep_view()[i as int].rhs[bw] == sv);
                        }
                    }
                }
                // the pairing of names with their productions survives
                assert(prods.deep_view().len() == n0 + names.deep_view().len());
                assert forall|e: int|
                    0 <= e < names.deep_view().len() implies (#[trigger] prods.deep_view()[
                        n0 + e
                    ]).lhs == names.deep_view()[e] && prods.deep_view()[n0 + e].rhs == seq![
                        terms.deep_view()[e],
                    ] by {
                    assert(n0 + e != i);
                    assert(prods.deep_view()[n0 + e] == dv0[n0 + e]);
                }
                // each rewritten terminal position holds its name
                assert forall|a: int, kk: int|
                    0 <= a < i + 1 && 0 <= kk < pre[a].rhs.len() && pre[a].rhs.len() >= 2
                        && !sp_is_var(pre, #[trigger] pre[a].rhs[kk]) implies exists|e: int|
                        0 <= e < terms.deep_view().len() && (#[trigger] terms.deep_view()[e])
                            == pre[a].rhs[kk] && prods.deep_view()[a].rhs[kk]
                            == names.deep_view()[e] by {
                    if a == i {
                        assert(!sp_is_var(pre, val.deep_view()[kk]));
                        let e = choose|e: int|
                            0 <= e < terms.deep_view().len() && (#[trigger] terms.deep_view()[e])
                                == val.deep_view()[kk] && newval.deep_view()[kk]
                                == names.deep_view()[e];
                        assert(prods.deep_view()[i as int].rhs[kk] == nvv[kk]);
                        assert(nvv[kk] == names.deep_view()[e]);
                    } else {
                        let e = choose|e: int|
                            0 <= e < old(terms).deep_view().len() && (#[trigger] old(
                                terms,
                            ).deep_view()[e]) == pre[a].rhs[kk] && old(prods).deep_view()[a].rhs[
                            kk] == old(names).deep_view()[e];
                        assert(terms.deep_view()[e] == old(terms).deep_view()[e]);
                        assert(names.deep_view()[e] == old(names).deep_view()[e]);
                        assert(iter0[a] == old(prods).deep_view()[a]);
                        assert(dv0[a] == iter0[a]);
                        assert(prods.deep_view()[a] == dv0[a]);
                    }
                }
                // reachability survives the rewrite
                assert(nvv.len() == val.deep_view().len());
                assert forall|w: int|
                    n0 <= w < iter0.len() implies names.deep_view().contains(
                    (#[trigger] iter0[w]).lhs,
                ) by {
                    assert(dv0[w] == iter0[w]);
                    assert(names.deep_view().contains(dv0[w].lhs));
                }
                lemma_isolation_round_reachable(
                    pre,
                    iter0,
                    dv0,
                    prods.deep_view(),
                    nvv,
                    names.deep_view(),
                    start@,
                    i as int,
                    n0 as int,
                );
                assert(gf.all_reachable());
            }
        } else {
            proof {
                let gf = pm(start@, prods.deep_view());
                if prods.deep_view()[i as int].rhs.len() >= 2 {
                    assert forall|kk: int|
                        0 <= kk < prods.deep_view()[i as int].rhs.len() implies sp_is_var(
                            prods.deep_view(),
                            #[trigger] prods.deep_view()[i as int].rhs[kk],
                        ) by {
                        assert(prods.deep_view()[i as int] == pre[i as int]);
                        assert(sp_is_var(pre, pre[i as int].rhs[kk]));
                        let a = choose|a: int|
                            0 <= a < pre.len() && (#[trigger] pre[a]).lhs == pre[i as int].rhs[kk];
                        assert(prods.deep_view()[a].lhs == pre[i as int].rhs[kk]);
                    }
                }
            }
        }
}

/// Terminal isolation: in every right-hand side of length 2 or more,
/// each terminal `t` is replaced by a synthesized variable with the
/// single production `t' -> t`, the same variable reused for every
/// occurrence of `t` across the grammar.
#[verifier::rlimit(100)]
#[verifier::spinoff_prover]
pub fn isolate_terminals(start: &String, prods: &mut Vec<Production>)
    requires
        pm(start@, old(prods).deep_view()).tidy(),
        pm(start@, old(prods).deep_view()).no_null(),
        pm(start@, old(prods).deep_view()).hash_free(),
        pm(start@, old(prods).deep_view()).no_unit(),
        pm(start@, old(prods).deep_view()).all_reachable(),
    ensures
        pm(start@, final (prods).deep_view()).tidy(),
        pm(start@, final (prods).deep_view()).no_null(),
        pm(start@, final (prods).deep_view()).hash_free(),
        pm(start@, final (prods).deep_view()).no_unit(),
        pm(start@, final (prods).deep_view()).terminals_isolated(),
        pm(start@, final (prods).deep_view()).all_reachable(),
        isolation_rel(start@, old(prods).deep_view(), final (prods).deep_view()),
{
    let ghost pre = old(prods).deep_view();
    let n0 = prods.len();
    let snapshot = clone_prods(prods);
    let mut terms: Vec<String> = Vec::new();
    let mut names: Vec<String> = Vec::new();
    let mut i: usize = 0;
    while i < n0
        invariant
            i <= n0,
            snapshot.deep_view() == pre,
            terms.len() == names.len(),
            isolation_inv(
                start@,
                prods.deep_view(),
                terms.deep_view(),
                names.deep_view(),
                pre,
                n0 as int,
                i as int,
            ),
        decreases n0 - i,
    {
        isolate_one(start, &snapshot, prods, &mut terms, &mut names, i, n0, Ghost(pre));
        i += 1;
    }
    proof {
        let gf = pm(start@, prods.deep_view());
        assert(isolation_inv(
            start@,
            prods.deep_view(),
            terms.deep_view(),
            names.deep_view(),
            pre,
            n0 as int,
            n0 as int,
        ));
        assert forall|a: int, k: int|
            0 <= a < gf.prods.len() && gf.prods[a].rhs.len() >= 2 && 0 <= k < gf.prods[
                a
            ].rhs.len() implies sp_is_var(gf.prods, #[trigger] gf.prods[a].rhs[k]) by {
            assert(a < n0);
        }
        assert(gf.terminals_isolated());
        assert(isolation_witness(
            start@,
            pre,
            prods.deep_view(),
            terms.deep_view(),
            names.deep_view(),
        ));
        assert(isolation_rel(start@, pre, prods.deep_view()));
    }
}

/// The position of the pair `(x, y)` among the recorded tails, if any.
fn find_pair(xs: &Vec<String>, ys: &Vec<String>, x: &String, y: &String) -> (r: Option<usize>)
    requires
        xs.len() == ys.len(),
    ensures
        r is Some ==> r.unwrap() < xs.len() && xs.deep_view()[r.unwrap() as int] == x@
            && ys.deep_view()[r.unwrap() as int] == y@,
{
    let mut e: usize = 0;
    while e < xs.len()
        invariant
            e <= xs.len(),
            xs.len() == ys.len(),
        decreases xs.len() - e,
    {
        if str_eq(xs[e].as_str(), x.as_str()) && str_eq(ys[e].as_str(), y.as_str()) {
            return Some(e);
        }
        e += 1;
    }
    None
}

/// Among positions `n0` and beyond, some production derives exactly
/// `x y` and is named `nm`.
pub open spec fn tail_prod_at(
    dv: Seq<ProductionModel>,
    n0: int,
    x: Seq<char>,
    y: Seq<char>,
    nm: Seq<char>,
) -> bool {
    exists|b: int|
        n0 <= b < dv.len() && (#[trigger] dv[b]).lhs == nm && dv[b].rhs == seq![x, y]
}

/// One split round preserves reachability: the symbols moved out of
/// the shortened side stand in the relay production, whose own name
/// stands in the side.
proof fn lemma_split_round_reachable(
    it0: Seq<ProductionModel>,
    dv1: Seq<ProductionModel>,
    newp: Seq<ProductionModel>,
    nvv: Seq<Seq<char>>,
    start: Seq<char>,
    i: int,
    vlen: int,
    namev: Seq<char>,
    relay: int,
)
    requires
        0 <= i < it0.len() <= dv1.len(),
        dv1.len() <= it0.len() + 1,
        forall|a: int| 0 <= a < it0.len() ==> #[trigger] dv1[a] == it0[a],
        newp == dv1.update(i, (ProductionModel { lhs: it0[i].lhs, rhs: nvv })),
        vlen == it0[i].rhs.len(),
        vlen > 2,
        nvv.len() == vlen - 1,
        forall|k: int| 0 <= k < vlen - 2 ==> #[trigger] nvv[k] == it0[i].rhs[k],
        nvv[vlen - 2] == namev,
        0 <= relay < newp.len(),
        relay != i,
        newp[relay].rhs == seq![it0[i].rhs[vlen - 2], it0[i].rhs[vlen - 1]],
        newp[relay].lhs == namev,
        dv1.len() == it0.len() + 1 ==> relay == dv1.len() - 1,
        pm(start, it0).all_reachable(),
    ensures
        pm(start, newp).all_reachable(),
{
    reveal(sp_reachable);
    let g0 = pm(start, it0);
    assert forall|a: int|
        0 <= a < it0.len() implies sp_reachable(it0, start, (#[trigger] it0[a]).lhs) by {
        assert(g0.prods[a] == it0[a]);
        assert(sp_reachable(g0.prods, g0.start, g0.prods[a].lhs));
    }
    assert forall|a2: int, k2: int|
        0 <= a2 < it0.len() && 0 <= k2 < it0[a2].rhs.len() && sp_is_var(
            it0,
            #[trigger] it0[a2].rhs[k2],
        ) implies (k2 < newp[a2].rhs.len() && newp[a2].rhs[k2] == it0[a2].rhs[k2]) || (exists|
            b: int,
        |
            0 <= b < newp.len() && (#[trigger] newp[b]).rhs.contains(it0[a2].rhs[k2])
                && newp[a2].rhs.contains(newp[b].lhs)) by {
        if a2 == i {
            if k2 < vlen - 2 {
                assert(newp[i].rhs[k2] == it0[i].rhs[k2]);
            } else {
                assert(newp[relay].rhs[k2 - (vlen - 2)] == it0[i].rhs[k2]);
                assert(newp[relay].rhs.contains(it0[i].rhs[k2]));
                assert(newp[i].rhs[vlen - 2] == newp[relay].lhs);
                assert(newp[i].rhs.contains(newp[relay].lhs));
            }
        } else {
            assert(newp[a2] == it0[a2]);
        }
    }
    assert forall|a: int|
        0 <= a < newp.len() implies sp_reachable(newp, start, (#[trigger] newp[a]).lhs) by {
        if a < it0.len() {
            let nn = choose|nn: nat| reachable_n(it0, start, it0[a].lhs, nn);
            assert(sp_is_var(it0, it0[a].lhs));
            lemma_reachable_relayed(it0, newp, start, it0[a].lhs, nn);
            assert(newp[a].lhs == it0[a].lhs);
        } else {
            // the relay production appended this round
            assert(a == dv1.len() - 1 && newp[a] == dv1[a]);
            let nn = choose|nn: nat| reachable_n(it0, start, it0[i].lhs, nn);
            assert(sp_is_var(it0, it0[i].lhs));
            lemma_reachable_relayed(it0, newp, start, it0[i].lhs, nn);
            assert(newp[a].lhs == namev || newp[a].lhs != namev);
            assert(newp[i].rhs[vlen - 2] == namev);
            assert(reachable_n(newp, start, newp[a].lhs, 2 * nn + 1)) by {
                if newp[a].lhs != start {
                    assert(newp[relay].lhs == namev);
                    assert(a == relay);
                    assert(newp[a].lhs == namev);
                    assert(newp[i].rhs[vlen - 2] == newp[a].lhs && reachable_n(
                        newp,
                        start,
                        newp[i].lhs,
                        2 * nn,
                    ));
                }
            }
        }
    }
    let gn = pm(start, newp);
    assert forall|a2: int|
        0 <= a2 < gn.prods.len() implies sp_reachable(
            gn.prods,
            gn.start,
            (#[trigger] gn.prods[a2]).lhs,
        ) by {
        assert(gn.prods[a2] == newp[a2]);
        assert(sp_reachable(newp, start, newp[a2].lhs));
    }
}

/// One expansion step over the recorded tails: some occurrence of a
/// recorded name gives way to its two recorded children.
pub open spec fn rec_step(
    cx: Seq<Seq<char>>,
    cy: Seq<Seq<char>>,
    cn: Seq<Seq<char>>,
    s1: Seq<Seq<char>>,
    s2: Seq<Seq<char>>,
) -> bool {
    exists|e: int, pos: int|
        #![trigger cn[e], s1[pos]]
        0 <= e < cn.len() && 0 <= pos < s1.len() && s1[pos] == cn[e] && s2 == s1.take(pos)
            + seq![cx[e], cy[e]] + s1.skip(pos + 1)
}

/// `s2` arises from `s1` by exactly `n` expansion steps over the
/// recorded tails.
pub open spec fn rec_derives_n(
    cx: Seq<Seq<char>>,
    cy: Seq<Seq<char>>,
    cn: Seq<Seq<char>>,
    s1: Seq<Seq<char>>,
    s2: Seq<Seq<char>>,
    n: nat,
) -> bool
    decreases n,
{
    if n == 0 {
        s1 == s2
    } else {
        exists|mid: Seq<Seq<char>>|
            #[trigger] rec_step(cx, cy, cn, mid, s2) && rec_derives_n(
                cx,
                cy,
                cn,
                s1,
                mid,
                (n - 1) as nat,
            )
    }
}

/// A record-expansion prefixed with one more step is still one.
proof fn lemma_rec_derives_cons(
    cx: Seq<Seq<char>>,
    cy: Seq<Seq<char>>,
    cn: Seq<Seq<char>>,
    s0: Seq<Seq<char>>,
    s1: Seq<Seq<char>>,
    s2: Seq<Seq<char>>,
    n: nat,
)
    requires
        rec_step(cx, cy, cn, s0, s1),
        rec_derives_n(cx, cy, cn, s1, s2, n),
    ensures
        rec_derives_n(cx, cy, cn, s0, s2, n + 1),
    decreases n,
{
    if n == 0 {
        assert(rec_derives_n(cx, cy, cn, s0, s0, 0));
        assert(rec_step(cx, cy, cn, s0, s2));
    } else {
        let mid = choose|mid: Seq<Seq<char>>|
            #[trigger] rec_step(cx, cy, cn, mid, s2) && rec_derives_n(
                cx,
                cy,
                cn,
                s1,
                mid,
                (n - 1) as nat,
            );
        lemma_rec_derives_cons(cx, cy, cn, s0, s1, mid, (n - 1) as nat);
    }
}

/// Extending the record does not lose an expansion.
proof fn lemma_rec_derives_grow(
    cx: Seq<Seq<char>>,
    cy: Seq<Seq<char>>,
    cn: Seq<Seq<char>>,
    cx2: Seq<Seq<char>>,
    cy2: Seq<Seq<char>>,
    cn2: Seq<Seq<char>>,
    s1: Seq<Seq<char>>,
    s2: Seq<Seq<char>>,
    n: nat,
)
    requires
        cn.len() <= cn2.len(),
        forall|e: int| 0 <= e < cn.len() ==> #[trigger] cn2[e] == cn[e],
        forall|e: int| 0 <= e < cn.len() ==> #[trigger] cx2[e] == cx[e],
        forall|e: int| 0 <= e < cn.len() ==> #[trigger] cy2[e] == cy[e],
        rec_derives_n(cx, cy, cn, s1, s2, n),
    ensures
        rec_derives_n(cx2, cy2, cn2, s1, s2, n),
    decreases n,
{
    if n > 0 {
        let mid = choose|mid: Seq<Seq<char>>|
            #[trigger] rec_step(cx, cy, cn, mid, s2) && rec_derives_n(
                cx,
                cy,
                cn,
                s1,
                mid,
                (n - 1) as nat,
            );
        lemma_rec_derives_grow(cx, cy, cn, cx2, cy2, cn2, s1, mid, (n - 1) as nat);
        let (e, pos): (int, int) = choose|e: int, pos: int|
            #![trigger cn[e], mid[pos]]
            0 <= e < cn.len() && 0 <= pos < mid.len() && mid[pos] == cn[e] && s2 == mid.take(pos)
                + seq![cx[e], cy[e]] + mid.skip(pos + 1);
        assert(mid[pos] == cn2[e]);
        assert(s2 == mid.take(pos) + seq![cx2[e], cy2[e]] + mid.skip(pos + 1));
        assert(rec_step(cx2, cy2, cn2, mid, s2));
    }
}

/// One split update preserves the shape predicates: the shortened
/// side holds only inoffensive variables, and everything else stands
/// unchanged.
proof fn lemma_split_update_shape(
    start: Seq<char>,
    dv1: Seq<ProductionModel>,
    newp: Seq<ProductionModel>,
    nvv: Seq<Seq<char>>,
    i: int,
)
    requires
        pm(start, dv1).tidy(),
        pm(start, dv1).no_null(),
        pm(start, dv1).hash_free(),
        pm(start, dv1).no_unit(),
        forall|a: int, kk: int|
            0 <= a < dv1.len() && dv1[a].rhs.len() >= 2 && 0 <= kk < dv1[a].rhs.len()
                ==> sp_is_var(dv1, #[trigger] dv1[a].rhs[kk]),
        0 <= i < dv1.len(),
        newp == dv1.update(i, (ProductionModel { lhs: dv1[i].lhs, rhs: nvv })),
        nvv.len() >= 2,
        forall|b: int|
            0 <= b < nvv.len() ==> (#[trigger] nvv[b]) != start && nvv[b] != seq!['#'] && nvv[
                b
            ].len() >= 1 && sp_is_var(dv1, nvv[b]),
    ensures
        pm(start, newp).tidy(),
        pm(start, newp).no_null(),
        pm(start, newp).hash_free(),
        pm(start, newp).no_unit(),
        forall|a: int, kk: int|
            0 <= a < newp.len() && newp[a].rhs.len() >= 2 && 0 <= kk < newp[a].rhs.len()
                ==> sp_is_var(newp, #[trigger] newp[a].rhs[kk]),
{
    let gf = pm(start, newp);
    let gp = pm(start, dv1);
    assert forall|a: int, b: int|
        0 <= a < gf.prods.len() && 0 <= b < gf.prods[a].rhs.len() implies (
    #[trigger] gf.prods[a].rhs[b]) != start && gf.prods[a].rhs[b] != seq!['#'] && gf.prods[
        a
    ].rhs[b].len() >= 1 by {
        if a != i {
            assert(gp.prods[a].rhs[b] != start);
            assert(gp.prods[a].rhs[b] != seq!['#']);
            assert(gp.prods[a].rhs[b].len() >= 1);
        }
    }
    assert(gf.tidy());
    assert(gf.no_null());
    assert(gf.hash_free());
    assert forall|a: int|
        0 <= a < gf.prods.len() && (#[trigger] gf.prods[a]).rhs.len() == 1 implies !gf.is_var(
        gf.prods[a].rhs[0],
    ) by {
        assert(a != i);
        assert(gp.prods[a] == gf.prods[a]);
        assert(!gp.is_var(gp.prods[a].rhs[0]));
        if gf.is_var(gf.prods[a].rhs[0]) {
            let w = choose|w: int|
                0 <= w < gf.prods.len() && (#[trigger] gf.prods[w]).lhs == gf.prods[a].rhs[0];
            assert(dv1[w].lhs == gf.prods[w].lhs);
            assert(sp_is_var(dv1, gp.prods[a].rhs[0]));
        }
    }
    assert(gf.no_unit());
    assert forall|a: int, kk: int|
        0 <= a < gf.prods.len() && gf.prods[a].rhs.len() >= 2 && 0 <= kk < gf.prods[
            a
        ].rhs.len() implies sp_is_var(gf.prods, #[trigger] gf.prods[a].rhs[kk]) by {
        let sv2 = gf.prods[a].rhs[kk];
        if a == i {
            assert(sp_is_var(dv1, sv2));
        } else {
            assert(gp.prods[a] == gf.prods[a]);
            assert(sp_is_var(dv1, sv2));
        }
        let w = choose|w: int| 0 <= w < dv1.len() && (#[trigger] dv1[w]).lhs == sv2;
        assert(gf.prods[w].lhs == sv2);
    }
}

/// A witness that `p1` is `p0` after long-production splitting:
/// left-hand sides unchanged in place, every old side now of length 1
/// or 2, each appended production a synthesized tail `XY -> X Y`
/// recorded in the mapping, its name a fresh variable.
pub open spec fn split_witness(
    s0: Seq<char>,
    p0: Seq<ProductionModel>,
    p1: Seq<ProductionModel>,
    cx: Seq<Seq<char>>,
    cy: Seq<Seq<char>>,
    cn: Seq<Seq<char>>,
) -> bool {
    &&& cx.len() == cy.len() && cy.len() == cn.len()
    &&& p0.len() <= p1.len()
    &&& forall|a: int|
        0 <= a < p0.len() ==> (#[trigger] p1[a]).lhs == p0[a].lhs && 1 <= p1[a].rhs.len() <= 2
    &&& forall|a: int|
        0 <= a < p0.len() && (#[trigger] p0[a]).rhs.len() >= 1 ==> p1[a].rhs.len() >= 1 && p1[
            a
        ].rhs[0] == p0[a].rhs[0]
    &&& forall|a: int| 0 <= a < p0.len() && (#[trigger] p0[a]).rhs.len() <= 2 ==> p1[a] == p0[a]
    &&& forall|a: int| p0.len() <= a < p1.len() ==> (#[trigger] p1[a]).rhs.len() == 2
    &&& forall|e: int|
        0 <= e < cn.len() ==> tail_prod_at(p1, p0.len() as int, cx[e], cy[e], #[trigger] cn[e])
            && cn[e].len() >= 2 && cn[e] != s0 && sp_is_var(p1, cn[e])
    &&& p1.len() == p0.len() + cn.len()
    &&& forall|e: int|
        0 <= e < cn.len() ==> (#[trigger] p1[p0.len() + e]).lhs == cn[e] && p1[p0.len()
            + e].rhs == seq![cx[e], cy[e]]
    &&& forall|e1: int, e2: int|
        #![trigger cn[e1], cn[e2]]
        0 <= e1 < e2 < cn.len() ==> cn[e1] != cn[e2]
    &&& forall|a: int|
        0 <= a < p0.len() && (#[trigger] p0[a]).rhs.len() > 2 ==> p1[a].rhs.len() == 2
            && exists|e: int| 0 <= e < cn.len() && p1[a].rhs[1] == #[trigger] cn[e]
    &&& forall|a: int|
        0 <= a < p0.len() && (#[trigger] p0[a]).rhs.len() > 2 ==> exists|m: nat|
            rec_derives_n(cx, cy, cn, p1[a].rhs, p0[a].rhs, m)
}

/// What long-production splitting does: some record of synthesized
/// tails witnesses the rewrite.
pub open spec fn split_rel(
    s0: Seq<char>,
    p0: Seq<ProductionModel>,
    p1: Seq<ProductionModel>,
) -> bool {
    exists|cx: Seq<Seq<char>>, cy: Seq<Seq<char>>, cn: Seq<Seq<char>>|
        #[trigger] split_witness(s0, p0, p1, cx, cy, cn)
}

/// Long-production splitting: while a right-hand side holds more than
/// two symbols, its last two symbols `X Y` give way to a synthesized
/// variable named after their concatenation, with the production
/// `XY -> X Y`; identical tails share the synthesized variable.
#[verifier::rlimit(100)]
#[verifier::spinoff_prover]
pub fn remove_long_productions(start: &String, prods: &mut Vec<Production>)
    requires
        pm(start@, old(prods).deep_view()).tidy(),
        pm(start@, old(prods).deep_view()).no_null(),
        pm(start@, old(prods).deep_view()).hash_free(),
        pm(start@, old(prods).deep_view()).no_unit(),
        pm(start@, old(prods).deep_view()).terminals_isolated(),
        pm(start@, old(prods).deep_view()).all_reachable(),
    ensures
        pm(start@, final (prods).deep_view()).tidy(),
        pm(start@, final (prods).deep_view()).hash_free(),
        pm(start@, final (prods).deep_view()).cnf_shape(),
        pm(start@, final (prods).deep_view()).all_reachable(),
        split_rel(start@, old(prods).deep_view(), final (prods).deep_view()),
{
    let ghost pre = old(prods).deep_view();
    let n0 = prods.len();
    let mut cx: Vec<String> = Vec::new();
    let mut cy: Vec<String> = Vec::new();
    let mut cn: Vec<String> = Vec::new();
    let mut i: usize = 0;
    while i < n0
        invariant
            i <= n0,
            n0 <= prods.len(),
            cx.len() == cy.len() && cy.len() == cn.len(),
            pm(start@, prods.deep_view()).tidy(),
            pm(start@, prods.deep_view()).no_null(),
            pm(start@, prods.deep_view()).hash_free(),
            pm(start@, prods.deep_view()).no_unit(),
            forall|a: int, kk: int|
                0 <= a < prods.deep_view().len() && prods.deep_view()[a].rhs.len() >= 2 && 0 <= kk
                    < prods.deep_view()[a].rhs.len() ==> sp_is_var(
                    prods.deep_view(),
                    #[trigger] prods.deep_view()[a].rhs[kk],
                ),
            forall|a: int|
                0 <= a < i ==> (#[trigger] prods.deep_view()[a]).rhs.len() <= 2,
            forall|a: int|
                n0 <= a < prods.deep_view().len() ==> (#[trigger] prods.deep_view()[a]).rhs.len()
                    == 2,
            forall|e: int|
                0 <= e < cn.deep_view().len() ==> sp_is_var(
                    prods.deep_view(),
                    #[trigger] cn.deep_view()[e],
                ) && cn.deep_view()[e].len() >= 2 && cn.deep_view()[e] != start@,
            pm(start@, prods.deep_view()).all_reachable(),
            forall|e: int|
                0 <= e < cn.deep_view().len() ==> tail_prod_at(
                    prods.deep_view(),
                    n0 as int,
                    cx.deep_view()[e],
                    cy.deep_view()[e],
                    #[trigger] cn.deep_view()[e],
                ),
            n0 == pre.len(),
            forall|a: int| 0 <= a < n0 ==> (#[trigger] prods.deep_view()[a]).lhs == pre[a].lhs,
            forall|a: int| i <= a < n0 ==> (#[trigger] prods.deep_view()[a]) == pre[a],
            forall|a: int|
                0 <= a < i && (#[trigger] pre[a]).rhs.len() <= 2 ==> prods.deep_view()[a]
                    == pre[a],
            forall|a: int|
                0 <= a < i && (#[trigger] pre[a]).rhs.len() >= 1 ==> prods.deep_view()[
                    a
                ].rhs.len() >= 1 && prods.deep_view()[a].rhs[0] == pre[a].rhs[0],
            prods.deep_view().len() == n0 + cn.deep_view().len(),
            forall|e: int|
                0 <= e < cn.deep_view().len() ==> (#[trigger] prods.deep_view()[n0 + e]).lhs
                    == cn.deep_view()[e] && prods.deep_view()[n0 + e].rhs == seq![
                    cx.deep_view()[e],
                    cy.deep_view()[e],
                ],
            forall|e1: int, e2: int|
                #![trigger cn.deep_view()[e1], cn.deep_view()[e2]]
                0 <= e1 < e2 < cn.deep_view().len() ==> cn.deep_view()[e1]
                    != cn.deep_view()[e2],
            forall|a: int|
                0 <= a < i && (#[trigger] pre[a]).rhs.len() > 2 ==> prods.deep_view()[
                    a
                ].rhs.len() == 2 && exists|e: int|
                    0 <= e < cn.deep_view().len() && prods.deep_view()[a].rhs[1]
                        == #[trigger] cn.deep_view()[e],
            forall|a: int|
                0 <= a < i && (#[trigger] pre[a]).rhs.len() > 2 ==> exists|m: nat|
                    rec_derives_n(
                        cx.deep_view(),
                        cy.deep_view(),
                        cn.deep_view(),
                        prods.deep_view()[a].rhs,
                        pre[a].rhs,
                        m,
                    ),
        decreases n0 - i,
    {
        proof {
            assert(prods.deep_view()[i as int] == pre[i as int]);
            assert(rec_derives_n(
                cx.deep_view(),
                cy.deep_view(),
                cn.deep_view(),
                prods.deep_view()[i as int].rhs,
                pre[i as int].rhs,
                0,
            ));
        }
        while prods[i].value.len() > 2
            invariant
                i < n0,
                n0 <= prods.len(),
                cx.len() == cy.len() && cy.len() == cn.len(),
                pm(start@, prods.deep_view()).tidy(),
                pm(start@, prods.deep_view()).no_null(),
                pm(start@, prods.deep_view()).hash_free(),
                pm(start@, prods.deep_view()).no_unit(),
                forall|a: int, kk: int|
                    0 <= a < prods.deep_view().len() && prods.deep_view()[a].rhs.len() >= 2 && 0
                        <= kk < prods.deep_view()[a].rhs.len() ==> sp_is_var(
                        prods.deep_view(),
                        #[trigger] prods.deep_view()[a].rhs[kk],
                    ),
                forall|a: int|
                    0 <= a < i ==> (#[trigger] prods.deep_view()[a]).rhs.len() <= 2,
                forall|a: int|
                    n0 <= a < prods.deep_view().len() ==> (
                    #[trigger] prods.deep_view()[a]).rhs.len() == 2,
                forall|e: int|
                    0 <= e < cn.deep_view().len() ==> sp_is_var(
                        prods.deep_view(),
                        #[trigger] cn.deep_view()[e],
                    ) && cn.deep_view()[e].len() >= 2 && cn.deep_view()[e] != start@,
                pm(start@, prods.deep_view()).all_reachable(),
                forall|e: int|
                    0 <= e < cn.deep_view().len() ==> tail_prod_at(
                        prods.deep_view(),
                        n0 as int,
                        cx.deep_view()[e],
                        cy.deep_view()[e],
                        #[trigger] cn.deep_view()[e],
                    ),
                n0 == pre.len(),
                forall|a: int|
                    0 <= a < n0 ==> (#[trigger] prods.deep_view()[a]).lhs == pre[a].lhs,
                forall|a: int|
                    i < a < n0 ==> (#[trigger] prods.deep_view()[a]) == pre[a],
                forall|a: int|
                    0 <= a < i && (#[trigger] pre[a]).rhs.len() <= 2 ==> prods.deep_view()[a]
                        == pre[a],
                forall|a: int|
                    0 <= a < i && (#[trigger] pre[a]).rhs.len() >= 1 ==> prods.deep_view()[
                        a
                    ].rhs.len() >= 1 && prods.deep_view()[a].rhs[0] == pre[a].rhs[0],
                prods.deep_view()[i as int].rhs.len() <= pre[i as int].rhs.len(),
                pre[i as int].rhs.len() <= 2 ==> prods.deep_view()[i as int] == pre[i as int],
                pre[i as int].rhs.len() >= 1 ==> prods.deep_view()[i as int].rhs.len() >= 1
                    && prods.deep_view()[i as int].rhs[0] == pre[i as int].rhs[0],
                prods.deep_view().len() == n0 + cn.deep_view().len(),
                forall|e: int|
                    0 <= e < cn.deep_view().len() ==> (#[trigger] prods.deep_view()[n0 + e]).lhs
                        == cn.deep_view()[e] && prods.deep_view()[n0 + e].rhs == seq![
                        cx.deep_view()[e],
                        cy.deep_view()[e],
                    ],
                forall|e1: int, e2: int|
                    #![trigger cn.deep_view()[e1], cn.deep_view()[e2]]
                    0 <= e1 < e2 < cn.deep_view().len() ==> cn.deep_view()[e1]
                        != cn.deep_view()[e2],
                forall|a: int|
                    0 <= a < i && (#[trigger] pre[a]).rhs.len() > 2 ==> prods.deep_view()[
                        a
                    ].rhs.len() == 2 && exists|e: int|
                        0 <= e < cn.deep_view().len() && prods.deep_view()[a].rhs[1]
                            == #[trigger] cn.deep_view()[e],
                pre[i as int].rhs.len() > 2 ==> prods.deep_view()[i as int].rhs.len() >= 2,
                prods.deep_view()[i as int].rhs.len() < pre[i as int].rhs.len()
                    ==> exists|e: int|
                    0 <= e < cn.deep_view().len() && prods.deep_view()[i as int].rhs[
                        prods.deep_view()[i as int].rhs.len() - 1
                    ] == #[trigger] cn.deep_view()[e],
                forall|a: int|
                    0 <= a < i && (#[trigger] pre[a]).rhs.len() > 2 ==> exists|m: nat|
                        rec_derives_n(
                            cx.deep_view(),
                            cy.deep_view(),
                            cn.deep_view(),
                            prods.deep_view()[a].rhs,
                            pre[a].rhs,
                            m,
                        ),
                exists|m: nat|
                    rec_derives_n(
                        cx.deep_view(),
                        cy.deep_view(),
                        cn.deep_view(),
                        prods.deep_view()[i as int].rhs,
                        pre[i as int].rhs,
                        m,
                    ),
            decreases prods[i as int].value.len(),
        {
            let ghost it0 = prods.deep_view();
            let ghost cnt0 = cn.deep_view();
            let ghost cxt0 = cx.deep_view();
            let ghost cyt0 = cy.deep_view();
            let ghost mut relay_hint: int = 0;
            proof {
                assert(pm(start@, it0).all_reachable());
            }
            let mut v = clone_syms(&prods[i].value);
            let ghost vlen = v.deep_view().len();
            proof {
                assert(v.deep_view() == prods.deep_view()[i as int].rhs);
                assert(pm(start@, prods.deep_view()).syms_nonempty());
            }
            let y = match v.pop() {
                Some(s) => s,
                None => {
                    proof {
                        assert(false);
                    }
                    String::new()
                },
            };
            let x = match v.pop() {
                Some(s) => s,
                None => {
                    proof {
                        assert(false);
                    }
                    String::new()
                },
            };
            proof {
                assert(x@ == prods.deep_view()[i as int].rhs[vlen - 2]);
                assert(y@ == prods.deep_view()[i as int].rhs[vlen - 1]);
                assert(x@.len() >= 1 && x@ != start@ && x@ != seq!['#']);
                assert(y@.len() >= 1 && y@ != start@ && y@ != seq!['#']);
                assert(sp_is_var(prods.deep_view(), x@));
                assert(sp_is_var(prods.deep_view(), y@));
            }
            let ghost mut name_idx: int = 0;
            let name: String = match find_pair(&cx, &cy, &x, &y) {
                Some(e) => {
                    let nm = cn[e].clone();
                    proof {
                        name_idx = e as int;
                        assert(nm@ == cn.deep_view()[e as int]);
                        assert(sp_is_var(prods.deep_view(), cn.deep_view()[e as int]));
                        assert(cn.deep_view()[e as int].len() >= 2);
                        assert(cn.deep_view()[e as int] != start@);
                        assert(tail_prod_at(
                            prods.deep_view(),
                            n0 as int,
                            cx.deep_view()[e as int],
                            cy.deep_view()[e as int],
                            cn.deep_view()[e as int],
                        ));
                        assert(cx.deep_view()[e as int] == x@ && cy.deep_view()[e as int] == y@);
                        let b = choose|b: int|
                            n0 <= b < prods.deep_view().len() && (
                            #[trigger] prods.deep_view()[b]).lhs == cn.deep_view()[e as int]
                                && prods.deep_view()[b].rhs == seq![
                                cx.deep_view()[e as int],
                                cy.deep_view()[e as int],
                            ];
                        relay_hint = b;
                        assert(n0 <= relay_hint < prods.deep_view().len());
                        assert(prods.deep_view()[relay_hint].lhs == nm@);
                        assert(prods.deep_view()[relay_hint].rhs == seq![x@, y@]);
                    }
                    nm
                },
                None => {
                    let base = x.clone().concat(y.as_str());
                    let fresh = fresh_name(start, prods, base);
                    proof {
                        assert(fresh@.len() >= x@.len() + y@.len() >= 2);
                        assert(fresh@ != seq!['#']);
                    }
                    let ghost dv0 = prods.deep_view();
                    let ghost cn0 = cn.deep_view();
                    let ghost cx0 = cx.deep_view();
                    let ghost cy0 = cy.deep_view();
                    proof {
                        assert(!pm(start@, it0).occurs(fresh@));
                        assert(!sp_is_var(it0, fresh@));
                    }
                    let newp = Production { symbol: fresh.clone(), value: vec![
                        x.clone(),
                        y.clone(),
                    ] };
                    proof {
                        assert(newp@ =~~= (ProductionModel { lhs: fresh@, rhs: seq![x@, y@] }));
                    }
                    prods.push(newp);
                    cx.push(x.clone());
                    cy.push(y.clone());
                    cn.push(fresh.clone());
                    proof {
                        assert(prods.deep_view() =~= dv0.push(
                            (ProductionModel { lhs: fresh@, rhs: seq![x@, y@] }),
                        ));
                        assert(cn.deep_view() =~= cn0.push(fresh@));
                        let gf = pm(start@, prods.deep_view());
                        let gp = pm(start@, dv0);
                        assert forall|a: int, b: int|
                            0 <= a < gf.prods.len() && 0 <= b < gf.prods[a].rhs.len() implies (
                        #[trigger] gf.prods[a].rhs[b]) != start@ && gf.prods[a].rhs[b] != seq![
                            '#',
                        ] && gf.prods[a].rhs[b].len() >= 1 by {
                            if a < dv0.len() {
                                assert(gp.prods[a].rhs[b] != start@);
                                assert(gp.prods[a].rhs[b] != seq!['#']);
                                assert(gp.prods[a].rhs[b].len() >= 1);
                            } else {
                                assert(gf.prods[a].rhs[b] == x@ || gf.prods[a].rhs[b] == y@);
                            }
                        }
                        assert(gf.tidy());
                        assert(gf.no_null());
                        assert(gf.hash_free());
                        assert forall|a: int|
                            0 <= a < gf.prods.len() && (#[trigger] gf.prods[a]).rhs.len() == 1
                                implies !gf.is_var(gf.prods[a].rhs[0]) by {
                            assert(a < dv0.len());
                            assert(!gp.is_var(gp.prods[a].rhs[0]));
                            if gf.is_var(gf.prods[a].rhs[0]) {
                                let w = choose|w: int|
                                    0 <= w < gf.prods.len() && (#[trigger] gf.prods[w]).lhs
                                        == gf.prods[a].rhs[0];
                                if w < dv0.len() {
                                    assert(sp_is_var(dv0, gp.prods[a].rhs[0]));
                                } else {
                                    assert(gf.prods[w].lhs == fresh@);
                                    assert(sp_on_rhs(dv0, gp.prods[a].rhs[0]));
                                    assert(!sp_on_rhs(dv0, fresh@)) by {
                                        assert(!pm(start@, dv0).occurs(fresh@));
                                    }
                                }
                            }
                        }
                        assert(gf.no_unit());
                        assert forall|a: int, kk: int|
                            0 <= a < gf.prods.len() && gf.prods[a].rhs.len() >= 2 && 0 <= kk < gf
                                .prods[a].rhs.len() implies sp_is_var(
                                gf.prods,
                                #[trigger] gf.prods[a].rhs[kk],
                            ) by {
                            if a < dv0.len() {
                                assert(sp_is_var(dv0, gp.prods[a].rhs[kk]));
                                let w = choose|w: int|
                                    0 <= w < dv0.len() && (#[trigger] dv0[w]).lhs == gp.prods[
                                        a
                                    ].rhs[kk];
                                assert(gf.prods[w].lhs == gp.prods[a].rhs[kk]);
                            } else {
                                assert(gf.prods[a].rhs[kk] == x@ || gf.prods[a].rhs[kk] == y@);
                                if gf.prods[a].rhs[kk] == x@ {
                                    let w = choose|w: int|
                                        0 <= w < dv0.len() && (#[trigger] dv0[w]).lhs == x@;
                                    assert(gf.prods[w].lhs == x@);
                                } else {
                                    let w = choose|w: int|
                                        0 <= w < dv0.len() && (#[trigger] dv0[w]).lhs == y@;
                                    assert(gf.prods[w].lhs == y@);
                                }
                            }
                        }
                        assert forall|e: int|
                            0 <= e < cn.deep_view().len() implies sp_is_var(
                                prods.deep_view(),
                                #[trigger] cn.deep_view()[e],
                            ) && cn.deep_view()[e].len() >= 2 && cn.deep_view()[e] != start@ by {
                            if e < cn0.len() {
                                assert(cn.deep_view()[e] == cn0[e]);
                                assert(sp_is_var(dv0, cn0[e]));
                                let w = choose|w: int|
                                    0 <= w < dv0.len() && (#[trigger] dv0[w]).lhs == cn0[e];
                                assert(prods.deep_view()[w].lhs == cn0[e]);
                            } else {
                                assert(cn.deep_view()[e] == fresh@);
                                assert(prods.deep_view()[prods.deep_view().len() - 1].lhs
                                    == fresh@);
                            }
                        }
                    }
                    proof {
                        assert(prods.deep_view()[prods.deep_view().len() - 1].lhs == fresh@);
                        assert(sp_is_var(prods.deep_view(), fresh@));
                        // the recorded tails still stand
                        assert(cx.deep_view() =~= cx0.push(x@));
                        assert(cy.deep_view() =~= cy0.push(y@));
                        assert forall|e: int|
                            0 <= e < cn.deep_view().len() implies tail_prod_at(
                                prods.deep_view(),
                                n0 as int,
                                cx.deep_view()[e],
                                cy.deep_view()[e],
                                #[trigger] cn.deep_view()[e],
                            ) by {
                            if e < cn0.len() {
                                assert(tail_prod_at(dv0, n0 as int, cx0[e], cy0[e], cn0[e]));
                                let b = choose|b: int|
                                    n0 <= b < dv0.len() && (#[trigger] dv0[b]).lhs == cn0[e]
                                        && dv0[b].rhs == seq![cx0[e], cy0[e]];
                                assert(prods.deep_view()[b].lhs == cn0[e]);
                                assert(prods.deep_view()[b].rhs == seq![cx0[e], cy0[e]]);
                                assert(cx.deep_view()[e] == cx0[e] && cy.deep_view()[e] == cy0[e]
                                    && cn.deep_view()[e] == cn0[e]);
                            } else {
                                assert(cn.deep_view()[e] == fresh@);
                                assert(cx.deep_view()[e] == x@ && cy.deep_view()[e] == y@);
                                assert(prods.deep_view()[prods.deep_view().len() - 1].lhs
                                    == fresh@);
                                assert(prods.deep_view()[prods.deep_view().len() - 1].rhs
                                    =~= seq![x@, y@]);
                            }
                        }
                        relay_hint = prods.deep_view().len() - 1;
                        assert(n0 <= relay_hint < prods.deep_view().len());
                        assert(prods.deep_view()[relay_hint].lhs == fresh@);
                        assert(prods.deep_view()[relay_hint].rhs =~= seq![x@, y@]);
                        name_idx = cn.deep_view().len() - 1;
                        // pairing and distinctness of the record after the push
                        assert(prods.deep_view().len() == n0 + cn.deep_view().len());
                        assert forall|e: int|
                            0 <= e < cn.deep_view().len() implies (#[trigger] prods.deep_view()[
                                n0 + e
                            ]).lhs == cn.deep_view()[e] && prods.deep_view()[n0 + e].rhs == seq![
                                cx.deep_view()[e],
                                cy.deep_view()[e],
                            ] by {
                            if e < cn0.len() {
                                assert(prods.deep_view()[n0 + e] == dv0[n0 + e]);
                                assert(cn.deep_view()[e] == cn0[e]);
                                assert(cx.deep_view()[e] == cx0[e]);
                                assert(cy.deep_view()[e] == cy0[e]);
                            } else {
                                assert(n0 + e == prods.deep_view().len() - 1);
                                assert(prods.deep_view()[n0 + e].rhs =~= seq![x@, y@]);
                            }
                        }
                        assert forall|e1: int, e2: int|
                            #![trigger cn.deep_view()[e1], cn.deep_view()[e2]]
                            0 <= e1 < e2 < cn.deep_view().len() implies cn.deep_view()[e1]
                            != cn.deep_view()[e2] by {
                            if e2 < cn0.len() {
                                assert(cn.deep_view()[e1] == cn0[e1]);
                                assert(cn.deep_view()[e2] == cn0[e2]);
                            } else {
                                // the fresh name is no existing variable,
                                // while every earlier recorded name is one
                                assert(cn.deep_view()[e2] == fresh@);
                                assert(cn.deep_view()[e1] == cn0[e1]);
                                assert(sp_is_var(it0, cn0[e1]));
                                if cn0[e1] == fresh@ {
                                    assert(!pm(start@, it0).occurs(fresh@));
                                }
                            }
                        }
                    }
                    fresh
                },
            };
            proof {
                assert(sp_is_var(prods.deep_view(), name@) && name@.len() >= 2 && name@
                    != start@);
            }
            let ghost nvv0 = v.deep_view();
            v.push(name);
            let sym = prods[i].symbol.clone();
            let ghost dv1 = prods.deep_view();
            let ghost nvv = v.deep_view();
            let newp = Production { symbol: sym, value: v };
            proof {
                assert(nvv =~= dv1[i as int].rhs.take(vlen - 2).push(nvv[nvv.len() - 1]));
                assert(newp@ =~~= (ProductionModel { lhs: dv1[i as int].lhs, rhs: nvv }));
            }
            prods.set(i, newp);
            proof {
                let gf = pm(start@, prods.deep_view());
                let gp = pm(start@, dv1);
                assert(prods.deep_view() =~= dv1.update(
                    i as int,
                    (ProductionModel { lhs: dv1[i as int].lhs, rhs: nvv }),
                ));
                assert(gf.prods[i as int].rhs == nvv);
                assert(nvv.len() == vlen - 1 >= 2);
                assert forall|b: int| 0 <= b < nvv.len() implies (#[trigger] nvv[b]) != start@
                    && nvv[b] != seq!['#'] && nvv[b].len() >= 1 && sp_is_var(dv1, nvv[b]) by {
                    if b < nvv.len() - 1 {
                        assert(nvv[b] == dv1[i as int].rhs[b]);
                        assert(gp.prods[i as int].rhs[b] == nvv[b]);
                        assert(sp_is_var(dv1, dv1[i as int].rhs[b]));
                    } else {
                        assert(nvv[b] == name@);
                    }
                }
                lemma_split_update_shape(start@, dv1, prods.deep_view(), nvv, i as int);
                assert forall|e: int|
                    0 <= e < cn.deep_view().len() implies sp_is_var(
                        prods.deep_view(),
                        #[trigger] cn.deep_view()[e],
                    ) by {
                    assert(sp_is_var(dv1, cn.deep_view()[e]));
                    let w = choose|w: int|
                        0 <= w < dv1.len() && (#[trigger] dv1[w]).lhs == cn.deep_view()[e];
                    assert(prods.deep_view()[w].lhs == cn.deep_view()[e]);
                }
                // the recorded tails survive the update
                assert forall|e: int|
                    0 <= e < cn.deep_view().len() implies tail_prod_at(
                        prods.deep_view(),
                        n0 as int,
                        cx.deep_view()[e],
                        cy.deep_view()[e],
                        #[trigger] cn.deep_view()[e],
                    ) by {
                    assert(tail_prod_at(
                        dv1,
                        n0 as int,
                        cx.deep_view()[e],
                        cy.deep_view()[e],
                        cn.deep_view()[e],
                    ));
                    let b = choose|b: int|
                        n0 <= b < dv1.len() && (#[trigger] dv1[b]).lhs == cn.deep_view()[e]
                            && dv1[b].rhs == seq![cx.deep_view()[e], cy.deep_view()[e]];
                    assert(b != i);
                    assert(prods.deep_view()[b] == dv1[b]);
                }
                // the record pairing survives the update
                assert(prods.deep_view().len() == n0 + cn.deep_view().len());
                assert forall|e: int|
                    0 <= e < cn.deep_view().len() implies (#[trigger] prods.deep_view()[
                        n0 + e
                    ]).lhs == cn.deep_view()[e] && prods.deep_view()[n0 + e].rhs == seq![
                        cx.deep_view()[e],
                        cy.deep_view()[e],
                    ] by {
                    assert(n0 + e != i);
                    assert(prods.deep_view()[n0 + e] == dv1[n0 + e]);
                }
                // the shortened side now ends in a recorded name
                assert(0 <= name_idx < cn.deep_view().len());
                assert(nvv[nvv.len() - 1] == cn.deep_view()[name_idx]);
                assert(prods.deep_view()[i as int].rhs[prods.deep_view()[i as int].rhs.len()
                    - 1] == cn.deep_view()[name_idx]);
                assert forall|a: int|
                    0 <= a < i && (#[trigger] pre[a]).rhs.len() > 2 implies prods.deep_view()[
                        a
                    ].rhs.len() == 2 && exists|e: int|
                        0 <= e < cn.deep_view().len() && prods.deep_view()[a].rhs[1]
                            == #[trigger] cn.deep_view()[e] by {
                    assert(prods.deep_view()[a] == dv1[a]);
                    assert(dv1[a] == it0[a]);
                    let e2 = choose|e2: int|
                        0 <= e2 < cnt0.len() && it0[a].rhs[1] == #[trigger] cnt0[e2];
                    assert(cn.deep_view()[e2] == cnt0[e2]);
                    assert(prods.deep_view()[a].rhs[1] == cn.deep_view()[e2]);
                }
                // the shortened side still expands to the original one
                assert(cx.deep_view()[name_idx] == x@);
                assert(cy.deep_view()[name_idx] == y@);
                assert forall|e: int|
                    0 <= e < cnt0.len() implies #[trigger] cn.deep_view()[e] == cnt0[e] by {}
                assert forall|e: int|
                    0 <= e < cnt0.len() implies #[trigger] cx.deep_view()[e] == cxt0[e] by {}
                assert forall|e: int|
                    0 <= e < cnt0.len() implies #[trigger] cy.deep_view()[e] == cyt0[e] by {}
                assert(rec_step(
                    cx.deep_view(),
                    cy.deep_view(),
                    cn.deep_view(),
                    prods.deep_view()[i as int].rhs,
                    dv1[i as int].rhs,
                )) by {
                    assert(prods.deep_view()[i as int].rhs == nvv);
                    assert(nvv[nvv.len() - 1] == cn.deep_view()[name_idx]);
                    assert(dv1[i as int].rhs =~= nvv.take(nvv.len() - 1) + seq![x@, y@]
                        + nvv.skip(nvv.len() as int));
                }
                let m0 = choose|m0: nat|
                    rec_derives_n(cxt0, cyt0, cnt0, it0[i as int].rhs, pre[i as int].rhs, m0);
                assert(it0[i as int].rhs == dv1[i as int].rhs);
                lemma_rec_derives_grow(
                    cxt0,
                    cyt0,
                    cnt0,
                    cx.deep_view(),
                    cy.deep_view(),
                    cn.deep_view(),
                    dv1[i as int].rhs,
                    pre[i as int].rhs,
                    m0,
                );
                lemma_rec_derives_cons(
                    cx.deep_view(),
                    cy.deep_view(),
                    cn.deep_view(),
                    prods.deep_view()[i as int].rhs,
                    dv1[i as int].rhs,
                    pre[i as int].rhs,
                    m0,
                );
                assert(rec_derives_n(
                    cx.deep_view(),
                    cy.deep_view(),
                    cn.deep_view(),
                    prods.deep_view()[i as int].rhs,
                    pre[i as int].rhs,
                    m0 + 1,
                ));
                // processed sides keep their expansions
                assert forall|a: int|
                    0 <= a < i && (#[trigger] pre[a]).rhs.len() > 2 implies exists|m: nat|
                        rec_derives_n(
                            cx.deep_view(),
                            cy.deep_view(),
                            cn.deep_view(),
                            prods.deep_view()[a].rhs,
                            pre[a].rhs,
                            m,
                        ) by {
                    let m2 = choose|m2: nat|
                        rec_derives_n(cxt0, cyt0, cnt0, it0[a].rhs, pre[a].rhs, m2);
                    lemma_rec_derives_grow(
                        cxt0,
                        cyt0,
                        cnt0,
                        cx.deep_view(),
                        cy.deep_view(),
                        cn.deep_view(),
                        it0[a].rhs,
                        pre[a].rhs,
                        m2,
                    );
                    assert(prods.deep_view()[a] == dv1[a]);
                    assert(dv1[a] == it0[a]);
                }
                // reachability survives the split
                assert(it0[i as int].lhs == dv1[i as int].lhs);
                assert(prods.deep_view() =~= dv1.update(
                    i as int,
                    (ProductionModel { lhs: it0[i as int].lhs, rhs: nvv }),
                ));
                assert(vlen == it0[i as int].rhs.len());
                assert(x@ == it0[i as int].rhs[vlen - 2] && y@ == it0[i as int].rhs[vlen - 1]);
                assert(n0 <= relay_hint < dv1.len());
                assert(dv1[relay_hint].rhs =~= seq![x@, y@]);
                assert(prods.deep_view()[relay_hint] == dv1[relay_hint]);
                assert(prods.deep_view()[relay_hint].lhs == nvv[vlen - 2]);
                assert(dv1.len() == it0.len() + 1 ==> relay_hint == dv1.len() - 1);
                lemma_split_round_reachable(
                    it0,
                    dv1,
                    prods.deep_view(),
                    nvv,
                    start@,
                    i as int,
                    vlen as int,
                    nvv[vlen - 2],
                    relay_hint,
                );
                assert(pm(start@, prods.deep_view()).all_reachable());
            }
        }
        i += 1;
    }
    proof {
        let gf = pm(start@, prods.deep_view());
        assert forall|a: int|
            0 <= a < gf.prods.len() implies 1 <= (#[trigger] gf.prods[a]).rhs.len() <= 2 by {
            if a >= n0 {
                assert(gf.prods[a].rhs.len() == 2);
            }
        }
        assert(gf.cnf_lengths());
        assert(gf.terminals_isolated());
        assert(gf.cnf_shape());
        assert(split_witness(
            start@,
            pre,
            prods.deep_view(),
            cx.deep_view(),
            cy.deep_view(),
            cn.deep_view(),
        ));
        assert(split_rel(start@, pre, prods.deep_view()));
    }
}

/// `t1` comes strictly before `t2` in the scan order: by the first
/// index, then the second, then the third.
pub open spec fn tri_lex_before(t1: (int, int, int), t2: (int, int, int)) -> bool {
    ||| t1.0 < t2.0
    ||| (t1.0 == t2.0 && t1.1 < t2.1)
    ||| (t1.0 == t2.0 && t1.1 == t2.1 && t1.2 < t2.2)
}

/// The triplet index of a production list: every `(a, b, c)` such that
/// production `a` has a length-2 right-hand side, `b` derives its first
/// symbol and `c` its second. The list is strictly increasing in the
/// scan order — by `a`, then `b`, then `c` — so it is duplicate-free
/// and deterministic.
pub fn compute_triplets(prods: &Vec<Production>) -> (r: Vec<(usize, usize, usize)>)
    ensures
        forall|k: int|
            0 <= k < r@.len() ==> sp_triplet_matches(
                prods.deep_view(),
                (#[trigger] r@[k]).0 as int,
                r@[k].1 as int,
                r@[k].2 as int,
            ),
        forall|a: int, b: int, c: int|
            #[trigger] sp_triplet_matches(prods.deep_view(), a, b, c) ==> tri_model(r@).contains(
                (a, b, c),
            ),
        forall|k1: int, k2: int|
            0 <= k1 < k2 < r@.len() ==> tri_lex_before(
                #[trigger] tri_model(r@)[k1],
                #[trigger] tri_model(r@)[k2],
            ),
{
    let ghost dv = prods.deep_view();
    let mut r: Vec<(usize, usize, usize)> = Vec::new();
    let n = prods.len();
    let mut a: usize = 0;
    while a < n
        invariant
            a <= n,
            n == prods.len(),
            forall|k: int|
                0 <= k < r@.len() ==> sp_triplet_matches(
                    dv,
                    (#[trigger] r@[k]).0 as int,
                    r@[k].1 as int,
                    r@[k].2 as int,
                ),
            forall|a2: int, b2: int, c2: int|
                #[trigger] sp_triplet_matches(dv, a2, b2, c2) && a2 < a ==> tri_model(
                    r@,
                ).contains((a2, b2, c2)),
            forall|k1: int, k2: int|
                0 <= k1 < k2 < r@.len() ==> tri_lex_before(
                    #[trigger] tri_model(r@)[k1],
                    #[trigger] tri_model(r@)[k2],
                ),
            forall|k: int|
                0 <= k < r@.len() ==> (#[trigger] tri_model(r@)[k]).0 < a,
        decreases n - a,
    {
        if prods[a].value.len() == 2 {
            let mut b: usize = 0;
            while b < n
                invariant
                    b <= n,
                    a < n,
                    n == prods.len(),
                    dv[a as int].rhs.len() == 2,
                    forall|k: int|
                        0 <= k < r@.len() ==> sp_triplet_matches(
                            dv,
                            (#[trigger] r@[k]).0 as int,
                            r@[k].1 as int,
                            r@[k].2 as int,
                        ),
                    forall|a2: int, b2: int, c2: int|
                        #[trigger] sp_triplet_matches(dv, a2, b2, c2) && a2 < a ==> tri_model(
                            r@,
                        ).contains((a2, b2, c2)),
                    forall|b2: int, c2: int|
                        #[trigger] sp_triplet_matches(dv, a as int, b2, c2) && b2 < b
                            ==> tri_model(r@).contains((a as int, b2, c2)),
                    forall|k1: int, k2: int|
                        0 <= k1 < k2 < r@.len() ==> tri_lex_before(
                            #[trigger] tri_model(r@)[k1],
                            #[trigger] tri_model(r@)[k2],
                        ),
                    forall|k: int|
                        0 <= k < r@.len() ==> tri_lex_before(
                            #[trigger] tri_model(r@)[k],
                            (a as int, b as int, 0int),
                        ),
                decreases n - b,
            {
                if str_eq(prods[b].symbol.as_str(), prods[a].value[0].as_str()) {
                    let mut c: usize = 0;
                    while c < n
                        invariant
                            c <= n,
                            b < n,
                            a < n,
                            n == prods.len(),
                            dv[a as int].rhs.len() == 2,
                            dv[b as int].lhs == dv[a as int].rhs[0],
                            forall|k: int|
                                0 <= k < r@.len() ==> sp_triplet_matches(
                                    dv,
                                    (#[trigger] r@[k]).0 as int,
                                    r@[k].1 as int,
                                    r@[k].2 as int,
                                ),
                            forall|a2: int, b2: int, c2: int|
                                #[trigger] sp_triplet_matches(dv, a2, b2, c2) && a2 < a
                                    ==> tri_model(r@).contains((a2, b2, c2)),
                            forall|b2: int, c2: int|
                                #[trigger] sp_triplet_matches(dv, a as int, b2, c2) && b2 < b
                                    ==> tri_model(r@).contains((a as int, b2, c2)),
                            forall|c2: int|
                                #[trigger] sp_triplet_matches(dv, a as int, b as int, c2) && c2
                                    < c ==> tri_model(r@).contains((a as int, b as int, c2)),
                            forall|k1: int, k2: int|
                                0 <= k1 < k2 < r@.len() ==> tri_lex_before(
                                    #[trigger] tri_model(r@)[k1],
                                    #[trigger] tri_model(r@)[k2],
                                ),
                            forall|k: int|
                                0 <= k < r@.len() ==> tri_lex_before(
                                    #[trigger] tri_model(r@)[k],
                                    (a as int, b as int, c as int),
                                ),
                        decreases n - c,
                    {
                        if str_eq(prods[c].symbol.as_str(), prods[a].value[1].as_str()) {
                            let ghost r0 = r@;
                            r.push((a, b, c));
                            proof {
                                assert(r@ =~= r0.push((a, b, c)));
                                assert(tri_model(r@)[r0.len() as int] == (
                                    a as int,
                                    b as int,
                                    c as int,
                                ));
                                assert forall|k: int|
                                    0 <= k < r0.len() implies #[trigger] tri_model(r@)[k]
                                    == tri_model(r0)[k] by {}
                                assert forall|k: int|
                                    0 <= k < r0.len() implies tri_lex_before(
                                        #[trigger] tri_model(r@)[k],
                                        tri_model(r@)[r0.len() as int],
                                    ) by {
                                    assert(tri_lex_before(
                                        tri_model(r0)[k],
                                        (a as int, b as int, c as int),
                                    ));
                                }
                                assert forall|a2: int, b2: int, c2: int|
                                    tri_model(r0).contains((a2, b2, c2)) implies tri_model(
                                        r@,
                                    ).contains((a2, b2, c2)) by {
                                    let k = choose|k: int|
                                        0 <= k < tri_model(r0).len() && tri_model(r0)[k] == (
                                            a2,
                                            b2,
                                            c2,
                                        );
                                    assert(tri_model(r@)[k] == (a2, b2, c2));
                                }
                            }
                        }
                        c += 1;
                    }
                }
                b += 1;
            }
        }
        a += 1;
    }
    r
}

/// The whole normalization, pass by pass: intermediate production
/// lists witness start-symbol isolation, epsilon-elimination,
/// unit-production elimination, unreachable-symbol pruning, terminal
/// isolation and long-production splitting, in that order. The start
/// symbol changes only in the first pass.
pub open spec fn cnf_pipeline_rel(
    s0: Seq<char>,
    p0: Seq<ProductionModel>,
    s5: Seq<char>,
    p5: Seq<ProductionModel>,
) -> bool {
    exists|
        p1: Seq<ProductionModel>,
        p2: Seq<ProductionModel>,
        p3: Seq<ProductionModel>,
        p4: Seq<ProductionModel>,
        p4b: Seq<ProductionModel>,
    |
        {
            &&& #[trigger] start_isolation_rel(s0, p0, s5, p1)
            &&& #[trigger] null_elimination_rel(p1, p2)
            &&& #[trigger] unit_elimination_rel(p2, p3)
            &&& #[trigger] prune_rel(s5, p3, p4)
            &&& #[trigger] isolation_rel(s5, p4, p4b)
            &&& split_rel(s5, p4b, p5)
        }
}

/// Normalization to Chomsky Normal Form: start-symbol isolation,
/// epsilon-elimination, unit-production elimination, unreachable-symbol
/// pruning, terminal isolation, and long-production splitting, in that
/// order. The contract pins each pass's rewrite through
/// [`cnf_pipeline_rel`]; that the generated language is preserved by
/// the rewrites is a property of the algorithm not stated here.
pub fn to_cnf(start: &mut String, prods: &mut Vec<Production>)
    requires
        pm(old(start)@, old(prods).deep_view()).rhs_nonempty(),
        pm(old(start)@, old(prods).deep_view()).syms_nonempty(),
        pm(old(start)@, old(prods).deep_view()).hash_confined(),
        pm(old(start)@, old(prods).deep_view()).lhs_not_hash(),
    ensures
        pm(final (start)@, final (prods).deep_view()).tidy(),
        pm(final (start)@, final (prods).deep_view()).hash_free(),
        pm(final (start)@, final (prods).deep_view()).cnf_shape(),
        pm(final (start)@, final (prods).deep_view()).all_reachable(),
        cnf_pipeline_rel(
            old(start)@,
            old(prods).deep_view(),
            final (start)@,
            final (prods).deep_view(),
        ),
{
    let ghost s0 = start@;
    let ghost p0 = prods.deep_view();
    let ghost g0 = pm(start@, prods.deep_view());
    remove_start_symbol(start, prods);
    proof {
        let g1 = pm(start@, prods.deep_view());
        if !g0.on_rhs(g0.start) {
            assert(g1.prods == g0.prods && g1.start == g0.start);
            assert(g1.tidy() && g1.hash_confined());
        } else {
            let newm = ProductionModel { lhs: g1.start, rhs: seq![g0.start] };
            assert(g1.prods == g0.prods.push(newm));
            assert(g1.start.len() > g0.start.len() >= 1);
            assert(g1.start != seq!['#']) by {
                assert(g1.start.len() >= 2);
            }
            assert forall|i: int|
                0 <= i < g1.prods.len() implies (#[trigger] g1.prods[i]).rhs.len() >= 1 && g1
                .prods[i].lhs != seq!['#'] && g1.prods[i].lhs.len() >= 1 by {
                if i < g0.prods.len() {
                    assert(g1.prods[i] == g0.prods[i]);
                    assert(g0.prods[i].rhs.len() >= 1);
                    assert(g0.prods[i].lhs != seq!['#']);
                    assert(g0.prods[i].lhs.len() >= 1);
                } else {
                    assert(g1.prods[i] == newm);
                }
            }
            assert forall|i: int, j: int|
                0 <= i < g1.prods.len() && 0 <= j < g1.prods[i].rhs.len() implies (
            #[trigger] g1.prods[i].rhs[j]).len() >= 1 by {
                if i < g0.prods.len() {
                    assert(g1.prods[i] == g0.prods[i]);
                    assert(g0.prods[i].rhs[j].len() >= 1);
                } else {
                    assert(g1.prods[i].rhs[j] == g0.start);
                }
            }
            assert forall|i: int, j: int|
                0 <= i < g1.prods.len() && 0 <= j < g1.prods[i].rhs.len() && #[trigger] g1.prods[
                    i
                ].rhs[j] == seq!['#'] implies g1.prods[i].is_null() by {
                if i < g0.prods.len() {
                    assert(g1.prods[i] == g0.prods[i]);
                    assert(g0.prods[i].rhs[j] == seq!['#']);
                    assert(g0.prods[i].is_null());
                } else {
                    assert(g1.prods[i].rhs[j] == g0.start);
                    assert(g0.start != seq!['#']);
                }
            }
            assert(g1.rhs_nonempty());
            assert(g1.syms_nonempty());
            assert(g1.lhs_not_hash());
            assert(g1.hash_confined());
            assert(g1.tidy());
        }
    }
    let ghost p1 = prods.deep_view();
    remove_null_productions(start, prods);
    let ghost p2 = prods.deep_view();
    remove_unit_productions(start, prods);
    let ghost p3 = prods.deep_view();
    remove_useless_productions(start, prods);
    let ghost p4 = prods.deep_view();
    isolate_terminals(start, prods);
    let ghost p4b = prods.deep_view();
    remove_long_productions(start, prods);
    proof {
        assert(start_isolation_rel(s0, p0, start@, p1));
        assert(null_elimination_rel(p1, p2));
        assert(unit_elimination_rel(p2, p3));
        assert(prune_rel(start@, p3, p4));
        assert(isolation_rel(start@, p4, p4b));
        assert(split_rel(start@, p4b, prods.deep_view()));
        assert(cnf_pipeline_rel(s0, p0, start@, prods.deep_view()));
    }
}

impl CFG {
    /// A grammar built from its textual description: the text is
    /// parsed, the productions are normalized to Chomsky Normal Form,
    /// and the triplet index is computed. `Err` exactly when the text
    /// does not parse. The ensured pipeline relation pins the rewrite
    /// of every pass; that the normalized grammar generates the same
    /// language as the parsed one (for grammars whose nullable
    /// variables are all directly nullable) is a property of the
    /// algorithm not stated here.
    pub fn new(input: &str) -> (r: Result<CFG, GrammarParseError>)
        ensures
            r is Ok <==> spec_parse_grammar(input@) is Some,
            r is Ok ==> {
                &&& r.unwrap()@.cnf_shape()
                &&& r.unwrap()@.start_isolated()
                &&& r.unwrap()@.hash_free()
                &&& r.unwrap()@.tidy()
                &&& r.unwrap()@.triplets_exact()
                &&& forall|k1: int, k2: int|
                    0 <= k1 < k2 < r.unwrap()@.triplets.len() ==> tri_lex_before(
                        #[trigger] r.unwrap()@.triplets[k1],
                        #[trigger] r.unwrap()@.triplets[k2],
                    )
                &&& r.unwrap()@.all_reachable()
                &&& cnf_pipeline_rel(
                    spec_parse_grammar(input@).unwrap().0,
                    spec_parse_grammar(input@).unwrap().1,
                    r.unwrap()@.start,
                    r.unwrap()@.prods,
                )
            },
    {
        let (mut start, mut prods) = match read_cfg(input) {
            Ok(sp) => sp,
            Err(e) => {
                return Err(e);
            },
        };
        proof {
            lemma_parse_wf(input@);
        }
        to_cnf(&mut start, &mut prods);
        let triplets = compute_triplets(&prods);
        let cfg = CFG { starting_variable: start, productions: prods, triplets };
        proof {
            let gm = cfg@;
            assert(gm.prods == cfg.productions.deep_view());
            assert(gm.start == cfg.starting_variable@);
            assert(gm.cnf_shape() && gm.tidy() && gm.hash_free());
            assert(gm.all_reachable()) by {
                reveal(sp_reachable);
                let gp = pm(cfg.starting_variable@, cfg.productions.deep_view());
                assert forall|a: int|
                    0 <= a < gm.prods.len() implies sp_reachable(
                        gm.prods,
                        gm.start,
                        (#[trigger] gm.prods[a]).lhs,
                    ) by {
                    assert(gp.prods[a] == gm.prods[a]);
                    assert(sp_reachable(gp.prods, gp.start, gp.prods[a].lhs));
                }
            }
            assert forall|k: int|
                0 <= k < gm.triplets.len() implies gm.triplet_matches(
                    (#[trigger] gm.triplets[k]).0,
                    gm.triplets[k].1,
                    gm.triplets[k].2,
                ) by {
                assert(gm.triplets[k] == (
                    cfg.triplets@[k].0 as int,
                    cfg.triplets@[k].1 as int,
                    cfg.triplets@[k].2 as int,
                ));
                assert(sp_triplet_matches(
                    cfg.productions.deep_view(),
                    cfg.triplets@[k].0 as int,
                    cfg.triplets@[k].1 as int,
                    cfg.triplets@[k].2 as int,
                ));
            }
            assert(gm.triplets_exact());
            assert forall|k1: int, k2: int|
                0 <= k1 < k2 < gm.triplets.len() implies tri_lex_before(
                    #[trigger] gm.triplets[k1],
                    #[trigger] gm.triplets[k2],
                ) by {
                assert(gm.triplets[k1] == tri_model(cfg.triplets@)[k1]);
                assert(gm.triplets[k2] == tri_model(cfg.triplets@)[k2]);
            }
            assert(cfg.tri_wf()) by {
                assert forall|k: int|
                    0 <= k < cfg.triplets@.len() implies (#[trigger] cfg.triplets@[k]).0
                        < cfg.productions@.len() && cfg.triplets@[k].1 < cfg.productions@.len()
                        && cfg.triplets@[k].2 < cfg.productions@.len() by {
                    assert(sp_triplet_matches(
                        cfg.productions.deep_view(),
                        cfg.triplets@[k].0 as int,
                        cfg.triplets@[k].1 as int,
                        cfg.triplets@[k].2 as int,
                    ));
                    assert(cfg.productions.deep_view().len() == cfg.productions@.len());
                }
            }
        }
        Ok(cfg)
    }
}

/// A parsed grammar is well shaped: non-empty symbols on both sides,
/// the epsilon marker only as a whole right-hand side, and never a
/// left-hand side.
pub proof fn lemma_parse_wf(input: Seq<char>)
    requires
        spec_parse_grammar(input) is Some,
    ensures
        ({
            let (s, ps) = spec_parse_grammar(input).unwrap();
            &&& pm(s, ps).rhs_nonempty()
            &&& pm(s, ps).syms_nonempty()
            &&& pm(s, ps).hash_confined()
            &&& pm(s, ps).lhs_not_hash()
        }),
{
    let ls = spec_lines(input);
    let (s, ps) = spec_parse_grammar(input).unwrap();
    lemma_prods_of_lines_wf(ls, ls.len() as int);
    assert(ps == spec_prods_of_lines(ls, ls.len() as int));
    assert(s == spec_tokens(ls[0])[0]);
    assert(spec_line_ok(ls[0]));
    lemma_spec_split_len(spec_trim(ls[0]), ' ');
    assert(s.len() >= 1 && s != seq!['#']);
}

/// Every element of every group of [`tok_split`] is an element of the
/// split sequence.
proof fn lemma_tok_split_elements(ts: Seq<Seq<char>>, sep: Seq<char>)
    ensures
        forall|p: int, k: int|
            0 <= p < tok_split(ts, sep).len() && 0 <= k < tok_split(ts, sep)[p].len()
                ==> ts.contains(#[trigger] tok_split(ts, sep)[p][k]),
    decreases ts.len(),
{
    lemma_tok_first_index(ts, sep);
    let i = tok_first_index(ts, sep);
    let r = tok_split(ts, sep);
    if i == ts.len() {
        assert forall|p: int, k: int|
            0 <= p < r.len() && 0 <= k < r[p].len() implies ts.contains(#[trigger] r[p][k]) by {
            assert(r[p] == ts);
            assert(ts[k] == r[p][k]);
        }
    } else {
        let tail = ts.subrange(i + 1, ts.len() as int);
        lemma_tok_split_elements(tail, sep);
        assert forall|p: int, k: int|
            0 <= p < r.len() && 0 <= k < r[p].len() implies ts.contains(#[trigger] r[p][k]) by {
            if p == 0 {
                assert(r[0] == ts.subrange(0, i));
                assert(ts[k] == r[0][k]);
            } else {
                assert(r[p] == tok_split(tail, sep)[p - 1]);
                assert(tail.contains(r[p][k]));
                let w = choose|w: int| 0 <= w < tail.len() && tail[w] == r[p][k];
                assert(ts[w + i + 1] == r[p][k]);
            }
        }
    }
}

/// The productions of well-formed lines are well shaped.
proof fn lemma_prods_of_lines_wf(ls: Seq<Seq<char>>, upto: int)
    requires
        upto <= ls.len(),
        forall|l: int| 0 <= l < ls.len() ==> spec_line_ok(#[trigger] ls[l]),
    ensures
        ({
            let ps = spec_prods_of_lines(ls, upto);
            &&& forall|i: int|
                0 <= i < ps.len() ==> (#[trigger] ps[i]).rhs.len() >= 1 && ps[i].lhs.len() >= 1
                    && ps[i].lhs != seq!['#']
            &&& forall|i: int, j: int|
                0 <= i < ps.len() && 0 <= j < ps[i].rhs.len() ==> (#[trigger] ps[i].rhs[j]).len()
                    >= 1
            &&& forall|i: int, j: int|
                0 <= i < ps.len() && 0 <= j < ps[i].rhs.len() && #[trigger] ps[i].rhs[j] == seq![
                    '#',
                ] ==> ps[i].is_null()
        }),
    decreases upto,
{
    if upto > 0 {
        lemma_prods_of_lines_wf(ls, upto - 1);
        let line = ls[upto - 1];
        assert(spec_line_ok(line));
        let toks = spec_tokens(line);
        let alts = spec_alternatives(line);
        let rest = spec_prods_of_lines(ls, upto - 1);
        let lp = spec_line_prods(line);
        let ps = spec_prods_of_lines(ls, upto);
        lemma_tok_split_elements(toks.skip(2), seq!['|']);
        assert forall|q: int|
            0 <= q < lp.len() implies (#[trigger] lp[q]).lhs == toks[0] && lp[q].rhs == alts[q]
            by {}
        assert forall|q: int, j: int|
            0 <= q < lp.len() && 0 <= j < lp[q].rhs.len() implies (#[trigger] lp[q].rhs[j]).len()
                >= 1 by {
            assert(lp[q].rhs[j] == alts[q][j]);
            assert(toks.skip(2).contains(alts[q][j]));
            let w = choose|w: int| 0 <= w < toks.skip(2).len() && toks.skip(2)[w] == alts[q][j];
            assert(toks[w + 2] == alts[q][j]);
        }
        assert forall|q: int, j: int|
            0 <= q < lp.len() && 0 <= j < lp[q].rhs.len() && #[trigger] lp[q].rhs[j] == seq!['#']
            implies lp[q].is_null() by {
            assert(alts[q][j] == seq!['#']);
            assert(alts[q].len() == 1);
            assert(j == 0);
            assert(lp[q].rhs =~= seq![seq!['#']]);
        }
        assert(toks[0].len() >= 1 && toks[0] != seq!['#']);
        assert forall|i: int|
            0 <= i < ps.len() implies (#[trigger] ps[i]).rhs.len() >= 1 && ps[i].lhs.len() >= 1
                && ps[i].lhs != seq!['#'] by {
            if i < rest.len() {
                assert(ps[i] == rest[i]);
            } else {
                assert(ps[i] == lp[i - rest.len()]);
                assert(lp[i - rest.len()].rhs == alts[i - rest.len()]);
                assert(alts[i - rest.len()].len() >= 1);
            }
        }
        assert forall|i: int, j: int|
            0 <= i < ps.len() && 0 <= j < ps[i].rhs.len() implies (#[trigger] ps[i].rhs[j]).len()
                >= 1 by {
            if i < rest.len() {
                assert(ps[i] == rest[i]);
                assert(rest[i].rhs[j].len() >= 1);
            } else {
                assert(ps[i] == lp[i - rest.len()]);
                assert(lp[i - rest.len()].rhs[j].len() >= 1);
            }
        }
        assert forall|i: int, j: int|
            0 <= i < ps.len() && 0 <= j < ps[i].rhs.len() && #[trigger] ps[i].rhs[j] == seq!['#']
            implies ps[i].is_null() by {
            if i < rest.len() {
                assert(ps[i] == rest[i]);
                assert(rest[i].rhs[j] == seq!['#']);
                assert(rest[i].is_null());
            } else {
                assert(ps[i] == lp[i - rest.len()]);
                assert(lp[i - rest.len()].rhs[j] == seq!['#']);
                assert(lp[i - rest.len()].is_null());
            }
        }
    }
}

// ---------------------------------------------------------------------
// CYK recognition
// ---------------------------------------------------------------------

/// `p` is a proper split of a span of `l + 1` tokens.
pub open spec fn split_point(l: int, p: int) -> bool {
    0 <= p < l
}

/// Production `v` derives the `l + 1` tokens of `w` starting at `s`:
/// for `l == 0`, its right-hand side is exactly the token `w[s]`; for
/// longer spans, some split and some triplet `(v, b, c)` derive the two
/// halves.
pub open spec fn cyk_cell(g: GrammarModel, w: Seq<Seq<char>>, l: int, s: int, v: int) -> bool
    decreases l,
{
    if l <= 0 {
        0 <= v < g.prods.len() && 0 <= s < w.len() && g.prods[v].rhs.len() == 1 && g.prods[
            v
        ].rhs[0] == w[s]
    } else {
        exists|p: int, t: int|
            #[trigger] split_point(l, p) && 0 <= t < g.triplets.len() && (
            #[trigger] g.triplets[t]).0 == v && cyk_cell(g, w, p, s, g.triplets[t].1) && cyk_cell(
                g,
                w,
                l - p - 1,
                s + p + 1,
                g.triplets[t].2,
            )
    }
}

/// The CYK answer: `w` is non-empty and some production for the start
/// symbol derives all of it.
pub open spec fn recognize_spec(g: GrammarModel, w: Seq<Seq<char>>) -> bool {
    w.len() >= 1 && exists|v: int|
        0 <= v < g.prods.len() && (#[trigger] g.prods[v]).lhs == g.start && cyk_cell(
            g,
            w,
            w.len() - 1,
            0,
            v,
        )
}

/// A span reaching past the end of the input derives nothing.
proof fn lemma_cell_oob(g: GrammarModel, w: Seq<Seq<char>>, l: int, s: int, v: int)
    requires
        l >= 0,
        s + l >= w.len(),
    ensures
        !cyk_cell(g, w, l, s, v),
    decreases l,
{
    if l > 0 && cyk_cell(g, w, l, s, v) {
        let (p, t): (int, int) = choose|p: int, t: int|
            #[trigger] split_point(l, p) && 0 <= t < g.triplets.len() && (
            #[trigger] g.triplets[t]).0 == v && cyk_cell(g, w, p, s, g.triplets[t].1) && cyk_cell(
                g,
                w,
                l - p - 1,
                s + p + 1,
                g.triplets[t].2,
            );
        lemma_cell_oob(g, w, l - p - 1, s + p + 1, g.triplets[t].2);
        assert(false);
    }
}

/// Some triplet among the first `t_lim` fires for `(l, s, v)` at the
/// split `p`.
pub open spec fn cell_step(
    g: GrammarModel,
    w: Seq<Seq<char>>,
    l: int,
    s: int,
    v: int,
    p: int,
    t_lim: int,
) -> bool {
    exists|t: int|
        0 <= t < t_lim && (#[trigger] g.triplets[t]).0 == v && cyk_cell(g, w, p, s, g.triplets[
            t
        ].1) && cyk_cell(g, w, l - p - 1, s + p + 1, g.triplets[t].2)
}

/// Some triplet fires for `(l, s, v)` at some split below `p_lim`.
pub open spec fn cell_upto(
    g: GrammarModel,
    w: Seq<Seq<char>>,
    l: int,
    s: int,
    v: int,
    p_lim: int,
) -> bool {
    exists|p: int| 0 <= p < p_lim && #[trigger] cell_step(g, w, l, s, v, p, g.triplets.len() as int)
}

proof fn lemma_cell_unfold(g: GrammarModel, w: Seq<Seq<char>>, l: int, s: int, v: int)
    requires
        l >= 1,
    ensures
        cyk_cell(g, w, l, s, v) == cell_upto(g, w, l, s, v, l),
{
    if cyk_cell(g, w, l, s, v) {
        let (p, t): (int, int) = choose|p: int, t: int|
            #[trigger] split_point(l, p) && 0 <= t < g.triplets.len() && (
            #[trigger] g.triplets[t]).0 == v && cyk_cell(g, w, p, s, g.triplets[t].1) && cyk_cell(
                g,
                w,
                l - p - 1,
                s + p + 1,
                g.triplets[t].2,
            );
        assert(cell_step(g, w, l, s, v, p, g.triplets.len() as int));
        assert(cell_upto(g, w, l, s, v, l));
    }
    if cell_upto(g, w, l, s, v, l) {
        let p = choose|p: int|
            0 <= p < l && #[trigger] cell_step(g, w, l, s, v, p, g.triplets.len() as int);
        let t = choose|t: int|
            0 <= t < g.triplets.len() && (#[trigger] g.triplets[t]).0 == v && cyk_cell(
                g,
                w,
                p,
                s,
                g.triplets[t].1,
            ) && cyk_cell(g, w, l - p - 1, s + p + 1, g.triplets[t].2);
        assert(split_point(l, p));
        assert(cyk_cell(g, w, l, s, v));
    }
}

/// Recognition is idempotent on the grammar: the CYK answer is a
/// function of the grammar and the token sequence alone, so two calls
/// of [`CFG::test`] on the same grammar and input return equal results.
pub proof fn lemma_recognize_idempotent(g: GrammarModel, w: Seq<Seq<char>>, r1: bool, r2: bool)
    requires
        r1 == recognize_spec(g, w),
        r2 == recognize_spec(g, w),
    ensures
        r1 == r2,
{
}

/// A row of `r` cells, all unset.
fn false_row(r: usize) -> (row: Vec<bool>)
    ensures
        row@.len() == r,
        forall|v: int| 0 <= v < r ==> !(#[trigger] row@[v]),
{
    let mut row: Vec<bool> = Vec::new();
    let mut v: usize = 0;
    while v < r
        invariant
            v <= r,
            row@.len() == v,
            forall|x: int| 0 <= x < v ==> !(#[trigger] row@[x]),
        decreases r - v,
    {
        row.push(false);
        v += 1;
    }
    row
}

impl CFG {
    /// Whether `input` belongs to the grammar's language, by the CYK
    /// algorithm over the triplet index. An empty input is never
    /// accepted.
    pub fn test(&self, input: &Vec<String>) -> (r: bool)
        ensures
            r == recognize_spec(self@, input.deep_view()),
            input.deep_view().len() == 0 ==> r == false,
    {
        proof {
            use_type_invariant(&*self);
        }
        let ghost g = self@;
        let ghost w = input.deep_view();
        let n = input.len();
        if n == 0 {
            return false;
        }
        let rc = self.productions.len();
        // table[l][s][v]: production v derives the l+1 tokens at offset s
        let mut table: Vec<Vec<Vec<bool>>> = Vec::new();
        // Base layer: single tokens
        let mut layer0: Vec<Vec<bool>> = Vec::new();
        let mut s: usize = 0;
        while s < n
            invariant
                s <= n,
                n == w.len(),
                rc == g.prods.len(),
                layer0@.len() == s,
                forall|s2: int, v2: int|
                    0 <= s2 < s && 0 <= v2 < rc ==> (#[trigger] layer0@[s2]@[v2]) == cyk_cell(
                        g,
                        w,
                        0,
                        s2,
                        v2,
                    ),
                forall|s2: int| 0 <= s2 < s ==> (#[trigger] layer0@[s2])@.len() == rc,
            decreases n - s,
        {
            let mut row = false_row(rc);
            let mut v: usize = 0;
            while v < rc
                invariant
                    v <= rc,
                    s < n,
                    n == w.len(),
                    rc == g.prods.len(),
                    row@.len() == rc,
                    forall|v2: int|
                        0 <= v2 < v ==> (#[trigger] row@[v2]) == cyk_cell(g, w, 0, s as int, v2),
                    forall|v2: int| v <= v2 < rc ==> !(#[trigger] row@[v2]),
                decreases rc - v,
            {
                if self.productions[v].value.len() == 1 && str_eq(
                    self.productions[v].value[0].as_str(),
                    input[s].as_str(),
                ) {
                    row.set(v, true);
                    proof {
                        assert(g.prods[v as int].rhs[0] == w[s as int]);
                        assert(cyk_cell(g, w, 0, s as int, v as int));
                    }
                } else {
                    proof {
                        assert(!cyk_cell(g, w, 0, s as int, v as int)) by {
                            if g.prods[v as int].rhs.len() == 1 {
                                assert(g.prods[v as int].rhs[0] != w[s as int]);
                            }
                        }
                    }
                }
                v += 1;
            }
            layer0.push(row);
            s += 1;
        }
        table.push(layer0);
        // Longer spans
        let mut l: usize = 1;
        while l < n
            invariant
                1 <= l <= n,
                n == w.len(),
                rc == g.prods.len(),
                g == self@,
                table@.len() == l,
                forall|l2: int| 0 <= l2 < l ==> (#[trigger] table@[l2])@.len() == n,
                forall|l2: int, s2: int|
                    0 <= l2 < l && 0 <= s2 < n ==> (#[trigger] table@[l2]@[s2])@.len() == rc,
                forall|l2: int, s2: int, v2: int|
                    0 <= l2 < l && 0 <= s2 < n && 0 <= v2 < rc ==> (
                    #[trigger] table@[l2]@[s2]@[v2]) == cyk_cell(g, w, l2, s2, v2),
            decreases n - l,
        {
            let mut layer: Vec<Vec<bool>> = Vec::new();
            let mut s: usize = 0;
            while s < n
                invariant
                    s <= n,
                    1 <= l < n,
                    n == w.len(),
                    rc == g.prods.len(),
                    g == self@,
                    table@.len() == l,
                    layer@.len() == s,
                    forall|l2: int| 0 <= l2 < l ==> (#[trigger] table@[l2])@.len() == n,
                    forall|l2: int, s2: int|
                        0 <= l2 < l && 0 <= s2 < n ==> (#[trigger] table@[l2]@[s2])@.len() == rc,
                    forall|l2: int, s2: int, v2: int|
                        0 <= l2 < l && 0 <= s2 < n && 0 <= v2 < rc ==> (
                        #[trigger] table@[l2]@[s2]@[v2]) == cyk_cell(g, w, l2, s2, v2),
                    forall|s2: int| 0 <= s2 < s ==> (#[trigger] layer@[s2])@.len() == rc,
                    forall|s2: int, v2: int|
                        0 <= s2 < s && 0 <= v2 < rc ==> (#[trigger] layer@[s2]@[v2]) == cyk_cell(
                            g,
                            w,
                            l as int,
                            s2,
                            v2,
                        ),
                decreases n - s,
            {
                let mut row = false_row(rc);
                if l < n - s {
                    let mut p: usize = 0;
                    while p < l
                        invariant
                            p <= l,
                            1 <= l < n,
                            s + l < n,
                            n == w.len(),
                            rc == g.prods.len(),
                            g == self@,
                            table@.len() == l,
                            row@.len() == rc,
                            forall|l2: int| 0 <= l2 < l ==> (#[trigger] table@[l2])@.len() == n,
                            forall|l2: int, s2: int|
                                0 <= l2 < l && 0 <= s2 < n ==> (
                                #[trigger] table@[l2]@[s2])@.len() == rc,
                            forall|l2: int, s2: int, v2: int|
                                0 <= l2 < l && 0 <= s2 < n && 0 <= v2 < rc ==> (
                                #[trigger] table@[l2]@[s2]@[v2]) == cyk_cell(g, w, l2, s2, v2),
                            forall|v2: int|
                                0 <= v2 < rc ==> (#[trigger] row@[v2]) == cell_upto(
                                    g,
                                    w,
                                    l as int,
                                    s as int,
                                    v2,
                                    p as int,
                                ),
                        decreases l - p,
                    {
                        let tl = self.triplets.len();
                        let mut t: usize = 0;
                        while t < tl
                            invariant
                                t <= tl,
                                p < l,
                                1 <= l < n,
                                s + l < n,
                                n == w.len(),
                                rc == g.prods.len(),
                                g == self@,
                                tl == g.triplets.len(),
                                table@.len() == l,
                                row@.len() == rc,
                                forall|l2: int|
                                    0 <= l2 < l ==> (#[trigger] table@[l2])@.len() == n,
                                forall|l2: int, s2: int|
                                    0 <= l2 < l && 0 <= s2 < n ==> (
                                    #[trigger] table@[l2]@[s2])@.len() == rc,
                                forall|l2: int, s2: int, v2: int|
                                    0 <= l2 < l && 0 <= s2 < n && 0 <= v2 < rc ==> (
                                    #[trigger] table@[l2]@[s2]@[v2]) == cyk_cell(g, w, l2, s2, v2),
                                forall|v2: int|
                                    0 <= v2 < rc ==> (#[trigger] row@[v2]) == (cell_upto(
                                        g,
                                        w,
                                        l as int,
                                        s as int,
                                        v2,
                                        p as int,
                                    ) || cell_step(
                                        g,
                                        w,
                                        l as int,
                                        s as int,
                                        v2,
                                        p as int,
                                        t as int,
                                    )),
                            decreases tl - t,
                        {
                            let (a, b, c) = self.triplets[t];
                            proof {
                                assert(g.triplets[t as int] == (a as int, b as int, c as int));
                            }
                            let left = table[p][s][b];
                            let right = table[l - p - 1][s + p + 1][c];
                            proof {
                                assert(left == cyk_cell(g, w, p as int, s as int, b as int));
                                assert(right == cyk_cell(
                                    g,
                                    w,
                                    l - p - 1,
                                    s + p + 1,
                                    c as int,
                                ));
                            }
                            if left && right {
                                let ghost row0 = row@;
                                row.set(a, true);
                                proof {
                                    assert(row@ =~= row0.update(a as int, true));
                                    assert forall|v2: int|
                                        0 <= v2 < rc implies (#[trigger] row@[v2]) == (cell_upto(
                                            g,
                                            w,
                                            l as int,
                                            s as int,
                                            v2,
                                            p as int,
                                        ) || cell_step(
                                            g,
                                            w,
                                            l as int,
                                            s as int,
                                            v2,
                                            p as int,
                                            t + 1,
                                        )) by {
                                        if v2 == a as int {
                                            assert(cell_step(
                                                g,
                                                w,
                                                l as int,
                                                s as int,
                                                v2,
                                                p as int,
                                                t + 1,
                                            )) by {
                                                assert(g.triplets[t as int].0 == v2);
                                            }
                                        } else {
                                            assert(row@[v2] == row0[v2]);
                                            assert(cell_step(
                                                g,
                                                w,
                                                l as int,
                                                s as int,
                                                v2,
                                                p as int,
                                                t + 1,
                                            ) == cell_step(
                                                g,
                                                w,
                                                l as int,
                                                s as int,
                                                v2,
                                                p as int,
                                                t as int,
                                            )) by {
                                                if cell_step(
                                                    g,
                                                    w,
                                                    l as int,
                                                    s as int,
                                                    v2,
                                                    p as int,
                                                    t + 1,
                                                ) {
                                                    let tw = choose|tw: int|
                                                        0 <= tw < t + 1 && (
                                                        #[trigger] g.triplets[tw]).0 == v2
                                                            && cyk_cell(
                                                            g,
                                                            w,
                                                            p as int,
                                                            s as int,
                                                            g.triplets[tw].1,
                                                        ) && cyk_cell(
                                                            g,
                                                            w,
                                                            l - p - 1,
                                                            s + p + 1,
                                                            g.triplets[tw].2,
                                                        );
                                                    assert(tw != t as int);
                                                    assert(cell_step(
                                                        g,
                                                        w,
                                                        l as int,
                                                        s as int,
                                                        v2,
                                                        p as int,
                                                        t as int,
                                                    ));
                                                }
                                            }
                                        }
                                    }
                                }
                            } else {
                                proof {
                                    assert forall|v2: int|
                                        0 <= v2 < rc implies (#[trigger] row@[v2]) == (cell_upto(
                                            g,
                                            w,
                                            l as int,
                                            s as int,
                                            v2,
                                            p as int,
                                        ) || cell_step(
                                            g,
                                            w,
                                            l as int,
                                            s as int,
                                            v2,
                                            p as int,
                                            t + 1,
                                        )) by {
                                        assert(cell_step(
                                            g,
                                            w,
                                            l as int,
                                            s as int,
                                            v2,
                                            p as int,
                                            t + 1,
                                        ) == cell_step(
                                            g,
                                            w,
                                            l as int,
                                            s as int,
                                            v2,
                                            p as int,
                                            t as int,
                                        )) by {
                                            if cell_step(
                                                g,
                                                w,
                                                l as int,
                                                s as int,
                                                v2,
                                                p as int,
                                                t + 1,
                                            ) {
                                                let tw = choose|tw: int|
                                                    0 <= tw < t + 1 && (
                                                    #[trigger] g.triplets[tw]).0 == v2
                                                        && cyk_cell(
                                                        g,
                                                        w,
                                                        p as int,
                                                        s as int,
                                                        g.triplets[tw].1,
                                                    ) && cyk_cell(
                                                        g,
                                                        w,
                                                        l - p - 1,
                                                        s + p + 1,
                                                        g.triplets[tw].2,
                                                    );
                                                assert(tw != t as int);
                                                assert(cell_step(
                                                    g,
                                                    w,
                                                    l as int,
                                                    s as int,
                                                    v2,
                                                    p as int,
                                                    t as int,
                                                ));
                                            }
                                        }
                                    }
                                }
                            }
                            t += 1;
                        }
                        proof {
                            assert forall|v2: int|
                                0 <= v2 < rc implies (#[trigger] row@[v2]) == cell_upto(
                                    g,
                                    w,
                                    l as int,
                                    s as int,
                                    v2,
                                    p + 1,
                                ) by {
                                assert(row@[v2] == (cell_upto(g, w, l as int, s as int, v2, p as int)
                                    || cell_step(
                                    g,
                                    w,
                                    l as int,
                                    s as int,
                                    v2,
                                    p as int,
                                    tl as int,
                                )));
                                if row@[v2] {
                                    if cell_upto(g, w, l as int, s as int, v2, p as int) {
                                        let pw = choose|pw: int|
                                            0 <= pw < p && #[trigger] cell_step(
                                                g,
                                                w,
                                                l as int,
                                                s as int,
                                                v2,
                                                pw,
                                                g.triplets.len() as int,
                                            );
                                        assert(cell_upto(g, w, l as int, s as int, v2, p + 1));
                                    } else {
                                        assert(cell_step(
                                            g,
                                            w,
                                            l as int,
                                            s as int,
                                            v2,
                                            p as int,
                                            g.triplets.len() as int,
                                        ));
                                        assert(cell_upto(g, w, l as int, s as int, v2, p + 1));
                                    }
                                } else {
                                    if cell_upto(g, w, l as int, s as int, v2, p + 1) {
                                        let pw = choose|pw: int|
                                            0 <= pw < p + 1 && #[trigger] cell_step(
                                                g,
                                                w,
                                                l as int,
                                                s as int,
                                                v2,
                                                pw,
                                                g.triplets.len() as int,
                                            );
                                        if pw < p {
                                            assert(cell_upto(g, w, l as int, s as int, v2, p as int));
                                        }
                                    }
                                }
                            }
                        }
                        p += 1;
                    }
                    proof {
                        assert forall|v2: int|
                            0 <= v2 < rc implies (#[trigger] row@[v2]) == cyk_cell(
                                g,
                                w,
                                l as int,
                                s as int,
                                v2,
                            ) by {
                            lemma_cell_unfold(g, w, l as int, s as int, v2);
                        }
                    }
                } else {
                    proof {
                        assert forall|v2: int|
                            0 <= v2 < rc implies (#[trigger] row@[v2]) == cyk_cell(
                                g,
                                w,
                                l as int,
                                s as int,
                                v2,
                            ) by {
                            lemma_cell_oob(g, w, l as int, s as int, v2);
                        }
                    }
                }
                layer.push(row);
                s += 1;
            }
            table.push(layer);
            l += 1;
        }
        // Acceptance: some start production derives the whole input
        let mut v: usize = 0;
        while v < rc
            invariant
                v <= rc,
                1 <= n == w.len(),
                rc == g.prods.len(),
                g == self@,
                table@.len() == n,
                forall|l2: int| 0 <= l2 < n ==> (#[trigger] table@[l2])@.len() == n,
                forall|l2: int, s2: int|
                    0 <= l2 < n && 0 <= s2 < n ==> (#[trigger] table@[l2]@[s2])@.len() == rc,
                forall|l2: int, s2: int, v2: int|
                    0 <= l2 < n && 0 <= s2 < n && 0 <= v2 < rc ==> (
                    #[trigger] table@[l2]@[s2]@[v2]) == cyk_cell(g, w, l2, s2, v2),
                forall|v2: int|
                    0 <= v2 < v ==> !((#[trigger] g.prods[v2]).lhs == g.start && cyk_cell(
                        g,
                        w,
                        n - 1,
                        0,
                        v2,
                    )),
            decreases rc - v,
        {
            if str_eq(self.productions[v].symbol.as_str(), self.starting_variable.as_str()) {
                if table[n - 1][0][v] {
                    proof {
                        assert(g.prods[v as int].lhs == g.start);
                        assert(cyk_cell(g, w, n - 1, 0, v as int));
                        assert(recognize_spec(g, w));
                    }
                    return true;
                }
            }
            v += 1;
        }
        proof {
            assert(!recognize_spec(g, w));
        }
        false
    }
}

// ---------------------------------------------------------------------
// Random sampling from the language
// ---------------------------------------------------------------------

/// One derivation step: the variable at position `i` of `s1` is
/// replaced by the right-hand side of production `k`.
pub open spec fn derive_step(
    g: GrammarModel,
    s1: Seq<Seq<char>>,
    i: int,
    k: int,
    s2: Seq<Seq<char>>,
) -> bool {
    &&& 0 <= i < s1.len()
    &&& 0 <= k < g.prods.len()
    &&& g.prods[k].lhs == s1[i]
    &&& s2 == s1.take(i) + g.prods[k].rhs + s1.skip(i + 1)
}

/// `s2` arises from `s1` by exactly `n` derivation steps.
pub open spec fn derives_n(g: GrammarModel, s1: Seq<Seq<char>>, s2: Seq<Seq<char>>, n: nat) -> bool
    decreases n,
{
    if n == 0 {
        s1 == s2
    } else {
        exists|mid: Seq<Seq<char>>, i: int, k: int|
            #[trigger] derive_step(g, mid, i, k, s2) && derives_n(g, s1, mid, (n - 1) as nat)
    }
}

/// `s` is a sentential form: derivable from the start symbol.
pub open spec fn sentential(g: GrammarModel, s: Seq<Seq<char>>) -> bool {
    exists|n: nat| derives_n(g, seq![g.start], s, n)
}

/// No symbol of `s` is a variable.
pub open spec fn all_terminal(g: GrammarModel, s: Seq<Seq<char>>) -> bool {
    forall|j: int| 0 <= j < s.len() ==> !g.is_var(#[trigger] s[j])
}

/// `s` is the concatenation of some sentential form of `g`.
pub open spec fn sample_of(g: GrammarModel, s: Seq<char>) -> bool {
    exists|t: Seq<Seq<char>>|
        #![trigger sentential(g, t)]
        sentential(g, t) && s == t.flatten()
}

/// `s` is the concatenation of some all-terminal sentential form of
/// `g`: a word of the language derived from the start symbol.
pub open spec fn complete_sample_of(g: GrammarModel, s: Seq<char>) -> bool {
    exists|t: Seq<Seq<char>>|
        #![trigger sentential(g, t)]
        sentential(g, t) && all_terminal(g, t) && s == t.flatten()
}

/// A derivation extended by one step is a derivation.
proof fn lemma_derives_snoc(
    g: GrammarModel,
    s0: Seq<Seq<char>>,
    s1: Seq<Seq<char>>,
    i: int,
    k: int,
    s2: Seq<Seq<char>>,
    n: nat,
)
    requires
        derives_n(g, s0, s1, n),
        derive_step(g, s1, i, k, s2),
    ensures
        derives_n(g, s0, s2, n + 1),
{
    assert(derive_step(g, s1, i, k, s2) && derives_n(g, s0, s1, n));
}

/// Relies on rand::Rng::gen_range over `0..n`: the drawn value lies
/// below `n`; the call panics only on an empty range, which the
/// precondition rules out.
#[verifier::external_body]
fn random_below(n: usize) -> (r: usize)
    requires
        n >= 1,
    ensures
        r < n,
{
    rand::Rng::gen_range(&mut rand::thread_rng(), 0..n)
}

/// The concatenation of the symbols of `v`, without separators.
fn join_syms(v: &Vec<String>) -> (r: String)
    ensures
        r@ == v.deep_view().flatten(),
{
    let mut acc = String::new();
    let mut i: usize = 0;
    proof {
        assert(v.deep_view().take(0) =~= Seq::<Seq<char>>::empty());
        assert(Seq::<Seq<char>>::empty().flatten() =~= Seq::<char>::empty());
    }
    while i < v.len()
        invariant
            i <= v.len(),
            acc@ == v.deep_view().take(i as int).flatten(),
        decreases v.len() - i,
    {
        acc = acc.concat(v[i].as_str());
        proof {
            assert(v.deep_view().take(i + 1) =~= v.deep_view().take(i as int).push(
                v.deep_view()[i as int],
            ));
            v.deep_view().take(i as int).lemma_flatten_push(v.deep_view()[i as int]);
        }
        i += 1;
    }
    proof {
        assert(v.deep_view().take(v.len() as int) =~= v.deep_view());
    }
    acc
}

/// The number of derivation steps a sample may take before it is cut
/// off.
const SAMPLE_FUEL: usize = 4096;

impl CFG {
    /// Whether `name` is a variable of this grammar.
    pub fn is_variable(&self, name: &str) -> (r: bool)
        ensures
            r == self@.is_var(name@),
    {
        is_variable_in(&self.productions, name)
    }

    /// One random derivation: starting from `s`, the leftmost variable
    /// is replaced by a uniformly chosen production for it until no
    /// variable is left or the step budget runs out. The result is the
    /// concatenation of a sentential form, and the flag says whether
    /// the derivation finished: only then is that form all terminals,
    /// a word of the language. An `s` that already holds no variable
    /// comes back concatenated unchanged, finished.
    pub fn generate_sample_string(&self, s: Vec<String>, fuel: usize) -> (r: (String, bool))
        requires
            sentential(self@, s.deep_view()),
        ensures
            sample_of(self@, r.0@),
            r.1 ==> complete_sample_of(self@, r.0@),
            all_terminal(self@, s.deep_view()) ==> r.1 && r.0@ == s.deep_view().flatten(),
    {
        let ghost g = self@;
        let ghost s0 = s.deep_view();
        let mut cur = s;
        let mut fuel = fuel;
        loop
            invariant
                sentential(g, cur.deep_view()),
                g == self@,
                s0 == cur.deep_view() || !all_terminal(g, s0),
            decreases fuel,
        {
            // find the leftmost variable
            let mut i: usize = 0;
            let mut var_at: Option<usize> = None;
            while i < cur.len() && var_at.is_none()
                invariant
                    i <= cur.len(),
                    g == self@,
                    match var_at {
                        Some(j) => j < cur.len() && g.is_var(cur.deep_view()[j as int]),
                        None => forall|j: int|
                            0 <= j < i ==> !g.is_var(#[trigger] cur.deep_view()[j]),
                    },
                decreases cur.len() - i + (if var_at is Some { 0int } else { 1int }),
            {
                if self.is_variable(cur[i].as_str()) {
                    var_at = Some(i);
                } else {
                    i += 1;
                }
            }
            let vi = match var_at {
                None => {
                    // all terminals: the sample is finished
                    proof {
                        assert(all_terminal(self@, cur.deep_view()));
                        assert(sentential(self@, cur.deep_view()));
                    }
                    let out = join_syms(&cur);
                    proof {
                        assert(out@ == cur.deep_view().flatten());
                        assert(sample_of(self@, out@));
                        assert(complete_sample_of(self@, out@));
                        if all_terminal(g, s0) {
                            assert(s0 == cur.deep_view());
                        }
                    }
                    return (out, true);
                },
                Some(vi) => vi,
            };
            proof {
                // a variable stands in the sequence, so the given one
                // was not all terminals
                assert(!all_terminal(g, cur.deep_view()));
                if s0 == cur.deep_view() {
                    assert(!all_terminal(g, s0));
                }
            }
            if fuel == 0 {
                // cut off: hand back the current sentential form
                proof {
                    assert(sentential(self@, cur.deep_view()));
                }
                let out = join_syms(&cur);
                proof {
                    assert(out@ == cur.deep_view().flatten());
                    assert(sample_of(self@, out@));
                }
                return (out, false);
            }
            // collect the productions for this variable
            let mut idxs: Vec<usize> = Vec::new();
            let mut k: usize = 0;
            while k < self.productions.len()
                invariant
                    k <= self.productions.len(),
                    g == self@,
                    vi < cur.len(),
                    g.is_var(cur.deep_view()[vi as int]),
                    forall|x: int|
                        0 <= x < idxs@.len() ==> (#[trigger] idxs@[x]) < g.prods.len() && g.prods[
                            idxs@[x] as int
                        ].lhs == cur.deep_view()[vi as int],
                    forall|k2: int|
                        0 <= k2 < k && g.prods[k2].lhs == cur.deep_view()[vi as int]
                            ==> exists|x: int|
                            0 <= x < idxs@.len() && (#[trigger] idxs@[x]) == k2,
                decreases self.productions.len() - k,
            {
                if str_eq(self.productions[k].symbol.as_str(), cur[vi].as_str()) {
                    let ghost ix0 = idxs@;
                    idxs.push(k);
                    proof {
                        assert(idxs@ =~= ix0.push(k as usize));
                        assert forall|k2: int|
                            0 <= k2 < k + 1 && g.prods[k2].lhs == cur.deep_view()[vi as int]
                                implies exists|x: int|
                            0 <= x < idxs@.len() && (#[trigger] idxs@[x]) == k2 by {
                            if k2 < k {
                                let x = choose|x: int|
                                    0 <= x < ix0.len() && (#[trigger] ix0[x]) == k2;
                                assert(idxs@[x] == k2);
                            } else {
                                assert(idxs@[idxs@.len() - 1] == k2);
                            }
                        }
                    }
                }
                k += 1;
            }
            proof {
                assert(idxs@.len() >= 1) by {
                    let wk = choose|wk: int|
                        0 <= wk < g.prods.len() && (#[trigger] g.prods[wk]).lhs
                            == cur.deep_view()[vi as int];
                    let x = choose|x: int| 0 <= x < idxs@.len() && (#[trigger] idxs@[x]) == wk;
                }
            }
            // choose one uniformly and splice its right-hand side in
            let pick = random_below(idxs.len());
            let kk = idxs[pick];
            let ghost prev = cur.deep_view();
            let mut next: Vec<String> = Vec::new();
            let mut a: usize = 0;
            while a < vi
                invariant
                    a <= vi,
                    vi < cur.len(),
                    next.deep_view() == cur.deep_view().take(a as int),
                decreases vi - a,
            {
                let ghost nv0 = next.deep_view();
                next.push(cur[a].clone());
                proof {
                    assert(next.deep_view() =~= nv0.push(cur.deep_view()[a as int]));
                    assert(cur.deep_view().take(a + 1) =~= cur.deep_view().take(a as int).push(
                        cur.deep_view()[a as int],
                    ));
                }
                a += 1;
            }
            let mut b: usize = 0;
            while b < self.productions[kk].value.len()
                invariant
                    b <= self.productions[kk as int].value.len(),
                    kk < self.productions.len(),
                    vi < cur.len(),
                    g == self@,
                    next.deep_view() == cur.deep_view().take(vi as int) + g.prods[
                        kk as int
                    ].rhs.take(b as int),
                decreases self.productions[kk as int].value.len() - b,
            {
                let ghost nv0 = next.deep_view();
                next.push(self.productions[kk].value[b].clone());
                proof {
                    assert(next.deep_view() =~= nv0.push(g.prods[kk as int].rhs[b as int]));
                    assert(cur.deep_view().take(vi as int) + g.prods[kk as int].rhs.take(b + 1)
                        =~= (cur.deep_view().take(vi as int) + g.prods[kk as int].rhs.take(
                        b as int,
                    )).push(g.prods[kk as int].rhs[b as int]));
                }
                b += 1;
            }
            let mut c: usize = vi + 1;
            while c < cur.len()
                invariant
                    vi + 1 <= c <= cur.len(),
                    kk < self.productions.len(),
                    g == self@,
                    next.deep_view() == cur.deep_view().take(vi as int) + g.prods[kk as int].rhs
                        + cur.deep_view().subrange(vi + 1, c as int),
                decreases cur.len() - c,
            {
                let ghost nv0 = next.deep_view();
                next.push(cur[c].clone());
                proof {
                    assert(next.deep_view() =~= nv0.push(cur.deep_view()[c as int]));
                    assert(cur.deep_view().take(vi as int) + g.prods[kk as int].rhs
                        + cur.deep_view().subrange(vi + 1, c + 1) =~= (cur.deep_view().take(
                        vi as int,
                    ) + g.prods[kk as int].rhs + cur.deep_view().subrange(vi + 1, c as int)).push(
                        cur.deep_view()[c as int],
                    ));
                }
                c += 1;
            }
            proof {
                assert(g.prods[kk as int].rhs.take(g.prods[kk as int].rhs.len() as int) =~= g.prods[
                    kk as int
                ].rhs);
                assert(cur.deep_view().subrange(vi + 1, cur.len() as int) =~= cur.deep_view().skip(
                    vi + 1,
                ));
                assert(derive_step(g, prev, vi as int, kk as int, next.deep_view()));
                let n0 = choose|n0: nat| derives_n(g, seq![g.start], prev, n0);
                lemma_derives_snoc(
                    g,
                    seq![g.start],
                    prev,
                    vi as int,
                    kk as int,
                    next.deep_view(),
                    n0,
                );
                assert(sentential(g, next.deep_view()));
            }
            cur = next;
            fuel = fuel - 1;
        }
    }

    /// Up to `n` independently drawn sample strings of the language:
    /// each is the concatenation of an all-terminal sentential form
    /// reached by random leftmost derivation — a word of the language.
    /// A draw that the step budget cuts off is dropped rather than
    /// returned truncated, so fewer than `n` strings may come back.
    pub fn generate_sample_langauge(&self, n: usize) -> (r: Vec<String>)
        ensures
            r@.len() <= n,
            forall|x: int| 0 <= x < r@.len() ==> complete_sample_of(self@, (#[trigger] r@[x])@),
    {
        let mut out: Vec<String> = Vec::new();
        let mut x: usize = 0;
        while x < n
            invariant
                x <= n,
                out@.len() <= x,
                forall|x2: int|
                    0 <= x2 < out@.len() ==> complete_sample_of(self@, (#[trigger] out@[x2])@),
            decreases n - x,
        {
            let seed: Vec<String> = vec![self.starting_variable.clone()];
            proof {
                assert(seed.deep_view() =~= seq![self@.start]);
                assert(derives_n(self@, seq![self@.start], seed.deep_view(), 0));
            }
            let (sample, complete) = self.generate_sample_string(seed, SAMPLE_FUEL);
            if complete {
                let ghost o0 = out@;
                let ghost sm = sample@;
                out.push(sample);
                proof {
                    assert forall|x2: int|
                        0 <= x2 < out@.len() implies complete_sample_of(
                            self@,
                            (#[trigger] out@[x2])@,
                        ) by {
                        if x2 < o0.len() {
                            assert(out@[x2] == o0[x2]);
                        } else {
                            assert((out@[x2])@ == sm);
                        }
                    }
                }
            }
            x += 1;
        }
        out
    }
}

} // verus!

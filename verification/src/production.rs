//! A single grammar production: a variable on the left and a non-empty
//! sequence of symbols on the right, together with the enumeration of
//! right-hand sides that deleting occurrences of a nullable variable
//! produces.

use vstd::prelude::*;

verus! {

use crate::text::str_eq;

/// Mathematical model of a production: the left-hand symbol and the
/// right-hand sequence of symbols, each symbol a sequence of characters.
#[verifier::ext_equal]
pub struct ProductionModel {
    pub lhs: Seq<char>,
    pub rhs: Seq<Seq<char>>,
}

impl ProductionModel {
    /// The right-hand side is exactly the epsilon marker `#`.
    pub open spec fn is_null(self) -> bool {
        self.rhs.len() == 1 && self.rhs[0] == seq!['#']
    }
}

/// A production `symbol -> value`, e.g. `S -> A b`.
#[derive(Clone, Debug)]
pub struct Production {
    pub symbol: String,
    pub value: Vec<String>,
}

impl View for Production {
    type V = ProductionModel;

    open spec fn view(&self) -> ProductionModel {
        ProductionModel { lhs: self.symbol@, rhs: self.value.deep_view() }
    }
}

impl DeepView for Production {
    type V = ProductionModel;

    open spec fn deep_view(&self) -> ProductionModel {
        self.view()
    }
}

impl Production {
    /// Whether this production derives the empty string: its right-hand
    /// side is exactly the single token `#`.
    pub fn is_null(&self) -> (r: bool)
        ensures
            r == self@.is_null(),
    {
        if self.value.len() != 1 {
            return false;
        }
        let tok: &str = self.value[0].as_str();
        let r = tok.unicode_len() == 1 && tok.get_char(0) == '#';
        proof {
            assert(self@.rhs[0] == self.value@[0]@);
            if r {
                assert(tok@ =~= seq!['#']);
            } else {
                assert(tok@ != seq!['#']);
            }
        }
        r
    }

    /// A copy of this production.
    pub fn dup(&self) -> (r: Production)
        ensures
            r@ == self@,
    {
        let r = Production { symbol: self.symbol.clone(), value: clone_syms(&self.value) };
        proof {
            assert(r@ =~~= self@);
        }
        r
    }

    /// The distinct non-empty right-hand sides obtained by deleting
    /// occurrences of the nullable variable `nullable_name` from this
    /// production's right-hand side (the unchanged side included), each
    /// as a production with the same left-hand symbol.
    pub fn remove_null_production(&self, nullable_name: &str) -> (r: Vec<Production>)
        ensures
            r.deep_view() == spec_null_variants(self@, nullable_name@),
    {
        let perms = permute_without(clone_syms(&self.value), nullable_name);
        let mut new_prods: Vec<Production> = Vec::new();
        let mut i: usize = 0;
        proof {
            assert(self.value.deep_view() =~= self@.rhs);
            assert(perms.deep_view().take(0) =~= Seq::<Seq<Seq<char>>>::empty());
            assert(new_prods.deep_view() =~= Seq::<ProductionModel>::empty());
        }
        while i < perms.len()
            invariant
                i <= perms.len(),
                new_prods.deep_view() == spec_variant_prods(
                    self@.lhs,
                    perms.deep_view().take(i as int),
                ),
            decreases perms.len() - i,
        {
            let ghost pre = perms.deep_view().take(i as int);
            proof {
                assert(perms.deep_view().take(i + 1).drop_last() =~= pre);
                assert(perms.deep_view().take(i + 1).last() == perms.deep_view()[i as int]);
            }
            if perms[i].len() > 0 {
                let cand = Production { symbol: self.symbol.clone(), value: clone_syms(&perms[i]) };
                proof {
                    assert(cand@ =~~= (ProductionModel {
                        lhs: self@.lhs,
                        rhs: perms.deep_view()[i as int],
                    }));
                }
                let ghost dv0 = new_prods.deep_view();
                if !prods_contain(&new_prods, &cand) {
                    new_prods.push(cand);
                    proof {
                        assert(new_prods.deep_view() =~= dv0.push(
                            ProductionModel { lhs: self@.lhs, rhs: perms.deep_view()[i as int] },
                        ));
                    }
                }
            }
            i += 1;
        }
        proof {
            assert(perms.deep_view().take(perms.len() as int) =~= perms.deep_view());
        }
        new_prods
    }
}

/// The variant productions `lhs -> v` for the non-empty `v` among `vs`,
/// in order, duplicates suppressed.
pub open spec fn spec_variant_prods(lhs: Seq<char>, vs: Seq<Seq<Seq<char>>>) -> Seq<ProductionModel>
    decreases vs.len(),
{
    if vs.len() == 0 {
        Seq::empty()
    } else {
        let rest = spec_variant_prods(lhs, vs.drop_last());
        let p = ProductionModel { lhs: lhs, rhs: vs.last() };
        if vs.last().len() == 0 || rest.contains(p) {
            rest
        } else {
            rest.push(p)
        }
    }
}

/// What [`Production::remove_null_production`] returns, as a function of
/// the production's model.
pub open spec fn spec_null_variants(p: ProductionModel, x: Seq<char>) -> Seq<ProductionModel> {
    spec_variant_prods(p.lhs, spec_permute(p.rhs, x))
}

/// `acc` with `v` appended unless already present.
pub open spec fn push_unique(acc: Seq<Seq<Seq<char>>>, v: Seq<Seq<char>>) -> Seq<Seq<Seq<char>>> {
    if acc.contains(v) {
        acc
    } else {
        acc.push(v)
    }
}

/// `acc` extended with each element of `items` in order, duplicates
/// suppressed.
pub open spec fn append_unique(acc: Seq<Seq<Seq<char>>>, items: Seq<Seq<Seq<char>>>) -> Seq<
    Seq<Seq<char>>,
>
    decreases items.len(),
{
    if items.len() == 0 {
        acc
    } else {
        push_unique(append_unique(acc, items.drop_last()), items.last())
    }
}

/// One step of the traversal of [`spec_permute`]: positions `idx` and
/// beyond of `strings`, starting from the already-collected `acc`.
pub open spec fn spec_permute_loop(
    strings: Seq<Seq<char>>,
    x: Seq<char>,
    idx: int,
    acc: Seq<Seq<Seq<char>>>,
) -> Seq<Seq<Seq<char>>>
    decreases strings.len(), strings.len() - idx,
{
    if idx < 0 || idx >= strings.len() {
        acc
    } else if strings[idx] == x {
        let acc1 = push_unique(acc, strings);
        let removed = strings.remove(idx);
        let acc2 = push_unique(acc1, removed);
        let acc3 = append_unique(acc2, spec_permute(removed, x));
        spec_permute_loop(strings, x, idx + 1, acc3)
    } else {
        spec_permute_loop(strings, x, idx + 1, acc)
    }
}

/// The distinct symbol sequences obtained from `strings` by deleting
/// any subset of the occurrences of `x`, the unchanged sequence first,
/// in the traversal order of [`permute_without`].
pub open spec fn spec_permute(strings: Seq<Seq<char>>, x: Seq<char>) -> Seq<Seq<Seq<char>>>
    decreases strings.len(), strings.len() + 1,
{
    if !strings.contains(x) {
        seq![strings]
    } else {
        spec_permute_loop(strings, x, 0, Seq::empty())
    }
}

/// Every sequence obtainable from `strings` by deleting any non-empty
/// subset of the occurrences of the symbol `to_remove`, plus `strings`
/// itself first; duplicates suppressed, enumeration in traversal order
/// (each occurrence in turn, the deletion expanded recursively).
pub fn permute_without(strings: Vec<String>, to_remove: &str) -> (r: Vec<Vec<String>>)
    ensures
        r.deep_view() == spec_permute(strings.deep_view(), to_remove@),
    decreases strings.len(),
{
    let ghost gs = strings.deep_view();
    let mut perms: Vec<Vec<String>> = Vec::new();
    if !sym_in(&strings, to_remove) {
        perms.push(strings);
        proof {
            assert(perms.deep_view() =~= seq![gs]);
        }
        return perms;
    }
    let mut index: usize = 0;
    proof {
        assert(perms.deep_view() =~= Seq::<Seq<Seq<char>>>::empty());
    }
    while index < strings.len()
        invariant
            index <= strings.len(),
            gs == strings.deep_view(),
            gs.contains(to_remove@),
            spec_permute(gs, to_remove@) == spec_permute_loop(
                gs,
                to_remove@,
                index as int,
                perms.deep_view(),
            ),
        decreases strings.len() - index,
    {
        if str_eq(strings[index].as_str(), to_remove) {
            let ghost acc = perms.deep_view();
            // The unchanged sequence
            let unchanged = clone_syms(&strings);
            push_if_new(&mut perms, unchanged);
            proof {
                assert(perms.deep_view() == push_unique(acc, gs));
            }
            // The sequence with this occurrence deleted
            let mut removed = clone_syms(&strings);
            removed.remove(index);
            proof {
                assert(removed.deep_view() =~= gs.remove(index as int));
            }
            let ghost acc1 = perms.deep_view();
            let removed2 = clone_syms(&removed);
            push_if_new(&mut perms, removed2);
            proof {
                assert(perms.deep_view() == push_unique(acc1, gs.remove(index as int)));
            }
            // Delete further occurrences recursively
            let permuted = permute_without(removed, to_remove);
            let ghost acc2 = perms.deep_view();
            let mut k: usize = 0;
            proof {
                assert(permuted.deep_view().skip(0) =~= permuted.deep_view());
            }
            while k < permuted.len()
                invariant
                    k <= permuted.len(),
                    append_unique(acc2, permuted.deep_view()) == append_unique(
                        perms.deep_view(),
                        permuted.deep_view().skip(k as int),
                    ),
                decreases permuted.len() - k,
            {
                let ghost acck = perms.deep_view();
                let ghost rest = permuted.deep_view().skip(k as int);
                let item = clone_syms(&permuted[k]);
                push_if_new(&mut perms, item);
                proof {
                    assert(perms.deep_view() == push_unique(acck, permuted.deep_view()[k as int]));
                    assert(rest.drop_first() =~= permuted.deep_view().skip(k as int + 1));
                    lemma_append_unique_step(acck, rest);
                }
                k += 1;
            }
            proof {
                assert(permuted.deep_view().skip(permuted.len() as int)
                    =~= Seq::<Seq<Seq<char>>>::empty());
                assert(append_unique(acc2, permuted.deep_view()) == perms.deep_view());
            }
        }
        index += 1;
    }
    perms
}

/// Appending the elements of a non-empty `items` one by one starts with
/// its first element.
proof fn lemma_append_unique_step(acc: Seq<Seq<Seq<char>>>, items: Seq<Seq<Seq<char>>>)
    requires
        items.len() > 0,
    ensures
        append_unique(acc, items) == append_unique(push_unique(acc, items[0]), items.drop_first()),
    decreases items.len(),
{
    if items.len() == 1 {
        assert(items.drop_last() =~= Seq::<Seq<Seq<char>>>::empty());
        assert(items.drop_first() =~= Seq::<Seq<Seq<char>>>::empty());
        assert(items.last() == items[0]);
        assert(append_unique(acc, items.drop_last()) == acc);
        assert(append_unique(acc, items) == push_unique(acc, items[0]));
        assert(append_unique(push_unique(acc, items[0]), items.drop_first()) == push_unique(
            acc,
            items[0],
        ));
    } else {
        let a1 = push_unique(acc, items[0]);
        let t = items.drop_first();
        lemma_append_unique_step(acc, items.drop_last());
        assert(items.drop_last()[0] == items[0]);
        assert(items.drop_last().drop_first() =~= t.drop_last());
        assert(t.last() == items.last());
        assert(append_unique(acc, items) == push_unique(
            append_unique(acc, items.drop_last()),
            items.last(),
        ));
        assert(append_unique(acc, items.drop_last()) == append_unique(a1, t.drop_last()));
        assert(append_unique(a1, t) == push_unique(append_unique(a1, t.drop_last()), t.last()));
    }
}

/// Every symbol of every member of `vs` occurs in `pool`.
pub open spec fn all_syms_from(vs: Seq<Seq<Seq<char>>>, pool: Seq<Seq<char>>) -> bool {
    forall|oi: int, k: int|
        0 <= oi < vs.len() && 0 <= k < vs[oi].len() ==> pool.contains(#[trigger] vs[oi][k])
}

proof fn lemma_push_unique_from(acc: Seq<Seq<Seq<char>>>, v: Seq<Seq<char>>, pool: Seq<Seq<char>>)
    requires
        all_syms_from(acc, pool),
        forall|k: int| 0 <= k < v.len() ==> pool.contains(#[trigger] v[k]),
    ensures
        all_syms_from(push_unique(acc, v), pool),
{
    let r = push_unique(acc, v);
    assert forall|oi: int, k: int|
        0 <= oi < r.len() && 0 <= k < r[oi].len() implies pool.contains(#[trigger] r[oi][k]) by {
        if oi < acc.len() {
            assert(r[oi] == acc[oi]);
        } else {
            assert(r[oi] == v);
        }
    }
}

proof fn lemma_append_unique_from(
    acc: Seq<Seq<Seq<char>>>,
    items: Seq<Seq<Seq<char>>>,
    pool: Seq<Seq<char>>,
)
    requires
        all_syms_from(acc, pool),
        all_syms_from(items, pool),
    ensures
        all_syms_from(append_unique(acc, items), pool),
    decreases items.len(),
{
    if items.len() > 0 {
        assert forall|oi: int, k: int|
            0 <= oi < items.drop_last().len() && 0 <= k < items.drop_last()[oi].len() implies
            pool.contains(#[trigger] items.drop_last()[oi][k]) by {
            assert(items.drop_last()[oi] == items[oi]);
        }
        lemma_append_unique_from(acc, items.drop_last(), pool);
        assert forall|k: int|
            0 <= k < items.last().len() implies pool.contains(#[trigger] items.last()[k]) by {
            assert(items.last() == items[items.len() - 1]);
        }
        lemma_push_unique_from(append_unique(acc, items.drop_last()), items.last(), pool);
    }
}

proof fn lemma_permute_loop_from(
    strings: Seq<Seq<char>>,
    x: Seq<char>,
    idx: int,
    acc: Seq<Seq<Seq<char>>>,
    pool: Seq<Seq<char>>,
)
    requires
        all_syms_from(acc, pool),
        forall|k: int| 0 <= k < strings.len() ==> pool.contains(#[trigger] strings[k]),
    ensures
        all_syms_from(spec_permute_loop(strings, x, idx, acc), pool),
    decreases strings.len(), strings.len() - idx,
{
    if 0 <= idx < strings.len() {
        if strings[idx] == x {
            let acc1 = push_unique(acc, strings);
            lemma_push_unique_from(acc, strings, pool);
            let removed = strings.remove(idx);
            assert forall|k: int|
                0 <= k < removed.len() implies pool.contains(#[trigger] removed[k]) by {
                if k < idx {
                    assert(removed[k] == strings[k]);
                } else {
                    assert(removed[k] == strings[k + 1]);
                }
            }
            let acc2 = push_unique(acc1, removed);
            lemma_push_unique_from(acc1, removed, pool);
            lemma_permute_from(removed, x, pool);
            let acc3 = append_unique(acc2, spec_permute(removed, x));
            lemma_append_unique_from(acc2, spec_permute(removed, x), pool);
            lemma_permute_loop_from(strings, x, idx + 1, acc3, pool);
        } else {
            lemma_permute_loop_from(strings, x, idx + 1, acc, pool);
        }
    }
}

/// Every member of the enumeration of [`spec_permute`] is made of
/// symbols of the enumerated sequence.
pub proof fn lemma_permute_from(strings: Seq<Seq<char>>, x: Seq<char>, pool: Seq<Seq<char>>)
    requires
        forall|k: int| 0 <= k < strings.len() ==> pool.contains(#[trigger] strings[k]),
    ensures
        all_syms_from(spec_permute(strings, x), pool),
    decreases strings.len(), strings.len() + 1,
{
    if !strings.contains(x) {
        let r = seq![strings];
        assert forall|oi: int, k: int|
            0 <= oi < r.len() && 0 <= k < r[oi].len() implies pool.contains(
            #[trigger] r[oi][k],
        ) by {
            assert(r[oi] == strings);
        }
    } else {
        assert(all_syms_from(Seq::empty(), pool));
        lemma_permute_loop_from(strings, x, 0, Seq::empty(), pool);
    }
}

/// Every production of [`spec_variant_prods`] keeps the left-hand
/// symbol, has a non-empty right-hand side, and draws its symbols from
/// `pool`.
pub proof fn lemma_variant_prods_wf(
    lhs: Seq<char>,
    vs: Seq<Seq<Seq<char>>>,
    pool: Seq<Seq<char>>,
)
    requires
        all_syms_from(vs, pool),
    ensures
        forall|qi: int|
            0 <= qi < spec_variant_prods(lhs, vs).len() ==> (#[trigger] spec_variant_prods(
                lhs,
                vs,
            )[qi]).lhs == lhs && spec_variant_prods(lhs, vs)[qi].rhs.len() >= 1,
        forall|qi: int, k: int|
            0 <= qi < spec_variant_prods(lhs, vs).len() && 0 <= k < spec_variant_prods(
                lhs,
                vs,
            )[qi].rhs.len() ==> pool.contains(#[trigger] spec_variant_prods(lhs, vs)[qi].rhs[k]),
    decreases vs.len(),
{
    if vs.len() > 0 {
        assert forall|oi: int, k: int|
            0 <= oi < vs.drop_last().len() && 0 <= k < vs.drop_last()[oi].len() implies
            pool.contains(#[trigger] vs.drop_last()[oi][k]) by {
            assert(vs.drop_last()[oi] == vs[oi]);
        }
        lemma_variant_prods_wf(lhs, vs.drop_last(), pool);
        let rest = spec_variant_prods(lhs, vs.drop_last());
        let r = spec_variant_prods(lhs, vs);
        if vs.last().len() == 0 || rest.contains(ProductionModel { lhs: lhs, rhs: vs.last() }) {
            assert(r == rest);
        } else {
            assert(r == rest.push(ProductionModel { lhs: lhs, rhs: vs.last() }));
            assert forall|k: int|
                0 <= k < vs.last().len() implies pool.contains(#[trigger] vs.last()[k]) by {
                assert(vs.last() == vs[vs.len() - 1]);
            }
            assert forall|qi: int, k: int|
                0 <= qi < r.len() && 0 <= k < r[qi].rhs.len() implies pool.contains(
                #[trigger] r[qi].rhs[k],
            ) by {
                if qi < rest.len() {
                    assert(r[qi] == rest[qi]);
                } else {
                    assert(r[qi].rhs == vs.last());
                }
            }
        }
    }
}

/// A copy of a symbol vector.
pub fn clone_syms(v: &Vec<String>) -> (r: Vec<String>)
    ensures
        r.deep_view() == v.deep_view(),
{
    let mut r: Vec<String> = Vec::new();
    let mut i: usize = 0;
    proof {
        assert(r.deep_view() =~= v.deep_view().take(0));
    }
    while i < v.len()
        invariant
            i <= v.len(),
            r.deep_view() == v.deep_view().take(i as int),
        decreases v.len() - i,
    {
        let ghost dv0 = r.deep_view();
        r.push(v[i].clone());
        proof {
            assert(r.deep_view() =~= dv0.push(v.deep_view()[i as int]));
            assert(v.deep_view().take(i + 1) =~= v.deep_view().take(i as int).push(
                v.deep_view()[i as int],
            ));
        }
        i += 1;
    }
    proof {
        assert(v.deep_view().take(v.len() as int) =~= v.deep_view());
    }
    r
}

/// Whether the symbol `s` occurs in `v`.
pub fn sym_in(v: &Vec<String>, s: &str) -> (r: bool)
    ensures
        r == v.deep_view().contains(s@),
{
    let mut i: usize = 0;
    while i < v.len()
        invariant
            i <= v.len(),
            forall|k: int| 0 <= k < i ==> v.deep_view()[k] != s@,
        decreases v.len() - i,
    {
        if str_eq(v[i].as_str(), s) {
            assert(v.deep_view()[i as int] == s@);
            return true;
        }
        i += 1;
    }
    false
}

/// Whether two symbol vectors hold the same symbols in the same order.
pub fn syms_eq(a: &Vec<String>, b: &Vec<String>) -> (r: bool)
    ensures
        r == (a.deep_view() == b.deep_view()),
{
    if a.len() != b.len() {
        proof {
            assert(a.deep_view().len() != b.deep_view().len());
        }
        return false;
    }
    let mut i: usize = 0;
    while i < a.len()
        invariant
            i <= a.len(),
            a.len() == b.len(),
            forall|k: int| 0 <= k < i ==> a.deep_view()[k] == b.deep_view()[k],
        decreases a.len() - i,
    {
        if !str_eq(a[i].as_str(), b[i].as_str()) {
            assert(a.deep_view()[i as int] != b.deep_view()[i as int]);
            return false;
        }
        i += 1;
    }
    proof {
        assert(a.deep_view() =~= b.deep_view());
    }
    true
}

/// Whether two productions are equal: same left-hand symbol and the
/// same right-hand sequence element-wise.
pub fn prod_eq(a: &Production, b: &Production) -> (r: bool)
    ensures
        r == (a@ == b@),
{
    let r = str_eq(a.symbol.as_str(), b.symbol.as_str()) && syms_eq(&a.value, &b.value);
    proof {
        if r {
            assert(a@ =~= b@);
        }
    }
    r
}

/// Whether `ps` holds a production equal to `p`.
pub fn prods_contain(ps: &Vec<Production>, p: &Production) -> (r: bool)
    ensures
        r == ps.deep_view().contains(p@),
{
    let mut i: usize = 0;
    while i < ps.len()
        invariant
            i <= ps.len(),
            forall|k: int| 0 <= k < i ==> ps.deep_view()[k] != p@,
        decreases ps.len() - i,
    {
        if prod_eq(&ps[i], p) {
            assert(ps.deep_view()[i as int] == p@);
            return true;
        }
        i += 1;
    }
    false
}

/// Push `v` unless an equal symbol vector is already present.
fn push_if_new(perms: &mut Vec<Vec<String>>, v: Vec<String>)
    ensures
        final (perms).deep_view() == push_unique(old(perms).deep_view(), v.deep_view()),
{
    let mut found = false;
    let mut i: usize = 0;
    while i < perms.len()
        invariant
            i <= perms.len(),
            *perms == *old(perms),
            found == exists|k: int| 0 <= k < i && perms.deep_view()[k] == v.deep_view(),
        decreases perms.len() - i,
    {
        if syms_eq(&perms[i], &v) {
            found = true;
            proof {
                assert(perms.deep_view()[i as int] == v.deep_view());
            }
        }
        i += 1;
    }
    if !found {
        let ghost dv0 = perms.deep_view();
        perms.push(v);
        proof {
            assert(perms.deep_view() =~= dv0.push(v.deep_view()));
        }
    }
}

} // verus!

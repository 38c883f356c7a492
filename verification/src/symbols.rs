//! A map keyed by text, held as a vector in the order of the keys' code points.
use crate::text::{
    is_before, lemma_text_irreflexive, lemma_text_total, lemma_text_transitive, same_text,
    text_before,
};
use vstd::prelude::*;

verus! {

/// Values by symbol. Iteration is in the order of the symbols' code points.
#[derive(Debug, PartialEq, Eq)]
pub struct SymbolMap<V: Copy> {
    symbols: Vec<String>,
    values: Vec<V>,
}

/// The characters of each string.
pub open spec fn string_views(v: Seq<String>) -> Seq<Seq<char>> {
    v.map_values(|s: String| s@)
}

/// Symbols ascend strictly.
pub open spec fn ascending(symbols: Seq<Seq<char>>) -> bool {
    forall|i: int, j: int|
        0 <= i < j < symbols.len() ==> text_before(#[trigger] symbols[i], #[trigger] symbols[j])
}

/// The map that pairs each symbol with the value at its place.
pub open spec fn paired<V>(symbols: Seq<Seq<char>>, values: Seq<V>) -> Map<
    Seq<char>,
    V,
> {
    Map::new(
        |s: Seq<char>| symbols.contains(s),
        |s: Seq<char>| values[choose|i: int| 0 <= i < symbols.len() && symbols[i] == s],
    )
}

/// Among ascending symbols, a symbol stands in one place.
proof fn lemma_place<V>(symbols: Seq<Seq<char>>, values: Seq<V>, i: int)
    requires
        ascending(symbols),
        0 <= i < symbols.len(),
    ensures
        paired(symbols, values).dom().contains(symbols[i]),
        paired(symbols, values)[symbols[i]] == values[i],
{
    let k = choose|k: int| 0 <= k < symbols.len() && symbols[k] == symbols[i];
    lemma_text_irreflexive(symbols[i]);
    assert(k == i);
}

impl<V: Copy> SymbolMap<V> {
    #[verifier::type_invariant]
    spec fn inv(self) -> bool {
        &&& self.symbols@.len() == self.values@.len()
        &&& ascending(string_views(self.symbols@))
    }

    /// The symbols in order.
    pub closed spec fn symbol_seq(&self) -> Seq<Seq<char>> {
        string_views(self.symbols@)
    }
}

impl<V: Copy> View for SymbolMap<V> {
    type V = Map<Seq<char>, V>;

    closed spec fn view(&self) -> Map<Seq<char>, V> {
        paired(string_views(self.symbols@), self.values@)
    }
}

impl<V: Copy> SymbolMap<V> {
    /// No symbols.
    pub fn new() -> (r: SymbolMap<V>)
        ensures
            r@ == Map::<Seq<char>, V>::empty(),
            r.symbol_seq() == Seq::<Seq<char>>::empty(),
    {
        let r = SymbolMap { symbols: Vec::new(), values: Vec::new() };
        assert(r@ =~= Map::<Seq<char>, V>::empty());
        assert(r.symbol_seq() =~= Seq::<Seq<char>>::empty());
        r
    }

    /// The number of symbols before `symbol`.
    fn lower_bound(&self, symbol: &str) -> (r: usize)
        ensures
            r <= self.symbols@.len(),
            forall|i: int|
                0 <= i < r ==> text_before(#[trigger] string_views(self.symbols@)[i], symbol@),
            forall|i: int|
                r <= i < self.symbols@.len() ==> !text_before(
                    #[trigger] string_views(self.symbols@)[i],
                    symbol@,
                ),
    {
        proof {
            use_type_invariant(self);
        }
        let ghost views = string_views(self.symbols@);
        let mut lo: usize = 0;
        while lo < self.symbols.len() && is_before(self.symbols[lo].as_str(), symbol)
            invariant
                lo <= self.symbols@.len(),
                views == string_views(self.symbols@),
                ascending(views),
                forall|i: int| 0 <= i < lo ==> text_before(#[trigger] views[i], symbol@),
            decreases self.symbols@.len() - lo,
        {
            lo = lo + 1;
        }
        proof {
            assert forall|i: int| lo <= i < views.len() implies !text_before(
                #[trigger] views[i],
                symbol@,
            ) by {
                if lo < i && text_before(views[i], symbol@) {
                    lemma_text_transitive(views[lo as int], views[i], symbol@);
                }
            }
        }
        lo
    }

    /// Where `symbol` stands, if it does.
    fn find(&self, symbol: &str) -> (r: Option<usize>)
        ensures
            match r {
                Some(i) => i < self.symbols@.len() && string_views(self.symbols@)[i as int]
                    == symbol@ && self@.dom().contains(symbol@) && self@[symbol@]
                    == self.values@[i as int],
                None => !self@.dom().contains(symbol@),
            },
    {
        proof {
            use_type_invariant(self);
        }
        let at: usize = self.lower_bound(symbol);
        let ghost views = string_views(self.symbols@);
        if at < self.symbols.len() && same_text(self.symbols[at].as_str(), symbol) {
            proof {
                lemma_place(views, self.values@, at as int);
            }
            Some(at)
        } else {
            proof {
                if views.contains(symbol@) {
                    let k = choose|k: int| 0 <= k < views.len() && views[k] == symbol@;
                    lemma_text_irreflexive(symbol@);
                    assert(k >= at);
                    assert(at < k);
                    assert(text_before(views[at as int], views[k]));
                }
            }
            None
        }
    }

    /// The number of symbols.
    pub fn len(&self) -> (r: usize)
        ensures
            r == self.symbol_seq().len(),
            ascending(self.symbol_seq()),
            forall|s: Seq<char>| self.symbol_seq().contains(s) <==> self@.dom().contains(s),
    {
        proof {
            use_type_invariant(self);
        }
        self.symbols.len()
    }

    /// Whether `symbol` has a value.
    pub fn contains_key(&self, symbol: &str) -> (r: bool)
        ensures
            r == self@.dom().contains(symbol@),
    {
        self.find(symbol).is_some()
    }

    /// The value of `symbol`.
    pub fn get(&self, symbol: &str) -> (r: Option<V>)
        ensures
            r == (if self@.dom().contains(symbol@) {
                Some(self@[symbol@])
            } else {
                None
            }),
    {
        proof {
            use_type_invariant(self);
        }
        match self.find(symbol) {
            Some(i) => Some(self.values[i]),
            None => None,
        }
    }

    /// The `i`-th symbol in order.
    pub fn symbol_at(&self, i: usize) -> (r: &String)
        requires
            i < self.symbol_seq().len(),
        ensures
            r@ == self.symbol_seq()[i as int],
            self@.dom().contains(r@),
    {
        proof {
            use_type_invariant(self);
            lemma_place(string_views(self.symbols@), self.values@, i as int);
        }
        &self.symbols[i]
    }

    /// The value of the `i`-th symbol in order.
    pub fn value_at(&self, i: usize) -> (r: V)
        requires
            i < self.symbol_seq().len(),
        ensures
            r == self@[self.symbol_seq()[i as int]],
    {
        proof {
            use_type_invariant(self);
            lemma_place(string_views(self.symbols@), self.values@, i as int);
        }
        self.values[i]
    }

    /// Set the value of `symbol`.
    pub fn insert(&mut self, symbol: String, value: V)
        ensures
            final(self)@ == old(self)@.insert(symbol@, value),
    {
        proof {
            use_type_invariant(&*self);
        }
        let ghost (ks, vs, key) = (string_views(self.symbols@), self.values@, symbol@);
        let at: usize = self.lower_bound(symbol.as_str());
        let found = self.find(symbol.as_str());
        let mut taken = SymbolMap::new();
        std::mem::swap(self, &mut taken);
        let mut symbols: Vec<String> = taken.symbols;
        let mut values: Vec<V> = taken.values;
        match found {
            Some(i) => {
                values.set(i, value);
                proof {
                    let m = paired(ks, vs.update(i as int, value));
                    assert forall|s: Seq<char>| ks.contains(s) implies #[trigger] m[s] == paired(
                        ks,
                        vs,
                    ).insert(key, value)[s] by {
                        let j = choose|j: int| 0 <= j < ks.len() && ks[j] == s;
                        lemma_place(ks, vs, j);
                        lemma_place(ks, vs.update(i as int, value), j);
                        lemma_text_irreflexive(s);
                    }
                    assert(m =~= paired(ks, vs).insert(key, value));
                }
            },
            None => {
                proof {
                    assert forall|j: int| at <= j < ks.len() implies text_before(
                        key,
                        #[trigger] ks[j],
                    ) by {
                        lemma_text_total(key, ks[j]);
                        assert(ks.contains(ks[j]));
                    }
                }
                symbols.insert(at, symbol);
                values.insert(at, value);
                proof {
                    let nk = ks.insert(at as int, key);
                    let nv = vs.insert(at as int, value);
                    assert(string_views(symbols@) =~= nk);
                    assert forall|i: int, j: int| 0 <= i < j < nk.len() implies text_before(
                        #[trigger] nk[i],
                        #[trigger] nk[j],
                    ) by {
                        let a = if i < at {
                            i
                        } else {
                            i - 1
                        };
                        let b = if j < at {
                            j
                        } else {
                            j - 1
                        };
                        if i == at {
                            assert(nk[j] == ks[b]);
                        } else if j == at {
                            assert(nk[i] == ks[a]);
                        } else {
                            assert(nk[i] == ks[a] && nk[j] == ks[b]);
                        }
                    }
                    let m = paired(nk, nv);
                    let target = paired(ks, vs).insert(key, value);
                    assert forall|s: Seq<char>| m.dom().contains(s) <==> target.dom().contains(
                        s,
                    ) by {
                        if ks.contains(s) {
                            let i = choose|i: int| 0 <= i < ks.len() && ks[i] == s;
                            assert(nk[if i < at {
                                i
                            } else {
                                i + 1
                            }] == s);
                        }
                        if s == key {
                            assert(nk[at as int] == s);
                        }
                        if nk.contains(s) && s != key {
                            let i = choose|i: int| 0 <= i < nk.len() && nk[i] == s;
                            assert(ks[if i < at {
                                i
                            } else {
                                i - 1
                            }] == s);
                        }
                    }
                    assert forall|s: Seq<char>| m.dom().contains(s) implies #[trigger] m[s]
                        == target[s] by {
                        let i = choose|i: int| 0 <= i < nk.len() && nk[i] == s;
                        lemma_place(nk, nv, i);
                        if i < at {
                            lemma_place(ks, vs, i);
                            lemma_text_irreflexive(key);
                        } else if i > at {
                            lemma_place(ks, vs, i - 1);
                            lemma_text_irreflexive(key);
                        }
                    }
                    assert(m =~= target);
                }
            },
        }
        *self = SymbolMap { symbols, values };
    }
}

} // verus!

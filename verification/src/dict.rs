//! The dictionary used for translations: a trie over expanded surface
//! forms, every key of one definition sharing a single [`Def`] record.
//!
//! Definitions live in an arena and the trie stores arena handles, so that
//! the citation form, every alias and every conjugated form of one entry
//! point at the same record.

use crate::conjugate::simple_conjugations_iter;
use crate::conjugate::spec_conjugations;
use crate::trie::Trie;
use crate::wordlist::Def;
use crate::wordlist::DefView;
use vstd::prelude::*;

verus! {

/// Whether the key ends with the two characters "하다".
pub open spec fn ends_with_hada(k: Seq<char>) -> bool {
    k.len() >= 2 && k[k.len() - 2] == '하' && k[k.len() - 1] == '다'
}

/// Whether the key ends with the character "다".
pub open spec fn ends_with_da(k: Seq<char>) -> bool {
    k.len() >= 1 && k[k.len() - 1] == '다'
}

/// The trie keys one raw key of a definition expands to: a "하다" verb is
/// indexed under its bare stem, any other "다" citation form under every
/// conjugated form of its stem, and anything else under itself.
pub open spec fn expand_key(k: Seq<char>) -> Seq<Seq<char>> {
    if ends_with_hada(k) {
        seq![k.take(k.len() - 2)]
    } else if ends_with_da(k) {
        spec_conjugations(k.take(k.len() - 1))
    } else {
        seq![k]
    }
}

/// The raw keys of a definition: its citation form and its aliases.
pub open spec fn def_keys(d: DefView) -> Seq<Seq<char>> {
    seq![d.hangeul] + d.aliases
}

/// Whether `k` is among the expanded trie keys of the definition `d`.
pub open spec fn def_matches(d: DefView, k: Seq<char>) -> bool {
    exists|i: int|
        0 <= i < def_keys(d).len() && expand_key(#[trigger] def_keys(d)[i]).contains(k)
}

/// The value under `k` after adding the definition `d` over `base`.
pub open spec fn apply_def(base: Option<DefView>, d: DefView, k: Seq<char>) -> Option<DefView> {
    if def_matches(d, k) {
        Some(d)
    } else {
        base
    }
}

/// The value under `k` after adding the definitions `ds`, in order, over
/// `base`; a later definition overwrites an earlier one with the same key.
pub open spec fn apply_defs(base: Option<DefView>, ds: Seq<DefView>, k: Seq<char>) -> Option<
    DefView,
>
    decreases ds.len(),
{
    if ds.len() == 0 {
        base
    } else {
        apply_defs(apply_def(base, ds[0], k), ds.drop_first(), k)
    }
}

/// Whether `k` is among the expansions of the first `j` raw keys of `d`.
spec fn key_hits(d: DefView, k: Seq<char>, j: int) -> bool {
    exists|i: int|
        0 <= i < j && i < def_keys(d).len() && expand_key(#[trigger] def_keys(d)[i]).contains(k)
}

/// Adding one definition at the end is applying it last.
proof fn lemma_apply_defs_push(base: Option<DefView>, ds: Seq<DefView>, d: DefView, k: Seq<char>)
    ensures
        apply_defs(base, ds.push(d), k) == apply_def(apply_defs(base, ds, k), d, k),
    decreases ds.len(),
{
    if ds.len() == 0 {
        assert(ds.push(d)[0] == d);
        assert(ds.push(d).drop_first() =~= Seq::<DefView>::empty());
        assert(apply_defs(base, ds.push(d), k) == apply_defs(
            apply_def(base, d, k),
            Seq::<DefView>::empty(),
            k,
        ));
        assert(apply_defs(apply_def(base, d, k), Seq::<DefView>::empty(), k) == apply_def(
            base,
            d,
            k,
        ));
        assert(apply_defs(base, ds, k) == base);
    } else {
        assert(ds.push(d)[0] == ds[0]);
        assert(ds.push(d).drop_first() =~= ds.drop_first().push(d));
        lemma_apply_defs_push(apply_def(base, ds[0], k), ds.drop_first(), d, k);
        assert(apply_defs(base, ds.push(d), k) == apply_defs(
            apply_def(base, ds[0], k),
            ds.drop_first().push(d),
            k,
        ));
        assert(apply_defs(base, ds, k) == apply_defs(
            apply_def(base, ds[0], k),
            ds.drop_first(),
            k,
        ));
    }
}

/// One more element of `s` taken: one more candidate for membership.
proof fn lemma_take_contains(s: Seq<Seq<char>>, m: int, x: Seq<char>)
    requires
        0 <= m < s.len(),
    ensures
        s.take(m + 1).contains(x) <==> (s.take(m).contains(x) || x == s[m]),
{
    if s.take(m).contains(x) {
        let i = choose|i: int| 0 <= i < s.take(m).len() && #[trigger] s.take(m)[i] == x;
        assert(s.take(m + 1)[i] == x);
        assert(s.take(m + 1).contains(x));
    }
    if x == s[m] {
        assert(s.take(m + 1)[m] == x);
        assert(s.take(m + 1).contains(x));
    }
    if s.take(m + 1).contains(x) {
        let i = choose|i: int| 0 <= i < s.take(m + 1).len() && #[trigger] s.take(m + 1)[i] == x;
        if i < m {
            assert(s.take(m)[i] == x);
            assert(s.take(m).contains(x));
        }
    }
}

/// The dictionary type used for translations.
pub struct Dict {
    defs: Vec<Def>,
    inner: Trie<usize>,
}

/// `post` holds `value` under the exact key `key` and is elsewhere
/// unchanged from `pre`: the effect of [`Dict::insert`].
pub open spec fn dict_inserted(pre: Dict, post: Dict, key: Seq<char>, value: DefView) -> bool {
    forall|k: Seq<char>|
        #[trigger] post.spec_get(k) == if k == key {
            Some(value)
        } else {
            pre.spec_get(k)
        }
}

/// `post` holds nothing under the exact key `key` and is elsewhere
/// unchanged from `pre`: the effect of [`Dict::remove`].
pub open spec fn dict_removed(pre: Dict, post: Dict, key: Seq<char>) -> bool {
    forall|k: Seq<char>|
        #[trigger] post.spec_get(k) == if k == key {
            None::<DefView>
        } else {
            pre.spec_get(k)
        }
}

impl Dict {
    /// Every handle stored in the trie points into the arena.
    pub closed spec fn wf(self) -> bool {
        forall|k: Seq<char>|
            #[trigger] self.inner.spec_get(k) matches Some(h) ==> h < self.defs@.len()
    }

    /// The definition stored under the exact key `k`, if any: the model of
    /// the dictionary.
    pub closed spec fn spec_get(self, k: Seq<char>) -> Option<DefView> {
        match self.inner.spec_get(k) {
            None => None,
            Some(h) => if h < self.defs@.len() {
                Some(self.defs@[h as int]@)
            } else {
                None
            },
        }
    }

    /// The length of the longest non-empty prefix of `text` that is a key
    /// of the dictionary; `0` if no non-empty prefix is a key.
    pub closed spec fn spec_longest_len(self, text: Seq<char>) -> int {
        self.inner.spec_longest_len(text)
    }

    /// The length of the shortest non-empty prefix of `text` that is a key
    /// of the dictionary; `0` if no non-empty prefix is a key.
    pub closed spec fn spec_shortest_len(self, text: Seq<char>) -> int {
        self.inner.spec_shortest_len(text)
    }

    /// What [`Dict::spec_longest_len`] returns: a key length when
    /// positive, and an upper bound on every matching prefix length.
    pub proof fn lemma_longest_len_props(self, text: Seq<char>)
        requires
            self.wf(),
        ensures
            0 <= self.spec_longest_len(text) <= text.len(),
            self.spec_longest_len(text) > 0 ==> self.spec_get(
                text.take(self.spec_longest_len(text)),
            ) is Some,
            forall|l: int|
                0 < l <= text.len() && self.spec_get(#[trigger] text.take(l)) is Some ==> l
                    <= self.spec_longest_len(text),
    {
        self.inner.lemma_longest_len_props(text);
        assert forall|l: int| 0 <= l <= text.len() implies (self.spec_get(#[trigger] text.take(l))
            is Some <==> self.inner.spec_get(text.take(l)) is Some) by {
            assert(self.inner.spec_get(text.take(l)) matches Some(h) ==> h < self.defs@.len());
        }
    }

    /// What [`Dict::spec_shortest_len`] returns: a key length when
    /// positive, below which no prefix matches; `0` exactly when no
    /// non-empty prefix of `text` is a key.
    pub proof fn lemma_shortest_len_props(self, text: Seq<char>)
        requires
            self.wf(),
        ensures
            0 <= self.spec_shortest_len(text),
            self.spec_shortest_len(text) == 0 ==> forall|l: int|
                0 < l <= text.len() ==> self.spec_get(#[trigger] text.take(l)) is None,
            self.spec_shortest_len(text) > 0 ==> {
                &&& 1 <= self.spec_shortest_len(text) <= text.len()
                &&& self.spec_get(text.take(self.spec_shortest_len(text))) is Some
                &&& forall|l: int|
                    0 < l < self.spec_shortest_len(text) ==> self.spec_get(
                        #[trigger] text.take(l),
                    ) is None
            },
    {
        self.inner.lemma_shortest_len_props(text);
        assert forall|l: int| 0 <= l <= text.len() implies (self.spec_get(#[trigger] text.take(l))
            is Some <==> self.inner.spec_get(text.take(l)) is Some) by {
            assert(self.inner.spec_get(text.take(l)) matches Some(h) ==> h < self.defs@.len());
        }
    }

    /// Creates a new, empty dictionary.
    pub fn new() -> (r: Dict)
        ensures
            r.wf(),
            forall|k: Seq<char>| #[trigger] r.spec_get(k) is None,
    {
        Dict { defs: Vec::new(), inner: Trie::new() }
    }

    /// Inserts a definition under one exact key, overwriting any prior
    /// definition there.
    pub fn insert(&mut self, key: &str, value: Def)
        requires
            old(self).wf(),
        ensures
            final(self).wf(),
            dict_inserted(*old(self), *final(self), key@, value@),
    {
        let ghost pre = *self;
        let h = self.defs.len();
        self.defs.push(value);
        self.inner.insert(key, h);
        proof {
            assert forall|k: Seq<char>|
                #[trigger] self.spec_get(k) == if k == key@ {
                    Some(value@)
                } else {
                    pre.spec_get(k)
                } by {
                if k != key@ {
                    assert(self.inner.spec_get(k) == pre.inner.spec_get(k));
                    assert(pre.inner.spec_get(k) matches Some(h2) ==> h2 < pre.defs@.len());
                }
            }
            assert forall|k: Seq<char>|
                #[trigger] self.inner.spec_get(k) matches Some(h2) ==> h2 < self.defs@.len() by {
                if k != key@ {
                    assert(pre.inner.spec_get(k) matches Some(h3) ==> h3 < pre.defs@.len());
                }
            }
        }
    }

    /// Removes the definition under one exact key, returning a copy of it;
    /// returns `None`, and changes nothing, when the key is absent.
    pub fn remove(&mut self, key: &str) -> (r: Option<Def>)
        requires
            old(self).wf(),
        ensures
            final(self).wf(),
            dict_removed(*old(self), *final(self), key@),
            match r {
                Some(d) => old(self).spec_get(key@) == Some(d@),
                None => old(self).spec_get(key@) is None,
            },
    {
        let ghost pre = *self;
        match self.inner.remove(key) {
            Some(h) => {
                proof {
                    assert(pre.inner.spec_get(key@) matches Some(h2) ==> h2 < pre.defs@.len());
                }
                let d = self.defs[h].clone();
                proof {
                    lemma_dict_unchanged_but(pre, *self, key@);
                }
                Some(d)
            },
            None => {
                proof {
                    lemma_dict_unchanged_but(pre, *self, key@);
                }
                None
            },
        }
    }

    /// Finds the definition matching as many characters of the start of
    /// `key` as possible, with the matched prefix.
    pub fn find_longest_match<'a, 'k>(&'a self, key: &'k str) -> (r: Option<(&'k str, &'a Def)>)
        requires
            self.wf(),
        ensures
            ({
                let l = self.spec_longest_len(key@);
                match r {
                    None => l == 0,
                    Some((p, d)) => {
                        &&& l > 0
                        &&& p@ == key@.take(l)
                        &&& self.spec_get(p@) == Some(d@)
                    },
                }
            }),
    {
        match self.inner.find_longest_match(key) {
            Some((p, h)) => {
                proof {
                    assert(self.inner.spec_get(p@) matches Some(h2) ==> h2 < self.defs@.len());
                }
                Some((p, &self.defs[*h]))
            },
            None => None,
        }
    }

    /// Finds the definition matching as few characters of the start of
    /// `key` as possible, with the matched prefix.
    pub fn find_shortest_match<'a, 'k>(&'a self, key: &'k str) -> (r: Option<(&'k str, &'a Def)>)
        requires
            self.wf(),
        ensures
            ({
                let s = self.spec_shortest_len(key@);
                match r {
                    None => s == 0,
                    Some((p, d)) => {
                        &&& s >= 1
                        &&& p@ == key@.take(s)
                        &&& self.spec_get(p@) == Some(d@)
                    },
                }
            }),
    {
        match self.inner.find_shortest_match(key) {
            Some((p, h)) => {
                proof {
                    assert(self.inner.spec_get(p@) matches Some(h2) ==> h2 < self.defs@.len());
                }
                Some((p, &self.defs[*h]))
            },
            None => None,
        }
    }
}

/// A one-element sequence holds exactly its element.
proof fn lemma_singleton_contains(x: Seq<char>, k: Seq<char>)
    ensures
        seq![x].contains(k) <==> k == x,
{
    if k == x {
        assert(seq![x][0] == k);
        assert(seq![x].contains(k));
    }
    if seq![x].contains(k) {
        let i = choose|i: int| 0 <= i < seq![x].len() && #[trigger] seq![x][i] == k;
        assert(i == 0);
    }
}

impl Dict {
    /// Inserts one exact trie key for a handle already in the arena.
    fn insert_handle(&mut self, key: &str, h: usize)
        requires
            old(self).wf(),
            h < old(self).defs@.len(),
        ensures
            final(self).wf(),
            final(self).defs@ == old(self).defs@,
            forall|k: Seq<char>|
                #[trigger] final(self).spec_get(k) == if k == key@ {
                    Some(old(self).defs@[h as int]@)
                } else {
                    old(self).spec_get(k)
                },
    {
        let ghost pre = *self;
        self.inner.insert(key, h);
        proof {
            assert forall|k: Seq<char>|
                #[trigger] self.spec_get(k) == if k == key@ {
                    Some(pre.defs@[h as int]@)
                } else {
                    pre.spec_get(k)
                } by {
                if k != key@ {
                    assert(self.inner.spec_get(k) == pre.inner.spec_get(k));
                    assert(pre.inner.spec_get(k) matches Some(h2) ==> h2 < pre.defs@.len());
                }
            }
            assert forall|k: Seq<char>|
                #[trigger] self.inner.spec_get(k) matches Some(h2) ==> h2 < self.defs@.len() by {
                if k != key@ {
                    assert(pre.inner.spec_get(k) matches Some(h3) ==> h3 < pre.defs@.len());
                }
            }
        }
    }

    /// Inserts the handle `h` under every expanded trie key of the raw key
    /// `key`: the stripped stem for a "하다" verb, every conjugated form of
    /// the stem for another "다" citation form, and the key itself
    /// otherwise.
    fn add_key(&mut self, key: &str, h: usize)
        requires
            old(self).wf(),
            h < old(self).defs@.len(),
        ensures
            final(self).wf(),
            final(self).defs@ == old(self).defs@,
            forall|k: Seq<char>|
                #[trigger] final(self).spec_get(k) == if expand_key(key@).contains(k) {
                    Some(old(self).defs@[h as int]@)
                } else {
                    old(self).spec_get(k)
                },
    {
        let ghost pre = *self;
        let n = key.unicode_len();
        if n >= 2 && key.get_char(n - 2) == '하' && key.get_char(n - 1) == '다' {
            let stripped = key.substring_char(0, n - 2);
            proof {
                assert(ends_with_hada(key@));
                assert(stripped@ =~= key@.take(key@.len() - 2));
                assert(expand_key(key@) == seq![stripped@]);
            }
            self.insert_handle(stripped, h);
            proof {
                assert forall|k: Seq<char>|
                    #[trigger] self.spec_get(k) == if expand_key(key@).contains(k) {
                        Some(pre.defs@[h as int]@)
                    } else {
                        pre.spec_get(k)
                    } by {
                    lemma_singleton_contains(stripped@, k);
                }
            }
        } else if n >= 1 && key.get_char(n - 1) == '다' {
            let stem = key.substring_char(0, n - 1);
            proof {
                assert(!ends_with_hada(key@));
                assert(ends_with_da(key@));
                assert(stem@ =~= key@.take(key@.len() - 1));
            }
            let forms = simple_conjugations_iter(stem);
            let ghost exp = expand_key(key@);
            proof {
                assert(forms.deep_view() == exp);
            }
            let nf = forms.len();
            let mut m: usize = 0;
            proof {
                assert(nf == exp.len());
                assert forall|k: Seq<char>| !(#[trigger] exp.take(0).contains(k)) by {
                    assert(exp.take(0).len() == 0);
                }
            }
            while m < nf
                invariant
                    m <= nf,
                    nf == forms@.len(),
                    forms.deep_view() == exp,
                    nf == exp.len(),
                    self.wf(),
                    self.defs@ == pre.defs@,
                    h < self.defs@.len(),
                    pre.wf(),
                    forall|k: Seq<char>|
                        #[trigger] self.spec_get(k) == if exp.take(m as int).contains(k) {
                            Some(pre.defs@[h as int]@)
                        } else {
                            pre.spec_get(k)
                        },
                decreases nf - m,
            {
                let f = &forms[m];
                proof {
                    assert(f@ == exp[m as int]);
                }
                self.insert_handle(f.as_str(), h);
                proof {
                    assert forall|k: Seq<char>|
                        #[trigger] self.spec_get(k) == if exp.take(m as int + 1).contains(k) {
                            Some(pre.defs@[h as int]@)
                        } else {
                            pre.spec_get(k)
                        } by {
                        lemma_take_contains(exp, m as int, k);
                    }
                }
                m = m + 1;
            }
            proof {
                assert(exp.take(nf as int) =~= exp);
            }
        } else {
            proof {
                assert(!ends_with_hada(key@));
                assert(!ends_with_da(key@));
                assert(expand_key(key@) == seq![key@]);
            }
            self.insert_handle(key, h);
            proof {
                assert forall|k: Seq<char>|
                    #[trigger] self.spec_get(k) == if expand_key(key@).contains(k) {
                        Some(pre.defs@[h as int]@)
                    } else {
                        pre.spec_get(k)
                    } by {
                    lemma_singleton_contains(key@, k);
                }
            }
        }
    }

    /// Adds the given definitions to the dictionary: for every definition,
    /// every expanded form of its citation form and of each alias becomes
    /// a key pointing at that definition.  A newer definition of a word
    /// replaces an older one.
    pub fn add_definitions(&mut self, defs: Vec<Def>)
        requires
            old(self).wf(),
        ensures
            final(self).wf(),
            forall|k: Seq<char>|
                #[trigger] final(self).spec_get(k) == apply_defs(
                    old(self).spec_get(k),
                    defs.deep_view(),
                    k,
                ),
    {
        let ghost dv = defs.deep_view();
        let nd = defs.len();
        let mut idx: usize = 0;
        proof {
            assert(dv.take(0) =~= Seq::<DefView>::empty());
            assert forall|k: Seq<char>|
                #[trigger] self.spec_get(k) == apply_defs(old(self).spec_get(k), dv.take(0), k) by {
                assert(apply_defs(old(self).spec_get(k), Seq::<DefView>::empty(), k) == old(
                    self,
                ).spec_get(k));
            }
        }
        while idx < nd
            invariant
                idx <= nd,
                nd == defs@.len(),
                dv == defs.deep_view(),
                self.wf(),
                forall|k: Seq<char>|
                    #[trigger] self.spec_get(k) == apply_defs(
                        old(self).spec_get(k),
                        dv.take(idx as int),
                        k,
                    ),
            decreases nd - idx,
        {
            let d = defs[idx].clone();
            let ghost dview = dv[idx as int];
            proof {
                assert(dview == defs@[idx as int].deep_view());
                assert(d@ == dview);
            }
            let ghost base_state = *self;
            let h = self.defs.len();
            self.defs.push(d.clone());
            proof {
                assert forall|k: Seq<char>|
                    #[trigger] self.spec_get(k) == base_state.spec_get(k) by {
                    assert(base_state.inner.spec_get(k) matches Some(h2) ==> h2
                        < base_state.defs@.len());
                }
                assert forall|k: Seq<char>|
                    #[trigger] self.inner.spec_get(k) matches Some(h2) ==> h2
                        < self.defs@.len() by {
                    assert(base_state.inner.spec_get(k) matches Some(h3) ==> h3
                        < base_state.defs@.len());
                }
                assert(self.defs@[h as int]@ == dview);
            }
            let mut keys: Vec<String> = Vec::new();
            keys.push(d.hangeul.clone());
            proof {
                assert(keys.deep_view() =~= seq![dview.hangeul] + dview.aliases.take(0));
            }
            let na = d.aliases.len();
            let mut j: usize = 0;
            while j < na
                invariant
                    j <= na,
                    na == d.aliases@.len(),
                    d@ == dview,
                    keys.deep_view() == seq![dview.hangeul] + dview.aliases.take(j as int),
                decreases na - j,
            {
                let x = d.aliases[j].clone();
                proof {
                    assert(x@ == dview.aliases[j as int]);
                }
                let ghost prevv = keys@;
                let ghost prev = keys.deep_view();
                keys.push(x);
                proof {
                    assert(keys@ == prevv.push(x));
                    assert(prev.len() == prevv.len());
                    assert(prev.len() == j + 1);
                    assert forall|i: int|
                        0 <= i < keys@.len() implies keys.deep_view()[i] == (seq![dview.hangeul]
                            + dview.aliases.take(j as int + 1))[i] by {
                        assert(keys.deep_view()[i] == keys@[i]@);
                        if i < j + 1 {
                            assert(keys@[i] == prevv[i]);
                            assert(prev[i] == prevv[i]@);
                        } else {
                            assert(keys@[i] == x);
                        }
                    }
                    assert(keys.deep_view() =~= seq![dview.hangeul] + dview.aliases.take(
                        j as int + 1,
                    ));
                }
                j = j + 1;
            }
            proof {
                assert(dview.aliases.take(na as int) =~= dview.aliases);
                assert(keys.deep_view() == def_keys(dview));
            }
            let nk = keys.len();
            let mut kk: usize = 0;
            proof {
                assert forall|k: Seq<char>| !key_hits(dview, k, 0) by {}
            }
            while kk < nk
                invariant
                    kk <= nk,
                    nk == keys@.len(),
                    keys.deep_view() == def_keys(dview),
                    self.wf(),
                    h < self.defs@.len(),
                    self.defs@[h as int]@ == dview,
                    forall|k: Seq<char>|
                        #[trigger] self.spec_get(k) == if key_hits(dview, k, kk as int) {
                            Some(dview)
                        } else {
                            base_state.spec_get(k)
                        },
                decreases nk - kk,
            {
                let key = &keys[kk];
                proof {
                    assert(key@ == def_keys(dview)[kk as int]);
                }
                self.add_key(key.as_str(), h);
                proof {
                    assert forall|k: Seq<char>|
                        #[trigger] self.spec_get(k) == if key_hits(dview, k, kk as int + 1) {
                            Some(dview)
                        } else {
                            base_state.spec_get(k)
                        } by {
                        if expand_key(def_keys(dview)[kk as int]).contains(k) {
                            assert(key_hits(dview, k, kk as int + 1));
                        }
                        if key_hits(dview, k, kk as int) {
                            assert(key_hits(dview, k, kk as int + 1));
                        }
                        if key_hits(dview, k, kk as int + 1) && !key_hits(dview, k, kk as int)
                            && !expand_key(def_keys(dview)[kk as int]).contains(k) {
                            let i = choose|i: int|
                                0 <= i < kk as int + 1 && i < def_keys(dview).len() && #[trigger] expand_key(
                                    def_keys(dview)[i],
                                ).contains(k);
                            assert(false);
                        }
                    }
                }
                kk = kk + 1;
            }
            proof {
                assert(def_keys(dview).len() == nk);
                assert forall|k: Seq<char>|
                    #[trigger] self.spec_get(k) == apply_defs(
                        old(self).spec_get(k),
                        dv.take(idx as int + 1),
                        k,
                    ) by {
                    lemma_apply_defs_push(old(self).spec_get(k), dv.take(idx as int), dview, k);
                    assert(dv.take(idx as int).push(dview) =~= dv.take(idx as int + 1));
                    if key_hits(dview, k, nk as int) {
                        assert(def_matches(dview, k));
                    }
                    if def_matches(dview, k) {
                        assert(key_hits(dview, k, nk as int));
                    }
                }
            }
            idx = idx + 1;
        }
        proof {
            assert(dv.take(nd as int) =~= dv);
        }
    }
}

/// When the trie parts of `pre` and `post` agree but at `key`, and the
/// arena of `post` extends that of `pre`, the models agree but at `key`.
proof fn lemma_dict_unchanged_but(pre: Dict, post: Dict, key: Seq<char>)
    requires
        pre.wf(),
        forall|k: Seq<char>| k != key ==> post.inner.spec_get(k) == pre.inner.spec_get(k),
        post.inner.spec_get(key) is None,
        post.defs@ == pre.defs@,
    ensures
        post.wf(),
        dict_removed(pre, post, key),
{
    assert forall|k: Seq<char>|
        #[trigger] post.spec_get(k) == if k == key {
            None::<DefView>
        } else {
            pre.spec_get(k)
        } by {
        if k != key {
            assert(pre.inner.spec_get(k) matches Some(h) ==> h < pre.defs@.len());
        }
    }
    assert forall|k: Seq<char>|
        #[trigger] post.inner.spec_get(k) matches Some(h) ==> h < post.defs@.len() by {
        if k != key {
            assert(pre.inner.spec_get(k) matches Some(h2) ==> h2 < pre.defs@.len());
        }
    }
}

} // verus!

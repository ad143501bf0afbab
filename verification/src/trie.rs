//! A trie keyed by successive characters, to find the longest (or shortest)
//! key contained as a prefix of a text.
//!
//! The model of a trie is the partial map [`Trie::spec_get`] from character
//! sequences to values: walking the trie from the root along a key either
//! reaches a node holding a value, or not.

use vstd::prelude::*;

verus! {

/// One child edge of a trie node.
struct Child<V> {
    ch: char,
    node: TrieNode<V>,
}

/// A trie node: an optional value, present iff some key terminates exactly
/// here, and one child per distinct first character of the keys below.
struct TrieNode<V> {
    value: Option<V>,
    children: Vec<Child<V>>,
}

/// A trie mapping character sequences to values of type `V`.
pub struct Trie<V> {
    top: TrieNode<V>,
}

/// The node reached from `s` by the character `c`: the first entry of `s`
/// carrying `c`, if any.
spec fn seq_child<V>(s: Seq<Child<V>>, c: char) -> Option<TrieNode<V>>
    decreases s.len(),
{
    if s.len() == 0 {
        None
    } else if s[0].ch == c {
        Some(s[0].node)
    } else {
        seq_child(s.drop_first(), c)
    }
}

impl<V> TrieNode<V> {
    /// The node reached by walking from `self` along the characters of `k`.
    spec fn spec_descend(self, k: Seq<char>) -> Option<TrieNode<V>>
        decreases k.len(),
    {
        if k.len() == 0 {
            Some(self)
        } else {
            match seq_child(self.children@, k[0]) {
                None => None,
                Some(n) => n.spec_descend(k.drop_first()),
            }
        }
    }

    /// The value stored for the key `k` below `self`, if any.
    spec fn spec_get(self, k: Seq<char>) -> Option<V> {
        match self.spec_descend(k) {
            None => None,
            Some(n) => n.value,
        }
    }
}

/// The largest `l` with `1 <= l <= m` such that the first `l` characters of
/// `text` are a key below `n`; `0` if there is none.
spec fn match_upto<V>(n: TrieNode<V>, text: Seq<char>, m: int) -> int
    recommends
        m <= text.len(),
    decreases m,
{
    if m <= 0 {
        0
    } else if n.spec_get(text.take(m)) is Some {
        m
    } else {
        match_upto(n, text, m - 1)
    }
}

/// The smallest `l` with `i <= l <= text.len()` such that the first `l`
/// characters of `text` are a key below `n`; `0` if there is none.
spec fn match_from<V>(n: TrieNode<V>, text: Seq<char>, i: int) -> int
    recommends
        1 <= i,
    decreases text.len() - i + 1,
{
    if i > text.len() {
        0
    } else if n.spec_get(text.take(i)) is Some {
        i
    } else {
        match_from(n, text, i + 1)
    }
}

impl<V> Trie<V> {
    /// The value stored under the key `k`, if any: the model of the trie.
    pub closed spec fn spec_get(self, k: Seq<char>) -> Option<V> {
        self.top.spec_get(k)
    }

    /// The length of the longest non-empty prefix of `text` that is a key
    /// of the trie; `0` if no non-empty prefix is a key.
    pub closed spec fn spec_longest_len(self, text: Seq<char>) -> int {
        match_upto(self.top, text, text.len() as int)
    }

    /// The length of the shortest non-empty prefix of `text` that is a key
    /// of the trie; `0` if no non-empty prefix is a key.
    pub closed spec fn spec_shortest_len(self, text: Seq<char>) -> int {
        match_from(self.top, text, 1)
    }

    /// What [`Trie::spec_longest_len`] returns: a key length when positive,
    /// and an upper bound on every matching prefix length.
    pub proof fn lemma_longest_len_props(self, text: Seq<char>)
        ensures
            0 <= self.spec_longest_len(text) <= text.len(),
            self.spec_longest_len(text) > 0 ==> self.spec_get(
                text.take(self.spec_longest_len(text)),
            ) is Some,
            forall|l: int|
                0 < l <= text.len() && self.spec_get(#[trigger] text.take(l)) is Some ==> l
                    <= self.spec_longest_len(text),
    {
        lemma_match_upto_props(self.top, text, text.len() as int);
    }

    /// What [`Trie::spec_shortest_len`] returns: a key length when positive,
    /// below which no prefix matches; `0` exactly when no non-empty prefix
    /// of `text` is a key.
    pub proof fn lemma_shortest_len_props(self, text: Seq<char>)
        ensures
            0 <= self.spec_shortest_len(text),
            self.spec_shortest_len(text) == 0 ==> forall|l: int|
                0 < l <= text.len() ==> self.spec_get(#[trigger] text.take(l)) is None,
            self.spec_shortest_len(text) > 0 ==> {
                &&& 1 <= self.spec_shortest_len(text) <= text.len()
                &&& self.spec_get(text.take(self.spec_shortest_len(text))) is Some
                &&& forall|l: int|
                    0 < l < self.spec_shortest_len(text) ==> self.spec_get(
                        #[trigger] text.take(l),
                    ) is None
            },
    {
        lemma_match_from_props(self.top, text, 1);
    }
}

/// `post` holds `value` under `key` and is elsewhere unchanged from `pre`:
/// the effect of [`Trie::insert`].
pub open spec fn inserted<V>(pre: Trie<V>, post: Trie<V>, key: Seq<char>, value: V) -> bool {
    forall|k: Seq<char>|
        post.spec_get(k) == if k == key {
            Some(value)
        } else {
            pre.spec_get(k)
        }
}

/// `post` holds nothing under `key` and is elsewhere unchanged from `pre`:
/// the effect of [`Trie::remove`].
pub open spec fn removed<V>(pre: Trie<V>, post: Trie<V>, key: Seq<char>) -> bool {
    forall|k: Seq<char>|
        post.spec_get(k) == if k == key {
            None::<V>
        } else {
            pre.spec_get(k)
        }
}

/// Walking along `a + b` is walking along `a`, then along `b`.
proof fn lemma_descend_concat<V>(n: TrieNode<V>, a: Seq<char>, b: Seq<char>)
    ensures
        n.spec_descend(a + b) == match n.spec_descend(a) {
            None => None::<TrieNode<V>>,
            Some(m) => m.spec_descend(b),
        },
    decreases a.len(),
{
    if a.len() == 0 {
        assert(a + b =~= b);
    } else {
        assert((a + b)[0] == a[0]);
        match seq_child(n.children@, a[0]) {
            None => {
                assert((a + b).len() > 0);
            },
            Some(m0) => {
                assert((a + b).drop_first() =~= a.drop_first() + b);
                lemma_descend_concat(m0, a.drop_first(), b);
            },
        }
    }
}

/// What [`match_upto`] returns: `0`, or the largest matching length up to
/// `m`.
proof fn lemma_match_upto_props<V>(n: TrieNode<V>, text: Seq<char>, m: int)
    requires
        0 <= m <= text.len(),
    ensures
        0 <= match_upto(n, text, m) <= m,
        match_upto(n, text, m) > 0 ==> n.spec_get(text.take(match_upto(n, text, m))) is Some,
        forall|l: int|
            0 < l <= m && n.spec_get(#[trigger] text.take(l)) is Some ==> l <= match_upto(
                n,
                text,
                m,
            ),
    decreases m,
{
    if m > 0 && !(n.spec_get(text.take(m)) is Some) {
        lemma_match_upto_props(n, text, m - 1);
    }
}

/// What [`match_from`] returns: `0` when nothing at or past `i` matches,
/// else the smallest matching length at or past `i`.
proof fn lemma_match_from_props<V>(n: TrieNode<V>, text: Seq<char>, i: int)
    requires
        1 <= i,
    ensures
        0 <= match_from(n, text, i),
        match_from(n, text, i) == 0 ==> forall|l: int|
            i <= l <= text.len() ==> n.spec_get(#[trigger] text.take(l)) is None,
        match_from(n, text, i) > 0 ==> {
            &&& i <= match_from(n, text, i) <= text.len()
            &&& n.spec_get(text.take(match_from(n, text, i))) is Some
            &&& forall|l: int|
                i <= l < match_from(n, text, i) ==> n.spec_get(#[trigger] text.take(l)) is None
        },
    decreases text.len() - i + 1,
{
    if i <= text.len() && !(n.spec_get(text.take(i)) is Some) {
        lemma_match_from_props(n, text, i + 1);
    }
}

/// Chaining searches: when the first key on the path down `text` ends at
/// `l1` and leads to `node`, the longest key on the whole path is `l1`
/// plus the longest below `node`.
proof fn lemma_longest_chain<V>(root: TrieNode<V>, node: TrieNode<V>, text: Seq<char>, l1: int)
    requires
        1 <= l1 <= text.len(),
        root.spec_descend(text.take(l1)) == Some(node),
        node.value is Some,
        forall|l: int| 0 < l < l1 ==> root.spec_get(#[trigger] text.take(l)) is None,
    ensures
        match_upto(root, text, text.len() as int) == l1 + match_upto(
            node,
            text.skip(l1),
            text.skip(l1).len() as int,
        ),
        forall|l: int|
            l1 <= l <= text.len() ==> root.spec_get(#[trigger] text.take(l)) == node.spec_get(
                text.skip(l1).take(l - l1),
            ),
{
    let sub = text.skip(l1);
    let len = text.len() as int;
    let big = match_upto(root, text, len);
    let small = match_upto(node, sub, sub.len() as int);
    lemma_match_upto_props(root, text, len);
    lemma_match_upto_props(node, sub, sub.len() as int);
    assert forall|l: int| l1 <= l <= text.len() implies root.spec_get(#[trigger] text.take(l))
        == node.spec_get(sub.take(l - l1)) by {
        lemma_descend_concat(root, text.take(l1), sub.take(l - l1));
        assert(text.take(l1) + sub.take(l - l1) =~= text.take(l));
    }
    assert(root.spec_get(text.take(l1)) == node.value);
    assert(sub.take(0) =~= Seq::<char>::empty());
    assert(big >= l1);
    if small > 0 {
        assert(root.spec_get(text.take(l1 + small)) is Some);
        assert(big >= l1 + small);
        assert(node.spec_get(sub.take(big - l1)) is Some);
        assert(big - l1 <= small);
    } else {
        if big > l1 {
            assert(node.spec_get(sub.take(big - l1)) is Some);
            assert(false);
        }
    }
}

/// Sequences with the same first element and the same rest are equal.
proof fn lemma_cons_eq(k: Seq<char>, t: Seq<char>)
    requires
        k.len() > 0,
        t.len() > 0,
        k[0] == t[0],
        k.drop_first() == t.drop_first(),
    ensures
        k == t,
{
    assert(k.drop_first().len() == k.len() - 1);
    assert(t.drop_first().len() == t.len() - 1);
    assert(k.len() == t.len());
    assert forall|i: int| 0 <= i < k.len() implies k[i] == t[i] by {
        if i > 0 {
            assert(k[i] == k.drop_first()[i - 1]);
            assert(t[i] == t.drop_first()[i - 1]);
        }
    }
    assert(k =~= t);
}

proof fn lemma_seq_child_at<V>(s: Seq<Child<V>>, c: char, i: int)
    requires
        0 <= i < s.len(),
        s[i].ch == c,
        forall|j: int| 0 <= j < i ==> s[j].ch != c,
    ensures
        seq_child(s, c) == Some(s[i].node),
    decreases i,
{
    if i > 0 {
        lemma_seq_child_at(s.drop_first(), c, i - 1);
    }
}

proof fn lemma_seq_child_none<V>(s: Seq<Child<V>>, c: char)
    requires
        forall|j: int| 0 <= j < s.len() ==> s[j].ch != c,
    ensures
        seq_child(s, c) is None,
    decreases s.len(),
{
    if s.len() > 0 {
        lemma_seq_child_none(s.drop_first(), c);
    }
}

/// Replacing the entry at `i` changes only lookups of its character, and
/// only when `i` is its first occurrence.
proof fn lemma_seq_child_update<V>(s: Seq<Child<V>>, i: int, e: Child<V>, c: char)
    requires
        0 <= i < s.len(),
        s[i].ch == e.ch,
        forall|j: int| 0 <= j < i ==> s[j].ch != e.ch,
    ensures
        seq_child(s.update(i, e), c) == if c == e.ch {
            Some(e.node)
        } else {
            seq_child(s, c)
        },
    decreases i,
{
    let t = s.update(i, e);
    if i == 0 {
        if c != e.ch {
            assert(t.drop_first() =~= s.drop_first());
        }
    } else {
        assert(t.drop_first() =~= s.drop_first().update(i - 1, e));
        lemma_seq_child_update(s.drop_first(), i - 1, e, c);
    }
}

/// Appending an entry with a fresh character changes only lookups of that
/// character.
proof fn lemma_seq_child_push<V>(s: Seq<Child<V>>, e: Child<V>, c: char)
    requires
        forall|j: int| 0 <= j < s.len() ==> s[j].ch != e.ch,
    ensures
        c == e.ch ==> seq_child(s.push(e), c) == Some(e.node),
        c != e.ch ==> seq_child(s.push(e), c) == seq_child(s, c),
    decreases s.len(),
{
    let t = s.push(e);
    if s.len() == 0 {
        assert(t[0] == e);
        if c == e.ch {
            assert(seq_child(t, c) == Some(e.node));
        } else {
            assert(t.drop_first() =~= Seq::<Child<V>>::empty());
            assert(seq_child(t, c) == seq_child(t.drop_first(), c));
            assert(seq_child(t.drop_first(), c) is None);
            assert(seq_child(s, c) is None);
        }
    } else {
        assert(t[0] == s[0]);
        assert(s[0].ch != e.ch);
        assert(t.drop_first() =~= s.drop_first().push(e));
        lemma_seq_child_push(s.drop_first(), e, c);
        if s[0].ch == c {
            assert(seq_child(t, c) == Some(s[0].node));
            assert(seq_child(s, c) == Some(s[0].node));
        } else {
            assert(seq_child(t, c) == seq_child(t.drop_first(), c));
            assert(seq_child(s, c) == seq_child(s.drop_first(), c));
        }
    }
}

/// Finds the first child entry carrying `c`.
fn find_child_index<V>(children: &Vec<Child<V>>, c: char) -> (r: Option<usize>)
    ensures
        match r {
            Some(i) => {
                &&& i < children@.len()
                &&& children@[i as int].ch == c
                &&& forall|j: int| 0 <= j < i ==> children@[j].ch != c
                &&& seq_child(children@, c) == Some(children@[i as int].node)
            },
            None => {
                &&& seq_child(children@, c) is None
                &&& forall|j: int| 0 <= j < children@.len() ==> children@[j].ch != c
            },
        },
{
    let n = children.len();
    let mut i: usize = 0;
    while i < n
        invariant
            n == children@.len(),
            i <= n,
            forall|j: int| 0 <= j < i ==> children@[j].ch != c,
        decreases n - i,
    {
        if children[i].ch == c {
            proof {
                lemma_seq_child_at(children@, c, i as int);
            }
            return Some(i);
        }
        i = i + 1;
    }
    proof {
        lemma_seq_child_none(children@, c);
    }
    None
}

impl<V> TrieNode<V> {
    fn new() -> (r: TrieNode<V>)
        ensures
            forall|k: Seq<char>| r.spec_get(k) is None,
            r.value is None,
    {
        let r = TrieNode { value: None, children: Vec::new() };
        proof {
            assert forall|k: Seq<char>| r.spec_get(k) is None by {
                if k.len() > 0 {
                    assert(r.children@ =~= Seq::<Child<V>>::empty());
                }
            }
        }
        r
    }

    /// Stores `value` under the key formed by the characters of `key` from
    /// position `start` on, overwriting any prior value there.
    fn insert(&mut self, key: &str, start: usize, value: V)
        requires
            start <= key@.len(),
        ensures
            forall|k: Seq<char>|
                final(self).spec_get(k) == if k == key@.skip(start as int) {
                    Some(value)
                } else {
                    old(self).spec_get(k)
                },
        decreases key@.len() - start,
    {
        let ghost target = key@.skip(start as int);
        let n = key.unicode_len();
        if start == n {
            self.value = Some(value);
            proof {
                assert(target =~= Seq::<char>::empty());
                assert forall|k: Seq<char>|
                    self.spec_get(k) == if k == target {
                        Some(value)
                    } else {
                        old(self).spec_get(k)
                    } by {
                    if k.len() == 0 {
                        assert(k =~= target);
                    }
                }
            }
        } else {
            let c = key.get_char(start);
            proof {
                assert(target.len() > 0 && target[0] == c);
                assert(target.drop_first() =~= key@.skip(start as int + 1));
            }
            match find_child_index(&self.children, c) {
                Some(i) => {
                    let ghost s = self.children@;
                    let mut entry = self.children.remove(i);
                    let ghost mid = entry.node;
                    entry.node.insert(key, start + 1, value);
                    let ghost e = Child { ch: c, node: entry.node };
                    self.children.insert(i, entry);
                    proof {
                        assert(self.children@ =~= s.update(i as int, e));
                        assert forall|k: Seq<char>|
                            self.spec_get(k) == if k == target {
                                Some(value)
                            } else {
                                old(self).spec_get(k)
                            } by {
                            if k.len() == 0 {
                                assert(k != target);
                            } else {
                                lemma_seq_child_update(s, i as int, e, k[0]);
                                assert(old(self).children@ == s);
                                if k[0] == c {
                                    assert(seq_child(self.children@, k[0]) == Some(e.node));
                                    assert(self.spec_descend(k) == e.node.spec_descend(
                                        k.drop_first(),
                                    ));
                                    assert(self.spec_get(k) == e.node.spec_get(k.drop_first()));
                                    assert(seq_child(s, c) == Some(mid));
                                    assert(old(self).spec_descend(k) == mid.spec_descend(
                                        k.drop_first(),
                                    ));
                                    assert(old(self).spec_get(k) == mid.spec_get(k.drop_first()));
                                    if k.drop_first() == key@.skip(start as int + 1) {
                                        lemma_cons_eq(k, target);
                                    } else {
                                        assert(k != target);
                                    }
                                } else {
                                    assert(seq_child(self.children@, k[0]) == seq_child(s, k[0]));
                                    assert(self.spec_descend(k) == old(self).spec_descend(k));
                                    assert(k != target);
                                }
                            }
                        }
                    }
                }
                None => {
                    let ghost s = self.children@;
                    let mut node = TrieNode::new();
                    node.insert(key, start + 1, value);
                    let ghost e = Child { ch: c, node: node };
                    self.children.push(Child { ch: c, node });
                    proof {
                        assert forall|k: Seq<char>|
                            self.spec_get(k) == if k == target {
                                Some(value)
                            } else {
                                old(self).spec_get(k)
                            } by {
                            if k.len() == 0 {
                                assert(k != target);
                            } else {
                                lemma_seq_child_push(s, e, k[0]);
                                assert(old(self).children@ == s);
                                if k[0] == c {
                                    assert(seq_child(self.children@, k[0]) == Some(e.node));
                                    assert(self.spec_descend(k) == e.node.spec_descend(
                                        k.drop_first(),
                                    ));
                                    assert(self.spec_get(k) == e.node.spec_get(k.drop_first()));
                                    assert(seq_child(s, c) is None);
                                    assert(old(self).spec_get(k) is None);
                                    if k.drop_first() == key@.skip(start as int + 1) {
                                        lemma_cons_eq(k, target);
                                    } else {
                                        assert(k != target);
                                        assert(e.node.spec_get(k.drop_first()) is None);
                                    }
                                } else {
                                    assert(seq_child(self.children@, k[0]) == seq_child(s, k[0]));
                                    assert(self.spec_descend(k) == old(self).spec_descend(k));
                                    assert(k != target);
                                }
                            }
                        }
                    }
                }
            }
        }
    }

    /// Clears the value under the key formed by the characters of `key`
    /// from position `start` on, returning it; the trie is otherwise
    /// unchanged.  Walking off the trie leaves it unchanged and returns
    /// `None`.
    fn remove(&mut self, key: &str, start: usize) -> (r: Option<V>)
        requires
            start <= key@.len(),
        ensures
            r == old(self).spec_get(key@.skip(start as int)),
            forall|k: Seq<char>|
                final(self).spec_get(k) == if k == key@.skip(start as int) {
                    None::<V>
                } else {
                    old(self).spec_get(k)
                },
        decreases key@.len() - start,
    {
        let ghost target = key@.skip(start as int);
        let n = key.unicode_len();
        if start == n {
            let r = self.value.take();
            proof {
                assert(target =~= Seq::<char>::empty());
                assert forall|k: Seq<char>|
                    self.spec_get(k) == if k == target {
                        None::<V>
                    } else {
                        old(self).spec_get(k)
                    } by {
                    if k.len() == 0 {
                        assert(k =~= target);
                    }
                }
            }
            r
        } else {
            let c = key.get_char(start);
            proof {
                assert(target.len() > 0 && target[0] == c);
                assert(target.drop_first() =~= key@.skip(start as int + 1));
            }
            match find_child_index(&self.children, c) {
                Some(i) => {
                    let ghost s = self.children@;
                    let mut entry = self.children.remove(i);
                    let ghost mid = entry.node;
                    let r = entry.node.remove(key, start + 1);
                    let ghost e = Child { ch: c, node: entry.node };
                    self.children.insert(i, entry);
                    proof {
                        assert(self.children@ =~= s.update(i as int, e));
                        assert(old(self).spec_descend(target) == mid.spec_descend(
                            target.drop_first(),
                        ));
                        assert(old(self).spec_get(target) == mid.spec_get(target.drop_first()));
                        assert forall|k: Seq<char>|
                            self.spec_get(k) == if k == target {
                                None::<V>
                            } else {
                                old(self).spec_get(k)
                            } by {
                            if k.len() == 0 {
                                assert(k != target);
                            } else {
                                lemma_seq_child_update(s, i as int, e, k[0]);
                                assert(old(self).children@ == s);
                                if k[0] == c {
                                    assert(seq_child(self.children@, k[0]) == Some(e.node));
                                    assert(self.spec_descend(k) == e.node.spec_descend(
                                        k.drop_first(),
                                    ));
                                    assert(self.spec_get(k) == e.node.spec_get(k.drop_first()));
                                    assert(seq_child(s, c) == Some(mid));
                                    assert(old(self).spec_descend(k) == mid.spec_descend(
                                        k.drop_first(),
                                    ));
                                    assert(old(self).spec_get(k) == mid.spec_get(k.drop_first()));
                                    if k.drop_first() == key@.skip(start as int + 1) {
                                        lemma_cons_eq(k, target);
                                    } else {
                                        assert(k != target);
                                    }
                                } else {
                                    assert(seq_child(self.children@, k[0]) == seq_child(s, k[0]));
                                    assert(self.spec_descend(k) == old(self).spec_descend(k));
                                    assert(k != target);
                                }
                            }
                        }
                    }
                    r
                }
                None => {
                    proof {
                        assert forall|k: Seq<char>|
                            self.spec_get(k) == if k == target {
                                None::<V>
                            } else {
                                old(self).spec_get(k)
                            } by {
                            if k.len() > 0 && k[0] == c {
                                assert(self.spec_get(k) is None);
                            }
                        }
                    }
                    None
                }
            }
        }
    }
}

/// The first index of `s` carrying `c`, at or before a known occurrence `j`.
spec fn first_index_with<V>(s: Seq<Child<V>>, c: char, j: int) -> int
    recommends
        0 <= j < s.len(),
        s[j].ch == c,
    decreases j,
{
    if j <= 0 {
        0
    } else if exists|i: int| 0 <= i < j && s[i].ch == c {
        first_index_with(s, c, choose|i: int| 0 <= i < j && s[i].ch == c)
    } else {
        j
    }
}

impl<V> TrieNode<V> {
    /// Walks from `self` along `key` and stops at the first value-bearing
    /// node strictly below `self`, returning the prefix walked and that
    /// node; `None` when no non-empty prefix of `key` is a key below
    /// `self`.
    fn find_closest_value<'n, 'k>(&'n self, key: &'k str) -> (r: Option<
        (&'k str, &'n TrieNode<V>),
    >)
        ensures
            ({
                let s = match_from(*self, key@, 1);
                match r {
                    None => s == 0,
                    Some((p, node)) => {
                        &&& s >= 1
                        &&& p@ == key@.take(s)
                        &&& self.spec_descend(p@) == Some(*node)
                        &&& node.value is Some
                    },
                }
            }),
    {
        let n = key.unicode_len();
        let mut node: &TrieNode<V> = self;
        let mut i: usize = 0;
        proof {
            assert(key@.take(0) =~= Seq::<char>::empty());
        }
        while i < n
            invariant
                i <= n,
                n == key@.len(),
                self.spec_descend(key@.take(i as int)) == Some(*node),
                forall|l: int| 0 < l <= i ==> self.spec_get(#[trigger] key@.take(l)) is None,
            decreases n - i,
        {
            let c = key.get_char(i);
            proof {
                lemma_descend_concat(*self, key@.take(i as int), seq![c]);
                assert(key@.take(i as int) + seq![c] =~= key@.take(i as int + 1));
                assert(seq![c][0] == c);
                assert(seq![c].drop_first() =~= Seq::<char>::empty());
            }
            match find_child_index(&node.children, c) {
                Some(j) => {
                    let child = &node.children[j].node;
                    proof {
                        assert(seq_child(node.children@, c) == Some(*child));
                        assert((*node).spec_descend(seq![c]) == child.spec_descend(
                            seq![c].drop_first(),
                        ));
                        assert(child.spec_descend(Seq::<char>::empty()) == Some(*child));
                        assert(self.spec_descend(key@.take(i as int + 1)) == Some(*child));
                    }
                    if child.value.is_some() {
                        let p = key.substring_char(0, i + 1);
                        proof {
                            assert(p@ =~= key@.take(i as int + 1));
                            lemma_match_from_props(*self, key@, 1);
                            let s = match_from(*self, key@, 1);
                            assert(self.spec_get(key@.take(i as int + 1)) is Some);
                            if s == 0 {
                                assert(self.spec_get(key@.take(i as int + 1)) is None);
                                assert(false);
                            } else if s < i + 1 {
                                assert(self.spec_get(key@.take(s)) is Some);
                                assert(self.spec_get(key@.take(s)) is None);
                                assert(false);
                            } else if s > i + 1 {
                                assert(self.spec_get(key@.take(i as int + 1)) is None);
                                assert(false);
                            }
                            assert(s == i + 1);
                        }
                        return Some((p, child));
                    }
                    proof {
                        assert(self.spec_get(key@.take(i as int + 1)) is None);
                    }
                    node = child;
                    i = i + 1;
                },
                None => {
                    proof {
                        assert((*node).spec_descend(seq![c]) is None);
                        assert(self.spec_descend(key@.take(i as int + 1)) is None);
                        assert forall|l: int|
                            0 < l <= n implies self.spec_get(#[trigger] key@.take(l)) is None by {
                            if l > i {
                                lemma_descend_concat(
                                    *self,
                                    key@.take(i as int + 1),
                                    key@.take(l).skip(i as int + 1),
                                );
                                assert(key@.take(i as int + 1) + key@.take(l).skip(i as int + 1)
                                    =~= key@.take(l));
                            }
                        }
                        lemma_match_from_props(*self, key@, 1);
                        let s = match_from(*self, key@, 1);
                        if s != 0 {
                            assert(1 <= s <= key@.len());
                            assert(self.spec_get(key@.take(s)) is Some);
                            assert(self.spec_get(key@.take(s)) is None);
                            assert(false);
                        }
                    }
                    return None;
                },
            }
        }
        proof {
            lemma_match_from_props(*self, key@, 1);
            let s = match_from(*self, key@, 1);
            if s != 0 {
                assert(1 <= s <= key@.len());
                assert(self.spec_get(key@.take(s)) is Some);
                assert(self.spec_get(key@.take(s)) is None);
                assert(false);
            }
        }
        None
    }

    /// Finds the longest key below `self` that is a prefix of `key` past
    /// `start`, by repeatedly walking to the first value-bearing node and
    /// searching on from it; falls back on the value of `self`, reached by
    /// the first `start` characters, when nothing longer matches.
    fn find_longest_match<'n, 'k>(&'n self, key: &'k str, start: usize) -> (r: Option<
        (&'k str, &'n V),
    >)
        requires
            start <= key@.len(),
            start > 0 ==> self.value is Some,
        ensures
            ({
                let suffix = key@.skip(start as int);
                let l = match_upto(*self, suffix, suffix.len() as int);
                match r {
                    None => start == 0 && l == 0,
                    Some((p, v)) => {
                        if l > 0 {
                            &&& p@ == key@.take(start + l)
                            &&& self.spec_get(suffix.take(l)) == Some(*v)
                        } else {
                            &&& start > 0
                            &&& p@ == key@.take(start as int)
                            &&& self.value == Some(*v)
                        }
                    },
                }
            }),
        decreases key@.len() - start,
    {
        let n = key.unicode_len();
        let rem = key.substring_char(start, n);
        let ghost suffix = key@.skip(start as int);
        proof {
            assert(rem@ =~= suffix);
        }
        match self.find_closest_value(rem) {
            Some((prefix, node)) => {
                let l1 = prefix.unicode_len();
                proof {
                    lemma_match_from_props(*self, suffix, 1);
                    assert(prefix@ == suffix.take(l1 as int));
                    lemma_longest_chain(*self, *node, suffix, l1 as int);
                }
                let r2 = node.find_longest_match(key, start + l1);
                proof {
                    let suffix2 = key@.skip(start as int + l1 as int);
                    assert(suffix2 =~= suffix.skip(l1 as int));
                    let l2 = match_upto(*node, suffix2, suffix2.len() as int);
                    let l = match_upto(*self, suffix, suffix.len() as int);
                    lemma_match_upto_props(*node, suffix2, suffix2.len() as int);
                    lemma_match_upto_props(*self, suffix, suffix.len() as int);
                    assert(l == l1 + l2);
                    match r2 {
                        None => {
                            assert(false);
                        },
                        Some((p, v)) => {
                            if l2 > 0 {
                                assert(node.spec_get(suffix2.take(l2)) == Some(*v));
                                assert(suffix.skip(l1 as int).take(l - l1) == suffix2.take(l2));
                                assert(self.spec_get(suffix.take(l)) == node.spec_get(
                                    suffix.skip(l1 as int).take(l - l1),
                                ));
                                assert(self.spec_get(suffix.take(l)) == Some(*v));
                            } else {
                                assert(l2 == 0);
                                assert(l == l1);
                                assert(p@ == key@.take(start + l1));
                                assert(suffix.skip(l1 as int).take(0) =~= Seq::<char>::empty());
                                assert(self.spec_get(suffix.take(l)) == node.value);
                            }
                        },
                    }
                }
                r2
            },
            None => {
                proof {
                    lemma_match_from_props(*self, suffix, 1);
                    lemma_match_upto_props(*self, suffix, suffix.len() as int);
                    let l = match_upto(*self, suffix, suffix.len() as int);
                    if l > 0 {
                        assert(self.spec_get(suffix.take(l)) is None);
                    }
                }
                if start == 0 {
                    None
                } else {
                    let p = key.substring_char(0, start);
                    let v = self.value.as_ref().unwrap();
                    proof {
                        assert(p@ =~= key@.take(start as int));
                    }
                    Some((p, v))
                }
            },
        }
    }
}

impl<V> Trie<V> {
    /// Creates an empty trie.
    pub fn new() -> (r: Trie<V>)
        ensures
            forall|k: Seq<char>| r.spec_get(k) is None,
    {
        Trie { top: TrieNode::new() }
    }

    /// Inserts `value` under `key`, overwriting any prior value there.
    /// The empty key is legal and is stored at the root, where no match
    /// ever finds it.
    pub fn insert(&mut self, key: &str, value: V)
        ensures
            inserted(*old(self), *final(self), key@, value),
    {
        proof {
            assert(key@.skip(0) =~= key@);
        }
        self.top.insert(key, 0, value);
    }

    /// Clears the value under the exact key `key`, returning it; returns
    /// `None`, and changes nothing, when `key` is not in the trie.
    pub fn remove(&mut self, key: &str) -> (r: Option<V>)
        ensures
            r == old(self).spec_get(key@),
            removed(*old(self), *final(self), key@),
    {
        proof {
            assert(key@.skip(0) =~= key@);
        }
        self.top.remove(key, 0)
    }

    /// Finds the longest non-empty prefix of `key` that is a key of the
    /// trie, with the value stored under it; `None` when no non-empty
    /// prefix of `key` is in the trie.  A key that is a prefix of a longer
    /// matching key never shadows it.
    pub fn find_longest_match<'n, 'k>(&'n self, key: &'k str) -> (r: Option<(&'k str, &'n V)>)
        ensures
            ({
                let l = self.spec_longest_len(key@);
                match r {
                    None => l == 0,
                    Some((p, v)) => {
                        &&& l > 0
                        &&& p@ == key@.take(l)
                        &&& self.spec_get(p@) == Some(*v)
                    },
                }
            }),
    {
        proof {
            assert(key@.skip(0) =~= key@);
        }
        self.top.find_longest_match(key, 0)
    }

    /// Finds the shortest non-empty prefix of `key` that is a key of the
    /// trie, with the value stored under it; `None` when no non-empty
    /// prefix of `key` is in the trie.
    pub fn find_shortest_match<'n, 'k>(&'n self, key: &'k str) -> (r: Option<(&'k str, &'n V)>)
        ensures
            ({
                let s = self.spec_shortest_len(key@);
                match r {
                    None => s == 0,
                    Some((p, v)) => {
                        &&& s >= 1
                        &&& p@ == key@.take(s)
                        &&& self.spec_get(p@) == Some(*v)
                    },
                }
            }),
    {
        match self.top.find_closest_value(key) {
            Some((p, node)) => Some((p, node.value.as_ref().unwrap())),
            None => None,
        }
    }
}

/// Longest-match correctness: when a key `k2` is in the trie and begins
/// `text`, the longest match on `text` is at least as long as `k2`; in
/// particular a key `k1` that is a strict prefix of `k2` never shadows it,
/// so [`Trie::find_longest_match`] never returns `k1` there.
pub proof fn lemma_longest_match_prefers_longer<V>(
    t: Trie<V>,
    k1: Seq<char>,
    k2: Seq<char>,
    text: Seq<char>,
)
    requires
        k1.len() < k2.len(),
        k2.take(k1.len() as int) == k1,
        t.spec_get(k2) is Some,
        k2.len() <= text.len(),
        text.take(k2.len() as int) == k2,
    ensures
        t.spec_longest_len(text) >= k2.len(),
        text.take(t.spec_longest_len(text)) != k1,
{
    t.lemma_longest_len_props(text);
    assert(t.spec_get(text.take(k2.len() as int)) is Some);
    assert(text.take(t.spec_longest_len(text)).len() == t.spec_longest_len(text));
}

/// Shortest-match correctness: when a key `k1` is in the trie and begins
/// `text`, the shortest match on `text` is at most as long as `k1`; in
/// particular [`Trie::find_shortest_match`] never returns a key `k2` that
/// `k1` is a strict prefix of.
pub proof fn lemma_shortest_match_prefers_shorter<V>(
    t: Trie<V>,
    k1: Seq<char>,
    k2: Seq<char>,
    text: Seq<char>,
)
    requires
        1 <= k1.len() < k2.len(),
        t.spec_get(k1) is Some,
        k1.len() <= text.len(),
        text.take(k1.len() as int) == k1,
    ensures
        1 <= t.spec_shortest_len(text) <= k1.len(),
        text.take(t.spec_shortest_len(text)) != k2,
{
    t.lemma_shortest_len_props(text);
    assert(t.spec_get(text.take(k1.len() as int)) is Some);
    if t.spec_shortest_len(text) == 0 {
        assert(t.spec_get(text.take(k1.len() as int)) is None);
    }
    assert(text.take(t.spec_shortest_len(text)).len() == t.spec_shortest_len(text));
}

/// Idempotent re-insertion: inserting under the same key twice leaves only
/// the latest value retrievable, and no other key changed.
pub proof fn lemma_reinsert_overwrites<V>(
    t0: Trie<V>,
    t1: Trie<V>,
    t2: Trie<V>,
    key: Seq<char>,
    v1: V,
    v2: V,
)
    requires
        inserted(t0, t1, key, v1),
        inserted(t1, t2, key, v2),
    ensures
        t2.spec_get(key) == Some(v2),
        forall|k: Seq<char>| k != key ==> t2.spec_get(k) == t0.spec_get(k),
{
    assert forall|k: Seq<char>| k != key implies t2.spec_get(k) == t0.spec_get(k) by {
        assert(t2.spec_get(k) == t1.spec_get(k));
        assert(t1.spec_get(k) == t0.spec_get(k));
    }
}

} // verus!

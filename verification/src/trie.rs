//! A prefix tree of command names, used for tab completion.
//!
//! Every word is stored followed by the terminator `'\0'`, so a word that is
//! a prefix of another one still ends in a node of its own.  Asking for a
//! prefix gives, in order, the words that start with it.
use vstd::prelude::*;
use crate::order::{char_views, no_duplicates, sort_strictly, strictly_sorted};
use crate::text::{chars_of, string_from_chars, views};

verus! {

/// A node of the tree: its outgoing edges, each labelled by a character.
///
/// The edges are held in a vector of (character, child) pairs, with
/// distinct characters as the invariant (`distinct_edges`).  A
/// `HashMap<char, Trie>` field was tried: Verus accepts the type and a
/// recursion through its values, but vstd gives `HashMap`'s lookups and
/// insertion their meaning only for key types that obey its hashing model
/// (`obeys_key_model`), which it declares for `bool` and the integer types
/// but not for `char`, so `contains_key` on such a map proved nothing.  A
/// `BTreeMap<char, Trie>` would fare the same way: its specifications rest
/// on the ordering laws (`obeys_cmp`), which vstd states for the integer
/// types and not for `char`.
pub struct Trie {
    children: Vec<(char, Trie)>,
}

/// `p` is a prefix of `s`.
pub open spec fn is_prefix(p: Seq<char>, s: Seq<char>) -> bool {
    p.len() <= s.len() && s.take(p.len() as int) == p
}

/// The paths of the tree that holds exactly the words of `words`: the empty
/// path and every prefix of a word followed by the terminator.
pub open spec fn paths_of_words(words: Set<Seq<char>>) -> Set<Seq<char>> {
    Set::new(
        |p: Seq<char>|
            p.len() == 0 || exists|w: Seq<char>| words.contains(w) && is_prefix(p, w.push('\0')),
    )
}

/// `p` is a path of `paths` that cannot be extended.
pub open spec fn is_leaf_path(paths: Set<Seq<char>>, p: Seq<char>) -> bool {
    paths.contains(p) && forall|c: char| !paths.contains(#[trigger] p.push(c))
}

/// What completing `prefix` offers in a tree with these paths: for every
/// path that cannot be extended, is longer than `prefix` and starts with it,
/// that path without its last character.
pub open spec fn completions(paths: Set<Seq<char>>, prefix: Seq<char>) -> Set<Seq<char>> {
    Set::new(
        |x: Seq<char>|
            exists|p: Seq<char>|
                is_leaf_path(paths, p) && prefix.len() < p.len() && is_prefix(prefix, p) && x
                    == p.drop_last(),
    )
}

/// Every path that cannot be extended, but the empty one, ends with the terminator.
pub open spec fn ends_marked(paths: Set<Seq<char>>) -> bool {
    forall|p: Seq<char>|
        paths.contains(p) && p.len() > 0 && p.last() != '\0' ==> exists|c: char|
            paths.contains(#[trigger] p.push(c))
}

impl Trie {
    /// Some edge leaving the node carries `c`.
    pub closed spec fn has_edge(self, c: char) -> bool {
        exists|i: int| 0 <= i < self.children@.len() && self.children@[i].0 == c
    }

    /// The position of the edge carrying `c`, when there is one.
    pub closed spec fn edge_index(self, c: char) -> int {
        choose|i: int| 0 <= i < self.children@.len() && self.children@[i].0 == c
    }

    /// The node has a path spelling `p`.
    pub closed spec fn has_path(self, p: Seq<char>) -> bool
        decreases p.len(),
    {
        if p.len() == 0 {
            true
        } else {
            self.has_edge(p[0]) && self.children@[self.edge_index(p[0])].1.has_path(p.drop_first())
        }
    }

    /// The edges leaving each node carry distinct characters.
    pub closed spec fn distinct_edges(self) -> bool
        decreases self,
    {
        &&& forall|i: int, j: int|
            0 <= i < j < self.children@.len() ==> self.children@[i].0 != self.children@[j].0
        &&& forall|i: int|
            0 <= i < self.children@.len() ==> (#[trigger] self.children@[i]).1.distinct_edges()
    }

    /// The set of paths of the tree.
    pub closed spec fn view(self) -> Set<Seq<char>> {
        Set::new(|p: Seq<char>| self.has_path(p))
    }

    /// The tree is well formed.
    pub closed spec fn wf(self) -> bool {
        self.distinct_edges() && ends_marked(self@)
    }

    proof fn lemma_has_path_edge(self, p: Seq<char>, j: int)
        requires
            self.distinct_edges(),
            p.len() > 0,
            0 <= j < self.children@.len(),
            self.children@[j].0 == p[0],
        ensures
            self.has_path(p) == self.children@[j].1.has_path(p.drop_first()),
    {
        assert(self.has_edge(p[0]));
        let k = self.edge_index(p[0]);
        if k < j {
            assert(self.children@[k].0 != self.children@[j].0);
        } else if j < k {
            assert(self.children@[j].0 != self.children@[k].0);
        }
    }

    proof fn lemma_agree(a: Trie, b: Trie, p: Seq<char>)
        requires
            a.distinct_edges(),
            b.distinct_edges(),
            p.len() > 0,
            forall|i: int|
                0 <= i < a.children@.len() && a.children@[i].0 == p[0] ==> i < b.children@.len()
                    && b.children@[i] == a.children@[i],
            forall|i: int|
                0 <= i < b.children@.len() && b.children@[i].0 == p[0] ==> i < a.children@.len()
                    && a.children@[i] == b.children@[i],
        ensures
            a.has_path(p) == b.has_path(p),
    {
        if a.has_edge(p[0]) {
            let k = a.edge_index(p[0]);
            a.lemma_has_path_edge(p, k);
            b.lemma_has_path_edge(p, k);
        } else if b.has_edge(p[0]) {
            let k = b.edge_index(p[0]);
            assert(a.children@[k].0 == p[0]);
        }
    }

    proof fn lemma_has_path_no_edge(self, p: Seq<char>)
        requires
            p.len() > 0,
            forall|j: int| 0 <= j < self.children@.len() ==> self.children@[j].0 != p[0],
        ensures
            !self.has_path(p),
    {
    }

    /// An empty tree: only the empty path.
    pub fn new() -> (t: Self)
        ensures
            t.wf(),
            t@ == set![Seq::<char>::empty()],
    {
        let t = Trie { children: Vec::new() };
        assert forall|p: Seq<char>| t@.contains(p) == set![Seq::<char>::empty()].contains(p) by {
            if p.len() == 0 {
                assert(p =~= Seq::<char>::empty());
            }
        }
        assert(t@ =~= set![Seq::<char>::empty()]);
        t
    }

    /// Adds the path `w[i..]` below this node.
    fn insert_from(&mut self, w: &Vec<char>, i: usize)
        requires
            old(self).distinct_edges(),
            i <= w.len(),
        ensures
            final(self).distinct_edges(),
            forall|p: Seq<char>|
                #[trigger] final(self).has_path(p) == (old(self).has_path(p) || is_prefix(
                    p,
                    w@.skip(i as int),
                )),
        decreases w.len() - i,
    {
        if i == w.len() {
            assert forall|p: Seq<char>| #[trigger] is_prefix(p, w@.skip(i as int)) implies p.len()
                == 0 by {}
            return ;
        }
        let c = w[i];
        let ghost rest = w@.skip(i as int);
        let ghost tail = w@.skip(i + 1);
        assert(rest.drop_first() =~= tail);
        assert(rest[0] == c);
        let mut j: usize = 0;
        let n = self.children.len();
        while j < n
            invariant
                n == self.children.len(),
                j <= n,
                forall|k: int| 0 <= k < j ==> self.children@[k].0 != c,
            ensures
                j <= n,
                forall|k: int| 0 <= k < j ==> self.children@[k].0 != c,
                j < n ==> self.children@[j as int].0 == c,
            decreases n - j,
        {
            if self.children[j].0 == c {
                break;
            }
            j = j + 1;
        }
        let ghost before = *self;
        if j < n {
            let (ch, mut sub) = self.children.remove(j);
            assert(sub == before.children@[j as int].1);
            sub.insert_from(w, i + 1);
            self.children.insert(j, (ch, sub));
            assert(self.children@ =~= before.children@.update(j as int, (c, sub)));
            assert forall|a: int, b: int|
                0 <= a < b < self.children@.len() implies self.children@[a].0
                != self.children@[b].0 by {}
            assert forall|a: int|
                0 <= a < self.children@.len() implies (
                #[trigger] self.children@[a]).1.distinct_edges() by {
                if a != j {
                    assert(self.children@[a] == before.children@[a]);
                }
            }
            assert forall|p: Seq<char>|
                #[trigger] self.has_path(p) == (before.has_path(p) || is_prefix(p, rest)) by {
                if p.len() > 0 {
                    if p[0] == c {
                        self.lemma_has_path_edge(p, j as int);
                        before.lemma_has_path_edge(p, j as int);
                        assert(sub.has_path(p.drop_first()) == (before.children@[j as int].1.has_path(
                            p.drop_first(),
                        ) || is_prefix(p.drop_first(), tail)));
                        if is_prefix(p.drop_first(), tail) {
                            assert(rest.take(p.len() as int) =~= seq![c] + tail.take(
                                p.len() - 1,
                            ));
                            assert(p =~= seq![c] + p.drop_first());
                        }
                        if is_prefix(p, rest) {
                            assert(tail.take(p.len() - 1) =~= rest.take(p.len() as int).drop_first());
                        }
                    } else {
                        Trie::lemma_agree(*self, before, p);
                        assert(!is_prefix(p, rest)) by {
                            if is_prefix(p, rest) {
                                assert(p[0] == rest.take(p.len() as int)[0]);
                            }
                        }
                    }
                }
            }
        } else {
            let mut sub = Trie::new();
            let ghost fresh = sub;
            sub.insert_from(w, i + 1);
            self.children.push((c, sub));
            assert(self.children@ =~= before.children@.push((c, sub)));
            assert forall|a: int|
                0 <= a < self.children@.len() implies (
                #[trigger] self.children@[a]).1.distinct_edges() by {
                if a < n {
                    assert(self.children@[a] == before.children@[a]);
                }
            }
            assert forall|p: Seq<char>|
                #[trigger] self.has_path(p) == (before.has_path(p) || is_prefix(p, rest)) by {
                if p.len() > 0 {
                    if p[0] == c {
                        self.lemma_has_path_edge(p, n as int);
                        before.lemma_has_path_no_edge(p);
                        assert(sub.has_path(p.drop_first()) == (p.drop_first().len() == 0
                            || is_prefix(p.drop_first(), tail))) by {
                            assert(fresh@.contains(p.drop_first()) == (p.drop_first().len()
                                == 0));
                        }
                        if is_prefix(p.drop_first(), tail) {
                            assert(rest.take(p.len() as int) =~= seq![c] + tail.take(
                                p.len() - 1,
                            ));
                            assert(p =~= seq![c] + p.drop_first());
                        }
                        if p.drop_first().len() == 0 {
                            assert(rest.take(1) =~= seq![c]);
                            assert(p =~= seq![c]);
                        }
                        if is_prefix(p, rest) {
                            assert(tail.take(p.len() - 1) =~= rest.take(p.len() as int).drop_first());
                        }
                    } else {
                        Trie::lemma_agree(*self, before, p);
                        assert(!is_prefix(p, rest)) by {
                            if is_prefix(p, rest) {
                                assert(p[0] == rest.take(p.len() as int)[0]);
                            }
                        }
                    }
                }
            }
        }
    }

    /// The paths through edge `i` are those of the child behind it.
    proof fn lemma_child_paths(self, i: int)
        requires
            self.distinct_edges(),
            0 <= i < self.children@.len(),
        ensures
            self.children@[i].1.distinct_edges(),
            forall|q: Seq<char>|
                #[trigger] self.children@[i].1.has_path(q) == self.has_path(
                    seq![self.children@[i].0] + q,
                ),
    {
        assert forall|q: Seq<char>|
            #[trigger] self.children@[i].1.has_path(q) == self.has_path(
                seq![self.children@[i].0] + q,
            ) by {
            let p = seq![self.children@[i].0] + q;
            assert(p.drop_first() =~= q);
            self.lemma_has_path_edge(p, i);
        }
    }

    /// A child of a tree whose unextendable paths end with the terminator has
    /// the same property.
    proof fn lemma_child_ends_marked(self, i: int)
        requires
            self.distinct_edges(),
            ends_marked(self@),
            0 <= i < self.children@.len(),
        ensures
            ends_marked(self.children@[i].1@),
    {
        let c = self.children@[i].0;
        let t = self.children@[i].1;
        self.lemma_child_paths(i);
        assert forall|q: Seq<char>|
            t@.contains(q) && q.len() > 0 && q.last() != '\0' implies exists|x: char|
                t@.contains(#[trigger] q.push(x)) by {
            let p = seq![c] + q;
            assert(t.has_path(q));
            assert(self@.contains(p));
            assert(p.last() == q.last());
            let x = choose|x: char| self@.contains(#[trigger] p.push(x));
            assert(p.push(x) =~= seq![c] + q.push(x));
            assert(t.has_path(q.push(x)));
            assert(t@.contains(q.push(x)));
        }
    }

    /// The paths of the tree are closed under taking prefixes.
    proof fn lemma_prefix_closed(self, p: Seq<char>, k: int)
        requires
            self.distinct_edges(),
            self.has_path(p),
            0 <= k <= p.len(),
        ensures
            self.has_path(p.take(k)),
        decreases p.len(),
    {
        if k > 0 {
            let j = self.edge_index(p[0]);
            let t = self.children@[j].1;
            self.lemma_child_paths(j);
            t.lemma_prefix_closed(p.drop_first(), k - 1);
            assert(p.take(k).drop_first() =~= p.drop_first().take(k - 1));
            self.lemma_has_path_edge(p.take(k), j);
        }
    }

    /// A node without edges has only the empty path.
    proof fn lemma_no_edges(self)
        requires
            self.children@.len() == 0,
        ensures
            forall|q: Seq<char>| #[trigger] self.has_path(q) == (q.len() == 0),
    {
    }

    /// Adds `word` to the tree.
    pub fn insert(&mut self, word: &str)
        requires
            old(self).wf(),
        ensures
            final(self).wf(),
            final(self)@ == old(self)@ + Set::new(|p: Seq<char>| is_prefix(p, word@.push('\0'))),
    {
        let mut w = chars_of(word);
        w.push('\0');
        let ghost full = word@.push('\0');
        assert(w@ == full);
        assert(w@.skip(0) =~= full);
        let ghost before = *self;
        self.insert_from(&w, 0);
        let ghost added = Set::new(|p: Seq<char>| is_prefix(p, full));
        assert(self@ =~= before@ + added);
        assert forall|p: Seq<char>|
            self@.contains(p) && p.len() > 0 && p.last() != '\0' implies exists|x: char|
                self@.contains(#[trigger] p.push(x)) by {
            if before@.contains(p) {
                let x = choose|x: char| before@.contains(#[trigger] p.push(x));
                assert(self@.contains(p.push(x)));
            } else {
                assert(is_prefix(p, full));
                assert(p.len() < full.len()) by {
                    if p.len() == full.len() {
                        assert(p =~= full);
                    }
                }
                let x = full[p.len() as int];
                assert(full.take(p.len() + 1 as int) =~= p.push(x));
                assert(is_prefix(p.push(x), full));
                assert(self@.contains(p.push(x)));
            }
        }
    }

    /// The position of the edge carrying `c`, if any.
    fn find_edge(&self, c: char) -> (res: Option<usize>)
        ensures
            match res {
                Some(j) => j < self.children@.len() && self.children@[j as int].0 == c,
                None => !self.has_edge(c),
            },
    {
        let mut j: usize = 0;
        while j < self.children.len()
            invariant
                j <= self.children@.len(),
                forall|k: int| 0 <= k < j ==> self.children@[k].0 != c,
            decreases self.children@.len() - j,
        {
            if self.children[j].0 == c {
                return Some(j);
            }
            j = j + 1;
        }
        None
    }
}

/// `x` is `cur` followed by a path of `t` that cannot be extended, without
/// its last character.
pub open spec fn is_completion_below(t: Trie, cur: Seq<char>, x: Seq<char>) -> bool {
    exists|q: Seq<char>| q.len() > 0 && is_leaf_path(t@, q) && x == cur + q.drop_last()
}

/// `x` comes from edge `j` of `t`: it is `cur` followed by a path of the
/// child behind that edge that cannot be extended, prefixed with the edge's
/// character and without its last character.
pub open spec fn is_completion_via(t: Trie, cur: Seq<char>, j: int, x: Seq<char>) -> bool {
    exists|q: Seq<char>|
        is_leaf_path(t.edge_child(j)@, q) && x == cur + (seq![t.edge_char(j)] + q).drop_last()
}

/// Where such an `x` can stand: it is `cur` itself, reached through the
/// terminator, or it continues `cur` with the edge's character.
pub open spec fn shaped(t: Trie, cur: Seq<char>, j: int, x: Seq<char>) -> bool {
    ||| x == cur && t.edge_char(j) == '\0'
    ||| x.len() > cur.len() && x.take(cur.len() as int) == cur && x[cur.len() as int]
        == t.edge_char(j)
}

impl Trie {
    /// The character on edge `j`.
    pub closed spec fn edge_char(self, j: int) -> char {
        self.children@[j].0
    }

    /// The child behind edge `j`.
    pub closed spec fn edge_child(self, j: int) -> Trie {
        self.children@[j].1
    }

    /// `x` comes from one of the first `i` edges.
    pub closed spec fn from_some_edge(self, cur: Seq<char>, i: int, x: Seq<char>) -> bool {
        exists|j: int|
            0 <= j < i && is_completion_via(self, cur, j, x) && #[trigger] shaped(self, cur, j, x)
    }

    /// What `collect` has gathered after visiting the first `i` edges: the
    /// items from `n0` on are distinct, each comes from one of those edges,
    /// and every item that those edges give is there.
    pub closed spec fn collected(
        self,
        cur: Seq<char>,
        i: int,
        n0: int,
        items: Seq<Seq<char>>,
    ) -> bool {
        &&& 0 <= n0 <= items.len()
        &&& no_duplicates(items.skip(n0))
        &&& forall|a: int| n0 <= a < items.len() ==> self.from_some_edge(cur, i, #[trigger] items[a])
        &&& forall|j: int, q: Seq<char>|
            0 <= j < i && is_leaf_path(self.edge_child(j)@, q) ==> #[trigger] items.skip(
                n0,
            ).contains(cur + (seq![self.edge_char(j)] + q).drop_last())
    }

    proof fn lemma_collected_start(self, cur: Seq<char>, items: Seq<Seq<char>>)
        ensures
            self.collected(cur, 0, items.len() as int, items),
    {
        assert(items.skip(items.len() as int) =~= Seq::<Seq<char>>::empty());
    }

    /// Visiting an edge that leads to a node without edges adds `cur`.
    proof fn lemma_collected_leaf_edge(
        self,
        cur: Seq<char>,
        i: int,
        n0: int,
        before: Seq<Seq<char>>,
        after: Seq<Seq<char>>,
    )
        requires
            self.distinct_edges(),
            ends_marked(self@),
            0 <= i < self.children@.len(),
            self.children@[i].1.children@.len() == 0,
            self.collected(cur, i, n0, before),
            after == before.push(cur),
        ensures
            self.collected(cur, i + 1, n0, after),
    {
        let c = self.children@[i].0;
        let child = self.children@[i].1;
        self.lemma_child_paths(i);
        child.lemma_no_edges();
        assert(c == '\0') by {
            let p = seq![c];
            assert(p =~= seq![c] + Seq::<char>::empty());
            assert(child.has_path(Seq::<char>::empty()));
            assert(self.has_path(p));
            if c != '\0' {
                assert(p.last() == c);
                assert(self@.contains(p));
                let x = choose|x: char| self@.contains(#[trigger] p.push(x));
                assert(p.push(x) =~= seq![c] + seq![x]);
                assert(self.has_path(p.push(x)));
                assert(child.has_path(seq![x]));
            }
        }
        let x = cur;
        let s1 = before.skip(n0);
        let s2 = after.skip(n0);
        assert(s2 =~= s1.push(x));
        assert(is_leaf_path(self.edge_child(i)@, Seq::<char>::empty()));
        assert(x =~= cur + (seq![self.edge_char(i)] + Seq::<char>::empty()).drop_last());
        assert(is_completion_via(self, cur, i, x));
        assert forall|a: int, b: int| 0 <= a < b < s2.len() implies #[trigger] s2[a]
            != #[trigger] s2[b] by {
            if b == s2.len() - 1 {
                let y = before[n0 + a];
                assert(s2[a] == y);
                assert(self.from_some_edge(cur, i, y));
                let j = choose|j: int|
                    0 <= j < i && is_completion_via(self, cur, j, y) && #[trigger] shaped(self, cur, j, y);
                if y == x {
                    assert(self.children@[j].0 != self.children@[i].0);
                }
            } else {
                assert(s2[a] == s1[a]);
                assert(s2[b] == s1[b]);
            }
        }
        assert forall|a: int| n0 <= a < after.len() implies self.from_some_edge(cur, i + 1, #[trigger] after[a]) by {
            if a < after.len() - 1 {
                assert(after[a] == before[a]);
                assert(self.from_some_edge(cur, i, before[a]));
                let j = choose|j: int|
                    0 <= j < i && is_completion_via(self, cur, j, before[a]) && #[trigger] shaped(
                        self,
                        cur,
                        j,
                        before[a],
                    );
                assert(shaped(self, cur, j, after[a]));
            } else {
                assert(after[a] == x);
                assert(shaped(self, cur, i, x));
                assert(is_completion_via(self, cur, i, after[a]));
                assert(shaped(self, cur, i, after[a]));
            }
        }
        assert forall|j: int, q: Seq<char>|
            0 <= j < i + 1 && is_leaf_path(self.edge_child(j)@, q) implies #[trigger] s2.contains(
            cur + (seq![self.edge_char(j)] + q).drop_last(),
        ) by {
            if j < i {
                let y = cur + (seq![self.edge_char(j)] + q).drop_last();
                assert(s1.contains(y));
                let a = choose|a: int| 0 <= a < s1.len() && #[trigger] s1[a] == y;
                assert(s2[a] == y);
            } else {
                assert(q.len() == 0) by {
                    if q.len() > 0 {
                        assert(child.has_path(q));
                    }
                }
                assert(q =~= Seq::<char>::empty());
                assert(cur + (seq![self.edge_char(j)] + q).drop_last() =~= x);
                assert(s2[s2.len() - 1] == x);
            }
        }
    }

    /// Visiting an edge that leads to a node with edges adds what collecting
    /// below that node gives.
    proof fn lemma_collected_inner_edge(
        self,
        cur: Seq<char>,
        i: int,
        n0: int,
        before: Seq<Seq<char>>,
        after: Seq<Seq<char>>,
    )
        requires
            self.distinct_edges(),
            ends_marked(self@),
            0 <= i < self.children@.len(),
            self.children@[i].1.children@.len() > 0,
            self.collected(cur, i, n0, before),
            after.len() >= before.len(),
            after.take(before.len() as int) == before,
            no_duplicates(after.skip(before.len() as int)),
            forall|a: int|
                before.len() <= a < after.len() ==> is_completion_below(
                    self.children@[i].1,
                    cur.push(self.children@[i].0),
                    #[trigger] after[a],
                ),
            forall|q: Seq<char>|
                q.len() > 0 && is_leaf_path(self.children@[i].1@, q) ==> #[trigger] after.skip(
                    before.len() as int,
                ).contains(cur.push(self.children@[i].0) + q.drop_last()),
        ensures
            self.collected(cur, i + 1, n0, after),
    {
        let c = self.children@[i].0;
        let child = self.children@[i].1;
        let next = cur.push(c);
        let nb = before.len() as int;
        let s1 = before.skip(n0);
        let s2 = after.skip(n0);
        let s3 = after.skip(nb);
        self.lemma_child_paths(i);
        assert forall|a: int| 0 <= a < nb implies after[a] == #[trigger] before[a] by {
            assert(after.take(nb)[a] == after[a]);
        }
        let x0 = child.children@[0].0;
        assert(child.has_path(seq![x0])) by {
            assert(child.has_edge(x0));
            child.lemma_has_path_edge(seq![x0], child.edge_index(x0));
            assert(seq![x0].drop_first() =~= Seq::<char>::empty());
        }
        assert forall|a: int| nb <= a < after.len() implies is_completion_via(
            self,
            cur,
            i,
            #[trigger] after[a],
        ) && shaped(self, cur, i, after[a]) by {
            let y = after[a];
            assert(is_completion_below(child, next, y));
            let q = choose|q: Seq<char>|
                q.len() > 0 && is_leaf_path(child@, q) && y == next + q.drop_last();
            assert(y =~= cur + (seq![self.edge_char(i)] + q).drop_last());
            assert(is_leaf_path(self.edge_child(i)@, q));
            assert(y.take(cur.len() as int) =~= cur);
            assert(y[cur.len() as int] == c);
        }
        assert forall|a: int| n0 <= a < after.len() implies self.from_some_edge(cur, i + 1, #[trigger] after[a]) by {
            if a < nb {
                assert(after[a] == before[a]);
                assert(self.from_some_edge(cur, i, before[a]));
                let j = choose|j: int|
                    0 <= j < i && is_completion_via(self, cur, j, before[a]) && #[trigger] shaped(
                        self,
                        cur,
                        j,
                        before[a],
                    );
                assert(shaped(self, cur, j, after[a]));
            } else {
                assert(is_completion_via(self, cur, i, after[a]));
                assert(shaped(self, cur, i, after[a]));
            }
        }
        assert forall|x: int, y: int| 0 <= x < y < s2.len() implies #[trigger] s2[x]
            != #[trigger] s2[y] by {
            if y < nb - n0 {
                assert(s2[x] == s1[x]);
                assert(s2[y] == s1[y]);
            } else if x >= nb - n0 {
                assert(s2[x] == s3[x - (nb - n0)]);
                assert(s2[y] == s3[y - (nb - n0)]);
            } else {
                let u = s2[x];
                let v = s2[y];
                assert(u == before[n0 + x]);
                assert(v == after[n0 + y]);
                assert(shaped(self, cur, i, v));
                assert(self.from_some_edge(cur, i, u));
                let j = choose|j: int|
                    0 <= j < i && is_completion_via(self, cur, j, u) && #[trigger] shaped(self, cur, j, u);
                assert(self.children@[j].0 != self.children@[i].0);
            }
        }
        assert forall|j: int, q: Seq<char>|
            0 <= j < i + 1 && is_leaf_path(self.edge_child(j)@, q) implies #[trigger] s2.contains(
            cur + (seq![self.edge_char(j)] + q).drop_last(),
        ) by {
            let y = cur + (seq![self.edge_char(j)] + q).drop_last();
            if j < i {
                assert(s1.contains(y));
                let a = choose|a: int| 0 <= a < s1.len() && #[trigger] s1[a] == y;
                assert(s2[a] == y);
            } else {
                assert(q.len() > 0) by {
                    if q.len() == 0 {
                        assert(seq![x0] =~= q.push(x0));
                    }
                }
                assert(y =~= next + q.drop_last());
                assert(s3.contains(y));
                let a = choose|a: int| 0 <= a < s3.len() && #[trigger] s3[a] == y;
                assert(s2[a + (nb - n0)] == y);
            }
        }
    }

    /// Once every edge is visited, the items are exactly the completions
    /// below this node.
    proof fn lemma_collected_all(self, cur: Seq<char>, n0: int, items: Seq<Seq<char>>)
        requires
            self.distinct_edges(),
            self.collected(cur, self.children@.len() as int, n0, items),
        ensures
            no_duplicates(items.skip(n0)),
            forall|a: int|
                n0 <= a < items.len() ==> is_completion_below(self, cur, #[trigger] items[a]),
            forall|q: Seq<char>|
                q.len() > 0 && is_leaf_path(self@, q) ==> #[trigger] items.skip(n0).contains(
                    cur + q.drop_last(),
                ),
    {
        let n = self.children@.len() as int;
        assert forall|a: int| n0 <= a < items.len() implies is_completion_below(
            self,
            cur,
            #[trigger] items[a],
        ) by {
            let y = items[a];
            assert(self.from_some_edge(cur, n, y));
            let j = choose|j: int|
                0 <= j < n && is_completion_via(self, cur, j, y) && #[trigger] shaped(self, cur, j, y);
            let q = choose|q: Seq<char>|
                is_leaf_path(self.edge_child(j)@, q) && y == cur + (seq![self.edge_char(j)]
                    + q).drop_last();
            let p = seq![self.edge_char(j)] + q;
            self.lemma_child_paths(j);
            assert(self.edge_child(j).has_path(q));
            assert(self@.contains(p));
            assert forall|x: char| !self@.contains(#[trigger] p.push(x)) by {
                assert(p.push(x) =~= seq![self.edge_char(j)] + q.push(x));
                assert(!self.edge_child(j)@.contains(q.push(x)));
            }
            assert(is_leaf_path(self@, p));
        }
        assert forall|q: Seq<char>| q.len() > 0 && is_leaf_path(self@, q) implies #[trigger] items.skip(
            n0,
        ).contains(cur + q.drop_last()) by {
            assert(self.has_path(q));
            let j = self.edge_index(q[0]);
            self.lemma_child_paths(j);
            let r = q.drop_first();
            assert(q =~= seq![self.edge_char(j)] + r);
            assert(self.edge_child(j).has_path(r));
            assert forall|x: char| !self.edge_child(j)@.contains(#[trigger] r.push(x)) by {
                assert(q.push(x) =~= seq![self.edge_char(j)] + r.push(x));
            }
            assert(is_leaf_path(self.edge_child(j)@, r));
        }
    }

    /// Appends to `out`, each once, `cur` followed by every non-empty path of
    /// this node that cannot be extended, without its last character.
    fn collect(&self, cur: &Vec<char>, out: &mut Vec<Vec<char>>)
        requires
            self.distinct_edges(),
            ends_marked(self@),
        ensures
            final(out)@.len() >= old(out)@.len(),
            final(out)@.take(old(out)@.len() as int) == old(out)@,
            no_duplicates(char_views(final(out)@).skip(old(out)@.len() as int)),
            forall|a: int|
                old(out)@.len() <= a < final(out)@.len() ==> is_completion_below(
                    *self,
                    cur@,
                    #[trigger] char_views(final(out)@)[a],
                ),
            forall|q: Seq<char>|
                q.len() > 0 && is_leaf_path(self@, q) ==> #[trigger] char_views(
                    final(out)@,
                ).skip(old(out)@.len() as int).contains(cur@ + q.drop_last()),
        decreases self,
    {
        let ghost start = out@;
        let ghost n0 = start.len() as int;
        let n = self.children.len();
        proof {
            self.lemma_collected_start(cur@, char_views(out@));
        }
        let mut i: usize = 0;
        while i < n
            invariant
                n == self.children@.len(),
                self.distinct_edges(),
                ends_marked(self@),
                i <= n,
                n0 <= out@.len(),
                out@.take(n0) == start,
                self.collected(cur@, i as int, n0, char_views(out@)),
            decreases n - i,
        {
            let ghost before = out@;
            proof {
                self.lemma_child_paths(i as int);
                self.lemma_child_ends_marked(i as int);
            }
            if self.children[i].1.children.len() == 0 {
                let cl = cur.clone();
                out.push(cl);
                proof {
                    assert(out@ == before.push(cl));
                    assert(out@.take(n0) =~= before.take(n0));
                    assert(char_views(out@) =~= char_views(before).push(cur@));
                    self.lemma_collected_leaf_edge(
                        cur@,
                        i as int,
                        n0,
                        char_views(before),
                        char_views(out@),
                    );
                }
            } else {
                let mut next = cur.clone();
                next.push(self.children[i].0);
                self.children[i].1.collect(&next, out);
                proof {
                    let nb = before.len() as int;
                    assert(out@.take(n0) =~= out@.take(nb).take(n0));
                    assert(char_views(out@).take(nb) =~= char_views(before));
                    self.lemma_collected_inner_edge(
                        cur@,
                        i as int,
                        n0,
                        char_views(before),
                        char_views(out@),
                    );
                }
            }
            i = i + 1;
        }
        proof {
            self.lemma_collected_all(cur@, n0, char_views(out@));
        }
    }

    /// The words of the tree that start with `prefix`, each once, in
    /// code-point order (the order `String`s sort in).
    pub fn starts_with(&self, prefix: &str) -> (result: Vec<String>)
        requires
            self.wf(),
        ensures
            strictly_sorted(views(result@)),
            forall|x: Seq<char>|
                #[trigger] views(result@).contains(x) == completions(self@, prefix@).contains(x),
    {
        let pc = chars_of(prefix);
        let mut node: &Trie = self;
        let mut k: usize = 0;
        proof {
            assert forall|q: Seq<char>| #[trigger] node.has_path(q) == self.has_path(pc@.take(0) + q) by {
                assert(pc@.take(0) + q =~= q);
            }
        }
        while k < pc.len()
            invariant
                k <= pc@.len(),
                pc@ == prefix@,
                self.wf(),
                node.distinct_edges(),
                ends_marked(node@),
                forall|q: Seq<char>|
                    #[trigger] node.has_path(q) == self.has_path(pc@.take(k as int) + q),
            decreases pc@.len() - k,
        {
            match node.find_edge(pc[k]) {
                Some(j) => {
                    proof {
                        node.lemma_child_paths(j as int);
                        node.lemma_child_ends_marked(j as int);
                        let c = pc@[k as int];
                        assert forall|q: Seq<char>|
                            #[trigger] node.children@[j as int].1.has_path(q) == self.has_path(
                                pc@.take(k + 1) + q,
                            ) by {
                            assert(node.children@[j as int].1.has_path(q) == node.has_path(
                                seq![c] + q,
                            ));
                            assert(pc@.take(k as int) + (seq![c] + q) =~= pc@.take(k + 1) + q);
                        }
                    }
                    node = &node.children[j].1;
                },
                None => {
                    let ghost c = pc@[k as int];
                    proof {
                        assert forall|x: Seq<char>| !completions(self@, prefix@).contains(x) by {
                            if completions(self@, prefix@).contains(x) {
                                let p = choose|p: Seq<char>|
                                    is_leaf_path(self@, p) && prefix@.len() < p.len() && is_prefix(
                                        prefix@,
                                        p,
                                    ) && x == p.drop_last();
                                assert(self.has_path(p));
                                self.lemma_prefix_closed(p, k + 1);
                                assert forall|m: int| 0 <= m < k + 1 implies p[m] == pc@[m] by {
                                    assert(p.take(prefix@.len() as int)[m] == p[m]);
                                }
                                assert(p.take(k + 1) =~= pc@.take(k as int) + seq![c]);
                                assert(node.has_path(seq![c]));
                                assert(node.has_edge(c));
                            }
                        }
                    }
                    let empty: Vec<String> = Vec::new();
                    proof {
                        assert(views(empty@) =~= Seq::<Seq<char>>::empty());
                    }
                    return empty;
                },
            }
            k = k + 1;
        }
        let mut out: Vec<Vec<char>> = Vec::new();
        node.collect(&pc, &mut out);
        proof {
            assert(pc@.take(pc@.len() as int) =~= pc@);
            assert(char_views(out@).skip(0) =~= char_views(out@));
        }
        let sorted = sort_strictly(out);
        let mut result: Vec<String> = Vec::new();
        let mut i: usize = 0;
        while i < sorted.len()
            invariant
                i <= sorted@.len(),
                views(result@) == char_views(sorted@).take(i as int),
            decreases sorted@.len() - i,
        {
            let s = string_from_chars(&sorted[i], 0, sorted[i].len());
            let ghost before = result@;
            result.push(s);
            proof {
                assert(sorted[i as int]@.subrange(0, sorted[i as int]@.len() as int) =~= sorted[i as int]@);
                assert(views(result@) =~= views(before).push(s@));
                assert(char_views(sorted@).take(i + 1) =~= char_views(sorted@).take(i as int).push(sorted[i as int]@));
            }
            i = i + 1;
        }
        proof {
            assert(char_views(sorted@).take(sorted@.len() as int) =~= char_views(sorted@));
            assert forall|x: Seq<char>|
                #[trigger] views(result@).contains(x) == completions(self@, prefix@).contains(x) by {
                if char_views(out@).contains(x) {
                    let a = choose|a: int| 0 <= a < char_views(out@).len() && #[trigger] char_views(out@)[a] == x;
                    assert(is_completion_below(*node, pc@, char_views(out@)[a]));
                    let q = choose|q: Seq<char>|
                        q.len() > 0 && is_leaf_path(node@, q) && x == pc@ + q.drop_last();
                    let p = pc@ + q;
                    assert(p.take(pc@.len() as int) =~= pc@);
                    assert(node.has_path(q));
                    assert(self@.contains(p));
                    assert forall|c: char| !self@.contains(#[trigger] p.push(c)) by {
                        assert(p.push(c) =~= pc@ + q.push(c));
                        assert(!node@.contains(q.push(c)));
                    }
                    assert(x =~= p.drop_last());
                    assert(completions(self@, prefix@).contains(x));
                }
                if completions(self@, prefix@).contains(x) {
                    let p = choose|p: Seq<char>|
                        is_leaf_path(self@, p) && prefix@.len() < p.len() && is_prefix(prefix@, p)
                            && x == p.drop_last();
                    let q = p.skip(pc@.len() as int);
                    assert(p =~= pc@ + q);
                    assert(node.has_path(q));
                    assert forall|c: char| !node@.contains(#[trigger] q.push(c)) by {
                        assert(p.push(c) =~= pc@ + q.push(c));
                        assert(!self@.contains(p.push(c)));
                    }
                    assert(is_leaf_path(node@, q));
                    assert(x =~= pc@ + q.drop_last());
                    assert(char_views(out@).skip(0).contains(x));
                }
            }
        }
        result
    }
}

/// The empty tree holds no word.
pub proof fn lemma_empty_tree_holds_no_words()
    ensures
        set![Seq::<char>::empty()] == paths_of_words(Set::empty()),
{
    assert forall|p: Seq<char>|
        set![Seq::<char>::empty()].contains(p) == paths_of_words(Set::empty()).contains(p) by {
        if p.len() == 0 {
            assert(p =~= Seq::<char>::empty());
        }
    }
    assert(set![Seq::<char>::empty()] =~= paths_of_words(Set::empty()));
}

/// Adding a word's terminated prefixes to the paths of a set of words gives
/// the paths of the set with that word.
pub proof fn lemma_insert_word(words: Set<Seq<char>>, w: Seq<char>)
    ensures
        paths_of_words(words) + Set::new(|p: Seq<char>| is_prefix(p, w.push('\0')))
            == paths_of_words(words.insert(w)),
{
    let lhs = paths_of_words(words) + Set::new(|p: Seq<char>| is_prefix(p, w.push('\0')));
    let rhs = paths_of_words(words.insert(w));
    assert forall|p: Seq<char>| lhs.contains(p) == rhs.contains(p) by {
        if lhs.contains(p) && p.len() > 0 {
            if paths_of_words(words).contains(p) {
                let v = choose|v: Seq<char>| words.contains(v) && is_prefix(p, v.push('\0'));
                assert(words.insert(w).contains(v));
            } else {
                assert(words.insert(w).contains(w));
            }
        }
        if rhs.contains(p) && p.len() > 0 {
            let v = choose|v: Seq<char>| words.insert(w).contains(v) && is_prefix(p, v.push('\0'));
            if v != w {
                assert(words.contains(v));
            }
        }
    }
    assert(lhs =~= rhs);
}

/// In a tree that holds exactly the words of `words`, none of which holds the
/// terminator, completing `prefix` offers exactly the words that start with it.
pub proof fn lemma_completions_are_words(words: Set<Seq<char>>, prefix: Seq<char>)
    requires
        forall|w: Seq<char>| #[trigger] words.contains(w) ==> !w.contains('\0'),
    ensures
        completions(paths_of_words(words), prefix) == words.filter(
            |w: Seq<char>| is_prefix(prefix, w),
        ),
{
    let paths = paths_of_words(words);
    let lhs = completions(paths, prefix);
    let rhs = words.filter(|w: Seq<char>| is_prefix(prefix, w));
    assert forall|x: Seq<char>| lhs.contains(x) implies rhs.contains(x) by {
        let p = choose|p: Seq<char>|
            is_leaf_path(paths, p) && prefix.len() < p.len() && is_prefix(prefix, p) && x
                == p.drop_last();
        let v = choose|v: Seq<char>| words.contains(v) && is_prefix(p, v.push('\0'));
        let t = v.push('\0');
        if p.len() < t.len() {
            let c = t[p.len() as int];
            assert(t.take(p.len() + 1 as int) =~= p.push(c));
            assert(paths.contains(p.push(c)));
        }
        assert(p =~= t);
        assert(x =~= v);
        assert forall|m: int| 0 <= m < prefix.len() implies v[m] == prefix[m] by {
            assert(p.take(prefix.len() as int)[m] == p[m]);
        }
        assert(v.take(prefix.len() as int) =~= prefix);
    }
    assert forall|x: Seq<char>| rhs.contains(x) implies lhs.contains(x) by {
        let t = x.push('\0');
        assert(t.take(t.len() as int) =~= t);
        assert(paths.contains(t));
        assert forall|c: char| !paths.contains(#[trigger] t.push(c)) by {
            if paths.contains(t.push(c)) {
                let v = choose|v: Seq<char>| words.contains(v) && is_prefix(t.push(c), v.push('\0'));
                let n = x.len() as int;
                assert(v.push('\0').take(n + 2)[n] == t.push(c)[n]);
                assert(v[n] == '\0');
                assert(v.contains('\0'));
            }
        }
        assert(is_leaf_path(paths, t));
        assert forall|m: int| 0 <= m < prefix.len() implies t[m] == prefix[m] by {
            assert(x.take(prefix.len() as int)[m] == x[m]);
        }
        assert(t.take(prefix.len() as int) =~= prefix);
        assert(x =~= t.drop_last());
    }
    assert(lhs =~= rhs);
}

} // verus!

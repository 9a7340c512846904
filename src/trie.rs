use std::collections::HashMap;
use vstd::prelude::*;

verus! {

broadcast use {vstd::std_specs::hash::group_hash_axioms, vstd::utf8::char_u32_cast};

/// `p` is a prefix of `w` (every word is a prefix of itself).
pub open spec fn is_prefix_of(p: Seq<char>, w: Seq<char>) -> bool {
    p.len() <= w.len() && w.subrange(0, p.len() as int) == p
}

/// Some word of `words` starts with `p`.
pub open spec fn prefix_of_some(words: Set<Seq<char>>, p: Seq<char>) -> bool {
    exists|w: Seq<char>| #[trigger] words.contains(w) && is_prefix_of(p, w)
}

/// The characters that some word of `words` starts with.
pub open spec fn first_letters(words: Set<Seq<char>>) -> Set<char> {
    Set::new(|c: char| exists|w: Seq<char>| #[trigger] words.contains(w) && w.len() > 0 && w[0] == c)
}

/// `q` is `p` followed by exactly one more character.
pub open spec fn one_more(p: Seq<char>, q: Seq<char>) -> bool {
    q.len() == p.len() + 1 && q.drop_last() == p
}

/// One node of the prefix tree: its children keyed by character code, and
/// whether the path from the root to it spells a whole word.
struct Node {
    children: HashMap<u32, usize>,
    terminal: bool,
}

/// A prefix tree of words, seen from its root.
///
/// The nodes live in one vector; node 0 is the root, the empty prefix, and a
/// child is reached from its parent through the code of one character. The
/// ghost field `paths` gives the prefix that each node stands for, and
/// `words` the set of words that were inserted.
pub struct TrieNode {
    nodes: Vec<Node>,
    paths: Ghost<Seq<Seq<char>>>,
    words: Ghost<Set<Seq<char>>>,
}

impl View for TrieNode {
    type V = Set<Seq<char>>;

    closed spec fn view(&self) -> Set<Seq<char>> {
        self.words@
    }
}

impl TrieNode {
    /// The prefix that node `i` stands for.
    spec fn path(&self, i: int) -> Seq<char> {
        self.paths@[i]
    }

    spec fn child(&self, i: int, k: u32) -> usize {
        self.nodes@[i].children@[k]
    }

    spec fn has_child(&self, i: int, k: u32) -> bool {
        self.nodes@[i].children@.contains_key(k)
    }

    /// Each edge adds the character whose code keys it.
    spec fn edges_sound(&self) -> bool {
        forall|i: int, k: u32|
            0 <= i < self.nodes@.len() && #[trigger] self.has_child(i, k) ==> {
                let j = self.child(i, k) as int;
                &&& 0 <= j < self.nodes@.len()
                &&& one_more(self.path(i), self.path(j))
                &&& self.path(j).last() as u32 == k
            }
    }

    /// A node whose prefix extends another's by one character is its child.
    spec fn edges_complete(&self) -> bool {
        forall|i: int, j: int|
            0 <= i < self.nodes@.len() && 0 <= j < self.nodes@.len() && #[trigger] one_more(
                self.path(i),
                self.path(j),
            ) ==> self.has_child(i, self.path(j).last() as u32) && self.child(
                i,
                self.path(j).last() as u32,
            ) == j
    }

    spec fn paths_distinct(&self) -> bool {
        forall|i: int, j: int|
            0 <= i < self.nodes@.len() && 0 <= j < self.nodes@.len() && i != j ==> #[trigger] self.path(
                i,
            ) != #[trigger] self.path(j)
    }

    /// Every prefix of a node's prefix has a node.
    spec fn prefix_closed(&self) -> bool {
        forall|j: int, m: int|
            0 <= j < self.nodes@.len() && 0 <= m <= self.path(j).len() ==> exists|i: int|
                0 <= i < self.nodes@.len() && #[trigger] self.path(i) == #[trigger] self.path(
                    j,
                ).subrange(0, m)
    }

    /// Every node but the root lies on the way to some word of `words`.
    spec fn nodes_lead_to(&self, words: Set<Seq<char>>) -> bool {
        forall|i: int| 1 <= i < self.nodes@.len() ==> prefix_of_some(words, #[trigger] self.path(i))
    }

    spec fn words_have_nodes(&self) -> bool {
        forall|w: Seq<char>| #[trigger]
            self.words@.contains(w) ==> exists|i: int|
                0 <= i < self.nodes@.len() && #[trigger] self.path(i) == w
    }

    spec fn terminals_are_words(&self) -> bool {
        forall|i: int|
            0 <= i < self.nodes@.len() ==> (#[trigger] self.nodes@[i].terminal <==> self.words@.contains(
                self.path(i),
            ))
    }

    /// The shape of the tree, without the link between nodes and words.
    spec fn tree_ok(&self) -> bool {
        &&& self.nodes@.len() >= 1
        &&& self.paths@.len() == self.nodes@.len()
        &&& self.path(0) == Seq::<char>::empty()
        &&& self.edges_sound()
        &&& self.edges_complete()
        &&& self.paths_distinct()
        &&& self.prefix_closed()
    }

    /// The well-formedness of the tree: its shape, and that its nodes are
    /// exactly the prefixes of the inserted words.
    pub closed spec fn wf(&self) -> bool {
        &&& self.tree_ok()
        &&& self.nodes_lead_to(self.words@)
        &&& self.words_have_nodes()
        &&& self.terminals_are_words()
    }

    /// No prefix extends node `i`'s prefix by `c` unless `i` has that child.
    proof fn lemma_no_node_without_edge(&self, i: int, c: char)
        requires
            self.tree_ok(),
            0 <= i < self.nodes@.len(),
            !self.has_child(i, c as u32),
        ensures
            forall|j: int| 0 <= j < self.nodes@.len() ==> self.path(j) != self.path(i).push(c),
    {
        assert forall|j: int| 0 <= j < self.nodes@.len() implies self.path(j) != self.path(
            i,
        ).push(c) by {
            if self.path(j) == self.path(i).push(c) {
                assert(self.path(i).push(c).drop_last() =~= self.path(i));
                assert(one_more(self.path(i), self.path(j)));
                assert(self.path(j).last() == c);
            }
        }
    }

    /// A prefix that has no node leads to no word.
    proof fn lemma_missing_prefix(&self, i: int, c: char)
        requires
            self.wf(),
            0 <= i < self.nodes@.len(),
            !self.has_child(i, c as u32),
        ensures
            !prefix_of_some(self@, self.path(i).push(c)),
    {
        self.lemma_no_node_without_edge(i, c);
        let p = self.path(i).push(c);
        if prefix_of_some(self@, p) {
            let w = choose|w: Seq<char>| #[trigger] self@.contains(w) && is_prefix_of(p, w);
            let a = choose|a: int| 0 <= a < self.nodes@.len() && #[trigger] self.path(a) == w;
            assert(0 <= p.len() <= self.path(a).len());
            let b = choose|b: int|
                0 <= b < self.nodes@.len() && #[trigger] self.path(b) == #[trigger] self.path(
                    a,
                ).subrange(0, p.len() as int);
            assert(self.path(b) == p);
        }
    }

    /// The tree holds some word iff its root has a child or is a word itself.
    proof fn lemma_root_live(&self)
        requires
            self.wf(),
        ensures
            prefix_of_some(self@, Seq::<char>::empty()) <==> (self.nodes@.len() > 1
                || self.nodes@[0].terminal),
    {
        let e = Seq::<char>::empty();
        if self.nodes@.len() > 1 {
            let w = choose|w: Seq<char>| #[trigger] self@.contains(w) && is_prefix_of(self.path(1), w);
            assert(w.subrange(0, 0) =~= e);
            assert(is_prefix_of(e, w));
        }
        if self.nodes@[0].terminal {
            assert(self@.contains(self.path(0)));
            assert(self.path(0).subrange(0, 0) =~= e);
            assert(is_prefix_of(e, self.path(0)));
        }
        if prefix_of_some(self@, e) && self.nodes@.len() <= 1 {
            let w = choose|w: Seq<char>| #[trigger] self@.contains(w) && is_prefix_of(e, w);
            let a = choose|a: int| 0 <= a < self.nodes@.len() && #[trigger] self.path(a) == w;
            assert(a == 0);
        }
    }

    /// The node whose prefix is `s`, if there is one.
    fn locate(&self, s: &str) -> (r: Option<usize>)
        requires
            self.wf(),
        ensures
            match r {
                Some(n) => n < self.nodes@.len() && self.path(n as int) == s@,
                None => !prefix_of_some(self@, s@),
            },
    {
        let len = s.unicode_len();
        let mut node: usize = 0;
        let mut i: usize = 0;
        while i < len
            invariant
                self.wf(),
                len == s@.len(),
                i <= len,
                node < self.nodes@.len(),
                self.path(node as int) == s@.subrange(0, i as int),
            decreases len - i,
        {
            let c = s.get_char(i);
            assert(s@.subrange(0, i + 1) =~= s@.subrange(0, i as int).push(c));
            match self.nodes[node].children.get(&(c as u32)) {
                Some(next) => {
                    assert(self.has_child(node as int, c as u32));
                    assert(self.child(node as int, c as u32) == *next);
                    let ghost last = self.path(*next as int).last();
                    assert(last as u32 == c as u32);
                    proof {
                        vstd::utf8::char_u32_cast(last, last as u32);
                        vstd::utf8::char_u32_cast(c, c as u32);
                    }
                    assert(self.path(*next as int) =~= self.path(node as int).push(c));
                    node = *next;
                },
                None => {
                    proof {
                        self.lemma_missing_prefix(node as int, c);
                        if prefix_of_some(self@, s@) {
                            let w = choose|w: Seq<char>|
                                #[trigger] self@.contains(w) && is_prefix_of(s@, w);
                            assert(w.subrange(0, i + 1) =~= s@.subrange(0, i + 1));
                            assert(is_prefix_of(s@.subrange(0, i + 1), w));
                        }
                    }
                    return None;
                },
            }
            i += 1;
        }
        assert(s@.subrange(0, len as int) =~= s@);
        Some(node)
    }

    /// Makes an empty tree.
    pub fn new() -> (r: Self)
        ensures
            r.wf(),
            r@ == Set::<Seq<char>>::empty(),
    {
        let root = Node { children: HashMap::new(), terminal: false };
        let mut nodes: Vec<Node> = Vec::new();
        nodes.push(root);
        let ghost paths = seq![Seq::<char>::empty()];
        let r = TrieNode { nodes, paths: Ghost(paths), words: Ghost(Set::empty()) };
        assert(r.prefix_closed()) by {
            assert forall|j: int, m: int|
                0 <= j < r.nodes@.len() && 0 <= m <= r.path(j).len() implies exists|i: int|
                0 <= i < r.nodes@.len() && #[trigger] r.path(i) == #[trigger] r.path(j).subrange(
                    0,
                    m,
                ) by {
                assert(r.path(0) =~= r.path(j).subrange(0, m));
            }
        }
        r
    }

    /// Inserts `word`, adding the nodes that its prefixes lack; inserting a
    /// word twice changes nothing.
    pub fn insert(&mut self, word: &str)
        requires
            old(self).wf(),
        ensures
            final(self).wf(),
            final(self)@ == old(self)@.insert(word@),
    {
        let ghost w = word@;
        proof {
            assert forall|j: int| 1 <= j < self.nodes@.len() implies prefix_of_some(
                self.words@.insert(w),
                #[trigger] self.path(j),
            ) by {
                let v = choose|v: Seq<char>|
                    #[trigger] self.words@.contains(v) && is_prefix_of(self.path(j), v);
                assert(self.words@.insert(w).contains(v));
            }
        }
        let len = word.unicode_len();
        let mut node: usize = 0;
        let mut i: usize = 0;
        while i < len
            invariant
                self.tree_ok(),
                self.words@ == old(self).words@,
                self.nodes_lead_to(self.words@.insert(w)),
                self.words_have_nodes(),
                self.terminals_are_words(),
                w == word@,
                len == w.len(),
                i <= len,
                node < self.nodes@.len(),
                self.path(node as int) == w.subrange(0, i as int),
            decreases len - i,
        {
            let c = word.get_char(i);
            let k = c as u32;
            let ghost p = w.subrange(0, i + 1);
            assert(p =~= w.subrange(0, i as int).push(c));
            let found = match self.nodes[node].children.get(&k) {
                Some(next) => Some(*next),
                None => None,
            };
            match found {
                Some(next) => {
                    proof {
                        assert(self.has_child(node as int, k));
                        let last = self.path(next as int).last();
                        vstd::utf8::char_u32_cast(last, last as u32);
                        vstd::utf8::char_u32_cast(c, k);
                        assert(self.path(next as int) =~= p);
                    }
                    node = next;
                },
                None => {
                    proof {
                        self.lemma_no_node_without_edge(node as int, c);
                    }
                    let ghost before = *self;
                    let fresh = self.nodes.len();
                    self.nodes.push(Node { children: HashMap::new(), terminal: false });
                    self.paths = Ghost(self.paths@.push(p));
                    self.nodes[node].children.insert(k, fresh);
                    proof {
                        self.lemma_grown(&before, node as int, c, w, fresh);
                    }
                    node = fresh;
                },
            }
            i += 1;
        }
        assert(w.subrange(0, len as int) =~= w);
        let ghost before = *self;
        self.nodes[node].terminal = true;
        self.words = Ghost(self.words@.insert(w));
        proof {
            assert forall|j: int| 0 <= j < self.nodes@.len() implies prefix_of_some(
                self.words@,
                #[trigger] self.path(j),
            ) || j == 0 by {
                if j != 0 {
                    assert(before.path(j) == self.path(j));
                }
            }
            assert(self.tree_ok()) by {
                assert forall|j: int| 0 <= j < self.nodes@.len() implies #[trigger] self.nodes@[j].children@ == before.nodes@[j].children@ by {}
                assert(self.edges_complete()) by {
                assert forall|a: int, b: int|
                    0 <= a < self.nodes@.len() && 0 <= b < self.nodes@.len() && #[trigger] one_more(
                        self.path(a),
                        self.path(b),
                    ) implies self.has_child(a, self.path(b).last() as u32) && self.child(
                    a,
                    self.path(b).last() as u32,
                ) == b by {
                    assert(one_more(before.path(a), before.path(b)));
                }
                }
                assert(self.edges_sound()) by {
                assert forall|a: int, k: u32|
                    0 <= a < self.nodes@.len() && #[trigger] self.has_child(a, k) implies {
                    let j = self.child(a, k) as int;
                    &&& 0 <= j < self.nodes@.len()
                    &&& one_more(self.path(a), self.path(j))
                    &&& self.path(j).last() as u32 == k
                } by {
                    assert(before.has_child(a, k));
                }
                }
                assert(self.paths_distinct()) by {
                    assert forall|a: int, b: int|
                        0 <= a < self.nodes@.len() && 0 <= b < self.nodes@.len() && a != b implies #[trigger] self.path(
                        a,
                    ) != #[trigger] self.path(b) by {
                        assert(before.path(a) != before.path(b));
                    }
                }
                assert(self.prefix_closed()) by {
                assert forall|j: int, m: int|
                    0 <= j < self.nodes@.len() && 0 <= m <= self.path(j).len() implies exists|
                    a: int,
                |
                    0 <= a < self.nodes@.len() && #[trigger] self.path(a) == #[trigger] self.path(
                        j,
                    ).subrange(0, m) by {
                    let a = choose|a: int|
                        0 <= a < before.nodes@.len() && #[trigger] before.path(a)
                            == #[trigger] before.path(j).subrange(0, m);
                    assert(self.path(a) == self.path(j).subrange(0, m));
                }
                }
            }
            assert forall|v: Seq<char>| #[trigger] self.words@.contains(v) implies exists|a: int|
                0 <= a < self.nodes@.len() && #[trigger] self.path(a) == v by {
                if v == w {
                    assert(self.path(node as int) == v);
                } else {
                    let a = choose|a: int|
                        0 <= a < before.nodes@.len() && #[trigger] before.path(a) == v;
                    assert(self.path(a) == v);
                }
            }
            assert forall|j: int| 0 <= j < self.nodes@.len() implies (
            #[trigger] self.nodes@[j].terminal <==> self.words@.contains(self.path(j))) by {
                if j != node {
                    assert(before.nodes@[j].terminal == self.nodes@[j].terminal);
                    assert(self.path(j) != w);
                }
            }
        }
    }

    /// What adding one fresh node as child `c` of `node` keeps.
    proof fn lemma_grown(&self, before: &TrieNode, node: int, c: char, w: Seq<char>, fresh: usize)
        requires
            fresh == before.nodes@.len(),
            before.tree_ok(),
            before.nodes_lead_to(before.words@.insert(w)),
            before.words_have_nodes(),
            before.terminals_are_words(),
            0 <= node < before.nodes@.len(),
            !before.has_child(node, c as u32),
            is_prefix_of(before.path(node).push(c), w),
            self.words@ == before.words@,
            self.paths@ == before.paths@.push(before.path(node).push(c)),
            self.nodes@.len() == before.nodes@.len() + 1,
            forall|i: int| 0 <= i < before.nodes@.len() && i != node ==> #[trigger] self.nodes@[i]
                == before.nodes@[i],
            self.nodes@[node].terminal == before.nodes@[node].terminal,
            self.nodes@[node].children@ == before.nodes@[node].children@.insert(
                c as u32,
                fresh,
            ),
            self.nodes@[before.nodes@.len() as int].terminal == false,
            self.nodes@[before.nodes@.len() as int].children@ == Map::<u32, usize>::empty(),
        ensures
            self.tree_ok(),
            self.nodes_lead_to(self.words@.insert(w)),
            self.words_have_nodes(),
            self.terminals_are_words(),
            self.path(before.nodes@.len() as int) == before.path(node).push(c),
    {
        let n = before.nodes@.len() as int;
        let p = before.path(node).push(c);
        before.lemma_no_node_without_edge(node, c);
        assert(p.drop_last() =~= before.path(node));
        assert forall|i: int| 0 <= i < n implies #[trigger] self.path(i) == before.path(i) by {}
        assert(self.path(n) == p);
        // edges_sound
        assert forall|a: int, k: u32|
            0 <= a < self.nodes@.len() && #[trigger] self.has_child(a, k) implies {
            let j = self.child(a, k) as int;
            &&& 0 <= j < self.nodes@.len()
            &&& one_more(self.path(a), self.path(j))
            &&& self.path(j).last() as u32 == k
        } by {
            if a == node && k == c as u32 {
                assert(self.child(a, k) as int == n);
            } else if a < n {
                assert(before.has_child(a, k));
            }
        }
        // edges_complete
        assert forall|a: int, b: int|
            0 <= a < self.nodes@.len() && 0 <= b < self.nodes@.len() && #[trigger] one_more(
                self.path(a),
                self.path(b),
            ) implies self.has_child(a, self.path(b).last() as u32) && self.child(
            a,
            self.path(b).last() as u32,
        ) == b by {
            if b == n {
                if a != node {
                    assert(before.path(a) != before.path(node));
                }
                assert(a == node);
            } else if a == n {
                assert(0 <= p.len() <= before.path(b).len());
                let x = choose|x: int|
                    0 <= x < before.nodes@.len() && #[trigger] before.path(x)
                        == #[trigger] before.path(b).subrange(0, p.len() as int);
                assert(before.path(b).subrange(0, p.len() as int) =~= before.path(b).drop_last());
                assert(false);
            } else {
                assert(one_more(before.path(a), before.path(b)));
                let last = before.path(b).last();
                if a == node {
                    vstd::utf8::char_u32_cast(last, last as u32);
                    vstd::utf8::char_u32_cast(c, c as u32);
                    if last as u32 == c as u32 {
                        assert(before.path(b) =~= p);
                    }
                }
            }
        }
        // paths_distinct
        assert forall|a: int, b: int|
            0 <= a < self.nodes@.len() && 0 <= b < self.nodes@.len() && a != b implies #[trigger] self.path(
            a,
        ) != #[trigger] self.path(b) by {
            if a < n && b < n {
                assert(before.path(a) != before.path(b));
            }
        }
        // prefix_closed
        assert forall|j: int, m: int|
            0 <= j < self.nodes@.len() && 0 <= m <= self.path(j).len() implies exists|x: int|
            0 <= x < self.nodes@.len() && #[trigger] self.path(x) == #[trigger] self.path(
                j,
            ).subrange(0, m) by {
            if j == n {
                if m == p.len() {
                    assert(self.path(n) =~= self.path(j).subrange(0, m));
                } else {
                    assert(0 <= m <= before.path(node).len());
                    let x = choose|x: int|
                        0 <= x < before.nodes@.len() && #[trigger] before.path(x)
                            == #[trigger] before.path(node).subrange(0, m);
                    assert(self.path(x) =~= self.path(j).subrange(0, m));
                }
            } else {
                let x = choose|x: int|
                    0 <= x < before.nodes@.len() && #[trigger] before.path(x)
                        == #[trigger] before.path(j).subrange(0, m);
                assert(self.path(x) == self.path(j).subrange(0, m));
            }
        }
        // nodes_lead_to
        assert forall|i: int| 1 <= i < self.nodes@.len() implies prefix_of_some(
            self.words@.insert(w),
            #[trigger] self.path(i),
        ) by {
            if i == n {
                assert(self.words@.insert(w).contains(w));
            } else {
                assert(prefix_of_some(before.words@.insert(w), before.path(i)));
            }
        }
        // words_have_nodes
        assert forall|v: Seq<char>| #[trigger] self.words@.contains(v) implies exists|x: int|
            0 <= x < self.nodes@.len() && #[trigger] self.path(x) == v by {
            let x = choose|x: int| 0 <= x < before.nodes@.len() && #[trigger] before.path(x) == v;
            assert(self.path(x) == v);
        }
        // terminals_are_words
        assert forall|i: int| 0 <= i < self.nodes@.len() implies (#[trigger] self.nodes@[i].terminal
            <==> self.words@.contains(self.path(i))) by {
            if i == n {
                if self.words@.contains(p) {
                    let x = choose|x: int|
                        0 <= x < before.nodes@.len() && #[trigger] before.path(x) == p;
                }
            } else {
                assert(before.nodes@[i].terminal <==> before.words@.contains(before.path(i)));
            }
        }
    }

    /// The number of distinct first characters of the words of the tree.
    pub fn len(&self) -> (r: usize)
        requires
            self.wf(),
        ensures
            r == first_letters(self@).len(),
    {
        proof {
            let dom = self.nodes@[0].children@.dom();
            let f = |k: u32| k as char;
            let y = first_letters(self@);
            assert forall|k: u32| #[trigger] dom.contains(k) implies self.path(
                self.child(0, k) as int,
            ) == seq![k as char] && (k as char) as u32 == k by {
                assert(self.has_child(0, k));
                let j = self.child(0, k) as int;
                let last = self.path(j).last();
                vstd::utf8::char_u32_cast(last, k);
                assert(self.path(j) =~= seq![last]);
            }
            assert(vstd::relations::injective_on(f, dom)) by {
                assert forall|a: u32, b: u32| dom.contains(a) && dom.contains(b) && #[trigger] f(a) == #[trigger] f(b) implies a == b by {
                    assert((a as char) as u32 == a);
                    assert((b as char) as u32 == b);
                }
            }
            assert forall|c: char| #[trigger] y.contains(c) implies dom.map(f).contains(c) by {
                let w = choose|w: Seq<char>| #[trigger] self@.contains(w) && w.len() > 0 && w[0] == c;
                let a = choose|a: int| 0 <= a < self.nodes@.len() && #[trigger] self.path(a) == w;
                assert(0 <= 1 <= self.path(a).len());
                let b = choose|b: int|
                    0 <= b < self.nodes@.len() && #[trigger] self.path(b) == #[trigger] self.path(a).subrange(0, 1);
                assert(self.path(b).drop_last() =~= self.path(0));
                assert(one_more(self.path(0), self.path(b)));
                let k = self.path(b).last() as u32;
                vstd::utf8::char_u32_cast(c, k);
                assert(dom.contains(k));
                assert(f(k) == c);
            }
            assert forall|c: char| dom.map(f).contains(c) implies #[trigger] y.contains(c) by {
                let k = choose|k: u32| dom.contains(k) && f(k) == c;
                let j = self.child(0, k) as int;
                assert(self.has_child(0, k));
                assert(self.path(j) == seq![c]);
                let w = choose|w: Seq<char>| #[trigger] self@.contains(w) && is_prefix_of(self.path(j), w);
                assert(w.subrange(0, 1)[0] == w[0]);
            }
            assert(dom.map(f) =~= y);
            vstd::set_lib::lemma_map_size(dom, y, f);
        }
        self.nodes[0].children.len()
    }

    /// True iff some word of the tree starts with `prefix`.
    pub fn has_prefix(&self, prefix: &str) -> (r: bool)
        requires
            self.wf(),
        ensures
            r == prefix_of_some(self@, prefix@),
    {
        match self.locate(prefix) {
            Some(n) => {
                if n > 0 {
                    true
                } else {
                    proof {
                        self.lemma_root_live();
                    }
                    self.nodes.len() > 1 || self.nodes[0].terminal
                }
            },
            None => false,
        }
    }

    /// True iff `word` is one of the words of the tree.
    pub fn is_word(&self, word: &str) -> (r: bool)
        requires
            self.wf(),
        ensures
            r == self@.contains(word@),
    {
        match self.locate(word) {
            Some(n) => self.nodes[n].terminal,
            None => {
                assert(is_prefix_of(word@, word@)) by {
                    assert(word@.subrange(0, word@.len() as int) =~= word@);
                }
                false
            },
        }
    }
}

impl Default for TrieNode {
    /// An empty tree.
    fn default() -> (r: Self)
        ensures
            r.wf(),
            r@ == Set::<Seq<char>>::empty(),
    {
        TrieNode::new()
    }
}

/// The lowercase form of a string, as `str::to_lowercase` gives it.
pub uninterp spec fn lower_of(s: Seq<char>) -> Seq<char>;

/// Relies on `str::to_lowercase`: its result depends on the characters of
/// the string alone.
#[verifier::external_body]
fn lowercase(s: &str) -> (r: String)
    ensures
        r@ == lower_of(s@),
{
    s.to_lowercase()
}

/// The words of a word list, each in lowercase.
pub open spec fn lowered_words(lines: Seq<String>) -> Set<Seq<char>> {
    Set::new(|w: Seq<char>| exists|i: int| 0 <= i < lines.len() && w == lower_of((#[trigger] lines[i])@))
}

/// Builds the dictionary of a word list, one word per entry, each inserted
/// in lowercase. An empty list gives an empty dictionary.
pub fn dictionary_from_lines(lines: &Vec<String>) -> (r: TrieNode)
    ensures
        r.wf(),
        r@ == lowered_words(lines@),
{
    let mut dictionary = TrieNode::new();
    let mut i: usize = 0;
    while i < lines.len()
        invariant
            i <= lines@.len(),
            dictionary.wf(),
            dictionary@ == lowered_words(lines@.subrange(0, i as int)),
        decreases lines@.len() - i,
    {
        let word = lowercase(lines[i].as_str());
        dictionary.insert(word.as_str());
        proof {
            let before = lines@.subrange(0, i as int);
            let after = lines@.subrange(0, i + 1);
            assert forall|w: Seq<char>| #[trigger] lowered_words(after).contains(w) == lowered_words(before).insert(word@).contains(w) by {
                if lowered_words(after).contains(w) {
                    let k = choose|k: int| 0 <= k < after.len() && w == lower_of((#[trigger] after[k])@);
                    if k < i {
                        assert(before[k] == after[k]);
                    }
                }
                if lowered_words(before).contains(w) {
                    let k = choose|k: int| 0 <= k < before.len() && w == lower_of((#[trigger] before[k])@);
                    assert(before[k] == after[k]);
                }
                if w == word@ {
                    assert(after[i as int] == lines@[i as int]);
                }
            }
            assert(lowered_words(after) =~= lowered_words(before).insert(word@));
        }
        i += 1;
    }
    assert(lines@.subrange(0, lines@.len() as int) =~= lines@);
    dictionary
}

/// Every prefix of an inserted word, the empty one and the word itself
/// included, starts some word of the tree.
pub proof fn lemma_inserted_prefixes(words: Set<Seq<char>>, w: Seq<char>, p: Seq<char>)
    requires
        words.contains(w),
        is_prefix_of(p, w),
    ensures
        prefix_of_some(words, p),
{
}

/// An inserted word is a word of the tree.
pub proof fn lemma_inserted_word(words: Set<Seq<char>>, w: Seq<char>)
    requires
        words.contains(w),
    ensures
        prefix_of_some(words, w),
        prefix_of_some(words, Seq::<char>::empty()),
{
    assert(w.subrange(0, w.len() as int) =~= w);
    assert(w.subrange(0, 0) =~= Seq::<char>::empty());
}

/// A non-empty string whose first character starts no word is a prefix of
/// none.
pub proof fn lemma_foreign_prefix(words: Set<Seq<char>>, s: Seq<char>)
    requires
        s.len() > 0,
        forall|w: Seq<char>| #[trigger] words.contains(w) && w.len() > 0 ==> w[0] != s[0],
    ensures
        !prefix_of_some(words, s),
{
    if prefix_of_some(words, s) {
        let w = choose|w: Seq<char>| #[trigger] words.contains(w) && is_prefix_of(s, w);
        assert(w.subrange(0, s.len() as int)[0] == w[0]);
    }
}

} // verus!

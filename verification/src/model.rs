//! The mathematical trie: what a `Trie` is, independent of how it is stored.

use vstd::prelude::*;
use crate::order::{key_lt, lemma_key_lt_irreflexive, lemma_key_lt_total, lemma_key_lt_transitive};

verus! {

/// One level of the trie: the value recorded at this exact path, if any, and
/// the children, each under the segment that leads to it.
pub ghost struct Node<T> {
    pub value: Option<T>,
    pub children: Seq<(Seq<char>, Node<T>)>,
}

/// `n` spaces.
pub open spec fn spaces(n: nat) -> Seq<char> {
    Seq::new(n, |i: int| ' ')
}

/// The line that introduces a child at depth `indent`, up to the child's own
/// text: the margin, a corner, the child's segment and a colon.
pub open spec fn row(indent: nat, key: Seq<char>, text: Seq<char>) -> Seq<char> {
    spaces(indent + 1) + seq!['\u{2514}', ' '] + key + seq![':', ' '] + text
}

impl<T> Node<T> {
    /// A node without value or children.
    pub open spec fn empty() -> Node<T> {
        Node { value: None, children: Seq::empty() }
    }

    /// The segments of the children are strictly ascending, hence distinct.
    pub open spec fn ascending(self) -> bool {
        forall|i: int, j: int|
            0 <= i < j < self.children.len() ==> key_lt(
                #[trigger] self.children[i].0,
                #[trigger] self.children[j].0,
            )
    }

    /// Every level of the trie keeps its children in ascending order.
    pub open spec fn wf(self) -> bool
        decreases self,
    {
        &&& self.ascending()
        &&& forall|i: int| 0 <= i < self.children.len() ==> (#[trigger] self.children[i]).1.wf()
    }

    /// The first index at or after `from` whose segment does not sort before `key`.
    pub open spec fn slot_from(self, key: Seq<char>, from: int) -> int
        decreases self.children.len() - from,
    {
        if from >= self.children.len() {
            self.children.len() as int
        } else if key_lt(self.children[from].0, key) {
            self.slot_from(key, from + 1)
        } else {
            from
        }
    }

    /// Where `key` is among the children, or where it belongs.
    pub open spec fn slot(self, key: Seq<char>) -> int {
        self.slot_from(key, 0)
    }

    /// A child is stored under `key`.
    pub open spec fn holds(self, key: Seq<char>) -> bool {
        self.slot(key) < self.children.len() && self.children[self.slot(key)].0 == key
    }

    /// The child stored under `key`.
    pub open spec fn child(self, key: Seq<char>) -> Option<Node<T>> {
        if self.holds(key) {
            Some(self.children[self.slot(key)].1)
        } else {
            None
        }
    }

    /// The node reached by following `path` from here, one child per segment.
    /// The empty path selects nothing: a lookup names at least one segment.
    pub open spec fn get(self, path: Seq<Seq<char>>) -> Option<Node<T>>
        decreases path.len(),
    {
        if path.len() == 0 {
            None
        } else {
            match self.child(path[0]) {
                None => None,
                Some(c) => if path.len() == 1 {
                    Some(c)
                } else {
                    c.get(path.drop_first())
                },
            }
        }
    }

    /// The child under `key`, or an empty node where there is none yet.
    pub open spec fn child_or_empty(self, key: Seq<char>) -> Node<T> {
        match self.child(key) {
            Some(c) => c,
            None => Self::empty(),
        }
    }

    /// This node with `below` stored under `key`: in place of the child that
    /// was there, or as a new child at the place where `key` belongs.
    pub open spec fn with_child(self, key: Seq<char>, below: Node<T>) -> Node<T> {
        if self.holds(key) {
            Node { value: self.value, children: self.children.update(self.slot(key), (key, below)) }
        } else {
            Node { value: self.value, children: self.children.insert(self.slot(key), (key, below)) }
        }
    }

    /// The trie after `value` is recorded at `path`: missing nodes along the
    /// path are created, the node at its end gets the value, the rest stays.
    pub open spec fn set(self, path: Seq<Seq<char>>, value: T) -> Node<T>
        decreases path.len(),
    {
        if path.len() == 0 {
            Node { value: Some(value), children: self.children }
        } else {
            self.with_child(path[0], self.child_or_empty(path[0]).set(path.drop_first(), value))
        }
    }

    /// The value recorded at exactly `path`; at the empty path, this node's own.
    pub open spec fn value_at(self, path: Seq<Seq<char>>) -> Option<T> {
        if path.len() == 0 {
            self.value
        } else {
            match self.get(path) {
                Some(n) => n.value,
                None => None,
            }
        }
    }

    /// What `slot_from` finds lies between `from` and the end, every segment
    /// before it sorts before `key`, and the one there does not.
    pub proof fn lemma_slot_from(self, key: Seq<char>, from: int)
        requires
            0 <= from <= self.children.len(),
        ensures
            from <= self.slot_from(key, from) <= self.children.len(),
            forall|j: int| from <= j < self.slot_from(key, from) ==> key_lt(self.children[j].0, key),
            self.slot_from(key, from) < self.children.len() ==> !key_lt(
                self.children[self.slot_from(key, from)].0,
                key,
            ),
        decreases self.children.len() - from,
    {
        if from < self.children.len() && key_lt(self.children[from].0, key) {
            self.lemma_slot_from(key, from + 1);
        }
    }

    /// An index is the slot of `key` once every segment before it sorts before
    /// `key` and the one there does not.
    pub proof fn lemma_slot_is(self, key: Seq<char>, i: int, from: int)
        requires
            0 <= from <= i <= self.children.len(),
            forall|j: int| from <= j < i ==> key_lt(self.children[j].0, key),
            i < self.children.len() ==> !key_lt(self.children[i].0, key),
        ensures
            self.slot_from(key, from) == i,
        decreases i - from,
    {
        if from < i {
            self.lemma_slot_is(key, i, from + 1);
        }
    }

    /// The slot of a segment depends on the children alone.
    pub proof fn lemma_slot_same_children(self, other: Node<T>, key: Seq<char>, from: int)
        requires
            self.children == other.children,
        ensures
            self.slot_from(key, from) == other.slot_from(key, from),
        decreases self.children.len() - from,
    {
        if from < self.children.len() && key_lt(self.children[from].0, key) {
            self.lemma_slot_same_children(other, key, from + 1);
        }
    }

    /// In an ascending node a child is stored under `key` exactly when one of
    /// the children has that segment, and its index is the slot of `key`.
    pub proof fn lemma_holds_iff_present(self, key: Seq<char>)
        requires
            self.ascending(),
        ensures
            self.holds(key) <==> exists|i: int|
                0 <= i < self.children.len() && #[trigger] self.children[i].0 == key,
            forall|i: int|
                0 <= i < self.children.len() && #[trigger] self.children[i].0 == key ==> self.slot(key)
                    == i,
    {
        assert forall|i: int|
            0 <= i < self.children.len() && #[trigger] self.children[i].0 == key implies self.slot(key)
            == i by {
            lemma_key_lt_irreflexive(key);
            self.lemma_slot_is(key, i, 0);
        }
        self.lemma_slot_from(key, 0);
    }

    /// Storing a child keeps the segments ascending, leaves this node's value
    /// and its other children alone, and the stored child is then found under
    /// its segment.
    pub proof fn lemma_with_child(self, key: Seq<char>, below: Node<T>)
        requires
            self.ascending(),
        ensures
            self.with_child(key, below).ascending(),
            self.with_child(key, below).value == self.value,
            self.with_child(key, below).child(key) == Some(below),
            forall|k: Seq<char>|
                k != key ==> #[trigger] self.with_child(key, below).child(k) == self.child(k),
            forall|i: int|
                0 <= i < self.with_child(key, below).children.len() ==> {
                    let c = #[trigger] self.with_child(key, below).children[i];
                    c == (key, below) || self.children.contains(c)
                },
    {
        let after = self.with_child(key, below);
        let i = self.slot(key);
        self.lemma_slot_from(key, 0);
        lemma_key_lt_irreflexive(key);
        if self.holds(key) {
            assert(after.ascending());
            after.lemma_holds_iff_present(key);
            assert(after.children[i].0 == key);
            assert forall|k: Seq<char>| k != key implies #[trigger] after.child(k) == self.child(k) by {
                self.lemma_holds_iff_present(k);
                after.lemma_holds_iff_present(k);
                if self.holds(k) {
                    let j = self.slot(k);
                    assert(after.children[j].0 == k);
                } else if after.holds(k) {
                    let j = after.slot(k);
                    assert(self.children[j].0 == k);
                }
            }
            assert forall|j: int| 0 <= j < after.children.len() implies {
                let c = #[trigger] after.children[j];
                c == (key, below) || self.children.contains(c)
            } by {
                if j != i {
                    assert(self.children[j] == after.children[j]);
                }
            }
        } else {
            self.children.insert_ensures(i, (key, below));
            assert forall|j: int| i <= j < self.children.len() implies key_lt(
                key,
                #[trigger] self.children[j].0,
            ) by {
                if !key_lt(key, self.children[i].0) {
                    lemma_key_lt_total(key, self.children[i].0);
                }
                if i < j {
                    lemma_key_lt_transitive(key, self.children[i].0, self.children[j].0);
                }
            }
            assert forall|a: int, b: int| 0 <= a < b < after.children.len() implies key_lt(
                #[trigger] after.children[a].0,
                #[trigger] after.children[b].0,
            ) by {
                if b < i {
                } else if b == i {
                } else if a < i {
                    assert(after.children[b] == self.children[b - 1]);
                    if b - 1 != i {
                        lemma_key_lt_transitive(self.children[a].0, key, self.children[b - 1].0);
                    } else {
                        lemma_key_lt_transitive(self.children[a].0, key, self.children[i].0);
                    }
                } else if a == i {
                    assert(after.children[b] == self.children[b - 1]);
                } else {
                    assert(after.children[a] == self.children[a - 1]);
                    assert(after.children[b] == self.children[b - 1]);
                }
            }
            after.lemma_holds_iff_present(key);
            assert(after.children[i].0 == key);
            assert forall|k: Seq<char>| k != key implies #[trigger] after.child(k) == self.child(k) by {
                self.lemma_holds_iff_present(k);
                after.lemma_holds_iff_present(k);
                if self.holds(k) {
                    let j = self.slot(k);
                    if j < i {
                        assert(after.children[j].0 == k);
                    } else {
                        assert(after.children[j + 1] == self.children[j]);
                        assert(after.children[j + 1].0 == k);
                    }
                } else if after.holds(k) {
                    let j = after.slot(k);
                    if j < i {
                        assert(self.children[j].0 == k);
                    } else {
                        assert(after.children[j] == self.children[j - 1]);
                        assert(self.children[j - 1].0 == k);
                    }
                }
            }
            assert forall|j: int| 0 <= j < after.children.len() implies {
                let c = #[trigger] after.children[j];
                c == (key, below) || self.children.contains(c)
            } by {
                if j < i {
                    assert(self.children[j] == after.children[j]);
                } else if j > i {
                    assert(after.children[j] == self.children[j - 1]);
                }
            }
        }
    }

    /// The child under a segment of a well-formed node is well formed.
    pub proof fn lemma_child_wf(self, key: Seq<char>)
        requires
            self.wf(),
        ensures
            self.child_or_empty(key).wf(),
            self.child(key) matches Some(c) ==> c.wf(),
    {
        self.lemma_slot_from(key, 0);
        if self.holds(key) {
            assert(self.children[self.slot(key)].1.wf());
        }
    }

    /// Every node that a lookup reaches in a well-formed trie is well formed.
    pub proof fn lemma_get_wf(self, path: Seq<Seq<char>>)
        requires
            self.wf(),
        ensures
            self.get(path) matches Some(n) ==> n.wf(),
        decreases path.len(),
    {
        if path.len() > 0 {
            self.lemma_child_wf(path[0]);
            if path.len() > 1 && self.child(path[0]) is Some {
                self.child(path[0])->0.lemma_get_wf(path.drop_first());
            }
        }
    }

    /// Recording a value keeps the trie well formed.
    pub proof fn lemma_set_wf(self, path: Seq<Seq<char>>, value: T)
        requires
            self.wf(),
        ensures
            self.set(path, value).wf(),
        decreases path.len(),
    {
        if path.len() > 0 {
            let below = self.child_or_empty(path[0]);
            self.lemma_child_wf(path[0]);
            below.lemma_set_wf(path.drop_first(), value);
            self.lemma_with_child(path[0], below.set(path.drop_first(), value));
            let after = self.set(path, value);
            assert forall|i: int| 0 <= i < after.children.len() implies (#[trigger] after.children[i]).1.wf(
            ) by {
                let c = after.children[i];
                if c != (path[0], below.set(path.drop_first(), value)) {
                    let j = choose|j: int| 0 <= j < self.children.len() && self.children[j] == c;
                    assert(self.children[j].1.wf());
                }
            }
        }
    }

    /// After `value` is recorded at `path`, that path holds `value`, and every
    /// other path holds what it held before.
    pub proof fn lemma_set_value_at(self, path: Seq<Seq<char>>, value: T, other: Seq<Seq<char>>)
        requires
            self.wf(),
        ensures
            self.set(path, value).value_at(other) == if other == path {
                Some(value)
            } else {
                self.value_at(other)
            },
        decreases path.len(),
    {
        let after = self.set(path, value);
        if path.len() == 0 {
            if other.len() > 0 {
                self.lemma_slot_same_children(after, other[0], 0);
                assert(after.child(other[0]) == self.child(other[0]));
                assert(after.get(other) == self.get(other));
            } else {
                assert(other =~= path);
            }
        } else {
            let key = path[0];
            let rest = path.drop_first();
            let below = self.child_or_empty(key);
            self.lemma_child_wf(key);
            self.lemma_with_child(key, below.set(rest, value));
            if other.len() == 0 {
            } else if other[0] != key {
                assert(after.child(other[0]) == self.child(other[0]));
            } else {
                let tail = other.drop_first();
                below.lemma_set_value_at(rest, value, tail);
                assert(after.child(key) == Some(below.set(rest, value)));
                assert((tail == rest) == (other == path)) by {
                    if tail == rest {
                        assert(other =~= seq![key] + tail);
                        assert(path =~= seq![key] + rest);
                    }
                }
                if other.len() == 1 {
                    assert(tail.len() == 0);
                    assert(after.value_at(other) == below.set(rest, value).value);
                    assert(self.value_at(other) == below.value);
                } else {
                    assert(after.value_at(other) == below.set(rest, value).value_at(tail));
                    assert(self.value_at(other) == below.value_at(tail)) by {
                        if self.child(key) is None {
                            Self::lemma_empty_get(tail);
                        }
                    }
                }
            }
        }
    }

    /// Nothing is found in an empty node.
    pub proof fn lemma_empty_get(path: Seq<Seq<char>>)
        ensures
            Self::empty().get(path) is None,
    {
    }

    /// A value recorded at a path of at least one segment is what a lookup of
    /// that path then finds.
    pub proof fn lemma_set_then_get(self, path: Seq<Seq<char>>, value: T)
        requires
            self.wf(),
            path.len() > 0,
        ensures
            self.set(path, value).get(path) matches Some(n) && n.value == Some(value),
    {
        self.lemma_set_value_at(path, value, path);
    }
    /// The rows of the first `upto` children, in their order, where `texts`
    /// holds the text of each child's subtree.
    pub open spec fn rows(self, texts: Seq<Seq<char>>, indent: nat, upto: int) -> Seq<char>
        decreases upto,
    {
        if upto <= 0 {
            Seq::empty()
        } else {
            self.rows(texts, indent, upto - 1) + row(indent, self.children[upto - 1].0, texts[upto - 1])
        }
    }

    /// The text of each child's subtree, one level deeper than this node.
    pub open spec fn subtexts(self, label: spec_fn(Option<T>) -> Seq<char>, indent: nat) -> Seq<Seq<char>>
        decreases self, 0nat,
    {
        Seq::new(
            self.children.len(),
            |i: int|
                if 0 <= i < self.children.len() {
                    self.children[i].1.render(label, indent + 1)
                } else {
                    Seq::empty()
                },
        )
    }

    /// The text of this subtree, depth first: the label of this node's value on
    /// a line of its own, then one row for each child in ascending order of
    /// the segments, each followed by the child's subtree one level deeper.
    pub open spec fn render(self, label: spec_fn(Option<T>) -> Seq<char>, indent: nat) -> Seq<char>
        decreases self, 1nat,
    {
        label(self.value) + seq!['\n'] + self.rows(
            self.subtexts(label, indent),
            indent,
            self.children.len() as int,
        )
    }

    /// Where the row of the child with index `i` begins in the rendering.
    pub open spec fn row_start(self, label: spec_fn(Option<T>) -> Seq<char>, indent: nat, i: int) -> int {
        (label(self.value).len() + 1 + self.rows(self.subtexts(label, indent), indent, i).len()) as int
    }

    /// The rows of the first children are the beginning of the rows of more.
    pub proof fn lemma_rows_begin(self, texts: Seq<Seq<char>>, indent: nat, few: int, more: int)
        requires
            0 <= few <= more,
        ensures
            self.rows(texts, indent, few).len() <= self.rows(texts, indent, more).len(),
            self.rows(texts, indent, more).subrange(0, self.rows(texts, indent, few).len() as int) == self.rows(
                texts,
                indent,
                few,
            ),
        decreases more - few,
    {
        if few < more {
            self.lemma_rows_begin(texts, indent, few, more - 1);
            let shorter = self.rows(texts, indent, more - 1);
            let first = self.rows(texts, indent, few);
            assert(self.rows(texts, indent, more).subrange(0, first.len() as int) =~= shorter.subrange(
                0,
                first.len() as int,
            ));
        } else {
            assert(self.rows(texts, indent, more).subrange(0, self.rows(texts, indent, few).len() as int)
                =~= self.rows(texts, indent, few));
        }
    }

    /// A rendering visits the children in ascending order of their segments, at
    /// every node and whatever the shape of the trie: of two children of a
    /// well-formed node, the one with the smaller index has the smaller
    /// segment, its row begins earlier in the text, and what stands in the
    /// text from where a child's row begins to where the next begins is that
    /// child's row, followed by its own subtree.
    pub proof fn lemma_render_ascending(
        self,
        label: spec_fn(Option<T>) -> Seq<char>,
        indent: nat,
        i: int,
        j: int,
    )
        requires
            self.wf(),
            0 <= i < j < self.children.len(),
        ensures
            key_lt(self.children[i].0, self.children[j].0),
            self.row_start(label, indent, i) < self.row_start(label, indent, j),
            self.row_start(label, indent, j + 1) <= self.render(label, indent).len(),
            self.render(label, indent).subrange(
                self.row_start(label, indent, i),
                self.row_start(label, indent, i + 1),
            ) == row(indent, self.children[i].0, self.children[i].1.render(label, indent + 1)),
            self.render(label, indent).subrange(
                self.row_start(label, indent, j),
                self.row_start(label, indent, j + 1),
            ) == row(indent, self.children[j].0, self.children[j].1.render(label, indent + 1)),
    {
        let texts = self.subtexts(label, indent);
        let n = self.children.len() as int;
        self.lemma_rows_begin(texts, indent, i + 1, j);
        self.lemma_rows_begin(texts, indent, i + 1, n);
        self.lemma_rows_begin(texts, indent, j + 1, n);
        let head = label(self.value) + seq!['\n'];
        let all = self.rows(texts, indent, n);
        assert(self.render(label, indent) == head + all);
        let upto_i = self.rows(texts, indent, i);
        let with_i = self.rows(texts, indent, i + 1);
        let upto_j = self.rows(texts, indent, j);
        let with_j = self.rows(texts, indent, j + 1);
        assert(with_i == upto_i + row(indent, self.children[i].0, texts[i]));
        assert(with_j == upto_j + row(indent, self.children[j].0, texts[j]));
        assert(row(indent, self.children[i].0, texts[i]).len() > 0);
        let at = head.len() as int;
        assert((head + all).subrange(at + upto_i.len(), at + with_i.len()) =~= all.subrange(
            0,
            with_i.len() as int,
        ).subrange(upto_i.len() as int, with_i.len() as int));
        assert((head + all).subrange(at + upto_j.len(), at + with_j.len()) =~= all.subrange(
            0,
            with_j.len() as int,
        ).subrange(upto_j.len() as int, with_j.len() as int));
        assert(with_i.subrange(upto_i.len() as int, with_i.len() as int) =~= row(
            indent,
            self.children[i].0,
            texts[i],
        ));
        assert(with_j.subrange(upto_j.len() as int, with_j.len() as int) =~= row(
            indent,
            self.children[j].0,
            texts[j],
        ));
    }

    /// The rows depend on the texts of the children they show, and on nothing
    /// else of `texts`.
    pub proof fn lemma_rows_same(self, a: Seq<Seq<char>>, b: Seq<Seq<char>>, indent: nat, upto: int)
        requires
            forall|i: int| 0 <= i < upto ==> a[i] == b[i],
        ensures
            self.rows(a, indent, upto) == self.rows(b, indent, upto),
        decreases upto,
    {
        if upto > 0 {
            self.lemma_rows_same(a, b, indent, upto - 1);
        }
    }
    /// `path` leads to a node of the trie.
    pub open spec fn contains(self, path: Seq<Seq<char>>) -> bool {
        self.get(path) is Some
    }

    /// Every path in the trie leads on to a recorded value: to its own, or to
    /// one further down.
    pub open spec fn rooted(self) -> bool {
        forall|p: Seq<Seq<char>>| #[trigger]
            self.contains(p) ==> exists|q: Seq<Seq<char>>| (#[trigger] self.value_at(p + q)) is Some
    }

    /// After a value is recorded at `path`, the trie holds the paths that it
    /// held before and the beginnings of `path`, and no others.
    pub proof fn lemma_set_contains(self, path: Seq<Seq<char>>, value: T, other: Seq<Seq<char>>)
        requires
            self.wf(),
        ensures
            self.set(path, value).contains(other) <==> self.contains(other) || (0 < other.len()
                <= path.len() && other == path.take(other.len() as int)),
        decreases path.len(),
    {
        let after = self.set(path, value);
        if other.len() == 0 {
        } else if path.len() == 0 {
            self.lemma_slot_same_children(after, other[0], 0);
            assert(after.child(other[0]) == self.child(other[0]));
        } else {
            let key = path[0];
            let rest = path.drop_first();
            let below = self.child_or_empty(key);
            self.lemma_child_wf(key);
            self.lemma_with_child(key, below.set(rest, value));
            if other[0] != key {
                assert(after.child(other[0]) == self.child(other[0]));
                if other.len() <= path.len() {
                    assert(path.take(other.len() as int)[0] == key);
                }
            } else {
                let tail = other.drop_first();
                assert(after.child(key) == Some(below.set(rest, value)));
                if other.len() == 1 {
                    assert(other =~= path.take(1));
                } else {
                    below.lemma_set_contains(rest, value, tail);
                    if self.child(key) is None {
                        Self::lemma_empty_get(tail);
                    }
                    if tail.len() <= rest.len() {
                        let front = path.take(other.len() as int);
                        if tail == rest.take(tail.len() as int) {
                            assert forall|i: int| 0 <= i < other.len() implies other[i] == front[i] by {
                                if i > 0 {
                                    assert(other[i] == tail[i - 1]);
                                    assert(rest.take(tail.len() as int)[i - 1] == rest[i - 1]);
                                }
                            }
                            assert(other =~= front);
                        }
                        if other == front {
                            assert forall|i: int| 0 <= i < tail.len() implies tail[i] == rest.take(
                                tail.len() as int,
                            )[i] by {
                                assert(tail[i] == other[i + 1]);
                                assert(front[i + 1] == path[i + 1]);
                            }
                            assert(tail =~= rest.take(tail.len() as int));
                        }
                    }
                }
            }
        }
    }

    /// Recording a value keeps every path of the trie leading on to a value.
    pub proof fn lemma_set_rooted(self, path: Seq<Seq<char>>, value: T)
        requires
            self.wf(),
            self.rooted(),
        ensures
            self.set(path, value).rooted(),
    {
        let after = self.set(path, value);
        assert forall|p: Seq<Seq<char>>| #[trigger] after.contains(p) implies exists|q: Seq<Seq<char>>|
            (#[trigger] after.value_at(p + q)) is Some by {
            self.lemma_set_contains(path, value, p);
            if self.contains(p) {
                let q = choose|q: Seq<Seq<char>>| (#[trigger] self.value_at(p + q)) is Some;
                self.lemma_set_value_at(path, value, p + q);
                assert(after.value_at(p + q) is Some);
            } else {
                let q = path.skip(p.len() as int);
                assert(p + q =~= path);
                self.lemma_set_value_at(path, value, path);
                assert(after.value_at(p + q) is Some);
            }
        }
    }
}

} // verus!

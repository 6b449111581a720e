//! The path trie: values recorded under sequences of path segments.

use std::collections::VecDeque;
use vstd::prelude::*;
use vstd::string::StringExecFns;
use crate::model::{row, spaces, Node};
use crate::order::{key_lt, lemma_key_lt_transitive, rank, Rank};
use crate::text::{split, split_at_either};

verus! {

/// A trie keyed by path segments. Each node may hold a value and owns its
/// children, which it keeps in ascending order of their segments.
#[derive(Debug, PartialEq, Eq)]
pub struct Trie<T> {
    value: Option<T>,
    children: Vec<(String, Trie<T>)>,
}

/// Cuts `input` into the segments between the occurrences of `separator`.
pub fn translate(input: &str, separator: char) -> (keys: VecDeque<String>)
    ensures
        keys.deep_view() == split(input@, set![separator]),
{
    assert(set![separator, separator] =~= set![separator]);
    split_at_either(input, separator, separator)
}

/// A borrowed look at an optional value.
pub open spec fn opt_ref<T>(v: &Option<T>) -> Option<&T> {
    match *v {
        Some(x) => Some(&x),
        None => None,
    }
}

/// `out` is a text that `pretty_print` may give for `node` with the label
/// function `f` at depth `indent`: some label that `f` may return for the
/// node's value, on a line of its own, then the row of each child in order,
/// each followed by such a text for the child, one level deeper.
pub open spec fn renders<T, F: FnOnce(Option<&T>) -> String>(
    node: Node<T>,
    f: F,
    indent: nat,
    out: Seq<char>,
) -> bool
    decreases node,
{
    exists|label: String, texts: Seq<Seq<char>>|
        {
            &&& f.ensures((opt_ref(&node.value),), label)
            &&& texts.len() == node.children.len()
            &&& forall|i: int|
                0 <= i < node.children.len() ==> renders(
                    (#[trigger] node.children[i]).1,
                    f,
                    indent + 1,
                    texts[i],
                )
            &&& out == label@ + seq!['\n'] + node.rows(texts, indent, node.children.len() as int)
        }
}

/// Every label that `f` may return for a value spells what `label` says.
pub open spec fn labels_as<T, F: FnOnce(Option<&T>) -> String>(
    f: F,
    label: spec_fn(Option<T>) -> Seq<char>,
) -> bool {
    forall|v: Option<T>, s: String| #[trigger] f.ensures((opt_ref(&v),), s) ==> s@ == label(v)
}

/// Where the label function is known, the text is known: it is the rendering
/// of the trie under that function.
pub proof fn lemma_renders_known<T, F: FnOnce(Option<&T>) -> String>(
    node: Node<T>,
    f: F,
    label: spec_fn(Option<T>) -> Seq<char>,
    indent: nat,
    out: Seq<char>,
)
    requires
        labels_as(f, label),
        renders(node, f, indent, out),
    ensures
        out == node.render(label, indent),
    decreases node,
{
    let (s, texts): (String, Seq<Seq<char>>) = choose|s: String, texts: Seq<Seq<char>>|
        {
            &&& f.ensures((opt_ref(&node.value),), s)
            &&& texts.len() == node.children.len()
            &&& forall|i: int|
                0 <= i < node.children.len() ==> renders(
                    (#[trigger] node.children[i]).1,
                    f,
                    indent + 1,
                    texts[i],
                )
            &&& out == s@ + seq!['\n'] + node.rows(texts, indent, node.children.len() as int)
        };
    let known = node.subtexts(label, indent);
    assert(s@ == label(node.value));
    assert forall|i: int| 0 <= i < node.children.len() implies texts[i] == known[i] by {
        assert(renders(node.children[i].1, f, indent + 1, texts[i]));
        lemma_renders_known(node.children[i].1, f, label, indent + 1, texts[i]);
    }
    node.lemma_rows_same(texts, known, indent, node.children.len() as int);
}

impl<T> View for Trie<T> {
    type V = Node<T>;

    closed spec fn view(&self) -> Node<T> {
        self.model()
    }
}

impl<T> Trie<T> {
    /// The trie as a mathematical value: the strings replaced by what they
    /// spell, level by level.
    spec fn model(&self) -> Node<T>
        decreases self,
    {
        Node {
            value: self.value,
            children: Seq::new(
                self.children@.len(),
                |i: int|
                    if 0 <= i < self.children@.len() {
                        (self.children@[i].0@, self.children@[i].1.model())
                    } else {
                        arbitrary()
                    },
            ),
        }
    }

    /// The children are in ascending order of their segments, at every level.
    #[verifier::type_invariant]
    spec fn inv(&self) -> bool {
        self.model().wf()
    }

    /// What the view is made of, level by level.
    proof fn lemma_view(&self)
        ensures
            self@.value == self.value,
            self@.children.len() == self.children@.len(),
            forall|j: int|
                0 <= j < self.children@.len() ==> #[trigger] self@.children[j] == (
                    self.children@[j].0@,
                    self.children@[j].1@,
                ),
    {
    }

    /// A trie in which nothing is recorded.
    pub fn new() -> (t: Self)
        ensures
            t@ == Node::<T>::empty(),
            t@.wf(),
    {
        let t = Trie { value: None, children: Vec::new() };
        assert(t@.children =~= Seq::empty());
        t
    }

    /// Every trie is well formed: the type keeps it so. A call makes that
    /// known where a proof needs it, and does nothing else.
    pub fn ordered(&self)
        ensures
            self@.wf(),
    {
        proof {
            use_type_invariant(self);
        }
    }

    /// The value recorded at this node.
    pub fn value(&self) -> (r: Option<&T>)
        ensures
            r is Some <==> self@.value is Some,
            r matches Some(v) ==> self@.value == Some(*v),
    {
        self.value.as_ref()
    }

    /// Finds the place of `key` among the children, and whether a child is
    /// stored under it.
    fn locate(&self, key: &str) -> (r: (usize, bool))
        ensures
            r.0 == self@.slot(key@),
            r.1 == self@.holds(key@),
            r.0 <= self.children@.len(),
            r.1 ==> r.0 < self.children@.len(),
    {
        proof {
            use_type_invariant(self);
            self.lemma_view();
        }
        let mut lo: usize = 0;
        let mut hi: usize = self.children.len();
        let mut found = false;
        while lo < hi
            invariant
                self@.wf(),
                self@.children.len() == self.children@.len(),
                forall|j: int|
                    0 <= j < self.children@.len() ==> #[trigger] self@.children[j] == (
                        self.children@[j].0@,
                        self.children@[j].1@,
                    ),
                0 <= lo <= hi <= self.children@.len(),
                forall|j: int| 0 <= j < lo ==> key_lt(self@.children[j].0, key@),
                forall|j: int| hi <= j < self.children@.len() ==> !key_lt(self@.children[j].0, key@),
                found ==> hi < self.children@.len() && self@.children[hi as int].0 == key@,
                !found ==> forall|j: int| hi <= j < self.children@.len() ==> self@.children[j].0 != key@,
            decreases hi - lo,
        {
            let mid = lo + (hi - lo) / 2;
            let ghost at = self@.children[mid as int].0;
            match rank(self.children[mid].0.as_str(), key) {
                Rank::Before => {
                    assert forall|j: int| 0 <= j < mid + 1 implies key_lt(self@.children[j].0, key@) by {
                        if j < mid {
                            lemma_key_lt_transitive(self@.children[j].0, at, key@);
                        }
                    }
                    lo = mid + 1;
                },
                Rank::Same => {
                    assert forall|j: int| mid <= j < self.children@.len() implies !key_lt(
                        self@.children[j].0,
                        key@,
                    ) by {
                        if mid < j && key_lt(self@.children[j].0, key@) {
                            lemma_key_lt_transitive(at, self@.children[j].0, key@);
                        }
                    }
                    found = true;
                    hi = mid;
                },
                Rank::After => {
                    assert forall|j: int| mid <= j < self.children@.len() implies !key_lt(
                        self@.children[j].0,
                        key@,
                    ) && self@.children[j].0 != key@ by {
                        if mid < j {
                            if key_lt(self@.children[j].0, key@) {
                                lemma_key_lt_transitive(at, self@.children[j].0, key@);
                            }
                            if self@.children[j].0 == key@ {
                                lemma_key_lt_transitive(key@, at, self@.children[j].0);
                            }
                        }
                    }
                    hi = mid;
                },
            }
        }
        proof {
            self@.lemma_slot_is(key@, lo as int, 0);
        }
        (lo, found)
    }

    /// Records `value` at the path `keys`, creating the nodes that are missing
    /// along it. With no segments, the value goes to this node itself.
    pub fn set(&mut self, keys: VecDeque<String>, value: T)
        ensures
            final(self)@ == old(self)@.set(keys.deep_view(), value),
            final(self)@.wf(),
        decreases keys@.len(),
    {
        proof {
            use_type_invariant(&*self);
            self.lemma_view();
        }
        let mut keys = keys;
        let ghost path = keys.deep_view();
        let ghost before = self@;
        match keys.pop_front() {
            Some(key) => {
                assert(keys.deep_view() =~= path.drop_first());
                assert(key@ == path[0]);
                let (i, found) = self.locate(key.as_str());
                let mut children: Vec<(String, Trie<T>)> = Vec::new();
                proof {
                    let emptied = Trie { value: self.value, children: children };
                    emptied.lemma_view();
                }
                core::mem::swap(&mut self.children, &mut children);
                if !found {
                    children.insert(i, (key, Trie::new()));
                }
                children[i].1.set(keys, value);
                proof {
                    let after = Trie { value: self.value, children: children };
                    after.lemma_view();
                    let below = before.child_or_empty(path[0]).set(path.drop_first(), value);
                    before.lemma_with_child(path[0], below);
                    before.lemma_set_wf(path, value);
                    assert(after@.children =~= before.set(path, value).children);
                }
                self.children = children;
            },
            None => {
                proof {
                    let after = Trie { value: Some(value), children: self.children };
                    after.lemma_view();
                    assert(after@.children =~= before.children);
                    assert(after@ == before.set(path, value));
                }
                self.value = Some(value);
            },
        }
    }

    /// The node at the path `keys`, if every segment of it leads to a child.
    /// The empty path leads nowhere.
    pub fn get(&self, keys: VecDeque<String>) -> (r: Option<&Trie<T>>)
        ensures
            match r {
                Some(n) => self@.get(keys.deep_view()) == Some(n@) && n@.wf(),
                None => self@.get(keys.deep_view()) is None,
            },
        decreases keys@.len(),
    {
        proof {
            use_type_invariant(self);
        }
        let mut keys = keys;
        let ghost path = keys.deep_view();
        match keys.pop_front() {
            None => None,
            Some(key) => {
                assert(keys.deep_view() =~= path.drop_first());
                assert(key@ == path[0]);
                let (i, found) = self.locate(key.as_str());
                if !found {
                    None
                } else {
                    proof {
                        self@.lemma_child_wf(path[0]);
                    }
                    if keys.len() == 0 {
                        Some(&self.children[i].1)
                    } else {
                        self.children[i].1.get(keys)
                    }
                }
            },
        }
    }

    /// Appends the text of this subtree to `out`; `margin` is the white space
    /// that stands before the rows of this node's children.
    fn render_into<F>(&self, f: F, margin: &str, indent: Ghost<nat>, out: &mut String) where
        F: Copy + FnOnce(Option<&T>) -> String,

        requires
            forall|v: Option<&T>| f.requires((v,)),
            self@.children.len() > 0 ==> margin@ == spaces(indent@ + 1),
        ensures
            exists|text: Seq<char>|
                renders(self@, f, indent@, text) && final(out)@ == old(out)@ + text,
        decreases self,
    {
        proof {
            self.lemma_view();
            reveal_strlit("\n");
            reveal_strlit(" ");
            reveal_strlit("\u{2514} ");
            reveal_strlit(": ");
        }
        let ghost start = out@;
        let label = f(self.value.as_ref());
        out.append(label.as_str());
        out.append("\n");
        let ghost head = start + label@ + seq!['\n'];
        assert(out@ =~= head);
        let ghost mut texts: Seq<Seq<char>> = Seq::empty();
        if self.children.len() > 0 {
            let mut deeper = String::from_str(margin);
            deeper.append(" ");
            assert(deeper@ =~= spaces(indent@ + 2));
            let mut i: usize = 0;
            while i < self.children.len()
                invariant
                    forall|v: Option<&T>| #[trigger] f.requires((v,)),
                    margin@ == spaces(indent@ + 1),
                    deeper@ == spaces(indent@ + 2),
                    self@.children.len() == self.children@.len(),
                    forall|j: int|
                        0 <= j < self.children@.len() ==> #[trigger] self@.children[j] == (
                            self.children@[j].0@,
                            self.children@[j].1@,
                        ),
                    0 <= i <= self.children@.len(),
                    texts.len() == i,
                    forall|j: int|
                        0 <= j < i ==> renders(self@.children[j].1, f, indent@ + 1, #[trigger] texts[j]),
                    out@ == head + self@.rows(texts, indent@, i as int),
                decreases self.children@.len() - i,
            {
                proof {
                    reveal_strlit("\u{2514} ");
                    reveal_strlit(": ");
                }
                let ghost before = out@;
                let ghost prior = texts;
                out.append(margin);
                out.append("\u{2514} ");
                out.append(self.children[i].0.as_str());
                out.append(": ");
                let ghost lead = out@;
                self.children[i].1.render_into(f, deeper.as_str(), Ghost(indent@ + 1), out);
                proof {
                    let text = choose|text: Seq<char>|
                        renders(self.children@[i as int].1@, f, indent@ + 1, text) && out@ == lead + text;
                    texts = prior.push(text);
                    self@.lemma_rows_same(prior, texts, indent@, i as int);
                    assert(out@ =~= before + row(indent@, self@.children[i as int].0, text));
                    assert(out@ =~= head + self@.rows(texts, indent@, i + 1));
                }
                i += 1;
            }
        } else {
            assert(out@ =~= head + self@.rows(texts, indent@, 0));
        }
        proof {
            let text = label@ + seq!['\n'] + self@.rows(texts, indent@, self@.children.len() as int);
            assert(f.ensures((opt_ref(&self@.value),), label));
            assert(renders(self@, f, indent@, text));
            assert(out@ =~= start + text);
        }
    }

    /// The text of this subtree as an indented tree: `f` gives the label of
    /// each node's value; children follow their parent in ascending order of
    /// their segments, one more space to the right for each level.
    pub fn pretty_print<F>(&self, f: F, indent: usize) -> (out: String) where
        F: Copy + FnOnce(Option<&T>) -> String,

        requires
            forall|v: Option<&T>| f.requires((v,)),
            indent < usize::MAX || self@.children.len() == 0,
        ensures
            renders(self@, f, indent as nat, out@),
            forall|label: spec_fn(Option<T>) -> Seq<char>|
                labels_as(f, label) ==> out@ == self@.render(label, indent as nat),
    {
        proof {
            self.lemma_view();
        }
        let mut margin = String::new();
        if self.children.len() > 0 {
            let mut i: usize = 0;
            while i < indent + 1
                invariant
                    indent < usize::MAX,
                    0 <= i <= indent + 1,
                    margin@ == spaces(i as nat),
                decreases indent + 1 - i,
            {
                proof {
                    reveal_strlit(" ");
                }
                margin.append(" ");
                assert(margin@ =~= spaces((i + 1) as nat));
                i += 1;
            }
        }
        let mut out = String::new();
        self.render_into(f, margin.as_str(), Ghost(indent as nat), &mut out);
        proof {
            let text = choose|text: Seq<char>|
                renders(self@, f, indent as nat, text) && out@ == Seq::<char>::empty() + text;
            assert(out@ =~= text);
            assert forall|label: spec_fn(Option<T>) -> Seq<char>| labels_as(f, label) implies out@
                == self@.render(label, indent as nat) by {
                lemma_renders_known(self@, f, label, indent as nat, out@);
            }
        }
        out
    }
}

} // verus!

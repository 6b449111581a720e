//! The report: the tree of averages below the root directory.

use vstd::prelude::*;
use vstd::string::StringExecFns;
use crate::aggregate::{combined, contributions, label_text, lemma_silent_probes, Aggregate};
use crate::model::Node;
use crate::trie::{labels_as, Trie};
use crate::walk::{path_key, recorded, segments};

verus! {

/// The report for the root directory at `root`, shown under `name`: its
/// average and, indented below, its subdirectories with theirs; or one line
/// that says that nothing was found, where the trie has no node for the root.
pub open spec fn report_text(trie: Node<Aggregate>, root: Seq<char>, name: Seq<char>) -> Seq<char> {
    match trie.get(segments(root)) {
        Some(node) => name + ": "@ + node.render(|v: Option<Aggregate>| label_text(v), 0),
        None => "No video files found.\n"@,
    }
}

/// A trie in which nothing is recorded gives the report that nothing was
/// found, whatever the root.
pub proof fn lemma_report_of_nothing(root: Seq<char>, name: Seq<char>)
    ensures
        report_text(Node::<Aggregate>::empty(), root, name) == "No video files found.\n"@,
{
    Node::<Aggregate>::lemma_empty_get(segments(root));
}

/// A root directory that holds nothing but files without bitrate leaves the
/// trie empty, and the report says that nothing was found.
pub proof fn lemma_report_of_silent_files(root: Seq<char>, name: Seq<char>, probes: Seq<Option<u32>>)
    requires
        forall|i: int| 0 <= i < probes.len() ==> probes[i] is None,
    ensures
        ({
            let found = combined(contributions(probes, Seq::empty()));
            let trie = recorded(Node::<Aggregate>::empty(), root, found);
            &&& found == Some(Aggregate { sum: 0, count: 0 })
            &&& trie == Node::<Aggregate>::empty()
            &&& report_text(trie, root, name) == "No video files found.\n"@
        }),
{
    lemma_silent_probes(probes, Seq::empty());
    lemma_report_of_nothing(root, name);
}

/// Writes the report for the root directory at `root`, shown under `name`.
pub fn print_results(root: &str, name: &str, trie: &Trie<Aggregate>) -> (out: String)
    ensures
        out@ == report_text(trie@, root@, name@),
{
    match trie.get(path_key(root)) {
        None => String::from_str("No video files found.\n"),
        Some(node) => {
            let f = |value: Option<&Aggregate>| -> (s: String)
                ensures
                    s@ == label_text(
                        match value {
                            Some(a) => Some(*a),
                            None => None,
                        },
                    ),
                { Aggregate::label(value) };
            let tree = node.pretty_print(f, 0);
            proof {
                let label = |v: Option<Aggregate>| label_text(v);
                assert(labels_as(f, label));
            }
            let mut out = String::from_str(name);
            out.append(": ");
            out.append(tree.as_str());
            out
        },
    }
}

} // verus!

//! What one directory call of the traversal decides: what to do with each
//! entry, and, once the files are probed and the subdirectories are done, the
//! directory's aggregate, and whether and where it is recorded.

use std::collections::VecDeque;
use vstd::prelude::*;
use crate::aggregate::{combine_directory, combined, contributions, Aggregate};
use crate::model::Node;
use crate::text::{split, split_at_either};
use crate::trie::Trie;

verus! {

/// What the traversal does with one entry of a directory.
#[derive(Clone, Copy, Debug, PartialEq, Eq)]
pub enum Step {
    /// Ask the prober for the entry's bitrate.
    Probe,
    /// Walk the entry as a directory of its own.
    Descend,
}

/// Decides what to do with an entry: a file is probed and never entered,
/// anything else is entered and never probed.
pub fn step_for(is_file: bool) -> (step: Step)
    ensures
        step is Probe <==> is_file,
        step is Descend <==> !is_file,
{
    if is_file {
        Step::Probe
    } else {
        Step::Descend
    }
}

/// The segments of a path: the names between its separators. A slash and a
/// backslash both separate.
pub open spec fn segments(path: Seq<char>) -> Seq<Seq<char>> {
    split(path, set!['/', '\\'])
}

/// No aggregate in the trie has count zero.
pub open spec fn counted(trie: Node<Aggregate>) -> bool {
    forall|p: Seq<Seq<char>>| (#[trigger] trie.value_at(p)) matches Some(a) ==> a.count > 0
}

/// The trie as the traversal leaves it: every path in it leads on to a
/// recorded aggregate, and every recorded aggregate counts at least one file.
/// So a directory without contributing files below it is not in the trie, be
/// it with a zero count or without a value.
pub open spec fn sound(trie: Node<Aggregate>) -> bool {
    trie.wf() && counted(trie) && trie.rooted()
}

/// The trie after a directory with the aggregate `found` is done: recorded
/// under the directory's path where files contributed, untouched where none
/// did or where the totals did not fit.
pub open spec fn recorded(trie: Node<Aggregate>, path: Seq<char>, found: Option<Aggregate>) -> Node<
    Aggregate,
> {
    match found {
        Some(a) => if a.count != 0 {
            trie.set(segments(path), a)
        } else {
            trie
        },
        None => trie,
    }
}

/// A trie in which nothing is recorded is sound.
pub proof fn lemma_nothing_sound()
    ensures
        sound(Node::<Aggregate>::empty()),
{
    let nothing = Node::<Aggregate>::empty();
    assert forall|p: Seq<Seq<char>>| !nothing.contains(p) && nothing.value_at(p) is None by {
        Node::<Aggregate>::lemma_empty_get(p);
    }
}

/// In a sound trie, below every path that is in it, or at that path itself,
/// an aggregate is recorded that counts at least one file.
pub proof fn lemma_sound_path(trie: Node<Aggregate>, path: Seq<Seq<char>>)
    requires
        sound(trie),
        trie.contains(path),
    ensures
        exists|rest: Seq<Seq<char>>| (#[trigger] trie.value_at(path + rest)) matches Some(a) && a.count > 0,
{
    let rest = choose|rest: Seq<Seq<char>>| (#[trigger] trie.value_at(path + rest)) is Some;
    assert(trie.value_at(path + rest) is Some);
}

/// Recording a directory keeps the trie sound.
pub proof fn lemma_recorded_sound(trie: Node<Aggregate>, path: Seq<char>, found: Option<Aggregate>)
    requires
        sound(trie),
    ensures
        sound(recorded(trie, path, found)),
{
    let after = recorded(trie, path, found);
    if after != trie {
        let a = found->0;
        trie.lemma_set_wf(segments(path), a);
        trie.lemma_set_rooted(segments(path), a);
        assert forall|p: Seq<Seq<char>>| (#[trigger] after.value_at(p)) is Some implies after.value_at(
            p,
        )->0.count > 0 by {
            trie.lemma_set_value_at(segments(path), a, p);
            if p != segments(path) {
                assert(trie.value_at(p) is Some);
            }
        }
    }
}

/// The key of a directory in the trie: the segments of its path.
pub fn path_key(path: &str) -> (keys: VecDeque<String>)
    ensures
        keys.deep_view() == segments(path@),
{
    split_at_either(path, '/', '\\')
}

/// Finishes one directory: combines what the probes of its files gave with
/// the aggregates of its subdirectories, records the result under the
/// directory's path if at least one file contributed, and hands it back for
/// the parent directory. `None`, and nothing recorded, where a total does
/// not fit in 32 bits.
pub fn visit_folder(
    path: &str,
    probes: &Vec<Option<u32>>,
    subdirs: &Vec<Aggregate>,
    trie: &mut Trie<Aggregate>,
) -> (found: Option<Aggregate>)
    ensures
        found == combined(contributions(probes@, subdirs@)),
        final(trie)@ == recorded(old(trie)@, path@, found),
        final(trie)@.wf(),
        sound(old(trie)@) ==> sound(final(trie)@),
{
    let found = combine_directory(probes, subdirs);
    let ghost before = trie@;
    trie.ordered();
    match found {
        Some(a) => {
            if a.count != 0 {
                trie.set(path_key(path), a);
            }
        },
        None => {},
    }
    proof {
        if sound(before) {
            lemma_recorded_sound(before, path@, found);
        }
    }
    found
}

} // verus!

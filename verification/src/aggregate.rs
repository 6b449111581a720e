//! The (sum, count) pair kept for each directory, and how pairs combine.

use vstd::prelude::*;
use vstd::seq_lib::{commutative_foldl, lemma_fold_left_permutation};
use vstd::string::StringExecFns;
use crate::decimal::{decimal, decimal_string};

verus! {

/// Total bitrate and number of contributing files below one directory.
#[derive(Clone, Copy, Debug, PartialEq, Eq, Structural)]
pub struct Aggregate {
    pub sum: u32,
    pub count: u32,
}

/// What one probed file contributes: its bitrate, counted once, or nothing
/// where the probe gave no value.
pub open spec fn probe_share(bitrate: Option<u32>) -> Aggregate {
    match bitrate {
        Some(b) => Aggregate { sum: b, count: 1 },
        None => Aggregate { sum: 0, count: 0 },
    }
}

/// The sum of the members' sums and the sum of their counts.
pub open spec fn total(members: Seq<Aggregate>) -> (int, int)
    decreases members.len(),
{
    if members.len() == 0 {
        (0, 0)
    } else {
        let rest = total(members.drop_last());
        (rest.0 + members.last().sum, rest.1 + members.last().count)
    }
}

/// The members as one aggregate, where both totals fit.
pub open spec fn combined(members: Seq<Aggregate>) -> Option<Aggregate> {
    let t = total(members);
    if t.0 <= u32::MAX && t.1 <= u32::MAX {
        Some(Aggregate { sum: t.0 as u32, count: t.1 as u32 })
    } else {
        None
    }
}

/// Everything that contributes at one directory: a share for each probed file
/// and the aggregate of each subdirectory.
pub open spec fn contributions(probes: Seq<Option<u32>>, subdirs: Seq<Aggregate>) -> Seq<Aggregate> {
    probes.map_values(|p: Option<u32>| probe_share(p)) + subdirs
}

/// Integer average, 0 where nothing was counted.
pub open spec fn average_of(a: Aggregate) -> nat {
    if a.count == 0 {
        0
    } else {
        a.sum as nat / a.count as nat
    }
}

/// How a directory's line of the report ends: with its average bitrate, or
/// with the word for a directory of which no aggregate was recorded.
pub open spec fn label_text(value: Option<Aggregate>) -> Seq<char> {
    match value {
        Some(a) => decimal(average_of(a)) + " kb/s"@,
        None => "Untracked"@,
    }
}

/// Adding one more member adds its sum and its count.
spec fn add_member(t: (int, int), m: Aggregate) -> (int, int) {
    (t.0 + m.sum, t.1 + m.count)
}

proof fn lemma_total_is_fold(members: Seq<Aggregate>)
    ensures
        total(members) == members.fold_left((0int, 0int), |t: (int, int), m: Aggregate| add_member(t, m)),
    decreases members.len(),
{
    if members.len() > 0 {
        lemma_total_is_fold(members.drop_last());
    }
}

/// The totals of two members are their sums and their counts added.
pub proof fn lemma_total_pair(a: Aggregate, b: Aggregate)
    ensures
        total(seq![a, b]) == (a.sum + b.sum, a.count + b.count),
{
    reveal_with_fuel(total, 3);
    assert(seq![a, b].drop_last() =~= seq![a]);
    assert(seq![a].drop_last() =~= Seq::<Aggregate>::empty());
}

/// The totals of a part never exceed the totals of the whole.
pub proof fn lemma_total_prefix(members: Seq<Aggregate>, n: int)
    requires
        0 <= n <= members.len(),
    ensures
        total(members.take(n)).0 <= total(members).0,
        total(members.take(n)).1 <= total(members).1,
    decreases members.len(),
{
    if n < members.len() {
        assert(members.drop_last().take(n) =~= members.take(n));
        lemma_total_prefix(members.drop_last(), n);
    } else {
        assert(members.take(n) =~= members);
    }
}

/// Combination is associative: the totals of two groups taken together are the
/// sums of the totals of each.
pub proof fn lemma_total_concat(a: Seq<Aggregate>, b: Seq<Aggregate>)
    ensures
        total(a + b).0 == total(a).0 + total(b).0,
        total(a + b).1 == total(a).1 + total(b).1,
    decreases b.len(),
{
    if b.len() == 0 {
        assert(a + b =~= a);
    } else {
        assert((a + b).drop_last() =~= a + b.drop_last());
        lemma_total_concat(a, b.drop_last());
    }
}

/// Combination does not depend on order: two sequences with the same members,
/// each as often in one as in the other, have the same totals, hence the same
/// combined aggregate and the same average.
pub proof fn lemma_total_any_order(a: Seq<Aggregate>, b: Seq<Aggregate>)
    requires
        a.to_multiset() == b.to_multiset(),
    ensures
        total(a) == total(b),
        combined(a) == combined(b),
{
    let f = |t: (int, int), m: Aggregate| add_member(t, m);
    assert(commutative_foldl(f));
    lemma_total_is_fold(a);
    lemma_total_is_fold(b);
    lemma_fold_left_permutation(a, b, f, (0int, 0int));
}

proof fn lemma_shares_are_fold(probes: Seq<Option<u32>>)
    ensures
        total(probes.map_values(|p: Option<u32>| probe_share(p))) == probes.fold_left(
            (0int, 0int),
            |t: (int, int), p: Option<u32>| add_member(t, probe_share(p)),
        ),
    decreases probes.len(),
{
    let share = |p: Option<u32>| probe_share(p);
    if probes.len() > 0 {
        assert(probes.map_values(share).drop_last() =~= probes.drop_last().map_values(share));
        lemma_shares_are_fold(probes.drop_last());
    }
}

/// The aggregate of a directory does not depend on the order in which the
/// probes of its files complete, nor on the order of its subdirectories.
pub proof fn lemma_directory_any_order(
    probes: Seq<Option<u32>>,
    subdirs: Seq<Aggregate>,
    other_probes: Seq<Option<u32>>,
    other_subdirs: Seq<Aggregate>,
)
    requires
        probes.to_multiset() == other_probes.to_multiset(),
        subdirs.to_multiset() == other_subdirs.to_multiset(),
    ensures
        combined(contributions(probes, subdirs)) == combined(contributions(other_probes, other_subdirs)),
{
    let share = |p: Option<u32>| probe_share(p);
    let f = |t: (int, int), p: Option<u32>| add_member(t, probe_share(p));
    assert(commutative_foldl(f));
    lemma_shares_are_fold(probes);
    lemma_shares_are_fold(other_probes);
    lemma_fold_left_permutation(probes, other_probes, f, (0int, 0int));
    lemma_total_any_order(subdirs, other_subdirs);
    lemma_total_concat(probes.map_values(share), subdirs);
    lemma_total_concat(other_probes.map_values(share), other_subdirs);
}

/// Files for which the probe gave no value contribute nothing: where no file
/// of a directory has a bitrate, the directory's aggregate is that of its
/// subdirectories alone, and with a single subdirectory it is exactly that
/// subdirectory's aggregate.
pub proof fn lemma_silent_probes(probes: Seq<Option<u32>>, subdirs: Seq<Aggregate>)
    requires
        forall|i: int| 0 <= i < probes.len() ==> probes[i] is None,
    ensures
        combined(contributions(probes, subdirs)) == combined(subdirs),
        subdirs.len() == 1 ==> combined(contributions(probes, subdirs)) == Some(subdirs[0]),
        subdirs.len() == 0 ==> combined(contributions(probes, subdirs)) == Some(
            Aggregate { sum: 0, count: 0 },
        ),
{
    let shares = probes.map_values(|p: Option<u32>| probe_share(p));
    lemma_nothing_counted(shares);
    lemma_total_concat(shares, subdirs);
    if subdirs.len() == 1 {
        assert(subdirs.drop_last() =~= Seq::<Aggregate>::empty());
        assert(total(subdirs.drop_last()) == (0int, 0int));
        assert(total(subdirs) == (subdirs[0].sum as int, subdirs[0].count as int));
    }
}

proof fn lemma_nothing_counted(members: Seq<Aggregate>)
    requires
        forall|i: int| 0 <= i < members.len() ==> members[i] == (Aggregate { sum: 0, count: 0 }),
    ensures
        total(members) == (0int, 0int),
    decreases members.len(),
{
    if members.len() > 0 {
        lemma_nothing_counted(members.drop_last());
    }
}

/// The combined aggregate holds the sum of the members' sums and the sum of
/// their counts, so its average is the one divided by the other.
pub proof fn lemma_combined_average(members: Seq<Aggregate>)
    ensures
        combined(members) matches Some(a) ==> {
            &&& a.sum == total(members).0
            &&& a.count == total(members).1
            &&& average_of(a) == if total(members).1 == 0 {
                0
            } else {
                total(members).0 / total(members).1
            }
        },
        combined(members) is None <==> total(members).0 > u32::MAX || total(members).1 > u32::MAX,
        total(members).0 >= 0,
        total(members).1 >= 0,
{
    lemma_total_prefix(members, 0);
    assert(members.take(0) =~= Seq::<Aggregate>::empty());
}

impl Aggregate {
    /// What one probed file contributes.
    pub fn of_probe(bitrate: Option<u32>) -> (r: Aggregate)
        ensures
            r == probe_share(bitrate),
    {
        match bitrate {
            Some(b) => Aggregate { sum: b, count: 1 },
            None => Aggregate { sum: 0, count: 0 },
        }
    }

    /// Both aggregates as one; `None` where a total does not fit in 32 bits.
    pub fn checked_combine(self, other: Aggregate) -> (r: Option<Aggregate>)
        ensures
            r == combined(seq![self, other]),
    {
        proof {
            lemma_total_pair(self, other);
        }
        match (self.sum.checked_add(other.sum), self.count.checked_add(other.count)) {
            (Some(sum), Some(count)) => Some(Aggregate { sum, count }),
            _ => None,
        }
    }

    /// The label of a directory in the report.
    pub fn label(value: Option<&Aggregate>) -> (s: String)
        ensures
            s@ == label_text(
                match value {
                    Some(a) => Some(*a),
                    None => None,
                },
            ),
    {
        match value {
            Some(a) => {
                let mut s = decimal_string(a.average());
                s.append(" kb/s");
                s
            },
            None => String::from_str("Untracked"),
        }
    }

    /// The average bitrate: the sum divided by the count, rounded down, and 0
    /// where nothing was counted.
    pub fn average(&self) -> (r: u32)
        ensures
            r == average_of(*self),
    {
        if self.count == 0 {
            0
        } else {
            self.sum / self.count
        }
    }
}

/// The aggregate of one directory, from what the probes of its files gave and
/// from the aggregates of its subdirectories: the bitrates that were found
/// and the subdirectories' sums make the sum; the files for which a bitrate
/// was found and the subdirectories' counts make the count. `None` where a
/// total does not fit in 32 bits.
pub fn combine_directory(probes: &Vec<Option<u32>>, subdirs: &Vec<Aggregate>) -> (r: Option<Aggregate>)
    ensures
        r == combined(contributions(probes@, subdirs@)),
{
    let ghost all = contributions(probes@, subdirs@);
    let mut sofar = Aggregate { sum: 0, count: 0 };
    let mut i: usize = 0;
    while i < probes.len()
        invariant
            all == contributions(probes@, subdirs@),
            0 <= i <= probes@.len(),
            total(all.take(i as int)) == (sofar.sum as int, sofar.count as int),
        decreases probes@.len() - i,
    {
        proof {
            assert(all.take(i + 1).drop_last() =~= all.take(i as int));
            assert(all[i as int] == probe_share(probes@[i as int]));
            lemma_total_prefix(all, i + 1);
            lemma_total_pair(sofar, all[i as int]);
        }
        match sofar.checked_combine(Aggregate::of_probe(probes[i])) {
            Some(more) => {
                sofar = more;
            },
            None => {
                return None;
            },
        }
        i += 1;
    }
    let mut j: usize = 0;
    while j < subdirs.len()
        invariant
            all == contributions(probes@, subdirs@),
            0 <= j <= subdirs@.len(),
            total(all.take(probes@.len() + j)) == (sofar.sum as int, sofar.count as int),
        decreases subdirs@.len() - j,
    {
        proof {
            let k = probes@.len() + j;
            assert(all.take(k + 1).drop_last() =~= all.take(k));
            assert(all[k] == subdirs@[j as int]);
            lemma_total_prefix(all, k + 1);
            lemma_total_pair(sofar, all[k]);
        }
        match sofar.checked_combine(subdirs[j]) {
            Some(more) => {
                sofar = more;
            },
            None => {
                return None;
            },
        }
        j += 1;
    }
    assert(all.take(probes@.len() + j) =~= all);
    Some(sofar)
}

} // verus!

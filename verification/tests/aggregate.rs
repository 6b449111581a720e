use bitrate_tree::aggregate::{combine_directory, Aggregate};

fn agg(sum: u32, count: u32) -> Aggregate {
    Aggregate { sum, count }
}

#[test]
fn a_probe_counts_once_or_not_at_all() {
    assert_eq!(Aggregate::of_probe(Some(300)), agg(300, 1));
    assert_eq!(Aggregate::of_probe(Some(0)), agg(0, 1));
    assert_eq!(Aggregate::of_probe(None), agg(0, 0));
}

#[test]
fn combine_adds_sums_and_counts() {
    assert_eq!(agg(100, 1).checked_combine(agg(300, 1)), Some(agg(400, 2)));
    assert_eq!(agg(0, 0).checked_combine(agg(5, 2)), Some(agg(5, 2)));
    assert_eq!(agg(u32::MAX - 1, 3).checked_combine(agg(1, u32::MAX - 3)), Some(agg(u32::MAX, u32::MAX)));
}

#[test]
fn combine_is_none_when_a_total_does_not_fit() {
    assert_eq!(agg(u32::MAX, 1).checked_combine(agg(1, 1)), None);
    assert_eq!(agg(1, u32::MAX).checked_combine(agg(1, 1)), None);
    assert_eq!(combine_directory(&vec![], &vec![agg(u32::MAX, 1), agg(0, 0), agg(1, 0)]), None);
    assert_eq!(combine_directory(&vec![Some(u32::MAX), Some(1)], &vec![]), None);
    assert_eq!(combine_directory(&vec![Some(1)], &vec![agg(0, u32::MAX)]), None);
}

#[test]
fn directory_of_nothing_counts_nothing() {
    assert_eq!(combine_directory(&vec![], &vec![]), Some(agg(0, 0)));
    assert_eq!(combine_directory(&vec![None, None], &vec![agg(0, 0)]), Some(agg(0, 0)));
}

#[test]
fn directory_adds_every_subdirectory() {
    assert_eq!(combine_directory(&vec![], &vec![agg(1, 1), agg(20, 2), agg(300, 3)]), Some(agg(321, 6)));
}

#[test]
fn totals_at_the_limit_still_fit() {
    assert_eq!(
        combine_directory(&vec![Some(u32::MAX - 5), None], &vec![agg(5, u32::MAX - 1)]),
        Some(agg(u32::MAX, u32::MAX))
    );
    assert_eq!(combine_directory(&vec![Some(u32::MAX - 5), Some(0)], &vec![agg(5, u32::MAX - 1)]), None);
}

#[test]
fn directory_adds_found_bitrates_and_subdirectories() {
    let probes = vec![Some(100), None, Some(250), None];
    let subdirs = vec![agg(300, 1), agg(0, 0), agg(1000, 4)];
    assert_eq!(combine_directory(&probes, &subdirs), Some(agg(1650, 7)));
}

#[test]
fn combination_does_not_depend_on_order() {
    let probes = [Some(100), None, Some(250), Some(7)];
    let subdirs = [agg(300, 1), agg(12, 5), agg(1000, 4)];
    let expected = Some(agg(1669, 13));
    let orders: [[usize; 4]; 6] = [[0, 1, 2, 3], [3, 2, 1, 0], [1, 0, 3, 2], [2, 3, 0, 1], [0, 2, 1, 3], [3, 0, 2, 1]];
    let sub_orders: [[usize; 3]; 6] = [[0, 1, 2], [0, 2, 1], [1, 0, 2], [1, 2, 0], [2, 0, 1], [2, 1, 0]];
    for o in orders {
        for s in sub_orders {
            let p: Vec<Option<u32>> = o.iter().map(|&i| probes[i]).collect();
            let d: Vec<Aggregate> = s.iter().map(|&i| subdirs[i]).collect();
            assert_eq!(combine_directory(&p, &d), expected);
        }
    }
    let left = agg(1, 2).checked_combine(agg(3, 4)).unwrap().checked_combine(agg(5, 6));
    let right = agg(3, 4).checked_combine(agg(5, 6)).unwrap().checked_combine(agg(1, 2));
    assert_eq!(left, right);
    assert_eq!(left, Some(agg(9, 12)));
}

#[test]
fn average_is_integer_division() {
    assert_eq!(agg(400, 2).average(), 200);
    assert_eq!(agg(300, 1).average(), 300);
    assert_eq!(agg(7, 2).average(), 3);
    assert_eq!(agg(1, 2).average(), 0);
    assert_eq!(agg(u32::MAX, 1).average(), u32::MAX);
    assert_eq!(agg(u32::MAX, u32::MAX).average(), 1);
}

#[test]
fn average_of_nothing_is_zero() {
    assert_eq!(agg(0, 0).average(), 0);
    assert_eq!(agg(5, 0).average(), 0);
}

#[test]
fn label_shows_the_average_or_untracked() {
    assert_eq!(Aggregate::label(None), "Untracked");
    assert_eq!(Aggregate::label(Some(&agg(400, 2))), "200 kb/s");
    assert_eq!(Aggregate::label(Some(&agg(7, 2))), "3 kb/s");
    assert_eq!(Aggregate::label(Some(&agg(0, 0))), "0 kb/s");
    assert_eq!(Aggregate::label(Some(&agg(u32::MAX, 1))), "4294967295 kb/s");
}

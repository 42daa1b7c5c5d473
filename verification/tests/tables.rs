use traffic_analyzer::histogram::{axis_top, max_count, tally, tally_capped};
use traffic_analyzer::keyed::{Counts, Groups, Keyed};
use traffic_analyzer::order::{is_text_le, sort};
use traffic_analyzer::ratio::{Ratio, VisitorRatioStat};

fn stat(ip: &str, num: u64, den: u64) -> VisitorRatioStat {
    VisitorRatioStat { ip: ip.to_string(), ratio: Ratio { num, den } }
}

#[test]
fn sorting_orders_and_keeps_values() {
    let words: Vec<String> =
        ["b", "a", "ab", "", "가", "a"].iter().map(|s| s.to_string()).collect();
    let mut expected = words.clone();
    expected.sort();
    assert_eq!(sort(words), expected);
}

#[test]
fn sorting_is_stable() {
    let list = vec![stat("x", 1, 2), stat("y", 3, 4), stat("z", 2, 4), stat("w", 6, 8)];
    let ips: Vec<String> = sort(list).into_iter().map(|s| s.ip).collect();
    assert_eq!(ips, ["y", "w", "x", "z"]);
}

#[test]
fn text_order_agrees_with_std() {
    let words = ["", "a", "ab", "b", "10.0.0.2", "9.9.9.9", "가", "\u{10ffff}", "\u{ffff}"];
    for a in words {
        for b in words {
            assert_eq!(is_text_le(a, b), a <= b);
        }
    }
}

#[test]
fn a_table_remembers_the_order_of_its_keys() {
    let mut t: Keyed<u32> = Keyed::new();
    t.store("b", 1);
    t.store("a", 2);
    t.store("b", 3);
    assert_eq!(t.len(), 2);
    assert_eq!((t.key(0).as_str(), *t.value(0)), ("b", 3));
    assert_eq!((t.key(1).as_str(), *t.value(1)), ("a", 2));
    assert_eq!(t.position("a"), Some(1));
    assert_eq!(t.position("c"), None);
    *t.value_mut(1) = 9;
    assert_eq!(*t.value(1), 9);
    t.insert("c".to_string(), 4);
    assert_eq!(t.position("c"), Some(2));
}

#[test]
fn groups_hold_what_was_filed_in_order() {
    let mut g: Groups<u32> = Groups::new();
    for (k, v) in [("x", 1), ("y", 2), ("x", 3)] {
        g.file(k, v);
    }
    assert_eq!(g.len(), 2);
    assert_eq!((g.key(0).as_str(), g.list(0)), ("x", &vec![1, 3]));
    assert_eq!((g.key(1).as_str(), g.list(1)), ("y", &vec![2]));
    let filed: usize = (0..g.len()).map(|i| g.list(i).len()).sum();
    assert_eq!(filed, 3);
}

#[test]
fn counts_add_up() {
    let mut c = Counts::new();
    for (k, n) in [("x", 1), ("y", 2), ("x", 3)] {
        c.add_to(k, n);
    }
    assert_eq!((c.key(0).as_str(), c.count(0)), ("x", 4));
    assert_eq!((c.key(1).as_str(), c.count(1)), ("y", 2));
    assert_eq!((c.get("x"), c.get("y"), c.get("z")), (4, 2, 0));
    assert_eq!((0..c.len()).map(|i| c.count(i)).sum::<u64>(), 6);
}

#[test]
fn ratios_compare_exactly() {
    let half = Ratio { num: 1, den: 2 };
    let third = Ratio { num: 1, den: 3 };
    let none = Ratio { num: 0, den: 7 };
    let to_nothing = Ratio { num: 5, den: 0 };
    assert!(half.is_ge(&third) && !third.is_ge(&half));
    assert!(half.is_ge(&Ratio { num: 2, den: 4 }) && Ratio { num: 2, den: 4 }.is_ge(&half));
    assert!(none.is_zero() && to_nothing.is_zero() && !half.is_zero());
    assert!(none.is_ge(&to_nothing) && to_nothing.is_ge(&none));
    assert!(third.is_below(1, 2) && !half.is_below(1, 2) && to_nothing.is_below(1, 100));
    let big = Ratio { num: u64::MAX, den: u64::MAX };
    assert!(big.is_ge(&half) && !big.is_below(1, 1) && big.is_below(u32::MAX, 1));
}

#[test]
fn nothing_is_less_than_nothing() {
    let none = Ratio { num: 0, den: 7 };
    assert!(!none.is_below(0, 1) && !none.is_below(1, 0) && none.is_below(1, 1));
    for a in [none, Ratio { num: 1, den: 2 }, Ratio { num: 3, den: 0 }] {
        for (num, den) in [(0, 1), (1, 2), (1, 3), (2, 0)] {
            let b = Ratio { num, den };
            assert_eq!(a.is_below(num as u32, den as u32), !a.is_ge(&b));
        }
    }
}

#[test]
fn sorting_the_same_texts_gives_the_same_list() {
    let words = |list: [&str; 4]| -> Vec<String> { list.iter().map(|s| s.to_string()).collect() };
    assert_eq!(sort(words(["b", "a", "c", "a"])), sort(words(["a", "c", "a", "b"])));
}

#[test]
fn ratio_order_carries_over() {
    let all = [
        Ratio { num: 3, den: 1 },
        Ratio { num: 1, den: 1 },
        Ratio { num: 2, den: 3 },
        Ratio { num: 0, den: 0 },
    ];
    for i in 0..all.len() {
        for j in 0..all.len() {
            assert_eq!(all[i].is_ge(&all[j]), i <= j);
        }
    }
}

#[test]
fn histograms_leave_out_or_cap() {
    let values = vec![0, 1, 1, 2, 9];
    assert_eq!(tally(&values, 3), [1, 2, 1]);
    assert_eq!(tally_capped(&values, 3), [1, 2, 2]);
    assert_eq!(tally(&values, 0), Vec::<usize>::new());
}

#[test]
fn histogram_columns_add_up() {
    let values = vec![0, 4, 4, 7, 2, 2, 2];
    assert_eq!(tally(&values, 8).iter().sum::<usize>(), values.len());
    assert_eq!(tally_capped(&values, 3).iter().sum::<usize>(), values.len());
}

#[test]
fn the_largest_count() {
    assert_eq!(max_count(&vec![3, 9, 4]), 9);
    assert_eq!(max_count(&vec![]), 0);
}

#[test]
fn the_axis_ends_above_the_largest_count() {
    for (counts, top) in [
        (vec![], 1),
        (vec![0, 0], 1),
        (vec![3, 9], 10),
        (vec![10], 11),
        (vec![19, 4], 20),
        (vec![20], 22),
        (vec![100, 57], 110),
    ] {
        assert_eq!(axis_top(&counts), top);
        assert!(counts.iter().all(|&c| (c as u64) < top));
    }
}

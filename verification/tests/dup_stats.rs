use dice_state::dup_stats::{dup_string_stats, fnv1a, DupStringStats};

fn heap(strings: &[&str]) -> Vec<String> {
    strings.iter().map(|s| (*s).to_owned()).collect()
}

#[test]
fn test_dup_string_stats() {
    let a = heap(&["shared-flag-string", "only-in-a"]);
    let b = heap(&["shared-flag-string", "only-in-b!"]);
    let c = heap(&["shared-flag-string"]);
    let heaps = vec![a, b, c];

    let stats = dup_string_stats(&heaps, 10);
    assert_eq!(stats.heaps, 3);
    assert_eq!(stats.total_strings, 5);
    assert_eq!(stats.total_bytes, 18 + 9 + 18 + 18 + 10);
    assert_eq!(stats.distinct_strings, 3);
    assert_eq!(stats.distinct_bytes, 18 + 9 + 10);
    assert_eq!(stats.top.len(), 1);
    let t = &stats.top[0];
    assert_eq!((t.sample.as_str(), t.len, t.copies), ("shared-flag-string", 18, 3));
    assert_eq!(t.wasted_bytes(), 36);
}

#[test]
fn test_dup_string_stats_empty() {
    let stats = dup_string_stats(&vec![], 10);
    assert_eq!(stats.total_strings, 0);
    assert_eq!(stats.distinct_bytes, 0);
    assert!(stats.top.is_empty());
}

#[test]
fn hashes_are_fnv_1a() {
    assert_eq!(fnv1a(""), 0xcbf2_9ce4_8422_2325);
    assert_eq!(fnv1a("a"), 0xaf63_dc4c_8601_ec8c);
    assert_eq!(fnv1a("foobar"), 0x8594_4171_f739_67e8);
}

#[test]
fn offenders_are_ranked_and_ties_broken_by_content() {
    // Wasted: "bb" 2, "aa" 2, "cccc" 4, "d" 2 (three copies), "eeee" 4.
    let heaps = vec![
        heap(&["bb", "aa", "cccc", "d", "eeee", "once"]),
        heap(&["bb", "aa", "cccc", "d", "eeee"]),
        heap(&["d"]),
    ];
    let samples = |n: usize| -> Vec<String> {
        dup_string_stats(&heaps, n).top.into_iter().map(|t| t.sample).collect()
    };
    assert_eq!(samples(10), heap(&["cccc", "eeee", "aa", "bb", "d"]));
    // Among those that waste the same, the first in the order of text are worse offenders.
    assert_eq!(samples(4), heap(&["cccc", "eeee", "aa", "bb"]));
    assert_eq!(samples(3), heap(&["cccc", "eeee", "aa"]));
    assert_eq!(samples(1), heap(&["cccc"]));
    assert_eq!(samples(0), heap(&[]));

    let stats = dup_string_stats(&heaps, 10);
    let wasted: usize = stats.top.iter().map(|t| t.wasted_bytes()).sum();
    assert_eq!(wasted, stats.total_bytes - stats.distinct_bytes);
}

#[test]
fn ties_at_the_cut_are_broken_by_content() {
    let heaps = vec![heap(&["b", "cc"]), heap(&["b", "cc"]), heap(&["b"])];
    let top = dup_string_stats(&heaps, 1).top;
    assert_eq!((top[0].sample.as_str(), top[0].copies), ("b", 3));
}

#[test]
fn the_order_of_heaps_has_no_say() {
    let heaps = vec![
        heap(&["bb", "aa", "cccc", "d"]),
        heap(&["d", "bb", "only"]),
        heap(&["cccc", "d", "aa"]),
    ];
    for order in [[0, 1, 2], [0, 2, 1], [1, 0, 2], [1, 2, 0], [2, 0, 1], [2, 1, 0]] {
        let reordered = order.iter().map(|i| heaps[*i].clone()).collect();
        for top_n in [0, 2, 10] {
            assert_eq!(dup_string_stats(&reordered, top_n), dup_string_stats(&heaps, top_n));
        }
    }
}

#[test]
fn lengths_are_in_bytes() {
    let heaps = vec![heap(&["\u{e9}\u{4e2d}"]), heap(&["\u{e9}\u{4e2d}", ""]), heap(&[""])];
    let stats = dup_string_stats(&heaps, 10);
    assert_eq!(stats.total_bytes, 10);
    assert_eq!(stats.top[0].len, 5);
    // The empty string occurs twice and wastes nothing.
    assert_eq!((stats.top[1].sample.as_str(), stats.top[1].copies), ("", 2));
    assert_eq!(stats.top[1].wasted_bytes(), 0);
    assert_eq!(DupStringStats::default().heaps, 0);
}

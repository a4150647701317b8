use ngram_merge::cascade::{merge_pass, merge_runs};
use ngram_merge::entry::Entry;
use ngram_merge::merge::merge_two_runs;
use ngram_merge::run;
use ngram_merge::schedule::{order_newest_first, plan_pass, run_file_name, run_generation, MergeJob};

fn ent(words: &[&str], n: u128) -> Entry {
    Entry {
        ngram: words.iter().map(|w| w.to_string()).collect(),
        match_count: n,
    }
}

fn lines(v: &[&str]) -> Vec<String> {
    v.iter().map(|s| s.to_string()).collect()
}

#[test]
fn merge_runs_of_none_and_one() {
    assert_eq!(merge_runs(&vec![]), Some(vec![]));
    let one = vec![ent(&["a"], 1), ent(&["b"], 2)];
    assert_eq!(merge_runs(&vec![one.clone()]), Some(one));
}

#[test]
fn merge_runs_converges_to_full_aggregate() {
    let runs = vec![
        vec![ent(&["a"], 1), ent(&["c"], 1)],
        vec![ent(&["a"], 2), ent(&["b"], 5)],
        vec![ent(&["c"], 3)],
        vec![ent(&["a"], 4), ent(&["d"], 1)],
        vec![ent(&["b"], 1), ent(&["e"], 9)],
    ];
    let out = merge_runs(&runs).unwrap();
    assert_eq!(
        out,
        vec![ent(&["a"], 7), ent(&["b"], 6), ent(&["c"], 4), ent(&["d"], 1), ent(&["e"], 9)]
    );
}

#[test]
fn merge_pass_halves_and_carries_odd_run() {
    let runs = vec![
        vec![ent(&["a"], 1)],
        vec![ent(&["a"], 2)],
        vec![ent(&["z"], 3)],
    ];
    let next = merge_pass(&runs).unwrap();
    assert_eq!(next, vec![vec![ent(&["a"], 3)], vec![ent(&["z"], 3)]]);
    assert_eq!(merge_pass(&vec![]), Some(vec![]));
}

#[test]
fn merge_overflow_is_none() {
    let a = vec![ent(&["k"], u128::MAX)];
    let b = vec![ent(&["k"], 1)];
    assert_eq!(merge_two_runs(&a, &b), None);
    assert_eq!(merge_runs(&vec![a.clone(), b.clone()]), None);
    assert_eq!(merge_two_runs(&a, &vec![ent(&["j"], 1)]).map(|v| v.len()), Some(2));
}

#[test]
fn run_aggregates_across_batches() {
    let input = lines(&[
        "c a\t2000\t1\t1",
        "a b\t2000\t2\t1",
        "b c\t2000\t3\t1",
        "nonsense",
        "a c\t2000\t4\t1",
        "a b\t2000\t5\t1",
        "c a_X\t2010\t10\t2",
        "a _b\t2000\t8\t1",
    ]);
    let expected = vec![
        ent(&["a", "b"], 7),
        ent(&["a", "c"], 4),
        ent(&["b", "c"], 3),
        ent(&["c", "a"], 11),
    ];
    for batch in 1..10 {
        assert_eq!(run(&input, batch), Some(expected.clone()));
    }
    assert_eq!(run(&vec![], 3), Some(vec![]));
}

#[test]
fn run_overflow_is_none() {
    let input = lines(&[
        "x\t1\t340282366920938463463374607431768211455\t1",
        "y\t1\t1\t1",
        "x\t1\t1\t1",
    ]);
    assert_eq!(run(&input, 1), None);
    assert_eq!(run(&input, 3), None);
}

#[test]
fn run_names_round_trip() {
    assert_eq!(run_file_name(0), "0000000000.txt.gz");
    assert_eq!(run_file_name(42), "0000000042.txt.gz");
    assert_eq!(run_file_name(12345678901), "12345678901.txt.gz");
    for g in [0u64, 7, 99, 1234567890, 98765432109] {
        assert_eq!(run_generation(&run_file_name(g)), Some(g));
    }
    assert_eq!(run_generation(".DS_Store"), None);
    assert_eq!(run_generation("0000000001.txt"), None);
    assert_eq!(run_generation(".txt.gz"), None);
    assert_eq!(run_generation("+000000001.txt.gz"), None);
    assert_eq!(run_generation("00000a0001.txt.gz"), None);
    assert_eq!(run_generation("18446744073709551615.txt.gz"), None);
    assert_eq!(run_generation("18446744073709551614.txt.gz"), Some(18446744073709551614));
}

#[test]
fn pass_plan_pairs_newest_first() {
    let gens = vec![0u64, 3, 1, 2, 4];
    assert_eq!(order_newest_first(&gens), vec![4, 1, 3, 2, 0]);
    assert_eq!(
        plan_pass(&gens),
        vec![
            MergeJob { left: 4, right: 1, generation: 5 },
            MergeJob { left: 3, right: 2, generation: 3 },
        ]
    );
    assert_eq!(plan_pass(&vec![]), vec![]);
    assert_eq!(plan_pass(&vec![9]), vec![]);
}

use ngram_merge::counter::EntryCounter;
use ngram_merge::entry::Entry;
use ngram_merge::merge::{merge_step, merge_two_runs, MergeStep};
use ngram_merge::ingest::count_data;
use ngram_merge::order::EntryOrd;

fn ent(words: &[&str], n: u128) -> Entry {
    Entry {
        ngram: words.iter().map(|w| w.to_string()).collect(),
        match_count: n,
    }
}

#[test]
fn from_raw_line() {
    let query = vec![
        "a b\t2019\t10\t1",
        "c_NOUN d\t2019\t20\t1",
        "e_NOUN _f_\t2019\t30\t1",
        "あ い\t2019\t10\t1",
    ];
    let ans = vec![
        Some(Entry {
            ngram: vec!["a".to_string(), "b".to_string()],
            match_count: 10,
        }),
        Some(Entry {
            ngram: vec!["c".to_string(), "d".to_string()],
            match_count: 20,
        }),
        None,
        Some(Entry {
            ngram: vec!["あ".to_string(), "い".to_string()],
            match_count: 10,
        }),
    ];

    for (q, a) in query.into_iter().zip(ans.into_iter()) {
        assert_eq!(Entry::from_raw_line(q), a);
    }
}

#[test]
fn from_parsed_line() {
    assert_eq!(
        Entry::from_parsed_line("a b\t1"),
        Entry {
            ngram: vec!["a".to_string(), "b".to_string()],
            match_count: 1
        }
    )
}

#[test]
fn fmt() {
    assert_eq!(Entry::from_parsed_line("a b\t1").render(), "a b\t1")
}

#[test]
fn entry_cmp() {
    let entry = Entry::from_parsed_line("b b\t1");
    let others = vec![
        Entry::from_parsed_line("b c\t6"),
        Entry::from_parsed_line("b b\t5"),
        Entry::from_parsed_line("a b\t4"),
    ];
    let answer = vec![EntryOrd::Less, EntryOrd::Equal, EntryOrd::Grater];

    for (other, ans) in others.into_iter().zip(answer.into_iter()) {
        assert_eq!(entry.entry_cmp(&other), ans);
    }
}

#[test]
fn add() {
    let entries = vec![
        Entry::from_parsed_line("c a\t1"),
        Entry::from_parsed_line("a b\t2"),
        Entry::from_parsed_line("b c\t3"),
        Entry::from_parsed_line("a c\t4"),
        Entry::from_parsed_line("a b\t5"),
    ];
    let answer = vec![
        Entry::from_parsed_line("a b\t7"),
        Entry::from_parsed_line("a c\t4"),
        Entry::from_parsed_line("b c\t3"),
        Entry::from_parsed_line("c a\t1"),
    ];

    let mut counter = EntryCounter::new();

    for ent in &entries {
        counter.add(ent);
    }

    let ret = counter.entries();

    assert_eq!(ret, answer);
}

#[test]
fn raw_line_rejects_wrong_arity_and_bad_count() {
    assert_eq!(Entry::from_raw_line("a b\t2019\t10"), None);
    assert_eq!(Entry::from_raw_line("a b\t2019\t10\t1\t5"), None);
    assert_eq!(Entry::from_raw_line("a b\t2019\tx\t1"), None);
    assert_eq!(Entry::from_raw_line("a b\t2019\t-3\t1"), None);
    assert_eq!(Entry::from_raw_line("a b\t2019\t\t1"), None);
    assert_eq!(Entry::from_raw_line("a b\t2019\t+7\t1"), Some(ent(&["a", "b"], 7)));
    assert_eq!(
        Entry::from_raw_line("a\t2019\t340282366920938463463374607431768211456\t1"),
        None
    );
    assert_eq!(
        Entry::from_raw_line("a\t2019\t340282366920938463463374607431768211455\t1"),
        Some(ent(&["a"], u128::MAX))
    );
}

#[test]
fn raw_line_strips_tags_after_first_separator() {
    assert_eq!(
        Entry::from_raw_line("run_VERB_X fast_\t1999\t3\t1"),
        Some(ent(&["run", "fast"], 3))
    );
}

#[test]
fn parsed_line_checked_form() {
    assert_eq!(Entry::try_from_parsed_line("a b\t12"), Some(ent(&["a", "b"], 12)));
    assert_eq!(Entry::try_from_parsed_line("a b"), None);
    assert_eq!(Entry::try_from_parsed_line("a b\t1\t2"), None);
    assert_eq!(Entry::try_from_parsed_line("a b\tz"), None);
}

#[test]
fn render_round_trips() {
    let e = ent(&["x", "yy", "z"], 1234567890);
    let line = e.render();
    assert_eq!(line, "x yy z\t1234567890");
    assert_eq!(Entry::from_parsed_line(&line), e);
    assert_eq!(ent(&["q"], 0).render(), "q\t0");
}

#[test]
fn ordering_prefix_and_length() {
    let a = ent(&["a"], 1);
    let ab = ent(&["a", "b"], 1);
    let b = ent(&["b"], 1);
    assert_eq!(a.entry_cmp(&ab), EntryOrd::Less);
    assert_eq!(ab.entry_cmp(&a), EntryOrd::Grater);
    assert_eq!(ab.entry_cmp(&b), EntryOrd::Less);
    assert_eq!(ent(&["ab"], 1).entry_cmp(&ent(&["abc"], 1)), EntryOrd::Less);
    assert_eq!(ent(&["b"], 1).entry_cmp(&ent(&["ab"], 1)), EntryOrd::Grater);
}

#[test]
fn merge_sums_counts_both_ways() {
    let x = Entry::from_parsed_line("a b\t2");
    let y = Entry::from_parsed_line("a b\t5");
    assert_eq!(x.merge(&y), Entry::from_parsed_line("a b\t7"));
    assert_eq!(y.merge(&x), Entry::from_parsed_line("a b\t7"));
}

#[test]
fn merge_step_decisions() {
    let a = ent(&["a"], 1);
    let b = ent(&["b"], 1);
    assert_eq!(merge_step(None, None), MergeStep::Done);
    assert_eq!(merge_step(Some(&a), None), MergeStep::TakeLeft);
    assert_eq!(merge_step(None, Some(&a)), MergeStep::TakeRight);
    assert_eq!(merge_step(Some(&a), Some(&b)), MergeStep::TakeLeft);
    assert_eq!(merge_step(Some(&b), Some(&a)), MergeStep::TakeRight);
    assert_eq!(merge_step(Some(&a), Some(&a)), MergeStep::TakeBoth);
}

#[test]
fn two_run_merge_sorted_and_mass_kept() {
    let left = vec![ent(&["a"], 1), ent(&["b", "c"], 2), ent(&["d"], 3)];
    let right = vec![ent(&["a"], 10), ent(&["c"], 20), ent(&["d"], 30), ent(&["e"], 40)];
    let out = merge_two_runs(&left, &right).unwrap();
    assert_eq!(
        out,
        vec![
            ent(&["a"], 11),
            ent(&["b", "c"], 2),
            ent(&["c"], 20),
            ent(&["d"], 33),
            ent(&["e"], 40)
        ]
    );
    let total: u128 = out.iter().map(|e| e.match_count).sum();
    assert_eq!(total, 106);
    assert_eq!(merge_two_runs(&vec![], &vec![]), Some(vec![]));
    assert_eq!(merge_two_runs(&left, &vec![]), Some(left.clone()));
}

#[test]
fn count_data_skips_and_sums() {
    let lines: Vec<String> = vec![
        "c a\t2000\t1\t1",
        "a b\t2000\t2\t1",
        "bad line",
        "b c\t2000\t3\t1",
        "a_DET c\t2000\t4\t1",
        "a b_NOUN\t2001\t5\t1",
        "_x y\t2000\t9\t1",
    ]
    .into_iter()
    .map(|s| s.to_string())
    .collect();
    let out = count_data(&lines).unwrap();
    assert_eq!(
        out,
        vec![ent(&["a", "b"], 7), ent(&["a", "c"], 4), ent(&["b", "c"], 3), ent(&["c", "a"], 1)]
    );
    assert_eq!(count_data(&vec![]), Some(vec![]));
}

#[test]
fn count_data_overflow_is_none() {
    let lines: Vec<String> = vec![
        "a\t2000\t340282366920938463463374607431768211455\t1".to_string(),
        "a\t2000\t1\t1".to_string(),
    ];
    assert_eq!(count_data(&lines), None);
}

#[test]
fn counter_counts_keys() {
    let mut c = EntryCounter::new();
    assert_eq!(c.len(), 0);
    c.add(&ent(&["x"], 2));
    c.add(&ent(&["x"], 3));
    c.add(&ent(&["w"], 1));
    assert_eq!(c.len(), 2);
    assert_eq!(c.count_of(&ent(&["x"], 0)), 5);
    assert_eq!(c.count_of(&ent(&["y"], 0)), 0);
}

#[test]
fn raw_entry_renders_to_parsable_line() {
    let e = Entry::from_raw_line("New_NOUN York_PROPN\t1990\t42\t7").unwrap();
    let line = e.render();
    assert_eq!(line, "New York\t42");
    assert_eq!(Entry::try_from_parsed_line(&line), Some(e));
}

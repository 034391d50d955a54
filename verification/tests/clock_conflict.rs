use org_processing::{
    ApplyError, ChangeKind, Clock, ClockConflict, ConflictResolution, FileChange, Grammar,
    Headline, OrgDocument,
};

fn parse(file: &str, text: &str) -> OrgDocument {
    OrgDocument::parse(&Grammar::new().unwrap(), file.to_string(), text)
}

fn clock(text: &str, line: usize) -> Clock {
    let mut c = Clock::parse(&Grammar::new().unwrap(), text).unwrap();
    c.line = line;
    c
}

#[test]
fn resolve_conflict_by_joining_times() {
    let org_string = "
* fooo
CLOCK: [2022-12-12 Mon 10:45]--[2022-12-12 Mon 10:55] =>  0:10
CLOCK: [2022-12-12 Mon 10:40]--[2022-12-12 Mon 10:50] =>  0:10
";

    let docs = &[parse("test.org", org_string)];
    let conflicts = ClockConflict::find_conflicts(docs);
    assert_eq!(conflicts.len(), 1);

    let result = FileChange::apply_to_string(
        ClockConflict::find_conflicts(docs)
            .into_iter()
            .next()
            .unwrap()
            .resolve(ConflictResolution::Auto),
        org_string,
    )
    .expect("apply changes");
    let expected = "
* fooo
CLOCK: [2022-12-12 Mon 10:40]--[2022-12-12 Mon 10:55] =>  0:15
";
    assert_eq!(result, expected);
}

#[test]
fn resolve_conflict_by_adjusting_time() {
    let org_string = "
* fooo
CLOCK: [2022-12-12 Mon 10:45]--[2022-12-12 Mon 10:55] =>  0:10
* bar
CLOCK: [2022-12-12 Mon 10:40]--[2022-12-12 Mon 10:50] =>  0:10
";

    let docs = &[parse("test.org", org_string)];
    let conflict = ClockConflict::find_conflicts(docs).into_iter().next().unwrap();

    let changes = conflict.clone().resolve(ConflictResolution::ShrinkEarlier);
    let result = FileChange::apply_to_string(changes, org_string).expect("apply changes");
    let expected = "
* fooo
CLOCK: [2022-12-12 Mon 10:45]--[2022-12-12 Mon 10:55] =>  0:10
* bar
CLOCK: [2022-12-12 Mon 10:40]--[2022-12-12 Mon 10:45] =>  0:05
";
    assert_eq!(result, expected);

    let changes = conflict.resolve(ConflictResolution::ShrinkLater);
    let result = FileChange::apply_to_string(changes, org_string).expect("apply changes");
    let expected = "
* fooo
CLOCK: [2022-12-12 Mon 10:50]--[2022-12-12 Mon 10:55] =>  0:05
* bar
CLOCK: [2022-12-12 Mon 10:40]--[2022-12-12 Mon 10:50] =>  0:10
";
    assert_eq!(result, expected);
}

#[test]
fn resolve_conflict_by_splitting() {
    let org_string = "
* fooo
CLOCK: [2022-12-12 Mon 10:45]--[2022-12-12 Mon 10:55] =>  0:10
* bar
CLOCK: [2022-12-12 Mon 10:40]--[2022-12-12 Mon 10:59] =>  0:10
";

    let docs = &[parse("test.org", org_string)];
    let conflict = ClockConflict::find_conflicts(docs).into_iter().next().unwrap();

    let changes = conflict.clone().resolve(ConflictResolution::SplitContaining);
    let result = FileChange::apply_to_string(changes, org_string).expect("apply changes");
    let expected = "
* fooo
CLOCK: [2022-12-12 Mon 10:45]--[2022-12-12 Mon 10:55] =>  0:10
* bar
CLOCK: [2022-12-12 Mon 10:55]--[2022-12-12 Mon 10:59] =>  0:04
CLOCK: [2022-12-12 Mon 10:40]--[2022-12-12 Mon 10:45] =>  0:05
";
    assert_eq!(result, expected);
}

#[test]
fn removing_the_inner_record() {
    let org_string = "* fooo
CLOCK: [2022-12-12 Mon 10:45]--[2022-12-12 Mon 10:55] =>  0:10
* bar
CLOCK: [2022-12-12 Mon 10:40]--[2022-12-12 Mon 10:59] =>  0:19
";
    let docs = &[parse("test.org", org_string)];
    let conflict = ClockConflict::find_conflicts(docs).into_iter().next().unwrap();
    assert_eq!(
        conflict.resolution_options(),
        vec![
            ConflictResolution::RemoveInner,
            ConflictResolution::SplitContaining,
            ConflictResolution::Skip
        ]
    );
    let changes = conflict.resolve(ConflictResolution::RemoveInner);
    let result = FileChange::apply_to_string(changes, org_string).unwrap();
    assert_eq!(
        result,
        "* fooo\n* bar\nCLOCK: [2022-12-12 Mon 10:40]--[2022-12-12 Mon 10:59] =>  0:19\n"
    );
}

#[test]
fn skipping_edits_nothing() {
    let org_string = "* fooo
CLOCK: [2022-12-12 Mon 10:45]--[2022-12-12 Mon 10:55] =>  0:10
CLOCK: [2022-12-12 Mon 10:40]--[2022-12-12 Mon 10:50] =>  0:10
";
    let docs = &[parse("test.org", org_string)];
    let conflict = ClockConflict::find_conflicts(docs).into_iter().next().unwrap();
    assert!(conflict.always_offers(ConflictResolution::Skip));
    let changes = conflict.resolve(ConflictResolution::Skip);
    assert!(changes.is_empty());
    let result = FileChange::apply_to_string(changes, org_string).unwrap();
    assert_eq!(result, org_string);
}

#[test]
fn options_follow_the_shape() {
    let same = parse(
        "a.org",
        "* A\nCLOCK: [2022-12-12 Mon 10:45]--[2022-12-12 Mon 10:55]\nCLOCK: [2022-12-12 Mon 10:40]--[2022-12-12 Mon 10:50]\n",
    );
    let conflict = ClockConflict::find_conflicts(&[same]).into_iter().next().unwrap();
    assert_eq!(
        conflict.resolution_options(),
        vec![ConflictResolution::Auto, ConflictResolution::Skip]
    );
    assert!(!conflict.moment_decides());
    assert!(conflict.always_offers(ConflictResolution::Auto));
    assert!(!conflict.always_offers(ConflictResolution::ShrinkEarlier));
    assert!(!conflict.always_offers(ConflictResolution::RemoveInner));

    let apart = parse(
        "a.org",
        "* A\nCLOCK: [2022-12-12 Mon 10:45]--[2022-12-12 Mon 10:55]\n* B\nCLOCK: [2022-12-12 Mon 10:40]--[2022-12-12 Mon 10:50]\n",
    );
    let conflict = ClockConflict::find_conflicts(&[apart]).into_iter().next().unwrap();
    assert_eq!(
        conflict.resolution_options(),
        vec![
            ConflictResolution::ShrinkEarlier,
            ConflictResolution::ShrinkLater,
            ConflictResolution::Skip
        ]
    );
    assert!(!conflict.moment_decides());
    assert!(conflict.always_offers(ConflictResolution::ShrinkLater));
    assert!(conflict.offers_at(ConflictResolution::ShrinkLater, i64::MIN));
    assert!(conflict.offers_at(ConflictResolution::ShrinkLater, i64::MAX));
    assert!(!conflict.always_offers(ConflictResolution::Auto));
    assert!(!conflict.always_offers(ConflictResolution::SplitContaining));
    assert!(!conflict.always_offers(ConflictResolution::RemoveInner));
}

#[test]
fn a_running_earlier_record_holds_the_later_one() {
    let text = "* A\nCLOCK: [2022-12-12 Mon 10:45]\n* B\nCLOCK: [2022-12-12 Mon 10:50]--[2022-12-12 Mon 10:55]\n";
    let docs = [parse("a.org", text)];
    let conflict = ClockConflict::find_conflicts(&docs).into_iter().next().unwrap();
    let inner_end = conflict.clock2.end.unwrap().instant_seconds();
    let held = vec![
        ConflictResolution::RemoveInner,
        ConflictResolution::SplitContaining,
        ConflictResolution::Skip,
    ];
    assert_eq!(conflict.resolution_options(), held);
    assert_eq!(conflict.resolution_options_at(inner_end), held);
    assert_eq!(conflict.resolution_options_at(i64::MAX), held);
    for resolution in held {
        assert!(conflict.offers_at(resolution, inner_end));
    }
    let changes = conflict.clone().resolve_at(ConflictResolution::SplitContaining, inner_end);
    let result = FileChange::apply_to_string(changes, text).unwrap();
    assert_eq!(
        result,
        "* A\nCLOCK: [2022-12-12 Mon 10:55]\nCLOCK: [2022-12-12 Mon 10:45]--[2022-12-12 Mon 10:50] =>  0:05\n* B\nCLOCK: [2022-12-12 Mon 10:50]--[2022-12-12 Mon 10:55]\n"
    );
    let changes = conflict.resolve_at(ConflictResolution::RemoveInner, inner_end);
    assert_eq!(FileChange::apply_to_string(changes, text).unwrap(), "* A\nCLOCK: [2022-12-12 Mon 10:45]\n* B\n");
}

#[test]
fn nothing_is_offered_that_needs_a_missing_end() {
    let docs = [parse(
        "a.org",
        "* A\nCLOCK: [2022-12-12 Mon 10:45]\n* B\nCLOCK: [2022-12-12 Mon 10:50]--[2022-12-12 Mon 10:55]\n",
    )];
    let conflict = ClockConflict::find_conflicts(&docs).into_iter().next().unwrap();
    let inner_end = conflict.clock2.end.unwrap().instant_seconds();
    // While the later record has not ended yet, neither holds the other,
    // and the running one has no end to shrink the later one to.
    assert_eq!(
        conflict.resolution_options_at(inner_end - 1),
        vec![ConflictResolution::ShrinkEarlier, ConflictResolution::Skip]
    );
    assert!(conflict.offers_at(ConflictResolution::ShrinkEarlier, inner_end - 1));
    assert!(!conflict.offers_at(ConflictResolution::ShrinkEarlier, inner_end));
    assert!(!conflict.offers_at(ConflictResolution::ShrinkLater, inner_end - 1));
    assert!(!conflict.offers_at(ConflictResolution::Auto, inner_end - 1));

    let docs = [parse(
        "a.org",
        "* A\nCLOCK: [2022-12-12 Mon 10:45]--[2022-12-12 Mon 10:55]\n* B\nCLOCK: [2022-12-12 Mon 10:50]\n",
    )];
    let conflict = ClockConflict::find_conflicts(&docs).into_iter().next().unwrap();
    let outer_end = conflict.clock1.end.unwrap().instant_seconds();
    assert_eq!(
        conflict.resolution_options(),
        vec![
            ConflictResolution::ShrinkEarlier,
            ConflictResolution::ShrinkLater,
            ConflictResolution::Skip
        ]
    );
    assert_eq!(
        conflict.resolution_options_at(outer_end),
        vec![ConflictResolution::RemoveInner, ConflictResolution::Skip]
    );
    assert!(!conflict.offers_at(ConflictResolution::SplitContaining, outer_end));
    assert!(conflict.offers_at(ConflictResolution::ShrinkLater, outer_end + 1));

    let docs = [parse(
        "a.org",
        "* A\nCLOCK: [2022-12-12 Mon 10:45]\n* B\nCLOCK: [2022-12-12 Mon 10:50]\n",
    )];
    let conflict = ClockConflict::find_conflicts(&docs).into_iter().next().unwrap();
    assert_eq!(
        conflict.resolution_options(),
        vec![ConflictResolution::RemoveInner, ConflictResolution::Skip]
    );
    assert!(!conflict.moment_decides());
    assert!(conflict.always_offers(ConflictResolution::RemoveInner));
    assert!(!conflict.always_offers(ConflictResolution::ShrinkEarlier));
    assert!(!conflict.always_offers(ConflictResolution::SplitContaining));
}

#[test]
fn where_one_record_runs_only_skipping_is_always_on_offer() {
    let texts = [
        "* A\nCLOCK: [2022-12-12 Mon 10:45]\n* B\nCLOCK: [2022-12-12 Mon 10:50]--[2022-12-12 Mon 10:55]\n",
        "* A\nCLOCK: [2022-12-12 Mon 10:45]--[2022-12-12 Mon 10:55]\n* B\nCLOCK: [2022-12-12 Mon 10:50]\n",
    ];
    let all = [
        ConflictResolution::ShrinkEarlier,
        ConflictResolution::ShrinkLater,
        ConflictResolution::SplitContaining,
        ConflictResolution::RemoveInner,
        ConflictResolution::Auto,
        ConflictResolution::Skip,
    ];
    for text in texts {
        let docs = [parse("a.org", text)];
        let conflict = ClockConflict::find_conflicts_at(&docs, i64::MAX).into_iter().next().unwrap();
        assert!(conflict.moment_decides());
        for resolution in all {
            assert_eq!(
                conflict.always_offers(resolution),
                resolution == ConflictResolution::Skip,
                "{text} {resolution:?}"
            );
        }
        assert!(conflict.resolve(ConflictResolution::Skip).is_empty());
    }
}

#[test]
fn what_is_always_on_offer_is_on_offer_at_each_moment() {
    let texts = [
        "* A\nCLOCK: [2022-12-12 Mon 10:45]\n* B\nCLOCK: [2022-12-12 Mon 10:50]--[2022-12-12 Mon 10:55]\n",
        "* A\nCLOCK: [2022-12-12 Mon 10:45]--[2022-12-12 Mon 10:55]\n* B\nCLOCK: [2022-12-12 Mon 10:50]\n",
        "* A\nCLOCK: [2022-12-12 Mon 10:45]\n* B\nCLOCK: [2022-12-12 Mon 10:50]\n",
        "* A\nCLOCK: [2022-12-12 Mon 10:45]--[2022-12-12 Mon 10:55]\n* B\nCLOCK: [2022-12-12 Mon 10:50]--[2022-12-12 Mon 10:52]\n",
        "* A\nCLOCK: [2022-12-12 Mon 10:45]--[2022-12-12 Mon 10:55]\n* B\nCLOCK: [2022-12-12 Mon 10:50]--[2022-12-12 Mon 10:58]\n",
        "* A\nCLOCK: [2022-12-12 Mon 10:45]\nCLOCK: [2022-12-12 Mon 10:50]--[2022-12-12 Mon 10:58]\n",
    ];
    let all = [
        ConflictResolution::ShrinkEarlier,
        ConflictResolution::ShrinkLater,
        ConflictResolution::SplitContaining,
        ConflictResolution::RemoveInner,
        ConflictResolution::Auto,
        ConflictResolution::Skip,
    ];
    for text in texts {
        let docs = [parse("a.org", text)];
        let conflict = ClockConflict::find_conflicts_at(&docs, i64::MAX).into_iter().next().unwrap();
        let end = conflict.clock2.start.instant_seconds() + 400;
        let moments = [i64::MIN, end - 1000, end - 101, end - 100, end, end + 80, end + 1000, i64::MAX];
        for resolution in all {
            let always = moments.iter().all(|now| conflict.offers_at(resolution, *now));
            assert_eq!(conflict.always_offers(resolution), always, "{text} {resolution:?}");
        }
        for now in moments {
            let options = conflict.resolution_options_at(now);
            for resolution in all {
                assert_eq!(
                    conflict.offers_at(resolution, now),
                    options.contains(&resolution),
                    "{text} {now} {resolution:?}"
                );
            }
            for resolution in options {
                conflict.clone().resolve_at(resolution, now);
            }
        }
    }
}

#[test]
fn ends_on_either_side_of_the_cutoff_are_ordered_as_written() {
    // By their moments the first record ends after the second one:
    // 23:00 Pacific time is 06:00 UTC of the next day, 00:00 Berlin time is
    // 22:00 UTC of the day before.
    let text = "* A\nCLOCK: [2019-04-30 Tue 10:00]--[2019-04-30 Tue 23:00] => 13:00\n* B\nCLOCK: [2019-04-30 Tue 12:00]--[2019-05-01 Wed 00:00] => 12:00\n";
    let docs = [parse("a.org", text)];
    let conflict = ClockConflict::find_conflicts(&docs).into_iter().next().unwrap();
    let first_end = conflict.clock1.end.unwrap();
    let second_end = conflict.clock2.end.unwrap();
    assert!(first_end.wall_seconds() < second_end.wall_seconds());
    assert!(first_end.instant_seconds() > second_end.instant_seconds());
    let shrink = vec![
        ConflictResolution::ShrinkEarlier,
        ConflictResolution::ShrinkLater,
        ConflictResolution::Skip,
    ];
    assert_eq!(conflict.resolution_options(), shrink);
    assert_eq!(conflict.resolution_options_at(i64::MIN), shrink);
    assert_eq!(conflict.resolution_options_at(i64::MAX), shrink);
    assert!(conflict.always_offers(ConflictResolution::ShrinkEarlier));
    assert!(!conflict.always_offers(ConflictResolution::RemoveInner));
    let changes = conflict.clone().resolve(ConflictResolution::ShrinkEarlier);
    assert_eq!(
        FileChange::apply_to_string(changes, text).unwrap(),
        "* A\nCLOCK: [2019-04-30 Tue 10:00]--[2019-04-30 Tue 12:00] =>  2:00\n* B\nCLOCK: [2019-04-30 Tue 12:00]--[2019-05-01 Wed 00:00] => 12:00\n"
    );
    let changes = conflict.resolve(ConflictResolution::ShrinkLater);
    assert_eq!(
        FileChange::apply_to_string(changes, text).unwrap(),
        "* A\nCLOCK: [2019-04-30 Tue 10:00]--[2019-04-30 Tue 23:00] => 13:00\n* B\nCLOCK: [2019-04-30 Tue 23:00]--[2019-05-01 Wed 00:00] =>  1:00\n"
    );
}

#[test]
fn a_merge_ends_with_the_later_reading() {
    let text = "* A\nCLOCK: [2019-04-30 Tue 10:00]--[2019-04-30 Tue 23:00] => 13:00\nCLOCK: [2019-04-30 Tue 12:00]--[2019-05-01 Wed 00:00] => 12:00\n";
    let docs = [parse("a.org", text)];
    let conflict = ClockConflict::find_conflicts(&docs).into_iter().next().unwrap();
    assert_eq!(
        conflict.resolution_options(),
        vec![ConflictResolution::Auto, ConflictResolution::Skip]
    );
    let changes = conflict.resolve(ConflictResolution::Auto);
    assert_eq!(
        FileChange::apply_to_string(changes, text).unwrap(),
        "* A\nCLOCK: [2019-04-30 Tue 10:00]--[2019-05-01 Wed 00:00] => 14:00\n"
    );
    // The other way round the kept record already ends last.
    let text = "* A\nCLOCK: [2019-04-30 Tue 12:00]--[2019-05-01 Wed 00:00] => 12:00\nCLOCK: [2019-04-30 Tue 10:00]--[2019-04-30 Tue 23:00] => 13:00\n";
    let docs = [parse("a.org", text)];
    let conflict = ClockConflict::find_conflicts(&docs).into_iter().next().unwrap();
    let changes = conflict.resolve(ConflictResolution::Auto);
    assert_eq!(
        FileChange::apply_to_string(changes, text).unwrap(),
        "* A\nCLOCK: [2019-04-30 Tue 10:00]--[2019-05-01 Wed 00:00] => 14:00\n"
    );
}

#[test]
fn a_record_ends_before_another() {
    let ended = clock("CLOCK: [2019-04-30 Tue 10:00]--[2019-04-30 Tue 23:00]", 1);
    let later = clock("CLOCK: [2019-04-30 Tue 12:00]--[2019-05-01 Wed 00:00]", 2);
    let running = clock("CLOCK: [2019-04-30 Tue 12:00]", 3);
    assert!(ended.ends_before_at(&later, 0));
    assert!(!later.ends_before_at(&ended, 0));
    assert!(!ended.ends_before_at(&ended, 0));
    let moment = ended.end.unwrap().instant_seconds();
    assert!(!ended.ends_before_at(&running, moment));
    assert!(ended.ends_before_at(&running, moment + 1));
    assert!(running.ends_before_at(&ended, moment - 1));
    assert!(!running.ends_before_at(&ended, moment));
    assert!(!running.ends_before_at(&running, moment));
}

#[test]
fn merging_with_a_running_record_keeps_it_running() {
    let text = "* A\nCLOCK: [2022-12-12 Mon 10:45]--[2022-12-12 Mon 10:55] =>  0:10\nCLOCK: [2022-12-12 Mon 10:40]\n";
    let docs = [parse("a.org", text)];
    let conflict = ClockConflict::find_conflicts(&docs).into_iter().next().unwrap();
    let ended = conflict.clock1.end.unwrap().instant_seconds();
    let changes = conflict.clone().resolve(ConflictResolution::Auto);
    assert_eq!(
        FileChange::apply_to_string(changes, text).unwrap(),
        "* A\nCLOCK: [2022-12-12 Mon 10:40]\n"
    );
    let changes = conflict.clone().resolve_at(ConflictResolution::Auto, ended);
    assert_eq!(
        FileChange::apply_to_string(changes, text).unwrap(),
        "* A\nCLOCK: [2022-12-12 Mon 10:40]\n"
    );
    // A record that ends after the running one's end so far decides the end.
    let changes = conflict.resolve_at(ConflictResolution::Auto, ended - 1);
    assert_eq!(
        FileChange::apply_to_string(changes, text).unwrap(),
        "* A\nCLOCK: [2022-12-12 Mon 10:40]--[2022-12-12 Mon 10:55] =>  0:15\n"
    );
}

#[test]
fn conflicts_across_documents_are_found_once() {
    let a = parse(
        "a.org",
        "* A\nCLOCK: [2022-12-12 Mon 10:45]--[2022-12-12 Mon 10:55]\nCLOCK: [2022-12-13 Tue 10:45]--[2022-12-13 Tue 10:55]\n",
    );
    let b = parse(
        "b.org",
        "* B\nCLOCK: [2022-12-12 Mon 10:50]--[2022-12-12 Mon 11:55]\n* C\nCLOCK: [2022-12-12 Mon 10:54]--[2022-12-12 Mon 10:56]\n",
    );
    let conflicts = ClockConflict::find_conflicts_at(&[a, b], 0);
    let sides: Vec<(String, usize, String, usize)> = conflicts
        .iter()
        .map(|c| (c.file1.clone(), c.clock1.line, c.file2.clone(), c.clock2.line))
        .collect();
    assert_eq!(
        sides,
        vec![
            ("a.org".to_string(), 2, "b.org".to_string(), 2),
            ("a.org".to_string(), 2, "b.org".to_string(), 4),
            ("b.org".to_string(), 2, "b.org".to_string(), 4),
        ]
    );
    assert_eq!(conflicts[1].headline1.title, "A");
    assert_eq!(conflicts[1].headline2.title, "C");
    for (i, x) in conflicts.iter().enumerate() {
        for (j, y) in conflicts.iter().enumerate() {
            assert_eq!(x.same_as(y), i == j);
        }
    }
}

#[test]
fn adjacent_records_are_no_conflict() {
    let docs = [parse(
        "a.org",
        "* A\nCLOCK: [2022-12-12 Mon 10:45]--[2022-12-12 Mon 10:55]\nCLOCK: [2022-12-12 Mon 10:55]--[2022-12-12 Mon 11:00]\n",
    )];
    assert!(ClockConflict::find_conflicts(&docs).is_empty());
    assert!(ClockConflict::find_conflicts(&[]).is_empty());
}

#[test]
fn a_conflict_is_the_same_either_way_round() {
    let docs = [parse(
        "a.org",
        "* A\nCLOCK: [2022-12-12 Mon 10:45]--[2022-12-12 Mon 10:55]\n* B\nCLOCK: [2022-12-12 Mon 10:40]--[2022-12-12 Mon 10:50]\n",
    )];
    let conflict = ClockConflict::find_conflicts(&docs).into_iter().next().unwrap();
    let turned = ClockConflict {
        clock1: conflict.clock2.clone(),
        clock2: conflict.clock1.clone(),
        headline1: conflict.headline2.clone(),
        headline2: conflict.headline1.clone(),
        file1: conflict.file2.clone(),
        file2: conflict.file1.clone(),
    };
    assert!(conflict.same_as(&turned));
    assert!(turned.same_as(&conflict));
    assert_eq!(conflict.hashme(), turned.hashme());
    let mut other = conflict.clone();
    other.clock2.line = 9;
    assert!(!conflict.same_as(&other));
    assert_ne!(conflict.hashme(), other.hashme());
    let mut elsewhere = conflict.clone();
    elsewhere.file1 = "b.org".to_string();
    assert!(!conflict.same_as(&elsewhere));
    assert_ne!(conflict.hashme(), elsewhere.hashme());
}

#[test]
fn report_names_both_records() {
    let docs = [parse(
        "a.org",
        "* say \"hi\"\nCLOCK: [2022-12-12 Mon 10:45]--[2022-12-12 Mon 10:55] =>  0:10\n* B\nCLOCK: [2022-12-12 Mon 10:40]\n",
    )];
    let conflict = ClockConflict::find_conflicts_at(&docs, i64::MAX).into_iter().next().unwrap();
    assert_eq!(
        conflict.report(),
        "OVERLAPPING TIME\n  [2022-12-12 Mon 10:45]--[2022-12-12 Mon 10:55] =>  0:10 \"say \\\"hi\\\"\" a.org:2\n  [2022-12-12 Mon 10:40] \"B\" a.org:4"
    );
}

#[test]
fn explanations() {
    assert_eq!(ConflictResolution::ShrinkEarlier.explanation(), "Shrink earlier timestamp");
    assert_eq!(ConflictResolution::ShrinkLater.explanation(), "Shrink later timestamp");
    assert_eq!(ConflictResolution::SplitContaining.explanation(), "Split the outer timestamp");
    assert_eq!(ConflictResolution::RemoveInner.explanation(), "Remove the inner timestamp");
    assert_eq!(ConflictResolution::Auto.explanation(), "Merge timestamps");
    assert_eq!(ConflictResolution::Skip.explanation(), "Skip");
}

#[test]
fn different_files_are_refused() {
    let c = clock("CLOCK: [2022-12-12 Mon 10:45]", 1);
    let changes = vec![
        FileChange::delete("a.org".to_string(), c.clone()),
        FileChange::delete("b.org".to_string(), c),
    ];
    assert_eq!(
        FileChange::apply_to_string(changes, "x\n").unwrap_err(),
        ApplyError::DifferentFiles
    );
}

#[test]
fn single_edits() {
    let text = "a\nb\nc";
    let c = clock("CLOCK: [2022-12-12 Mon 10:45]--[2022-12-12 Mon 11:00]", 2);
    let line = "CLOCK: [2022-12-12 Mon 10:45]--[2022-12-12 Mon 11:00] =>  0:15";
    let add = FileChange::add("f".to_string(), c.clone());
    assert_eq!(add.modify_file_content(text), format!("a\n{line}\nb\nc\n"));
    let update = FileChange::update("f".to_string(), c.clone());
    assert_eq!(update.modify_file_content(text), format!("a\n{line}\nc\n"));
    let delete = FileChange::delete("f".to_string(), c.clone());
    assert_eq!(delete.modify_file_content(text), "a\nc\n");
    assert_eq!(add.kind(), ChangeKind::Added);
    assert_eq!(update.kind(), ChangeKind::Updated);
    assert_eq!(delete.kind(), ChangeKind::Deleted);
    assert_eq!(delete.line(), 2);
    assert_eq!(delete.file(), "f");
    assert_eq!(delete.clock(), &c);
}

#[test]
fn an_edit_beyond_the_text_changes_no_line() {
    let text = "a\nb\n";
    for line in [0, 3, 100] {
        let c = clock("CLOCK: [2022-12-12 Mon 10:45]", line);
        assert_eq!(FileChange::add("f".to_string(), c.clone()).modify_file_content(text), text);
        assert_eq!(FileChange::update("f".to_string(), c.clone()).modify_file_content(text), text);
        assert_eq!(FileChange::delete("f".to_string(), c).modify_file_content(text), text);
    }
}

#[test]
fn update_leaves_the_other_lines_alone() {
    let text = "* A\nsome text\nCLOCK: [2022-12-12 Mon 10:45]--[2022-12-12 Mon 11:00] => 0:15\n  more \t text  \n* B\n";
    let doc = parse("f", text);
    let parsed = doc.clocks[0].clone();
    let result = FileChange::apply_to_string(vec![FileChange::update("f".to_string(), parsed)], text)
        .unwrap();
    let before: Vec<&str> = text.lines().collect();
    let after: Vec<&str> = result.lines().collect();
    assert_eq!(before.len(), after.len());
    for i in [0, 1, 3, 4] {
        assert_eq!(before[i], after[i]);
    }
    assert_eq!(after[2], "CLOCK: [2022-12-12 Mon 10:45]--[2022-12-12 Mon 11:00] =>  0:15");
    let again = FileChange::apply_to_string(
        vec![FileChange::update("f".to_string(), parse("f", &result).clocks[0].clone())],
        &result,
    )
    .unwrap();
    assert_eq!(again, result);
}

#[test]
fn batches_do_not_depend_on_the_order_handed_in() {
    let text = "1\n2\n3\n4\n5\n6\n";
    let make = || {
        vec![
            FileChange::delete("f".to_string(), clock("CLOCK: [2022-12-12 Mon 10:45]", 2)),
            FileChange::update("f".to_string(), clock("CLOCK: [2022-12-12 Mon 11:45]", 4)),
            FileChange::add("f".to_string(), clock("CLOCK: [2022-12-12 Mon 12:45]", 4)),
            FileChange::add("f".to_string(), clock("CLOCK: [2022-12-12 Mon 13:45]", 6)),
        ]
    };
    let expected = "1\n3\nCLOCK: [2022-12-12 Mon 12:45]\nCLOCK: [2022-12-12 Mon 11:45]\n5\nCLOCK: [2022-12-12 Mon 13:45]\n6\n";
    let orders: [[usize; 4]; 5] =
        [[0, 1, 2, 3], [3, 2, 1, 0], [2, 1, 0, 3], [1, 3, 0, 2], [2, 3, 1, 0]];
    for order in orders {
        let mut batch: Vec<Option<FileChange>> = make().into_iter().map(Some).collect();
        let shuffled: Vec<FileChange> = order.iter().map(|&i| batch[i].take().unwrap()).collect();
        assert_eq!(FileChange::apply_to_string(shuffled, text).unwrap(), expected);
    }
}

#[test]
fn apply_order_is_from_the_last_line_up() {
    let changes = vec![
        FileChange::add("f".to_string(), clock("CLOCK: [2022-12-12 Mon 10:45]", 3)),
        FileChange::update("f".to_string(), clock("CLOCK: [2022-12-12 Mon 10:45]", 3)),
        FileChange::delete("f".to_string(), clock("CLOCK: [2022-12-12 Mon 10:45]", 7)),
        FileChange::update("f".to_string(), clock("CLOCK: [2022-12-12 Mon 10:45]", 1)),
        FileChange::delete("f".to_string(), clock("CLOCK: [2022-12-12 Mon 10:45]", 3)),
    ];
    let order = FileChange::in_apply_order(&changes);
    let seen: Vec<(usize, ChangeKind)> = order.iter().map(|c| (c.line(), c.kind())).collect();
    assert_eq!(
        seen,
        vec![
            (7, ChangeKind::Deleted),
            (3, ChangeKind::Deleted),
            (3, ChangeKind::Updated),
            (3, ChangeKind::Added),
            (1, ChangeKind::Updated),
        ]
    );
    assert!(FileChange::applies_first(&changes[1], &changes[0]));
    assert!(!FileChange::applies_first(&changes[0], &changes[1]));
    assert!(!FileChange::applies_first(&changes[1], &changes[4]));
    assert!(FileChange::all_same_file(&changes));
}

#[test]
fn fixups_move_lines() {
    let c = |line| clock("CLOCK: [2022-12-12 Mon 10:45]", line);
    let heading = |line| {
        let mut h = Headline::parse(&Grammar::new().unwrap(), "* A").unwrap();
        h.line = line;
        h
    };
    let delete = FileChange::delete("f".to_string(), c(5));
    let add = FileChange::add("f".to_string(), c(5));
    let update = FileChange::update("f".to_string(), c(5));

    assert_eq!(delete.fixup_clock(c(4)).unwrap().line, 4);
    assert!(delete.fixup_clock(c(5)).is_none());
    assert_eq!(delete.fixup_clock(c(6)).unwrap().line, 5);
    assert_eq!(add.fixup_clock(c(4)).unwrap().line, 4);
    assert_eq!(add.fixup_clock(c(5)).unwrap().line, 6);
    assert_eq!(add.fixup_clock(c(9)).unwrap().line, 10);
    assert_eq!(update.fixup_clock(c(5)).unwrap().line, 5);
    assert_eq!(update.fixup_clock(c(9)).unwrap().line, 9);

    let mut h = heading(3);
    delete.fixup_headline(&mut h);
    assert_eq!(h.line, 3);
    let mut h = heading(8);
    delete.fixup_headline(&mut h);
    assert_eq!(h.line, 7);
    let mut h = heading(8);
    add.fixup_headline(&mut h);
    assert_eq!(h.line, 9);
    assert_eq!(h.title, "A");
    let mut h = heading(8);
    update.fixup_headline(&mut h);
    assert_eq!(h.line, 8);
    let mut h = heading(5);
    update.fixup_headline(&mut h);
    assert_eq!(h.line, 5);
    assert_eq!(h.title, "A");
}

#[test]
fn conflicts_compare_by_their_sides() {
    let docs = [parse(
        "a.org",
        "* A\nCLOCK: [2022-12-12 Mon 10:45]--[2022-12-12 Mon 10:55]\n* B\nCLOCK: [2022-12-12 Mon 10:40]--[2022-12-12 Mon 10:50]\n",
    )];
    let conflict = ClockConflict::find_conflicts(&docs).into_iter().next().unwrap();
    let turned = ClockConflict {
        clock1: conflict.clock2.clone(),
        clock2: conflict.clock1.clone(),
        headline1: conflict.headline2.clone(),
        headline2: conflict.headline1.clone(),
        file1: conflict.file2.clone(),
        file2: conflict.file1.clone(),
    };
    assert!(conflict == turned);
    let mut other = conflict.clone();
    other.clock1.line = 40;
    assert!(conflict != other);
}

#[test]
fn the_first_conflict_not_skipped_is_asked_about() {
    let doc = parse(
        "a.org",
        "* A\nCLOCK: [2022-12-12 Mon 10:40]--[2022-12-12 Mon 10:50] =>  0:10\nCLOCK: [2022-12-12 Mon 10:45]--[2022-12-12 Mon 10:55] =>  0:10\nCLOCK: [2022-12-12 Mon 10:47]--[2022-12-12 Mon 10:48] =>  0:01\n",
    );
    let conflicts = ClockConflict::find_conflicts(&[doc]);
    assert_eq!(conflicts.len(), 3);
    let mut skipped = Vec::new();
    assert_eq!(ClockConflict::next_to_ask(&conflicts, &skipped), Some(0));
    skipped.push(conflicts[1].hashme());
    assert_eq!(ClockConflict::next_to_ask(&conflicts, &skipped), Some(0));
    skipped.push(conflicts[0].hashme());
    assert_eq!(ClockConflict::next_to_ask(&conflicts, &skipped), Some(2));
    skipped.push(conflicts[2].hashme());
    assert_eq!(ClockConflict::next_to_ask(&conflicts, &skipped), None);
    assert_eq!(ClockConflict::next_to_ask(&Vec::new(), &skipped), None);
}

#[test]
fn a_resolution_without_edits_is_remembered() {
    let doc = parse(
        "a.org",
        "* A\nCLOCK: [2022-12-12 Mon 10:40]--[2022-12-12 Mon 10:50] =>  0:10\n* B\nCLOCK: [2022-12-12 Mon 10:45]--[2022-12-12 Mon 10:55] =>  0:10\n",
    );
    let conflicts = ClockConflict::find_conflicts(&[doc]);
    assert_eq!(conflicts.len(), 1);
    assert!(conflicts[0].always_offers(ConflictResolution::ShrinkEarlier));
    let conflict = &conflicts[0];
    let mut skipped = vec![17];
    let none = conflict.duplicate().resolve(ConflictResolution::Skip);
    assert!(!conflict.after_resolution(&none, &mut skipped));
    assert_eq!(skipped, vec![17, conflict.hashme()]);
    assert_eq!(ClockConflict::next_to_ask(&conflicts, &skipped), None);
    let some = conflict.duplicate().resolve(ConflictResolution::ShrinkEarlier);
    assert!(!some.is_empty());
    assert!(conflict.after_resolution(&some, &mut skipped));
    assert_eq!(skipped, vec![17, conflict.hashme()]);
}

#[test]
fn a_resolution_not_on_offer_is_not_carried_out() {
    let text = "* A\nCLOCK: [2022-12-12 Mon 10:45]--[2022-12-12 Mon 10:55] =>  0:10\n* B\nCLOCK: [2022-12-12 Mon 10:40]--[2022-12-12 Mon 10:50] =>  0:10\n";
    let docs = [parse("a.org", text)];
    let conflict = ClockConflict::find_conflicts(&docs).into_iter().next().unwrap();
    assert!(conflict.clone().try_resolve(ConflictResolution::Auto).is_none());
    assert!(conflict.clone().try_resolve(ConflictResolution::RemoveInner).is_none());
    assert!(conflict.clone().try_resolve(ConflictResolution::SplitContaining).is_none());
    assert!(conflict.clone().try_resolve(ConflictResolution::Skip).unwrap().is_empty());
    let changes = conflict.try_resolve(ConflictResolution::ShrinkEarlier).unwrap();
    assert_eq!(
        FileChange::apply_to_string(changes, text).unwrap(),
        "* A\nCLOCK: [2022-12-12 Mon 10:45]--[2022-12-12 Mon 10:55] =>  0:10\n* B\nCLOCK: [2022-12-12 Mon 10:40]--[2022-12-12 Mon 10:45] =>  0:05\n"
    );

    // A record that runs since 2022 holds every record that has ended.
    let text = "* A\nCLOCK: [2022-12-12 Mon 10:45]\n* B\nCLOCK: [2022-12-12 Mon 10:50]--[2022-12-12 Mon 10:55]\n";
    let docs = [parse("a.org", text)];
    let conflict = ClockConflict::find_conflicts(&docs).into_iter().next().unwrap();
    assert!(conflict.clone().try_resolve(ConflictResolution::ShrinkEarlier).is_none());
    assert!(conflict.clone().try_resolve(ConflictResolution::ShrinkLater).is_none());
    let changes = conflict.try_resolve(ConflictResolution::RemoveInner).unwrap();
    assert_eq!(
        FileChange::apply_to_string(changes, text).unwrap(),
        "* A\nCLOCK: [2022-12-12 Mon 10:45]\n* B\n"
    );
}

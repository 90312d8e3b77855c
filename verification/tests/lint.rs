use scraps::backlinks::BacklinksMap;
use scraps::lint::{
    BrokenHeadingRefRule, BrokenLinkRule, DeadEndRule, LintRuleName, LintUsecase, LintWarning,
    LonelyRule, OverlinkingRule, SelfLinkRule, SingletonTagRule, StaleByGitRule,
    scrap_relative_path,
};
use scraps::model::Scrap;
use scraps::tags::Tags;

const SECONDS_PER_DAY: i64 = 86_400;

fn now_ts() -> i64 {
    1_700_000_000
}

fn run<F: Fn(&[Scrap], &BacklinksMap, &Tags) -> Vec<LintWarning>>(scraps: &[Scrap], f: F) -> Vec<LintWarning> {
    let backlinks_map = BacklinksMap::new(scraps);
    let tags = Tags::new(scraps);
    f(scraps, &backlinks_map, &tags)
}

fn stale(ts: Option<i64>, is_repo: bool, n: usize, threshold_days: u64, now: i64) -> StaleByGitRule {
    StaleByGitRule { is_repo, commit_ts: vec![ts; n], threshold_days, now_ts: now }
}

// ---------------------------------------------------------------- dead end

#[test]
fn detect_scrap_with_no_links() {
    let scraps = vec![Scrap::new("orphan", &None, "no links here")];
    let warnings = run(&scraps, |s, b, t| DeadEndRule.check(s, b, t));
    assert_eq!(warnings.len(), 1);
    assert_eq!(warnings[0].rule_name, LintRuleName::DeadEnd);
    assert_eq!(warnings[0].scrap_path, "orphan.md");
}

#[test]
fn skip_scrap_with_links() {
    let scraps = vec![Scrap::new("linked", &None, "[[other]]")];
    let warnings = run(&scraps, |s, b, t| DeadEndRule.check(s, b, t));
    assert!(warnings.is_empty());
}

#[test]
fn detect_multiple_dead_ends() {
    let scraps = vec![
        Scrap::new("orphan1", &None, "no links"),
        Scrap::new("orphan2", &None, "also no links"),
        Scrap::new("linked", &None, "[[something]]"),
    ];
    let warnings = run(&scraps, |s, b, t| DeadEndRule.check(s, b, t));
    assert_eq!(warnings.len(), 2);
}

#[test]
fn detect_dead_end_with_context() {
    let scraps = vec![Scrap::new("contextual", &Some("Book".into()), "plain text")];
    let warnings = run(&scraps, |s, b, t| DeadEndRule.check(s, b, t));
    assert_eq!(warnings.len(), 1);
    assert_eq!(warnings[0].scrap_path, "Book/contextual.md");
}

#[test]
fn dead_end_warning_reads_as_documented() {
    let scraps = vec![Scrap::new("orphan", &None, "no links here")];
    let warnings = run(&scraps, |s, b, t| DeadEndRule.check(s, b, t));
    assert_eq!(warnings[0].message, "scrap has no links to other scraps");
    assert_eq!(warnings[0].source, None);
    assert_eq!(warnings[0].span, None);
}

// ------------------------------------------------------------------ lonely

#[test]
fn detect_scrap_with_no_backlinks() {
    let scraps = vec![Scrap::new("lonely", &None, "some text")];
    let warnings = run(&scraps, |s, b, t| LonelyRule.check(s, b, t));
    assert_eq!(warnings.len(), 1);
    assert_eq!(warnings[0].rule_name.as_str(), "lonely");
    assert_eq!(warnings[0].scrap_path, "lonely.md");
}

#[test]
fn skip_scrap_with_backlinks() {
    let scraps = vec![
        Scrap::new("target", &None, "some text"),
        Scrap::new("linker", &None, "[[target]]"),
    ];
    let warnings = run(&scraps, |s, b, t| LonelyRule.check(s, b, t));
    assert_eq!(warnings.len(), 1);
    assert_eq!(warnings[0].scrap_path, "linker.md");
}

#[test]
fn mutual_links_not_lonely() {
    let scraps = vec![Scrap::new("a", &None, "[[b]]"), Scrap::new("b", &None, "[[a]]")];
    let warnings = run(&scraps, |s, b, t| LonelyRule.check(s, b, t));
    assert!(warnings.is_empty());
}

// --------------------------------------------------------------- self link

#[test]
fn detect_self_link() {
    let scraps = vec![Scrap::new("myself", &None, "text [[myself]] more")];
    let warnings = run(&scraps, |s, b, t| SelfLinkRule.check(s, b, t));
    assert_eq!(warnings.len(), 1);
    assert_eq!(warnings[0].rule_name, LintRuleName::SelfLink);
    assert_eq!(warnings[0].scrap_path, "myself.md");
    assert!(warnings[0].span.is_some());
}

#[test]
fn self_link_span_points_at_the_link() {
    let scraps = vec![Scrap::new("myself", &None, "text [[myself]] more")];
    let warnings = run(&scraps, |s, b, t| SelfLinkRule.check(s, b, t));
    assert_eq!(warnings[0].span, Some((5, 15)));
    assert_eq!(warnings[0].source.as_deref(), Some("text [[myself]] more"));
    assert_eq!(warnings[0].message, "scrap links to itself");
}

#[test]
fn detect_self_link_with_context() {
    let scraps = vec![Scrap::new("title", &Some("Context".into()), "text [[Context/title]] more")];
    let warnings = run(&scraps, |s, b, t| SelfLinkRule.check(s, b, t));
    assert_eq!(warnings.len(), 1);
    assert_eq!(warnings[0].scrap_path, "Context/title.md");
}

#[test]
fn skip_links_to_other_scraps() {
    let scraps = vec![Scrap::new("a", &None, "[[b]] [[c]]")];
    let warnings = run(&scraps, |s, b, t| SelfLinkRule.check(s, b, t));
    assert!(warnings.is_empty());
}

#[test]
fn self_link_mixed_with_other_links() {
    let scraps = vec![Scrap::new("me", &None, "[[other]] [[me]] [[another]]")];
    let warnings = run(&scraps, |s, b, t| SelfLinkRule.check(s, b, t));
    assert_eq!(warnings.len(), 1);
}

// ------------------------------------------------------------- overlinking

#[test]
fn detect_duplicate_link() {
    let scraps = vec![Scrap::new("test", &None, "[[a]] text [[a]]")];
    let warnings = run(&scraps, |s, b, t| OverlinkingRule.check(s, b, t));
    assert_eq!(warnings.len(), 1);
    assert_eq!(warnings[0].rule_name.as_str(), "overlinking");
    assert!(warnings[0].message.contains("2 times"));
}

#[test]
fn detect_triple_link_as_one_warning() {
    let scraps = vec![Scrap::new("test", &None, "[[a]] [[a]] [[a]]")];
    let warnings = run(&scraps, |s, b, t| OverlinkingRule.check(s, b, t));
    assert_eq!(warnings.len(), 1);
    assert!(warnings[0].message.contains("3 times"));
}

#[test]
fn alias_and_plain_same_link() {
    let scraps = vec![Scrap::new(
        "test",
        &None,
        "[[Domain Driven Design|DDD]] [[Domain Driven Design]]",
    )];
    let warnings = run(&scraps, |s, b, t| OverlinkingRule.check(s, b, t));
    assert_eq!(warnings.len(), 1);
    assert!(warnings[0].message.contains("2 times"));
}

#[test]
fn skip_all_unique_links() {
    let scraps = vec![Scrap::new("test", &None, "[[a]] [[b]] [[c]]")];
    let warnings = run(&scraps, |s, b, t| OverlinkingRule.check(s, b, t));
    assert!(warnings.is_empty());
}

#[test]
fn overlinking_message_and_span_are_exact() {
    let scraps = vec![Scrap::new("test", &None, "x [[b]] [[a]] [[b]] [[a]] [[a]]")];
    let warnings = run(&scraps, |s, b, t| OverlinkingRule.check(s, b, t));
    assert_eq!(warnings.len(), 2);
    assert_eq!(warnings[0].message, "link [[b]] appears 2 times");
    assert_eq!(warnings[0].span, Some((2, 7)));
    assert_eq!(warnings[1].message, "link [[a]] appears 3 times");
    assert_eq!(warnings[1].span, Some((8, 13)));
}

// ------------------------------------------------------------- broken link

#[test]
fn detect_unresolved_wikilink() {
    let scraps = vec![Scrap::new("a", &None, "[[nonexistent]]")];
    let warnings = run(&scraps, |s, b, t| BrokenLinkRule.check(s, b, t));
    assert_eq!(warnings.len(), 1);
    assert_eq!(warnings[0].rule_name, LintRuleName::BrokenLink);
    assert_eq!(warnings[0].scrap_path, "a.md");
    assert!(warnings[0].message.contains("nonexistent"));
}

#[test]
fn skip_resolved_wikilink() {
    let scraps = vec![Scrap::new("a", &None, ""), Scrap::new("b", &None, "[[a]]")];
    let warnings = run(&scraps, |s, b, t| BrokenLinkRule.check(s, b, t));
    assert!(warnings.is_empty());
}

#[test]
fn detect_multiple_broken_links_within_one_scrap() {
    let scraps = vec![Scrap::new("a", &None, "[[broken1]] and [[broken2]] and [[a]]")];
    let warnings = run(&scraps, |s, b, t| BrokenLinkRule.check(s, b, t));
    assert_eq!(warnings.len(), 2);
}

#[test]
fn skip_explicit_tag_not_treated_as_link() {
    let scraps = vec![Scrap::new("a", &None, "#[[ai]]")];
    let warnings = run(&scraps, |s, b, t| BrokenLinkRule.check(s, b, t));
    assert!(warnings.is_empty());
}

#[test]
fn detect_unresolved_with_context() {
    let scraps = vec![Scrap::new("foo", &None, "[[Programming/missing]]")];
    let warnings = run(&scraps, |s, b, t| BrokenLinkRule.check(s, b, t));
    assert_eq!(warnings.len(), 1);
    assert!(warnings[0].message.contains("Programming/missing"));
    assert_eq!(warnings[0].message, "broken wikilink: [[Programming/missing]]");
}

// ------------------------------------------------------ broken heading ref

#[test]
fn detect_broken_heading_ref() {
    let scraps = vec![
        Scrap::new("target", &None, "## present\n\nbody\n"),
        Scrap::new("a", &None, "see [[target#missing]]"),
    ];
    let warnings = run(&scraps, |s, b, t| BrokenHeadingRefRule.check(s, b, t));
    assert_eq!(warnings.len(), 1);
    assert_eq!(warnings[0].rule_name, LintRuleName::BrokenHeadingRef);
    assert_eq!(warnings[0].scrap_path, "a.md");
    assert!(warnings[0].message.contains("target"));
    assert!(warnings[0].message.contains("missing"));
    assert_eq!(
        warnings[0].message,
        "broken heading reference: [[target#missing]] (heading not found in target scrap)"
    );
}

#[test]
fn skip_resolved_heading_ref() {
    let scraps = vec![
        Scrap::new("target", &None, "## present\n\nbody\n"),
        Scrap::new("a", &None, "see [[target#present]]"),
    ];
    let warnings = run(&scraps, |s, b, t| BrokenHeadingRefRule.check(s, b, t));
    assert!(warnings.is_empty());
}

#[test]
fn skip_link_without_heading() {
    let scraps = vec![
        Scrap::new("target", &None, "no headings here"),
        Scrap::new("a", &None, "see [[target]]"),
    ];
    let warnings = run(&scraps, |s, b, t| BrokenHeadingRefRule.check(s, b, t));
    assert!(warnings.is_empty());
}

#[test]
fn skip_when_target_scrap_missing() {
    let scraps = vec![Scrap::new("a", &None, "see [[ghost#whatever]]")];
    let warnings = run(&scraps, |s, b, t| BrokenHeadingRefRule.check(s, b, t));
    assert!(warnings.is_empty());
}

#[test]
fn detect_with_alias_and_context() {
    let scraps = vec![
        Scrap::new("Eric Evans", &Some("Person".into()), "## Bio\n\ntext\n"),
        Scrap::new("a", &None, "[[Person/Eric Evans#missing|Eric]]"),
    ];
    let warnings = run(&scraps, |s, b, t| BrokenHeadingRefRule.check(s, b, t));
    assert_eq!(warnings.len(), 1);
}

#[test]
fn case_insensitive_heading_match() {
    let scraps = vec![
        Scrap::new("target", &None, "## Section\n\nbody\n"),
        Scrap::new("a", &None, "see [[target#section]]"),
    ];
    let warnings = run(&scraps, |s, b, t| BrokenHeadingRefRule.check(s, b, t));
    assert!(warnings.is_empty());
}

#[test]
fn detect_self_referencing_broken_heading() {
    let scraps = vec![Scrap::new("a", &None, "## present\n\n[[a#missing]]")];
    let warnings = run(&scraps, |s, b, t| BrokenHeadingRefRule.check(s, b, t));
    assert_eq!(warnings.len(), 1);
}

#[test]
fn detect_multiple_broken_heading_refs_within_one_scrap() {
    let scraps = vec![
        Scrap::new("target", &None, "## one\n\nbody\n"),
        Scrap::new("a", &None, "[[target#missing1]] and [[target#missing2]] and [[target#one]]"),
    ];
    let warnings = run(&scraps, |s, b, t| BrokenHeadingRefRule.check(s, b, t));
    assert_eq!(warnings.len(), 2);
}

#[test]
fn heading_with_spaces_matches_its_dashed_anchor() {
    let scraps = vec![
        Scrap::new("target", &None, "## Getting  Started\n\nbody\n"),
        Scrap::new("a", &None, "[[target#getting-started]] [[target#Getting Started]]"),
    ];
    let warnings = run(&scraps, |s, b, t| BrokenHeadingRefRule.check(s, b, t));
    assert!(warnings.is_empty());
}

// ----------------------------------------------------------- singleton tag

#[test]
fn detect_singleton_tag() {
    let scraps = vec![Scrap::new("a", &None, "text #[[solo]] more")];
    let warnings = run(&scraps, |s, b, t| SingletonTagRule.check(s, b, t));
    assert_eq!(warnings.len(), 1);
    assert_eq!(warnings[0].rule_name, LintRuleName::SingletonTag);
    assert_eq!(warnings[0].scrap_path, "a.md");
    assert!(warnings[0].message.contains("solo"));
    assert!(warnings[0].span.is_some());
    assert_eq!(warnings[0].span, Some((5, 14)));
}

#[test]
fn skip_shared_tag() {
    let scraps = vec![Scrap::new("a", &None, "#[[shared]]"), Scrap::new("b", &None, "#[[shared]]")];
    let warnings = run(&scraps, |s, b, t| SingletonTagRule.check(s, b, t));
    assert!(warnings.is_empty());
}

#[test]
fn flag_only_the_singleton_among_mixed_tags() {
    let scraps = vec![
        Scrap::new("a", &None, "#[[shared]] #[[only_a]]"),
        Scrap::new("b", &None, "#[[shared]]"),
    ];
    let warnings = run(&scraps, |s, b, t| SingletonTagRule.check(s, b, t));
    assert_eq!(warnings.len(), 1);
    assert_eq!(warnings[0].scrap_path, "a.md");
    assert!(warnings[0].message.contains("only_a"));
}

#[test]
fn hierarchical_siblings_are_each_singletons() {
    let scraps = vec![Scrap::new("a", &None, "#[[ai/ml]]"), Scrap::new("b", &None, "#[[ai/db]]")];
    let warnings = run(&scraps, |s, b, t| SingletonTagRule.check(s, b, t));
    assert_eq!(warnings.len(), 2);
    assert!(warnings.iter().any(|w| w.message.contains("ai/ml")));
    assert!(warnings.iter().any(|w| w.message.contains("ai/db")));
}

#[test]
fn parent_with_descendant_in_another_scrap_is_not_singleton() {
    let scraps = vec![
        Scrap::new("a", &None, "#[[project/alpha]]"),
        Scrap::new("b", &None, "#[[project/alpha/sub]]"),
    ];
    let warnings = run(&scraps, |s, b, t| SingletonTagRule.check(s, b, t));
    assert_eq!(warnings.len(), 1);
    assert_eq!(warnings[0].scrap_path, "b.md");
    assert!(warnings[0].message.contains("project/alpha/sub"));
}

#[test]
fn same_tag_repeated_in_one_scrap_is_a_single_warning() {
    let scraps = vec![Scrap::new("a", &None, "#[[dup]] and again #[[dup]]")];
    let warnings = run(&scraps, |s, b, t| SingletonTagRule.check(s, b, t));
    assert_eq!(warnings.len(), 1);
}

#[test]
fn skip_scrap_without_tags() {
    let scraps = vec![Scrap::new("a", &None, "[[link]] plain text, no tags")];
    let warnings = run(&scraps, |s, b, t| SingletonTagRule.check(s, b, t));
    assert!(warnings.is_empty());
}

// ----------------------------------------------------------- stale by git

#[test]
fn flag_scrap_older_than_threshold() {
    let now = now_ts();
    let rule = stale(Some(now - 200 * SECONDS_PER_DAY), true, 1, 180, now);
    let scraps = vec![Scrap::new("old", &None, "body")];
    let warnings = run(&scraps, |s, b, t| rule.check(s, b, t));
    assert_eq!(warnings.len(), 1);
    assert_eq!(warnings[0].rule_name, LintRuleName::StaleByGit);
    assert_eq!(warnings[0].scrap_path, "old.md");
    assert!(warnings[0].message.contains("200 days"));
    assert_eq!(warnings[0].message, "scrap not updated in 200 days");
}

#[test]
fn skip_scrap_within_threshold() {
    let now = now_ts();
    let rule = stale(Some(now - 30 * SECONDS_PER_DAY), true, 1, 180, now);
    let scraps = vec![Scrap::new("recent", &None, "body")];
    let warnings = run(&scraps, |s, b, t| rule.check(s, b, t));
    assert!(warnings.is_empty());
}

#[test]
fn skip_uncommitted_scrap() {
    let now = now_ts();
    let rule = stale(None, true, 1, 180, now);
    let scraps = vec![Scrap::new("brand_new", &None, "body")];
    let warnings = run(&scraps, |s, b, t| rule.check(s, b, t));
    assert!(warnings.is_empty());
}

#[test]
fn skip_when_not_a_git_repo() {
    let now = now_ts();
    let rule = stale(Some(0), false, 1, 180, now);
    let scraps = vec![Scrap::new("a", &None, "body")];
    let warnings = run(&scraps, |s, b, t| rule.check(s, b, t));
    assert!(warnings.is_empty());
}

#[test]
fn flag_scrap_with_context_path() {
    let now = now_ts();
    let rule = stale(Some(now - 365 * SECONDS_PER_DAY), true, 1, 180, now);
    let scraps = vec![Scrap::new("note", &Some("ai".into()), "body")];
    let warnings = run(&scraps, |s, b, t| rule.check(s, b, t));
    assert_eq!(warnings.len(), 1);
    assert_eq!(warnings[0].scrap_path, "ai/note.md");
}

#[test]
fn default_test_git_returns_zero_so_old_scraps_flagged() {
    let rule = stale(Some(0), true, 1, 180, now_ts());
    let scraps = vec![Scrap::new("a", &None, "")];
    let warnings = run(&scraps, |s, b, t| rule.check(s, b, t));
    assert_eq!(warnings.len(), 1);
}

#[test]
fn stale_age_exactly_at_threshold_is_not_flagged() {
    let now = now_ts();
    let rule = stale(Some(now - 180 * SECONDS_PER_DAY), true, 1, 180, now);
    let scraps = vec![Scrap::new("edge", &None, "")];
    let warnings = run(&scraps, |s, b, t| rule.check(s, b, t));
    assert!(warnings.is_empty());
}

#[test]
fn stale_threshold_saturates_instead_of_overflowing() {
    // A threshold beyond what i64 seconds hold saturates rather than wrapping:
    // the cutoff falls far into the past, so a commit at the epoch is recent.
    let rule = stale(Some(0), true, 1, u64::MAX / 2, now_ts());
    let scraps = vec![Scrap::new("a", &None, "")];
    let warnings = run(&scraps, |s, b, t| rule.check(s, b, t));
    assert!(warnings.is_empty());
}

#[test]
fn stale_times_beyond_the_recorded_ones_count_as_uncommitted() {
    let now = now_ts();
    let rule = StaleByGitRule { is_repo: true, commit_ts: vec![Some(0)], threshold_days: 1, now_ts: now };
    let scraps = vec![Scrap::new("a", &None, ""), Scrap::new("b", &None, "")];
    let warnings = run(&scraps, |s, b, t| rule.check(s, b, t));
    assert_eq!(warnings.len(), 1);
    assert_eq!(warnings[0].scrap_path, "a.md");
}

// ------------------------------------------------------------------ usecase

#[test]
fn all_rules_run_and_aggregate() {
    let scraps = vec![
        Scrap::new("no_links", &None, "plain text"),
        Scrap::new("self_linker", &None, "[[self_linker]] [[no_links]]"),
        Scrap::new("overlinker", &None, "[[no_links]] [[no_links]]"),
        Scrap::new("linker_to_unknown", &None, "[[unknown]]"),
        Scrap::new("heading_referrer", &None, "[[no_links#missing]]"),
    ];
    let warnings = LintUsecase::new().execute(&scraps, &[], Vec::new()).unwrap();
    let rule_names: Vec<&LintRuleName> = warnings.iter().map(|w| &w.rule_name).collect();
    assert!(rule_names.contains(&&LintRuleName::DeadEnd));
    assert!(rule_names.contains(&&LintRuleName::Lonely));
    assert!(rule_names.contains(&&LintRuleName::SelfLink));
    assert!(rule_names.contains(&&LintRuleName::Overlinking));
    assert!(rule_names.contains(&&LintRuleName::BrokenLink));
    assert!(rule_names.contains(&&LintRuleName::BrokenHeadingRef));
}

#[test]
fn clean_project_no_warnings() {
    let scraps = vec![
        Scrap::new("a", &None, "[[b]] #[[shared_tag]]"),
        Scrap::new("b", &None, "[[a]] #[[shared_tag]]"),
    ];
    let warnings = LintUsecase::new().execute(&scraps, &[], Vec::new()).unwrap();
    assert!(warnings.is_empty());
}

#[test]
fn empty_project_no_errors() {
    let warnings = LintUsecase::new().execute(&[], &[], Vec::new()).unwrap();
    assert!(warnings.is_empty());
}

#[test]
fn filter_by_specific_rule() {
    let scraps = vec![
        Scrap::new("no_links", &None, "plain text"),
        Scrap::new("self_linker", &None, "[[self_linker]] [[no_links]]"),
    ];
    let warnings = LintUsecase::new().execute(&scraps, &[LintRuleName::DeadEnd], Vec::new()).unwrap();
    assert!(warnings.iter().all(|w| w.rule_name == LintRuleName::DeadEnd));
    assert!(!warnings.is_empty());
}

#[test]
fn default_excludes_opt_in_rules() {
    let scraps = vec![Scrap::new("a", &None, "[[b]]"), Scrap::new("b", &None, "[[a]]")];
    let stale_rule = stale(Some(0), true, 2, 1, 1_700_000_000);
    let warnings = LintUsecase::new().execute(&scraps, &[], vec![stale_rule]).unwrap();
    assert!(warnings.iter().all(|w| w.rule_name != LintRuleName::StaleByGit));
}

#[test]
fn extra_rule_runs_when_explicitly_selected() {
    let scraps = vec![Scrap::new("a", &None, "[[b]]"), Scrap::new("b", &None, "[[a]]")];
    let stale_rule = stale(Some(0), true, 2, 1, 1_700_000_000);
    let warnings = LintUsecase::new()
        .execute(&scraps, &[LintRuleName::StaleByGit], vec![stale_rule])
        .unwrap();
    assert!(!warnings.is_empty());
    assert!(warnings.iter().all(|w| w.rule_name == LintRuleName::StaleByGit));
}

#[test]
fn usecase_reports_rules_in_registry_order() {
    let scraps = vec![Scrap::new("solo", &None, "[[solo]] [[gone]]")];
    let warnings = LintUsecase::new().execute(&scraps, &[], Vec::new()).unwrap();
    let names: Vec<&str> = warnings.iter().map(|w| w.rule_name.as_str()).collect();
    assert_eq!(names, vec!["self-link", "broken-link"]);
}

// -------------------------------------------------------------- rule names

#[test]
fn rule_names_and_selections() {
    assert_eq!(LintRuleName::BrokenHeadingRef.as_str(), "broken-heading-ref");
    assert_eq!(LintRuleName::StaleByGit.as_str(), "stale-by-git");
    assert_eq!(LintRuleName::SingletonTag.as_str(), "singleton-tag");
    assert_eq!(LintRuleName::default_rules().len(), 6);
    assert!(!LintRuleName::default_rules().contains(&LintRuleName::StaleByGit));
    let all = LintRuleName::all_rules();
    assert_eq!(all.len(), 8);
    assert_eq!(&all[..6], &LintRuleName::default_rules()[..]);
    assert_eq!(all[6], LintRuleName::StaleByGit);
    assert_eq!(all[7], LintRuleName::SingletonTag);
}

#[test]
fn singleton_tag_runs_when_named_and_only_then() {
    let scraps = vec![
        Scrap::new("a", &None, "[[b]] text #[[solo]]"),
        Scrap::new("b", &None, "[[a]]"),
    ];
    let named = LintUsecase::new().execute(&scraps, &[LintRuleName::SingletonTag], Vec::new()).unwrap();
    assert_eq!(named.len(), 1);
    assert_eq!(named[0].rule_name, LintRuleName::SingletonTag);
    let default_run = LintUsecase::new().execute(&scraps, &[], Vec::new()).unwrap();
    assert!(default_run.iter().all(|w| w.rule_name != LintRuleName::SingletonTag));
}

#[test]
fn relative_path_joins_context_and_title() {
    assert_eq!(scrap_relative_path(&Scrap::new("t", &None, "")), "t.md");
    assert_eq!(scrap_relative_path(&Scrap::new("t", &Some("a/b".into()), "")), "a/b/t.md");
}

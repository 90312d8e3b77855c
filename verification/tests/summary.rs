use scraps::summary::Summary;

fn summarize(md: &str, max: usize) -> Option<String> {
    Summary::from_md_text(md, max).map(|s| s.as_str().to_string())
}

#[test]
fn it_summarizes_a_leading_heading() {
    assert_eq!(
        summarize("## Architectural Decision Records\n\n#[[Documentation]]\n\nアーキテクチャに関する意思決定を記録する文書", 120).unwrap(),
        "Architectural Decision Records"
    );
    assert_eq!(
        summarize("## Large Language Model Wiki\n\n#[[LLM]] #[[Documentation]]\n\n[[Andrej Karpathy]]が提唱したパターン", 120).unwrap(),
        "Large Language Model Wiki"
    );
}

#[test]
fn it_summarizes_after_a_tag_line() {
    assert_eq!(
        summarize("#[[Documentation]]\n\n[[Write the Docs]]コミュニティが提唱するアプローチ", 120).unwrap(),
        "Write the Docsコミュニティが提唱するアプローチ"
    );
    assert_eq!(
        summarize("#[[Documentation]] #[[Software Design]]\n\n[[ドメイン駆動設計|DDD]]において共有する言語", 120).unwrap(),
        "DDDにおいて共有する言語"
    );
}

#[test]
fn it_summarizes_plain_prose_unchanged() {
    assert_eq!(
        summarize("個人やチームの認知容量に対する負荷のこと", 120).unwrap(),
        "個人やチームの認知容量に対する負荷のこと"
    );
}

#[test]
fn it_summarizes_without_bullets_or_embeds() {
    assert_eq!(
        summarize("- [[Git]]を使用したバージョン管理", 120).unwrap(),
        "Gitを使用したバージョン管理"
    );
    assert_eq!(summarize("![[architecture]]\n\n実際の本文", 120).unwrap(), "実際の本文");
    assert_eq!(
        summarize("![[Page#Heading]] embeds a single section from another scrap.", 120).unwrap(),
        "Page#Heading embeds a single section from another scrap."
    );
}

#[test]
fn it_returns_none_when_there_is_no_prose() {
    assert_eq!(Summary::from_md_text("", 120), None);
    assert_eq!(Summary::from_md_text("#[[OnlyTag]]\n\n![[embed]]", 120), None);
}

#[test]
fn it_truncates_on_character_boundaries() {
    let summary = Summary::from_md_text("あいうえおかきくけこ", 5).unwrap();
    assert_eq!(summary.as_str(), "あいうえお…");
}

#[test]
fn it_joins_a_hard_wrapped_paragraph() {
    let md = "#[[Notation/Wiki-link]]\n\nWiki-link notation gives Markdown a typed surface: each `[[…]]` is a typed\nreference that the compiler can resolve, lint, and emit.\n\n## [[Normal Link|Normal link]]";
    let summary = Summary::from_md_text(md, 200).unwrap();
    assert_eq!(
        summary.as_str(),
        "Wiki-link notation gives Markdown a typed surface: each … is a typed reference that the compiler can resolve, lint, and emit."
    );
}

#[test]
fn it_joins_wrapped_japanese_without_inserting_spaces() {
    let md = "ドメインエキスパートと開発者が\n共有する言語のこと";
    let summary = Summary::from_md_text(md, 200).unwrap();
    assert_eq!(summary.as_str(), "ドメインエキスパートと開発者が共有する言語のこと");
}

#[test]
fn it_stops_at_the_end_of_the_first_paragraph() {
    let md = "最初の段落。\n\n二つ目の段落は含めない。";
    let summary = Summary::from_md_text(md, 200).unwrap();
    assert_eq!(summary.as_str(), "最初の段落。");
}

#[test]
fn it_skips_a_leading_code_fence() {
    let md = "```mermaid\ngraph LR\n  Source --> IR\n```\n\nビルドの流れ";
    let summary = Summary::from_md_text(md, 200).unwrap();
    assert_eq!(summary.as_str(), "ビルドの流れ");
}

#[test]
fn it_renders_an_inline_tag_as_text() {
    let md = "`#[[tag]]` marks a tag. Tags and scraps live in separate namespaces.";
    let summary = Summary::from_md_text(md, 200).unwrap();
    assert_eq!(
        summary.as_str(),
        "#tag marks a tag. Tags and scraps live in separate namespaces."
    );
}

#[test]
fn it_skips_a_line_of_only_tags_and_embeds() {
    let md = "#[[Documentation]] #[[Software Design]]\n![[diagram]]\n\n本文はここから";
    let summary = Summary::from_md_text(md, 200).unwrap();
    assert_eq!(summary.as_str(), "本文はここから");
}

#[test]
fn summary_strips_bold_and_collapses_whitespace() {
    let summary = Summary::from_md_text("**bold**   text\tand __more__", 200).unwrap();
    assert_eq!(summary.as_str(), "bold text and more");
}

#[test]
fn summary_does_not_start_at_a_thematic_break() {
    let summary = Summary::from_md_text("---\n\n> quoted prose\r\nstill quoted", 200).unwrap();
    assert_eq!(summary.as_str(), "quoted prose still quoted");
}

#[test]
fn summary_of_an_exact_fit_is_not_cut() {
    let summary = Summary::from_md_text("abcde", 5).unwrap();
    assert_eq!(summary.as_str(), "abcde");
    let cut = Summary::from_md_text("abc  def", 5).unwrap();
    assert_eq!(cut.as_str(), "abc d…");
    let at_space = Summary::from_md_text("abc  def", 4).unwrap();
    assert_eq!(at_space.as_str(), "abc…");
}

#[test]
fn it_never_exceeds_the_limit_and_the_ellipsis() {
    let mds = ["a long paragraph of prose that goes on", "# Heading that is long", "短い日本語の文章です", "x"];
    for md in mds {
        for max in 0..12 {
            if let Some(s) = Summary::from_md_text(md, max) {
                assert!(s.as_str().chars().count() <= max + 1, "{md} {max}");
            }
        }
    }
}

#[test]
fn a_limit_only_cuts_the_uncut_summary() {
    let md = "First line of a paragraph\nthat wraps onto a second line.";
    let full = Summary::from_md_text(md, usize::MAX).map(|s| s.as_str().to_string()).unwrap();
    for n in 0..40 {
        let cut = Summary::from_md_text(md, n).map(|s| s.as_str().to_string()).unwrap();
        let expected = if full.chars().count() <= n {
            full.clone()
        } else {
            format!("{}…", full.chars().take(n).collect::<String>().trim_end())
        };
        assert_eq!(cut, expected);
    }
    assert!(Summary::from_md_text("", 0).is_none());
    assert!(Summary::from_md_text("", 100).is_none());
}

#[test]
fn a_summary_is_one_tidy_line() {
    let mds = [
        "  spaced   out\ttext  \n  on two   lines ",
        "# Heading   with  gaps",
        "- list item\n  continued\n\nnext paragraph",
        "日本語の\n文章",
    ];
    for md in mds {
        for max in [3usize, 10, 100] {
            let s = Summary::from_md_text(md, max).unwrap();
            let t = s.as_str();
            assert!(!t.is_empty());
            assert_eq!(t, t.trim());
            assert!(!t.contains('\n'));
            assert!(!t.contains("  "));
        }
    }
}

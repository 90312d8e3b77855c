//! Lint rules over a wiki: scraps that lead nowhere or that nothing leads
//! to, links to the scrap itself, repeated links, links and heading
//! references that do not resolve, tags used once, and scraps left
//! untouched too long.

use vstd::prelude::*;
use vstd::utf8::encode_utf8;

use crate::backlinks::{backlinks_of, tag_backlinks_of, BacklinksMap};
use crate::model::{
    contains_key, key_text, key_views, link_keys, links, opt_chars, self_key,
    string_views, tags, KeyV, RefKind, Scrap, ScrapKey, ScrapV, scrap_views,
};
use crate::error::ScrapsError;
use crate::tags::Tags;
use crate::text::{
    chars_of, decimal, decimal_chars, find_str, first_match, lowercase, push_str, string_of,
    to_lowercase,
};
use crate::textops::{collapse_whitespace, collapse_ws};

verus! {

broadcast use crate::model::lemma_scrap_view;

/// The lint rules.
#[derive(Debug, Clone, Copy, PartialEq, Eq, Structural)]
pub enum LintRuleName {
    DeadEnd,
    Lonely,
    SelfLink,
    Overlinking,
    BrokenLink,
    BrokenHeadingRef,
    StaleByGit,
    SingletonTag,
}

pub open spec fn rule_text(n: LintRuleName) -> Seq<char> {
    match n {
        LintRuleName::DeadEnd => "dead-end"@,
        LintRuleName::Lonely => "lonely"@,
        LintRuleName::SelfLink => "self-link"@,
        LintRuleName::Overlinking => "overlinking"@,
        LintRuleName::BrokenLink => "broken-link"@,
        LintRuleName::BrokenHeadingRef => "broken-heading-ref"@,
        LintRuleName::StaleByGit => "stale-by-git"@,
        LintRuleName::SingletonTag => "singleton-tag"@,
    }
}

/// The rules run when none is named: all but the opt-in ones.
pub open spec fn default_rule_seq() -> Seq<LintRuleName> {
    seq![
        LintRuleName::DeadEnd,
        LintRuleName::Lonely,
        LintRuleName::SelfLink,
        LintRuleName::Overlinking,
        LintRuleName::BrokenLink,
        LintRuleName::BrokenHeadingRef,
    ]
}

/// Every rule: the defaults, then the opt-in stale-by-git and
/// singleton-tag rules.
pub open spec fn all_rule_seq() -> Seq<LintRuleName> {
    default_rule_seq() + seq![LintRuleName::StaleByGit, LintRuleName::SingletonTag]
}

/// The rules the library runs itself: the defaults, then singleton-tag.
pub open spec fn builtin_rule_seq() -> Seq<LintRuleName> {
    default_rule_seq().push(LintRuleName::SingletonTag)
}

impl LintRuleName {
    /// The rule's name as the command line writes it.
    pub fn as_str(&self) -> (r: &str)
        ensures
            r@ == rule_text(*self),
    {
        match self {
            LintRuleName::DeadEnd => "dead-end",
            LintRuleName::Lonely => "lonely",
            LintRuleName::SelfLink => "self-link",
            LintRuleName::Overlinking => "overlinking",
            LintRuleName::BrokenLink => "broken-link",
            LintRuleName::BrokenHeadingRef => "broken-heading-ref",
            LintRuleName::StaleByGit => "stale-by-git",
            LintRuleName::SingletonTag => "singleton-tag",
        }
    }

    /// Rules selected when no rule is named: excludes the opt-in rules that
    /// need outside resources.
    pub fn default_rules() -> (r: Vec<LintRuleName>)
        ensures
            r@ == default_rule_seq(),
    {
        let r = vec![
            LintRuleName::DeadEnd,
            LintRuleName::Lonely,
            LintRuleName::SelfLink,
            LintRuleName::Overlinking,
            LintRuleName::BrokenLink,
            LintRuleName::BrokenHeadingRef,
        ];
        assert(r@ =~= default_rule_seq());
        r
    }

    /// All rules, the opt-in ones included: the default rules, then
    /// stale-by-git and singleton-tag. Every rule occurs exactly once.
    pub fn all_rules() -> (r: Vec<LintRuleName>)
        ensures
            r@ == all_rule_seq(),
            r@.no_duplicates(),
            forall|n: LintRuleName| r@.contains(n),
    {
        let mut rules = Self::default_rules();
        rules.push(LintRuleName::StaleByGit);
        rules.push(LintRuleName::SingletonTag);
        proof {
            assert(rules@ =~= all_rule_seq());
            assert forall|n: LintRuleName| rules@.contains(n) by {
                match n {
                    LintRuleName::DeadEnd => assert(rules@[0] == n),
                    LintRuleName::Lonely => assert(rules@[1] == n),
                    LintRuleName::SelfLink => assert(rules@[2] == n),
                    LintRuleName::Overlinking => assert(rules@[3] == n),
                    LintRuleName::BrokenLink => assert(rules@[4] == n),
                    LintRuleName::BrokenHeadingRef => assert(rules@[5] == n),
                    LintRuleName::StaleByGit => assert(rules@[6] == n),
                    LintRuleName::SingletonTag => assert(rules@[7] == n),
                }
            }
        }
        rules
    }

    /// The rules the library runs itself: the default rules, then the
    /// opt-in singleton-tag rule, which runs only when named.
    fn builtin_rules() -> (r: Vec<LintRuleName>)
        ensures
            r@ == builtin_rule_seq(),
    {
        let mut rules = Self::default_rules();
        rules.push(LintRuleName::SingletonTag);
        rules
    }
}

/// A warning as a value.
#[verifier::ext_equal]
pub struct WarningV {
    pub rule: LintRuleName,
    pub path: Seq<char>,
    pub message: Seq<char>,
    pub source: Option<Seq<char>>,
    pub span: Option<(usize, usize)>,
}

/// One finding of a lint rule.
#[derive(Debug, Clone, PartialEq, Eq)]
pub struct LintWarning {
    pub rule_name: LintRuleName,
    pub scrap_path: String,
    pub message: String,
    /// The scrap's text, where the warning points into it.
    pub source: Option<String>,
    /// Byte range of the offending text within `source`.
    pub span: Option<(usize, usize)>,
}

impl View for LintWarning {
    type V = WarningV;

    open spec fn view(&self) -> WarningV {
        WarningV {
            rule: self.rule_name,
            path: self.scrap_path@,
            message: self.message@,
            source: opt_chars(self.source),
            span: self.span,
        }
    }
}

pub open spec fn warning_views(v: Seq<LintWarning>) -> Seq<WarningV> {
    v.map_values(|w: LintWarning| w@)
}

/// The scrap's file path relative to the scraps directory.
pub open spec fn rel_path(s: ScrapV) -> Seq<char> {
    match s.ctx {
        Some(c) => c + "/"@ + s.title + ".md"@,
        None => s.title + ".md"@,
    }
}

/// Byte range of the first occurrence of `pat` in `text`.
pub open spec fn span_of(text: Seq<char>, pat: Seq<char>) -> Option<(usize, usize)> {
    match first_match(encode_utf8(text), encode_utf8(pat), 0) {
        Some(i) => Some((i as usize, (i + (encode_utf8(pat).len() as usize)) as usize)),
        None => None,
    }
}

/// `[[key]]`
pub open spec fn link_pattern(k: KeyV) -> Seq<char> {
    "[["@ + key_text(k) + "]]"@
}

/// The warnings of `f` for each scrap in turn.
pub open spec fn flat_warnings(ss: Seq<ScrapV>, f: spec_fn(ScrapV) -> Seq<WarningV>) -> Seq<
    WarningV,
>
    decreases ss.len(),
{
    if ss.len() == 0 {
        seq![]
    } else {
        flat_warnings(ss.drop_last(), f) + f(ss.last())
    }
}

/// A scrap that links nowhere.
pub open spec fn dead_end_of(s: ScrapV) -> Seq<WarningV> {
    if links(s).len() == 0 {
        seq![
            WarningV {
                rule: LintRuleName::DeadEnd,
                path: rel_path(s),
                message: "scrap has no links to other scraps"@,
                source: None,
                span: None,
            },
        ]
    } else {
        seq![]
    }
}

/// A scrap that no scrap of `bm` links to.
pub open spec fn lonely_of(bm: Seq<ScrapV>, s: ScrapV) -> Seq<WarningV> {
    if backlinks_of(bm, self_key(s)).len() == 0 {
        seq![
            WarningV {
                rule: LintRuleName::Lonely,
                path: rel_path(s),
                message: "scrap is not linked from any other scrap"@,
                source: None,
                span: None,
            },
        ]
    } else {
        seq![]
    }
}

/// A scrap that links to itself, pointing at the first `[[itself]]`.
pub open spec fn self_link_of(s: ScrapV) -> Seq<WarningV> {
    if links(s).contains(self_key(s)) {
        seq![
            WarningV {
                rule: LintRuleName::SelfLink,
                path: rel_path(s),
                message: "scrap links to itself"@,
                source: Some(s.md_text),
                span: span_of(s.md_text, link_pattern(self_key(s))),
            },
        ]
    } else {
        seq![]
    }
}

/// How often `k` occurs in `ks`.
pub open spec fn count_key(ks: Seq<KeyV>, k: KeyV) -> nat
    decreases ks.len(),
{
    if ks.len() == 0 {
        0
    } else {
        count_key(ks.drop_last(), k) + if ks.last() == k {
            1nat
        } else {
            0nat
        }
    }
}

/// For each target among `ks` that the scrap links to more than once, a
/// warning with the count.
pub open spec fn overlinks_among(s: ScrapV, ks: Seq<KeyV>) -> Seq<WarningV>
    decreases ks.len(),
{
    if ks.len() == 0 {
        seq![]
    } else {
        let k = ks.last();
        let n = count_key(link_keys(s.refs), k);
        overlinks_among(s, ks.drop_last()) + if n > 1 {
            seq![
                WarningV {
                    rule: LintRuleName::Overlinking,
                    path: rel_path(s),
                    message: "link "@ + link_pattern(k) + " appears "@ + decimal(n) + " times"@,
                    source: Some(s.md_text),
                    span: span_of(s.md_text, link_pattern(k)),
                },
            ]
        } else {
            seq![]
        }
    }
}

/// Every target the scrap links to more than once, in order of first link.
pub open spec fn overlinking_of(s: ScrapV) -> Seq<WarningV> {
    overlinks_among(s, links(s))
}

/// The keys of the scraps.
pub open spec fn self_keys(ss: Seq<ScrapV>) -> Seq<KeyV> {
    ss.map_values(|x: ScrapV| self_key(x))
}

/// The targets among `ks` that name no scrap of `keys`.
pub open spec fn broken_among(keys: Seq<KeyV>, s: ScrapV, ks: Seq<KeyV>) -> Seq<WarningV>
    decreases ks.len(),
{
    if ks.len() == 0 {
        seq![]
    } else {
        let k = ks.last();
        broken_among(keys, s, ks.drop_last()) + if keys.contains(k) {
            seq![]
        } else {
            seq![
                WarningV {
                    rule: LintRuleName::BrokenLink,
                    path: rel_path(s),
                    message: "broken wikilink: "@ + link_pattern(k),
                    source: None,
                    span: None,
                },
            ]
        }
    }
}

/// Every link of the scrap that resolves to no scrap of `ss`.
pub open spec fn broken_link_of(ss: Seq<ScrapV>, s: ScrapV) -> Seq<WarningV> {
    broken_among(self_keys(ss), s, links(s))
}

/// The heading anchor of a text: lowercased, whitespace runs turned into a
/// single `-`, none at either end.
pub open spec fn slug(s: Seq<char>) -> Seq<char> {
    collapse_ws(lowercase(s)).map_values(|c: char| if c == ' ' { '-' } else { c })
}

/// The last scrap of `ss` known by `k`.
pub open spec fn last_with_key(ss: Seq<ScrapV>, k: KeyV) -> Option<ScrapV>
    decreases ss.len(),
{
    if ss.len() == 0 {
        None
    } else if self_key(ss.last()) == k {
        Some(ss.last())
    } else {
        last_with_key(ss.drop_last(), k)
    }
}

/// The heading references among `refs` whose heading is in no heading of
/// the scrap they name (references to a missing scrap are left alone).
pub open spec fn broken_headings_among(ss: Seq<ScrapV>, s: ScrapV, refs: Seq<crate::model::RefV>) -> Seq<
    WarningV,
>
    decreases refs.len(),
{
    if refs.len() == 0 {
        seq![]
    } else {
        let r = refs.last();
        broken_headings_among(ss, s, refs.drop_last()) + if r.kind == RefKind::Link
            && r.heading is Some && last_with_key(ss, r.key) is Some && slug(r.heading->0).len() > 0
            && !last_with_key(ss, r.key)->0.headings.map_values(|h: Seq<char>| slug(h)).contains(
            slug(r.heading->0),
        ) {
            seq![
                WarningV {
                    rule: LintRuleName::BrokenHeadingRef,
                    path: rel_path(s),
                    message: "broken heading reference: [["@ + key_text(r.key) + "#"@
                        + r.heading->0 + "]] (heading not found in target scrap)"@,
                    source: None,
                    span: None,
                },
            ]
        } else {
            seq![]
        }
    }
}

/// Every `[[name#heading]]` of the scrap whose heading the named scrap lacks.
pub open spec fn broken_heading_ref_of(ss: Seq<ScrapV>, s: ScrapV) -> Seq<WarningV> {
    broken_headings_among(ss, s, s.refs)
}

/// `#[[tag]]`
pub open spec fn tag_pattern(t: Seq<char>) -> Seq<char> {
    "#[["@ + t + "]]"@
}

/// The tags among `ts` that apply to a single scrap of `bm`.
pub open spec fn singletons_among(bm: Seq<ScrapV>, s: ScrapV, ts: Seq<Seq<char>>) -> Seq<WarningV>
    decreases ts.len(),
{
    if ts.len() == 0 {
        seq![]
    } else {
        let t = ts.last();
        singletons_among(bm, s, ts.drop_last()) + if tag_backlinks_of(bm, t).len() == 1 {
            seq![
                WarningV {
                    rule: LintRuleName::SingletonTag,
                    path: rel_path(s),
                    message: "tag "@ + tag_pattern(t)
                        + " is used by only one scrap (a tag should connect two or more scraps; did you mean a link "@
                        + "[["@ + t + "]]"@ + "?)"@,
                    source: Some(s.md_text),
                    span: span_of(s.md_text, tag_pattern(t)),
                },
            ]
        } else {
            seq![]
        }
    }
}

/// Every tag of the scrap that connects it to no other scrap.
pub open spec fn singleton_tag_of(bm: Seq<ScrapV>, s: ScrapV) -> Seq<WarningV> {
    singletons_among(bm, s, tags(s))
}

// ----------------------------------------------------------------- exec --

/// The scrap's file path relative to the scraps directory: `ctx/title.md`
/// or `title.md`.
pub fn scrap_relative_path(scrap: &Scrap) -> (r: String)
    ensures
        r@ == rel_path(scrap@),
{
    let mut v: Vec<char> = Vec::new();
    match &scrap.ctx {
        Some(c) => {
            push_str(&mut v, c.as_str());
            push_str(&mut v, "/");
        },
        None => {},
    }
    push_str(&mut v, scrap.title.as_str());
    push_str(&mut v, ".md");
    let r = string_of(v.as_slice());
    assert(r@ =~= rel_path(scrap@));
    r
}

fn find_span(text: &str, pat: &str) -> (r: Option<(usize, usize)>)
    ensures
        r == span_of(text@, pat@),
{
    match find_str(text, pat) {
        Some(start) => Some((start, start + pat.len())),
        None => None,
    }
}

fn link_pattern_of(k: &ScrapKey) -> (r: String)
    ensures
        r@ == link_pattern(k@),
{
    let mut v: Vec<char> = Vec::new();
    push_str(&mut v, "[[");
    let t = k.to_text();
    push_str(&mut v, t.as_str());
    push_str(&mut v, "]]");
    let r = string_of(v.as_slice());
    assert(r@ =~= link_pattern(k@));
    r
}

fn warning(rule: LintRuleName, scrap: &Scrap, message: Vec<char>) -> (r: LintWarning)
    ensures
        r@ == (WarningV {
            rule,
            path: rel_path(scrap@),
            message: message@,
            source: None,
            span: None,
        }),
{
    LintWarning {
        rule_name: rule,
        scrap_path: scrap_relative_path(scrap),
        message: string_of(message.as_slice()),
        source: None,
        span: None,
    }
}

fn append_warnings(out: &mut Vec<LintWarning>, ws: Vec<LintWarning>)
    ensures
        warning_views(final(out)@) == warning_views(old(out)@) + warning_views(ws@),
{
    let mut ws = ws;
    let ghost before = out@;
    let ghost added = ws@;
    out.append(&mut ws);
    assert(warning_views(out@) =~= warning_views(before) + warning_views(added));
}

proof fn lemma_flat_step(ss: Seq<ScrapV>, f: spec_fn(ScrapV) -> Seq<WarningV>, i: int)
    requires
        0 <= i < ss.len(),
    ensures
        flat_warnings(ss.take(i + 1), f) == flat_warnings(ss.take(i), f) + f(ss[i]),
{
    assert(ss.take(i + 1).drop_last() =~= ss.take(i));
}

fn dead_end_for(s: &Scrap) -> (r: Vec<LintWarning>)
    ensures
        warning_views(r@) == dead_end_of(s@),
{
    let ls = s.links();
    if ls.len() == 0 {
        let w = warning(LintRuleName::DeadEnd, s, chars_of("scrap has no links to other scraps"));
        let r = vec![w];
        assert(warning_views(r@) =~= dead_end_of(s@));
        r
    } else {
        let r: Vec<LintWarning> = Vec::new();
        assert(warning_views(r@) =~= dead_end_of(s@));
        r
    }
}

fn lonely_for(bm: &BacklinksMap, s: &Scrap) -> (r: Vec<LintWarning>)
    ensures
        warning_views(r@) == lonely_of(bm@, s@),
{
    let linking = bm.get(&s.self_key());
    if linking.len() == 0 {
        let w = warning(
            LintRuleName::Lonely,
            s,
            chars_of("scrap is not linked from any other scrap"),
        );
        let r = vec![w];
        assert(warning_views(r@) =~= lonely_of(bm@, s@));
        r
    } else {
        let r: Vec<LintWarning> = Vec::new();
        assert(warning_views(r@) =~= lonely_of(bm@, s@));
        r
    }
}

fn self_link_for(s: &Scrap) -> (r: Vec<LintWarning>)
    ensures
        warning_views(r@) == self_link_of(s@),
{
    let key = s.self_key();
    let ls = s.links();
    if contains_key(&ls, &key) {
        let pat = link_pattern_of(&key);
        let w = LintWarning {
            rule_name: LintRuleName::SelfLink,
            scrap_path: scrap_relative_path(s),
            message: string_of(chars_of("scrap links to itself").as_slice()),
            source: Some(s.md_text.clone()),
            span: find_span(s.md_text.as_str(), pat.as_str()),
        };
        let r = vec![w];
        assert(warning_views(r@) =~= self_link_of(s@));
        r
    } else {
        let r: Vec<LintWarning> = Vec::new();
        assert(warning_views(r@) =~= self_link_of(s@));
        r
    }
}

fn count_occurrences(ks: &Vec<ScrapKey>, k: &ScrapKey) -> (r: u64)
    ensures
        r == count_key(key_views(ks@), k@),
{
    let ghost kv = key_views(ks@);
    let mut n: u64 = 0;
    let mut i: usize = 0;
    while i < ks.len()
        invariant
            i <= ks.len(),
            kv == key_views(ks@),
            n == count_key(kv.take(i as int), k@),
            n <= i,
        decreases ks.len() - i,
    {
        assert(kv.take(i + 1).drop_last() =~= kv.take(i as int));
        assert(kv[i as int] == ks@[i as int]@);
        if ks[i].same(k) {
            n += 1;
        }
        i += 1;
    }
    assert(kv.take(ks.len() as int) =~= kv);
    n
}

fn overlinking_for(s: &Scrap) -> (r: Vec<LintWarning>)
    ensures
        warning_views(r@) == overlinking_of(s@),
{
    let ks = s.links();
    let occ = s.link_occurrences();
    let ghost kv = key_views(ks@);
    let mut out: Vec<LintWarning> = Vec::new();
    let mut i: usize = 0;
    while i < ks.len()
        invariant
            i <= ks.len(),
            kv == key_views(ks@),
            kv == links(s@),
            key_views(occ@) == link_keys(s@.refs),
            warning_views(out@) == overlinks_among(s@, kv.take(i as int)),
        decreases ks.len() - i,
    {
        let k = &ks[i];
        assert(kv.take(i + 1).drop_last() =~= kv.take(i as int));
        assert(kv.take(i + 1).last() == k@);
        let n = count_occurrences(&occ, k);
        if n > 1 {
            let pat = link_pattern_of(k);
            let mut m: Vec<char> = Vec::new();
            push_str(&mut m, "link ");
            push_str(&mut m, pat.as_str());
            push_str(&mut m, " appears ");
            let d = decimal_chars(n);
            crate::textops::append_range(&mut m, d.as_slice(), 0, d.len());
            assert(d@.subrange(0, d@.len() as int) =~= d@);
            push_str(&mut m, " times");
            let w = LintWarning {
                rule_name: LintRuleName::Overlinking,
                scrap_path: scrap_relative_path(s),
                message: string_of(m.as_slice()),
                source: Some(s.md_text.clone()),
                span: find_span(s.md_text.as_str(), pat.as_str()),
            };
            let ghost before = warning_views(out@);
            out.push(w);
            assert(m@ =~= "link "@ + link_pattern(k@) + " appears "@ + decimal(n as nat)
                + " times"@);
            assert(warning_views(out@) =~= overlinks_among(s@, kv.take(i + 1)));
        } else {
            assert(warning_views(out@) =~= overlinks_among(s@, kv.take(i + 1)));
        }
        i += 1;
    }
    assert(kv.take(ks.len() as int) =~= kv);
    out
}

fn broken_links_for(keys: &Vec<ScrapKey>, s: &Scrap) -> (r: Vec<LintWarning>)
    ensures
        warning_views(r@) == broken_among(key_views(keys@), s@, links(s@)),
{
    let ks = s.links();
    let ghost kv = key_views(ks@);
    let mut out: Vec<LintWarning> = Vec::new();
    let mut i: usize = 0;
    while i < ks.len()
        invariant
            i <= ks.len(),
            kv == key_views(ks@),
            kv == links(s@),
            warning_views(out@) == broken_among(key_views(keys@), s@, kv.take(i as int)),
        decreases ks.len() - i,
    {
        let k = &ks[i];
        assert(kv.take(i + 1).drop_last() =~= kv.take(i as int));
        assert(kv.take(i + 1).last() == k@);
        if !contains_key(keys, k) {
            let mut m: Vec<char> = Vec::new();
            push_str(&mut m, "broken wikilink: ");
            let pat = link_pattern_of(k);
            push_str(&mut m, pat.as_str());
            let w = warning(LintRuleName::BrokenLink, s, m);
            let ghost before = warning_views(out@);
            out.push(w);
            assert(warning_views(out@) =~= broken_among(key_views(keys@), s@, kv.take(i + 1)));
        } else {
            assert(warning_views(out@) =~= broken_among(key_views(keys@), s@, kv.take(i + 1)));
        }
        i += 1;
    }
    assert(kv.take(ks.len() as int) =~= kv);
    out
}

/// The keys of the scraps, in order.
pub fn keys_of(scraps: &[Scrap]) -> (r: Vec<ScrapKey>)
    ensures
        key_views(r@) == self_keys(scrap_views(scraps@)),
{
    let mut r: Vec<ScrapKey> = Vec::new();
    let mut i: usize = 0;
    while i < scraps.len()
        invariant
            i <= scraps.len(),
            r.len() == i,
            forall|j: int| 0 <= j < i ==> (#[trigger] r@[j])@ == self_key(scraps@[j]@),
        decreases scraps.len() - i,
    {
        r.push(scraps[i].self_key());
        i += 1;
    }
    assert(key_views(r@) =~= self_keys(scrap_views(scraps@)));
    r
}

/// The heading anchor of a text.
pub fn slug_of(s: &str) -> (r: Vec<char>)
    ensures
        r@ == slug(s@),
{
    let lower = to_lowercase(s);
    let lc = chars_of(lower.as_str());
    let c = collapse_whitespace(lc.as_slice());
    let mut r: Vec<char> = Vec::new();
    let mut i: usize = 0;
    while i < c.len()
        invariant
            i <= c.len(),
            r.len() == i,
            forall|j: int|
                0 <= j < i ==> #[trigger] r@[j] == (if c@[j] == ' ' {
                    '-'
                } else {
                    c@[j]
                }),
        decreases c.len() - i,
    {
        if c[i] == ' ' {
            r.push('-');
        } else {
            r.push(c[i]);
        }
        i += 1;
    }
    assert(r@ =~= slug(s@));
    r
}

pub(crate) fn same_chars(a: &Vec<char>, b: &Vec<char>) -> (r: bool)
    ensures
        r == (a@ == b@),
{
    if a.len() != b.len() {
        return false;
    }
    let mut i: usize = 0;
    while i < a.len()
        invariant
            i <= a.len() == b.len(),
            forall|j: int| 0 <= j < i ==> a@[j] == b@[j],
        decreases a.len() - i,
    {
        if a[i] != b[i] {
            return false;
        }
        i += 1;
    }
    assert(a@ =~= b@);
    true
}

pub(crate) fn last_scrap_with_key(scraps: &[Scrap], k: &ScrapKey) -> (r: Option<usize>)
    ensures
        r matches Some(i) ==> i < scraps.len() && last_with_key(scrap_views(scraps@), k@) == Some(
            scraps@[i as int]@,
        ),
        r is None ==> last_with_key(scrap_views(scraps@), k@) is None,
{
    let ghost sv = scrap_views(scraps@);
    let mut j = scraps.len();
    assert(sv.take(j as int) =~= sv);
    while j > 0
        invariant
            j <= scraps.len(),
            sv == scrap_views(scraps@),
            last_with_key(sv, k@) == last_with_key(sv.take(j as int), k@),
        decreases j,
    {
        let key = scraps[j - 1].self_key();
        assert(sv.take(j as int).drop_last() =~= sv.take(j - 1));
        assert(sv.take(j as int).last() == scraps@[j - 1]@);
        if key.same(k) {
            return Some(j - 1);
        }
        j -= 1;
    }
    None
}

fn broken_headings_for(scraps: &[Scrap], s: &Scrap) -> (r: Vec<LintWarning>)
    ensures
        warning_views(r@) == broken_heading_ref_of(scrap_views(scraps@), s@),
{
    let ghost sv = scrap_views(scraps@);
    let ghost rv = s@.refs;
    let mut out: Vec<LintWarning> = Vec::new();
    let mut i: usize = 0;
    while i < s.refs.len()
        invariant
            i <= s.refs.len(),
            sv == scrap_views(scraps@),
            rv == s@.refs,
            warning_views(out@) == broken_headings_among(sv, s@, rv.take(i as int)),
        decreases s.refs.len() - i,
    {
        let r = &s.refs[i];
        assert(rv.take(i + 1).drop_last() =~= rv.take(i as int));
        assert(rv.take(i + 1).last() == r@);
        let mut flagged = false;
        if r.kind == RefKind::Link {
            match &r.heading {
                Some(h) => {
                    match last_scrap_with_key(scraps, &r.key) {
                        Some(t) => {
                            let rs = slug_of(h.as_str());
                            if rs.len() > 0 {
                                let target = &scraps[t];
                                let ghost hs = target@.headings.map_values(
                                    |x: Seq<char>| slug(x),
                                );
                                let mut found = false;
                                let mut j: usize = 0;
                                while j < target.headings.len()
                                    invariant
                                        j <= target.headings.len(),
                                        hs == target@.headings.map_values(|x: Seq<char>| slug(x)),
                                        found == hs.take(j as int).contains(rs@),
                                    decreases target.headings.len() - j,
                                {
                                    let hslug = slug_of(target.headings[j].as_str());
                                    assert(hs[j as int] == hslug@);
                                    assert(hs.take(j + 1) =~= hs.take(j as int).push(hslug@));
                                    proof {
                                        vstd::seq_lib::lemma_seq_contains_after_push(
                                            hs.take(j as int),
                                            hslug@,
                                            rs@,
                                        );
                                    }
                                    if same_chars(&hslug, &rs) {
                                        found = true;
                                    }
                                    j += 1;
                                }
                                assert(hs.take(target.headings.len() as int) =~= hs);
                                if !found {
                                    let mut m: Vec<char> = Vec::new();
                                    push_str(&mut m, "broken heading reference: [[");
                                    let kt = r.key.to_text();
                                    push_str(&mut m, kt.as_str());
                                    push_str(&mut m, "#");
                                    push_str(&mut m, h.as_str());
                                    push_str(&mut m, "]] (heading not found in target scrap)");
                                    let w = warning(LintRuleName::BrokenHeadingRef, s, m);
                                    let ghost before = warning_views(out@);
                                    out.push(w);
                                    flagged = true;
                                    assert(warning_views(out@) =~= broken_headings_among(
                                        sv,
                                        s@,
                                        rv.take(i + 1),
                                    ));
                                }
                            }
                        },
                        None => {},
                    }
                },
                None => {},
            }
        }
        if !flagged {
            assert(warning_views(out@) =~= broken_headings_among(sv, s@, rv.take(i + 1)));
        }
        i += 1;
    }
    assert(rv.take(s.refs.len() as int) =~= rv);
    out
}

fn singleton_tags_for(bm: &BacklinksMap, s: &Scrap) -> (r: Vec<LintWarning>)
    ensures
        warning_views(r@) == singleton_tag_of(bm@, s@),
{
    let ts = s.tags();
    let ghost tv = string_views(ts@);
    let mut out: Vec<LintWarning> = Vec::new();
    let mut i: usize = 0;
    while i < ts.len()
        invariant
            i <= ts.len(),
            tv == string_views(ts@),
            tv == tags(s@),
            warning_views(out@) == singletons_among(bm@, s@, tv.take(i as int)),
        decreases ts.len() - i,
    {
        let t = &ts[i];
        assert(tv.take(i + 1).drop_last() =~= tv.take(i as int));
        assert(tv.take(i + 1).last() == t@);
        let tagged = bm.get_tag(t.as_str());
        if tagged.len() == 1 {
            let mut p: Vec<char> = Vec::new();
            push_str(&mut p, "#[[");
            push_str(&mut p, t.as_str());
            push_str(&mut p, "]]");
            let pat = string_of(p.as_slice());
            let mut m: Vec<char> = Vec::new();
            push_str(&mut m, "tag ");
            push_str(&mut m, pat.as_str());
            push_str(
                &mut m,
                " is used by only one scrap (a tag should connect two or more scraps; did you mean a link ",
            );
            push_str(&mut m, "[[");
            push_str(&mut m, t.as_str());
            push_str(&mut m, "]]");
            push_str(&mut m, "?)");
            let w = LintWarning {
                rule_name: LintRuleName::SingletonTag,
                scrap_path: scrap_relative_path(s),
                message: string_of(m.as_slice()),
                source: Some(s.md_text.clone()),
                span: find_span(s.md_text.as_str(), pat.as_str()),
            };
            let ghost before = warning_views(out@);
            out.push(w);
            assert(pat@ =~= tag_pattern(t@));
            assert(warning_views(out@) =~= singletons_among(bm@, s@, tv.take(i + 1)));
        } else {
            assert(warning_views(out@) =~= singletons_among(bm@, s@, tv.take(i + 1)));
        }
        i += 1;
    }
    assert(tv.take(ts.len() as int) =~= tv);
    out
}


// ----------------------------------------------------------------- rules --

/// The warnings a rule raises for one scrap `s` of the wiki `ss`.
pub open spec fn scrap_warnings(rule: LintRuleName, ss: Seq<ScrapV>, s: ScrapV) -> Seq<WarningV> {
    match rule {
        LintRuleName::DeadEnd => dead_end_of(s),
        LintRuleName::Lonely => lonely_of(ss, s),
        LintRuleName::SelfLink => self_link_of(s),
        LintRuleName::Overlinking => overlinking_of(s),
        LintRuleName::BrokenLink => broken_link_of(ss, s),
        LintRuleName::BrokenHeadingRef => broken_heading_ref_of(ss, s),
        LintRuleName::SingletonTag => singleton_tag_of(ss, s),
        LintRuleName::StaleByGit => seq![],
    }
}

/// The warnings of a rule that needs nothing beyond the wiki, scrap by scrap.
pub open spec fn rule_warnings(rule: LintRuleName, ss: Seq<ScrapV>) -> Seq<WarningV> {
    flat_warnings(ss, |s: ScrapV| scrap_warnings(rule, ss, s))
}

fn scrap_warnings_for(
    rule: LintRuleName,
    scraps: &[Scrap],
    keys: &Vec<ScrapKey>,
    bm: &BacklinksMap,
    s: &Scrap,
) -> (r: Vec<LintWarning>)
    requires
        rule != LintRuleName::StaleByGit,
        key_views(keys@) == self_keys(scrap_views(scraps@)),
        needs_backlinks(rule) ==> bm@ == scrap_views(scraps@),
    ensures
        warning_views(r@) == scrap_warnings(rule, scrap_views(scraps@), s@),
{
    match rule {
        LintRuleName::DeadEnd => dead_end_for(s),
        LintRuleName::Lonely => lonely_for(bm, s),
        LintRuleName::SelfLink => self_link_for(s),
        LintRuleName::Overlinking => overlinking_for(s),
        LintRuleName::BrokenLink => broken_links_for(keys, s),
        LintRuleName::BrokenHeadingRef => broken_headings_for(scraps, s),
        LintRuleName::SingletonTag => singleton_tags_for(bm, s),
        LintRuleName::StaleByGit => Vec::new(),
    }
}

/// The rules that read the backlinks map.
pub open spec fn needs_backlinks(rule: LintRuleName) -> bool {
    rule == LintRuleName::Lonely || rule == LintRuleName::SingletonTag
}

/// Runs a rule over every scrap, in order.
fn check_rule(rule: LintRuleName, scraps: &[Scrap], bm: &BacklinksMap) -> (r: Vec<LintWarning>)
    requires
        rule != LintRuleName::StaleByGit,
        needs_backlinks(rule) ==> bm@ == scrap_views(scraps@),
    ensures
        warning_views(r@) == rule_warnings(rule, scrap_views(scraps@)),
{
    let ghost sv = scrap_views(scraps@);
    let ghost f = |s: ScrapV| scrap_warnings(rule, sv, s);
    let keys = keys_of(scraps);
    let mut out: Vec<LintWarning> = Vec::new();
    let mut i: usize = 0;
    while i < scraps.len()
        invariant
            i <= scraps.len(),
            rule != LintRuleName::StaleByGit,
            sv == scrap_views(scraps@),
            needs_backlinks(rule) ==> bm@ == sv,
            key_views(keys@) == self_keys(sv),
            f == (|s: ScrapV| scrap_warnings(rule, sv, s)),
            warning_views(out@) == flat_warnings(sv.take(i as int), f),
        decreases scraps.len() - i,
    {
        proof {
            lemma_flat_step(sv, f, i as int);
        }
        assert(sv[i as int] == scraps@[i as int]@);
        let ws = scrap_warnings_for(rule, scraps, &keys, bm, &scraps[i]);
        append_warnings(&mut out, ws);
        i += 1;
    }
    assert(sv.take(scraps.len() as int) =~= sv);
    out
}

/// Scraps that link to no other scrap.
pub struct DeadEndRule;

impl DeadEndRule {
    pub fn name(&self) -> (r: LintRuleName)
        ensures
            r == LintRuleName::DeadEnd,
    {
        LintRuleName::DeadEnd
    }

    pub fn check(&self, scraps: &[Scrap], backlinks_map: &BacklinksMap, tags: &Tags) -> (r: Vec<
        LintWarning,
    >)
        ensures
            warning_views(r@) == rule_warnings(LintRuleName::DeadEnd, scrap_views(scraps@)),
    {
        check_rule(LintRuleName::DeadEnd, scraps, backlinks_map)
    }
}

/// Scraps that no scrap of the backlinks map links to.
pub struct LonelyRule;

impl LonelyRule {
    pub fn name(&self) -> (r: LintRuleName)
        ensures
            r == LintRuleName::Lonely,
    {
        LintRuleName::Lonely
    }

    pub fn check(&self, scraps: &[Scrap], backlinks_map: &BacklinksMap, tags: &Tags) -> (r: Vec<
        LintWarning,
    >)
        ensures
            warning_views(r@) == flat_warnings(
                scrap_views(scraps@),
                |s: ScrapV| lonely_of(backlinks_map@, s),
            ),
    {
        let ghost sv = scrap_views(scraps@);
        let ghost f = |s: ScrapV| lonely_of(backlinks_map@, s);
        let mut out: Vec<LintWarning> = Vec::new();
        let mut i: usize = 0;
        while i < scraps.len()
            invariant
                i <= scraps.len(),
                sv == scrap_views(scraps@),
                f == (|s: ScrapV| lonely_of(backlinks_map@, s)),
                warning_views(out@) == flat_warnings(sv.take(i as int), f),
            decreases scraps.len() - i,
        {
            proof {
                lemma_flat_step(sv, f, i as int);
            }
            assert(sv[i as int] == scraps@[i as int]@);
            let ws = lonely_for(backlinks_map, &scraps[i]);
            append_warnings(&mut out, ws);
            i += 1;
        }
        assert(sv.take(scraps.len() as int) =~= sv);
        out
    }
}

/// Scraps that link to themselves.
pub struct SelfLinkRule;

impl SelfLinkRule {
    pub fn name(&self) -> (r: LintRuleName)
        ensures
            r == LintRuleName::SelfLink,
    {
        LintRuleName::SelfLink
    }

    pub fn check(&self, scraps: &[Scrap], backlinks_map: &BacklinksMap, tags: &Tags) -> (r: Vec<
        LintWarning,
    >)
        ensures
            warning_views(r@) == rule_warnings(LintRuleName::SelfLink, scrap_views(scraps@)),
    {
        check_rule(LintRuleName::SelfLink, scraps, backlinks_map)
    }
}

/// Scraps that link to the same scrap more than once.
pub struct OverlinkingRule;

impl OverlinkingRule {
    pub fn name(&self) -> (r: LintRuleName)
        ensures
            r == LintRuleName::Overlinking,
    {
        LintRuleName::Overlinking
    }

    pub fn check(&self, scraps: &[Scrap], backlinks_map: &BacklinksMap, tags: &Tags) -> (r: Vec<
        LintWarning,
    >)
        ensures
            warning_views(r@) == rule_warnings(LintRuleName::Overlinking, scrap_views(scraps@)),
    {
        check_rule(LintRuleName::Overlinking, scraps, backlinks_map)
    }
}

/// `[[wikilinks]]` that name no scrap.
pub struct BrokenLinkRule;

impl BrokenLinkRule {
    pub fn name(&self) -> (r: LintRuleName)
        ensures
            r == LintRuleName::BrokenLink,
    {
        LintRuleName::BrokenLink
    }

    pub fn check(&self, scraps: &[Scrap], backlinks_map: &BacklinksMap, tags: &Tags) -> (r: Vec<
        LintWarning,
    >)
        ensures
            warning_views(r@) == rule_warnings(LintRuleName::BrokenLink, scrap_views(scraps@)),
    {
        check_rule(LintRuleName::BrokenLink, scraps, backlinks_map)
    }
}

/// `[[name#heading]]` references whose heading the named scrap lacks; a
/// missing scrap is left to the broken-link rule.
pub struct BrokenHeadingRefRule;

impl BrokenHeadingRefRule {
    pub fn name(&self) -> (r: LintRuleName)
        ensures
            r == LintRuleName::BrokenHeadingRef,
    {
        LintRuleName::BrokenHeadingRef
    }

    pub fn check(&self, scraps: &[Scrap], backlinks_map: &BacklinksMap, tags: &Tags) -> (r: Vec<
        LintWarning,
    >)
        ensures
            warning_views(r@) == rule_warnings(
                LintRuleName::BrokenHeadingRef,
                scrap_views(scraps@),
            ),
    {
        check_rule(LintRuleName::BrokenHeadingRef, scraps, backlinks_map)
    }
}

/// `#[[tags]]` that apply to a single scrap of the backlinks map. A tag is
/// judged with its descendants: `#[[ai]]` is no singleton while another
/// scrap declares `#[[ai/ml]]`.
pub struct SingletonTagRule;

impl SingletonTagRule {
    pub fn name(&self) -> (r: LintRuleName)
        ensures
            r == LintRuleName::SingletonTag,
    {
        LintRuleName::SingletonTag
    }

    pub fn check(&self, scraps: &[Scrap], backlinks_map: &BacklinksMap, tags: &Tags) -> (r: Vec<
        LintWarning,
    >)
        ensures
            warning_views(r@) == flat_warnings(
                scrap_views(scraps@),
                |s: ScrapV| singleton_tag_of(backlinks_map@, s),
            ),
    {
        let ghost sv = scrap_views(scraps@);
        let ghost f = |s: ScrapV| singleton_tag_of(backlinks_map@, s);
        let mut out: Vec<LintWarning> = Vec::new();
        let mut i: usize = 0;
        while i < scraps.len()
            invariant
                i <= scraps.len(),
                sv == scrap_views(scraps@),
                f == (|s: ScrapV| singleton_tag_of(backlinks_map@, s)),
                warning_views(out@) == flat_warnings(sv.take(i as int), f),
            decreases scraps.len() - i,
        {
            proof {
                lemma_flat_step(sv, f, i as int);
            }
            assert(sv[i as int] == scraps@[i as int]@);
            let ws = singleton_tags_for(backlinks_map, &scraps[i]);
            append_warnings(&mut out, ws);
            i += 1;
        }
        assert(sv.take(scraps.len() as int) =~= sv);
        out
    }
}

// ------------------------------------------------------------ staleness --

/// Seconds in a day.
pub const SECONDS_PER_DAY: i64 = 86400;

/// `d as i64`: the two's-complement reading of the bits of `d`.
pub open spec fn wrap_i64(d: u64) -> int {
    if d <= i64::MAX {
        d as int
    } else {
        d - 0x1_0000_0000_0000_0000int
    }
}

/// `x` saturated into the range of `i64`.
pub open spec fn clamp_i64(x: int) -> int {
    if x < i64::MIN {
        i64::MIN as int
    } else if x > i64::MAX {
        i64::MAX as int
    } else {
        x
    }
}

/// The time before which a commit is stale: `now` less the threshold, both
/// steps saturating as `i64` arithmetic does.
pub open spec fn stale_cutoff(threshold_days: u64, now: i64) -> int {
    clamp_i64(now - clamp_i64(wrap_i64(threshold_days) * SECONDS_PER_DAY))
}

/// Integer division rounding toward zero, as Rust divides.
pub open spec fn div_toward_zero(a: int, b: int) -> int {
    if a >= 0 {
        a / b
    } else {
        -((-a) / b)
    }
}

/// The decimal notation of an integer, with a `-` before a negative one.
pub open spec fn signed_decimal(n: int) -> Seq<char> {
    if n < 0 {
        seq!['-'] + decimal((-n) as nat)
    } else {
        decimal(n as nat)
    }
}

/// The commit time recorded for the `i`-th scrap, if any.
pub open spec fn ts_at(ts: Seq<Option<i64>>, i: int) -> Option<i64> {
    if 0 <= i < ts.len() {
        ts[i]
    } else {
        None
    }
}

/// The warning for a scrap last committed at `t`, when that is before `cutoff`.
pub open spec fn stale_one(s: ScrapV, t: Option<i64>, cutoff: int, now: i64) -> Seq<WarningV> {
    match t {
        Some(x) => if x < cutoff {
            seq![
                WarningV {
                    rule: LintRuleName::StaleByGit,
                    path: rel_path(s),
                    message: "scrap not updated in "@ + signed_decimal(
                        div_toward_zero(now - x, SECONDS_PER_DAY as int),
                    ) + " days"@,
                    source: None,
                    span: None,
                },
            ]
        } else {
            seq![]
        },
        None => seq![],
    }
}

/// The stale-scrap warnings of `ss`, the `i`-th scrap last committed at
/// `ts_at(ts, i)`.
pub open spec fn stale_from(ss: Seq<ScrapV>, ts: Seq<Option<i64>>, cutoff: int, now: i64) -> Seq<
    WarningV,
>
    decreases ss.len(),
{
    if ss.len() == 0 {
        seq![]
    } else {
        stale_from(ss.drop_last(), ts, cutoff, now) + stale_one(
            ss.last(),
            ts_at(ts, ss.len() - 1),
            cutoff,
            now,
        )
    }
}

/// Scraps whose latest commit is older than `threshold_days`.
///
/// Asking git is left to the caller: `is_repo` says whether the scraps
/// directory is a git repository that could be asked (`false` when git could
/// not be run), and `commit_ts[i]` holds the latest commit time of the `i`-th
/// scrap, `None` where it has none or git gave no answer.
pub struct StaleByGitRule {
    pub is_repo: bool,
    pub commit_ts: Vec<Option<i64>>,
    pub threshold_days: u64,
    pub now_ts: i64,
}

impl StaleByGitRule {
    /// The warnings of this rule over the wiki `ss`.
    pub open spec fn warnings_over(&self, ss: Seq<ScrapV>) -> Seq<WarningV> {
        if !self.is_repo {
            seq![]
        } else {
            stale_from(ss, self.commit_ts@, stale_cutoff(self.threshold_days, self.now_ts), self.now_ts)
        }
    }

    /// The age of each stale scrap among the first `n`, in seconds, fits an
    /// `i64` (the subtraction that measures it does not overflow).
    pub open spec fn ages_fit(&self, n: int) -> bool {
        self.is_repo ==> forall|i: int|
            #![trigger ts_at(self.commit_ts@, i)]
            0 <= i < n ==> match ts_at(self.commit_ts@, i) {
                Some(x) => x < stale_cutoff(self.threshold_days, self.now_ts) ==> i64::MIN <= self.now_ts
                    - x <= i64::MAX,
                None => true,
            }
    }

    pub fn name(&self) -> (r: LintRuleName)
        ensures
            r == LintRuleName::StaleByGit,
    {
        LintRuleName::StaleByGit
    }

    pub fn check(&self, scraps: &[Scrap], backlinks_map: &BacklinksMap, tags: &Tags) -> (r: Vec<
        LintWarning,
    >)
        requires
            self.ages_fit(scraps.len() as int),
        ensures
            warning_views(r@) == self.warnings_over(scrap_views(scraps@)),
    {
        let mut out: Vec<LintWarning> = Vec::new();
        if !self.is_repo {
            return out;
        }
        let td: i128 = if self.threshold_days <= 9223372036854775807u64 {
            self.threshold_days as i128
        } else {
            self.threshold_days as i128 - 18446744073709551616i128
        };
        let thr: i128 = clamp_to_i64(td * 86400);
        let cutoff: i128 = clamp_to_i64(self.now_ts as i128 - thr);
        assert(cutoff == stale_cutoff(self.threshold_days, self.now_ts));
        let ghost sv = scrap_views(scraps@);
        let ghost tv = self.commit_ts@;
        let mut i: usize = 0;
        while i < scraps.len()
            invariant
                i <= scraps.len(),
                sv == scrap_views(scraps@),
                tv == self.commit_ts@,
                self.is_repo,
                self.ages_fit(scraps.len() as int),
                cutoff == stale_cutoff(self.threshold_days, self.now_ts),
                warning_views(out@) == stale_from(sv.take(i as int), tv, cutoff as int, self.now_ts),
            decreases scraps.len() - i,
        {
            assert(sv.take(i + 1).drop_last() =~= sv.take(i as int));
            assert(sv.take(i + 1).last() == scraps@[i as int]@);
            let t: Option<i64> = if i < self.commit_ts.len() {
                self.commit_ts[i]
            } else {
                None
            };
            assert(t == ts_at(tv, i as int));
            match t {
                Some(x) => {
                    if (x as i128) < cutoff {
                        let diff: i128 = self.now_ts as i128 - x as i128;
                        let mag: u128 = if diff >= 0 {
                            diff as u128
                        } else {
                            (-diff) as u128
                        };
                        let q: u128 = mag / 86400;
                        let mut m: Vec<char> = Vec::new();
                        push_str(&mut m, "scrap not updated in ");
                        if diff < 0 && q > 0 {
                            m.push('-');
                        }
                        let d = decimal_chars(q as u64);
                        crate::textops::append_range(&mut m, d.as_slice(), 0, d.len());
                        assert(d@.subrange(0, d@.len() as int) =~= d@);
                        push_str(&mut m, " days");
                        assert(m@ =~= "scrap not updated in "@ + signed_decimal(
                            div_toward_zero(self.now_ts - x, SECONDS_PER_DAY as int),
                        ) + " days"@);
                        let w = warning(LintRuleName::StaleByGit, &scraps[i], m);
                        let ghost before = warning_views(out@);
                        out.push(w);
                        assert(warning_views(out@) =~= before + stale_one(
                            scraps@[i as int]@,
                            t,
                            cutoff as int,
                            self.now_ts,
                        ));
                    }
                },
                None => {},
            }
            i += 1;
        }
        assert(sv.take(scraps.len() as int) =~= sv);
        out
    }
}

fn clamp_to_i64(x: i128) -> (r: i128)
    ensures
        r == clamp_i64(x as int),
{
    if x < -9223372036854775808i128 {
        -9223372036854775808i128
    } else if x > 9223372036854775807i128 {
        9223372036854775807i128
    } else {
        x
    }
}

// --------------------------------------------------------------- usecase --

/// Whether the rule runs for the selection `names`: the default rules when
/// none is named, else exactly the named ones.
pub open spec fn runs(names: Seq<LintRuleName>, r: LintRuleName) -> bool {
    if names.len() == 0 {
        default_rule_seq().contains(r)
    } else {
        names.contains(r)
    }
}

/// The warnings of each of `rules` that runs, rule after rule.
pub open spec fn rules_part(ss: Seq<ScrapV>, names: Seq<LintRuleName>, rules: Seq<LintRuleName>) -> Seq<
    WarningV,
>
    decreases rules.len(),
{
    if rules.len() == 0 {
        seq![]
    } else {
        rules_part(ss, names, rules.drop_last()) + if runs(names, rules.last()) {
            rule_warnings(rules.last(), ss)
        } else {
            seq![]
        }
    }
}

/// The warnings of the registered opt-in rules, which run only when named.
pub open spec fn extras_part(ss: Seq<ScrapV>, names: Seq<LintRuleName>, extras: Seq<StaleByGitRule>) -> Seq<
    WarningV,
>
    decreases extras.len(),
{
    if extras.len() == 0 {
        seq![]
    } else {
        extras_part(ss, names, extras.drop_last()) + if names.len() > 0 && names.contains(
            LintRuleName::StaleByGit,
        ) {
            extras.last().warnings_over(ss)
        } else {
            seq![]
        }
    }
}

/// What a lint run reports: the warnings of the library's own rules that
/// run, in their order (the default rules, then singleton-tag), then those
/// of the registered stale-by-git rules.
pub open spec fn lint_result(ss: Seq<ScrapV>, names: Seq<LintRuleName>, extras: Seq<StaleByGitRule>) -> Seq<
    WarningV,
> {
    rules_part(ss, names, builtin_rule_seq()) + extras_part(ss, names, extras)
}

fn contains_rule(names: &[LintRuleName], r: LintRuleName) -> (b: bool)
    ensures
        b == names@.contains(r),
{
    let mut i: usize = 0;
    while i < names.len()
        invariant
            i <= names.len(),
            forall|j: int| 0 <= j < i ==> names@[j] != r,
        decreases names.len() - i,
    {
        if names[i] == r {
            assert(names@[i as int] == r);
            return true;
        }
        i += 1;
    }
    false
}

/// Runs lint rules over a wiki.
pub struct LintUsecase;

impl LintUsecase {
    pub fn new() -> (r: LintUsecase) {
        LintUsecase
    }

    /// Runs lint rules over `scraps` and returns the warnings.
    ///
    /// With no rule named, the default rules run; otherwise only the named
    /// rules, drawn from the library's own rules (the defaults and
    /// singleton-tag) and `extra_rules`.
    pub fn execute(
        &self,
        scraps: &[Scrap],
        rule_names: &[LintRuleName],
        extra_rules: Vec<StaleByGitRule>,
    ) -> (r: Result<Vec<LintWarning>, ScrapsError>)
        requires
            rule_names@.len() > 0 && rule_names@.contains(LintRuleName::StaleByGit) ==> forall|j: int|
                0 <= j < extra_rules@.len() ==> (#[trigger] extra_rules@[j]).ages_fit(
                    scraps.len() as int,
                ),
        ensures
            r matches Ok(ws) && warning_views(ws@) == lint_result(
                scrap_views(scraps@),
                rule_names@,
                extra_rules@,
            ),
    {
        let ghost sv = scrap_views(scraps@);
        let ghost names = rule_names@;
        let bm = BacklinksMap::new(scraps);
        let defaults = LintRuleName::builtin_rules();
        let mut out: Vec<LintWarning> = Vec::new();
        let mut i: usize = 0;
        while i < defaults.len()
            invariant
                i <= defaults.len(),
                defaults@ == builtin_rule_seq(),
                sv == scrap_views(scraps@),
                names == rule_names@,
                bm@ == sv,
                warning_views(out@) == rules_part(sv, names, defaults@.take(i as int)),
            decreases defaults.len() - i,
        {
            let rule = defaults[i];
            assert(defaults@.take(i + 1).drop_last() =~= defaults@.take(i as int));
            assert(defaults@.take(i + 1).last() == rule);
            let ghost before = warning_views(out@);
            proof {
                if i < 6 {
                    assert(default_rule_seq()[i as int] == rule);
                } else {
                    assert(rule == LintRuleName::SingletonTag);
                    if default_rule_seq().contains(rule) {
                        let k = choose|k: int| 0 <= k < 6 && default_rule_seq()[k] == rule;
                        assert(false);
                    }
                }
            }
            if (rule_names.len() == 0 && rule != LintRuleName::SingletonTag) || (rule_names.len() > 0
                && contains_rule(rule_names, rule)) {
                let ws = check_rule(rule, scraps, &bm);
                append_warnings(&mut out, ws);
            }
            assert(warning_views(out@) =~= rules_part(sv, names, defaults@.take(i + 1)));
            i += 1;
        }
        assert(defaults@.take(defaults.len() as int) =~= defaults@);
        let ghost ev = extra_rules@;
        let stale_named = rule_names.len() > 0 && contains_rule(rule_names, LintRuleName::StaleByGit);
        let tags = Tags::new(scraps);
        let mut j: usize = 0;
        while j < extra_rules.len()
            invariant
                j <= extra_rules.len(),
                ev == extra_rules@,
                sv == scrap_views(scraps@),
                names == rule_names@,
                stale_named == (names.len() > 0 && names.contains(LintRuleName::StaleByGit)),
                stale_named ==> forall|k: int|
                    0 <= k < ev.len() ==> (#[trigger] ev[k]).ages_fit(scraps.len() as int),
                warning_views(out@) == rules_part(sv, names, builtin_rule_seq()) + extras_part(
                    sv,
                    names,
                    ev.take(j as int),
                ),
            decreases extra_rules.len() - j,
        {
            assert(ev.take(j + 1).drop_last() =~= ev.take(j as int));
            assert(ev.take(j + 1).last() == ev[j as int]);
            let ghost before = warning_views(out@);
            if stale_named {
                let ws = extra_rules[j].check(scraps, &bm, &tags);
                append_warnings(&mut out, ws);
            }
            assert(warning_views(out@) =~= rules_part(sv, names, builtin_rule_seq()) + extras_part(
                sv,
                names,
                ev.take(j + 1),
            ));
            j += 1;
        }
        assert(ev.take(extra_rules.len() as int) =~= ev);
        Ok(out)
    }
}

// ------------------------------------------------------------------ laws --

/// The filtered-and-mapped sequence grows by the last element's image when
/// that element is kept.
pub(crate) proof fn lemma_filter_map_step<A, B>(s: Seq<A>, p: spec_fn(A) -> bool, g: spec_fn(A) -> B)
    requires
        s.len() > 0,
    ensures
        s.filter(p).map_values(g) == s.drop_last().filter(p).map_values(g) + (if p(s.last()) {
            seq![g(s.last())]
        } else {
            seq![]
        }),
{
    reveal_with_fuel(Seq::filter, 1);
    let d = s.drop_last().filter(p);
    if p(s.last()) {
        assert(d.push(s.last()).map_values(g) =~= d.map_values(g) + seq![g(s.last())]);
    } else {
        assert(d.map_values(g) =~= d.map_values(g) + Seq::<B>::empty());
    }
}

/// A per-scrap rule that raises at most one warning per scrap reports, in
/// order, one warning for each scrap it flags.
proof fn lemma_flat_single(
    ss: Seq<ScrapV>,
    f: spec_fn(ScrapV) -> Seq<WarningV>,
    p: spec_fn(ScrapV) -> bool,
    g: spec_fn(ScrapV) -> WarningV,
)
    requires
        forall|s: ScrapV|
            #[trigger] f(s) == (if p(s) {
                seq![g(s)]
            } else {
                seq![]
            }),
    ensures
        flat_warnings(ss, f) == ss.filter(p).map_values(g),
    decreases ss.len(),
{
    if ss.len() == 0 {
        reveal_with_fuel(Seq::filter, 1);
        assert(ss.filter(p).map_values(g) =~= Seq::<WarningV>::empty());
    } else {
        lemma_flat_single(ss.drop_last(), f, p, g);
        lemma_filter_map_step(ss, p, g);
        assert(f(ss.last()) == (if p(ss.last()) {
            seq![g(ss.last())]
        } else {
            seq![]
        }));
    }
}

/// The dead-end warning of a scrap.
pub open spec fn dead_end_warning(s: ScrapV) -> WarningV {
    WarningV {
        rule: LintRuleName::DeadEnd,
        path: rel_path(s),
        message: "scrap has no links to other scraps"@,
        source: None,
        span: None,
    }
}

/// The lonely warning of a scrap.
pub open spec fn lonely_warning(s: ScrapV) -> WarningV {
    WarningV {
        rule: LintRuleName::Lonely,
        path: rel_path(s),
        message: "scrap is not linked from any other scrap"@,
        source: None,
        span: None,
    }
}

/// The self-link warning of a scrap.
pub open spec fn self_link_warning(s: ScrapV) -> WarningV {
    WarningV {
        rule: LintRuleName::SelfLink,
        path: rel_path(s),
        message: "scrap links to itself"@,
        source: Some(s.md_text),
        span: span_of(s.md_text, link_pattern(self_key(s))),
    }
}

/// The dead-end rule flags exactly the scraps that link nowhere, each once,
/// in wiki order.
pub proof fn lemma_dead_end_flags_exactly_the_linkless(ss: Seq<ScrapV>)
    ensures
        rule_warnings(LintRuleName::DeadEnd, ss) == ss.filter(|s: ScrapV| links(s).len() == 0).map_values(
            |s: ScrapV| dead_end_warning(s),
        ),
{
    let f = |s: ScrapV| scrap_warnings(LintRuleName::DeadEnd, ss, s);
    let p = |s: ScrapV| links(s).len() == 0;
    let g = |s: ScrapV| dead_end_warning(s);
    assert forall|s: ScrapV| #[trigger] f(s) == (if p(s) {
        seq![g(s)]
    } else {
        seq![]
    }) by {
        if p(s) {
            assert(dead_end_of(s) =~= seq![g(s)]);
        }
    }
    lemma_flat_single(ss, f, p, g);
}

/// The lonely rule flags exactly the scraps that no scrap links to, each
/// once, in wiki order.
pub proof fn lemma_lonely_flags_exactly_the_unlinked(ss: Seq<ScrapV>)
    ensures
        rule_warnings(LintRuleName::Lonely, ss) == ss.filter(
            |s: ScrapV| backlinks_of(ss, self_key(s)).len() == 0,
        ).map_values(|s: ScrapV| lonely_warning(s)),
{
    let f = |s: ScrapV| scrap_warnings(LintRuleName::Lonely, ss, s);
    let p = |s: ScrapV| backlinks_of(ss, self_key(s)).len() == 0;
    let g = |s: ScrapV| lonely_warning(s);
    assert forall|s: ScrapV| #[trigger] f(s) == (if p(s) {
        seq![g(s)]
    } else {
        seq![]
    }) by {
        if p(s) {
            assert(lonely_of(ss, s) =~= seq![g(s)]);
        }
    }
    lemma_flat_single(ss, f, p, g);
}

/// The self-link rule flags exactly the scraps that link to themselves,
/// each once, pointing at the first `[[itself]]`.
pub proof fn lemma_self_link_flags_exactly_the_self_linking(ss: Seq<ScrapV>)
    ensures
        rule_warnings(LintRuleName::SelfLink, ss) == ss.filter(
            |s: ScrapV| links(s).contains(self_key(s)),
        ).map_values(|s: ScrapV| self_link_warning(s)),
{
    let f = |s: ScrapV| scrap_warnings(LintRuleName::SelfLink, ss, s);
    let p = |s: ScrapV| links(s).contains(self_key(s));
    let g = |s: ScrapV| self_link_warning(s);
    assert forall|s: ScrapV| #[trigger] f(s) == (if p(s) {
        seq![g(s)]
    } else {
        seq![]
    }) by {
        if p(s) {
            assert(self_link_of(s) =~= seq![g(s)]);
        }
    }
    lemma_flat_single(ss, f, p, g);
}

/// The broken-link warning for a link to `k` from `s`.
pub open spec fn broken_link_warning(s: ScrapV, k: KeyV) -> WarningV {
    WarningV {
        rule: LintRuleName::BrokenLink,
        path: rel_path(s),
        message: "broken wikilink: "@ + link_pattern(k),
        source: None,
        span: None,
    }
}

/// A scrap's broken-link warnings are exactly its links that name no scrap
/// of the wiki, each once, in order of first link.
pub proof fn lemma_broken_links_are_the_unresolved(ss: Seq<ScrapV>, s: ScrapV)
    ensures
        broken_link_of(ss, s) == links(s).filter(|k: KeyV| !self_keys(ss).contains(k)).map_values(
            |k: KeyV| broken_link_warning(s, k),
        ),
{
    lemma_broken_among_filter(self_keys(ss), s, links(s));
}

proof fn lemma_broken_among_filter(keys: Seq<KeyV>, s: ScrapV, ks: Seq<KeyV>)
    ensures
        broken_among(keys, s, ks) == ks.filter(|k: KeyV| !keys.contains(k)).map_values(
            |k: KeyV| broken_link_warning(s, k),
        ),
    decreases ks.len(),
{
    let p = |k: KeyV| !keys.contains(k);
    let g = |k: KeyV| broken_link_warning(s, k);
    if ks.len() == 0 {
        reveal_with_fuel(Seq::filter, 1);
        assert(ks.filter(p).map_values(g) =~= Seq::<WarningV>::empty());
    } else {
        lemma_broken_among_filter(keys, s, ks.drop_last());
        lemma_filter_map_step(ks, p, g);
        if p(ks.last()) {
            assert(broken_among(keys, s, ks) =~= broken_among(keys, s, ks.drop_last()) + seq![
                g(ks.last()),
            ]);
        } else {
            assert(broken_among(keys, s, ks) =~= broken_among(keys, s, ks.drop_last()));
        }
    }
}

/// The reference `r` names a heading that the scrap it names lacks: a
/// `[[name#heading]]` link to a scrap of the wiki none of whose headings
/// slugs to what the heading slugs to.
pub open spec fn heading_is_broken(ss: Seq<ScrapV>, r: crate::model::RefV) -> bool {
    &&& r.kind == RefKind::Link
    &&& r.heading is Some
    &&& last_with_key(ss, r.key) is Some
    &&& slug(r.heading->0).len() > 0
    &&& !last_with_key(ss, r.key)->0.headings.map_values(|h: Seq<char>| slug(h)).contains(slug(r.heading->0))
}

/// The broken-heading warning for the reference `r` of `s`.
pub open spec fn broken_heading_warning(s: ScrapV, r: crate::model::RefV) -> WarningV {
    WarningV {
        rule: LintRuleName::BrokenHeadingRef,
        path: rel_path(s),
        message: "broken heading reference: [["@ + key_text(r.key) + "#"@ + r.heading->0
            + "]] (heading not found in target scrap)"@,
        source: None,
        span: None,
    }
}

/// A scrap's broken-heading warnings are exactly its `[[name#heading]]`
/// references, in text order, that name a scrap of the wiki whose headings
/// do not match the heading once both are slugged; a reference to a missing
/// scrap draws none (that is the broken-link rule's to report).
pub proof fn lemma_broken_headings_are_the_unmatched(ss: Seq<ScrapV>, s: ScrapV)
    ensures
        broken_heading_ref_of(ss, s) == s.refs.filter(|r: crate::model::RefV| heading_is_broken(ss, r)).map_values(
            |r: crate::model::RefV| broken_heading_warning(s, r),
        ),
{
    lemma_broken_headings_filter(ss, s, s.refs);
}

proof fn lemma_broken_headings_filter(ss: Seq<ScrapV>, s: ScrapV, refs: Seq<crate::model::RefV>)
    ensures
        broken_headings_among(ss, s, refs) == refs.filter(|r: crate::model::RefV| heading_is_broken(ss, r)).map_values(
            |r: crate::model::RefV| broken_heading_warning(s, r),
        ),
    decreases refs.len(),
{
    let p = |r: crate::model::RefV| heading_is_broken(ss, r);
    let g = |r: crate::model::RefV| broken_heading_warning(s, r);
    if refs.len() == 0 {
        reveal_with_fuel(Seq::filter, 1);
        assert(refs.filter(p).map_values(g) =~= Seq::<WarningV>::empty());
    } else {
        lemma_broken_headings_filter(ss, s, refs.drop_last());
        lemma_filter_map_step(refs, p, g);
        if p(refs.last()) {
            assert(broken_headings_among(ss, s, refs) =~= broken_headings_among(ss, s, refs.drop_last()) + seq![
                g(refs.last()),
            ]);
        } else {
            assert(broken_headings_among(ss, s, refs) =~= broken_headings_among(ss, s, refs.drop_last()));
        }
    }
}

/// Over the whole wiki, the overlinking rule reports, scrap by scrap in wiki
/// order, each target a scrap links to more than once, once, in order of
/// first link.
pub proof fn lemma_overlinking_over_the_wiki(ss: Seq<ScrapV>)
    ensures
        rule_warnings(LintRuleName::Overlinking, ss) == flat_warnings(
            ss,
            |s: ScrapV| links(s).filter(|k: KeyV| count_key(link_keys(s.refs), k) > 1).map_values(
                |k: KeyV| overlink_warning(s, k),
            ),
        ),
{
    let f = |s: ScrapV| scrap_warnings(LintRuleName::Overlinking, ss, s);
    let g = |s: ScrapV| links(s).filter(|k: KeyV| count_key(link_keys(s.refs), k) > 1).map_values(
        |k: KeyV| overlink_warning(s, k),
    );
    assert forall|s: ScrapV| #[trigger] f(s) == g(s) by {
        lemma_overlinking_flags_repeated_targets(s);
    }
    assert(f =~= g);
}

/// Each scrap of `ss` with the time of its latest commit.
pub open spec fn with_commit_times(ss: Seq<ScrapV>, ts: Seq<Option<i64>>) -> Seq<(ScrapV, Option<i64>)> {
    Seq::new(ss.len(), |i: int| (ss[i], ts_at(ts, i)))
}

/// The scrap was last committed before `cutoff`.
pub open spec fn committed_before(e: (ScrapV, Option<i64>), cutoff: int) -> bool {
    e.1 matches Some(x) && x < cutoff
}

/// The stale warning for the scrap `s` last committed at `x`, at time `now`.
pub open spec fn stale_warning(s: ScrapV, x: i64, now: i64) -> WarningV {
    WarningV {
        rule: LintRuleName::StaleByGit,
        path: rel_path(s),
        message: "scrap not updated in "@ + signed_decimal(div_toward_zero(now - x, SECONDS_PER_DAY as int))
            + " days"@,
        source: None,
        span: None,
    }
}

proof fn lemma_stale_from_filter(ss: Seq<ScrapV>, ts: Seq<Option<i64>>, cutoff: int, now: i64)
    ensures
        stale_from(ss, ts, cutoff, now) == with_commit_times(ss, ts).filter(
            |e: (ScrapV, Option<i64>)| committed_before(e, cutoff),
        ).map_values(|e: (ScrapV, Option<i64>)| stale_warning(e.0, e.1->0, now)),
    decreases ss.len(),
{
    let p = |e: (ScrapV, Option<i64>)| committed_before(e, cutoff);
    let g = |e: (ScrapV, Option<i64>)| stale_warning(e.0, e.1->0, now);
    let es = with_commit_times(ss, ts);
    if ss.len() == 0 {
        reveal_with_fuel(Seq::filter, 1);
        assert(es.filter(p).map_values(g) =~= Seq::<WarningV>::empty());
    } else {
        lemma_stale_from_filter(ss.drop_last(), ts, cutoff, now);
        assert(with_commit_times(ss.drop_last(), ts) =~= es.drop_last());
        lemma_filter_map_step(es, p, g);
        assert(es.last() == (ss.last(), ts_at(ts, ss.len() - 1)));
        if p(es.last()) {
            assert(stale_from(ss, ts, cutoff, now) =~= stale_from(ss.drop_last(), ts, cutoff, now) + seq![
                g(es.last()),
            ]);
        } else {
            assert(stale_from(ss, ts, cutoff, now) =~= stale_from(ss.drop_last(), ts, cutoff, now));
        }
    }
}

/// The stale rule flags exactly the scraps whose latest commit is older
/// than the threshold (before `now` less the threshold, saturating), each
/// once, in wiki order, with its age in days; scraps with no commit time are
/// left alone, and without a repository to ask nothing is flagged.
pub proof fn lemma_stale_flags_exactly_the_old(rule: StaleByGitRule, ss: Seq<ScrapV>)
    ensures
        rule.warnings_over(ss) == if !rule.is_repo {
            Seq::<WarningV>::empty()
        } else {
            with_commit_times(ss, rule.commit_ts@).filter(
                |e: (ScrapV, Option<i64>)| committed_before(e, stale_cutoff(rule.threshold_days, rule.now_ts)),
            ).map_values(|e: (ScrapV, Option<i64>)| stale_warning(e.0, e.1->0, rule.now_ts))
        },
{
    lemma_stale_from_filter(ss, rule.commit_ts@, stale_cutoff(rule.threshold_days, rule.now_ts), rule.now_ts);
}

/// The overlinking warning for a target `k` linked `n` times from `s`.
pub open spec fn overlink_warning(s: ScrapV, k: KeyV) -> WarningV {
    WarningV {
        rule: LintRuleName::Overlinking,
        path: rel_path(s),
        message: "link "@ + link_pattern(k) + " appears "@ + decimal(
            count_key(link_keys(s.refs), k),
        ) + " times"@,
        source: Some(s.md_text),
        span: span_of(s.md_text, link_pattern(k)),
    }
}

/// A scrap's overlinking warnings are exactly the targets it links to more
/// than once, each once with its count, in order of first link.
pub proof fn lemma_overlinking_flags_repeated_targets(s: ScrapV)
    ensures
        overlinking_of(s) == links(s).filter(|k: KeyV| count_key(link_keys(s.refs), k) > 1).map_values(
            |k: KeyV| overlink_warning(s, k),
        ),
{
    lemma_overlinks_among_filter(s, links(s));
}

proof fn lemma_overlinks_among_filter(s: ScrapV, ks: Seq<KeyV>)
    ensures
        overlinks_among(s, ks) == ks.filter(|k: KeyV| count_key(link_keys(s.refs), k) > 1).map_values(
            |k: KeyV| overlink_warning(s, k),
        ),
    decreases ks.len(),
{
    let p = |k: KeyV| count_key(link_keys(s.refs), k) > 1;
    let g = |k: KeyV| overlink_warning(s, k);
    if ks.len() == 0 {
        reveal_with_fuel(Seq::filter, 1);
        assert(ks.filter(p).map_values(g) =~= Seq::<WarningV>::empty());
    } else {
        lemma_overlinks_among_filter(s, ks.drop_last());
        lemma_filter_map_step(ks, p, g);
        if p(ks.last()) {
            assert(overlinks_among(s, ks) =~= overlinks_among(s, ks.drop_last()) + seq![
                g(ks.last()),
            ]);
        } else {
            assert(overlinks_among(s, ks) =~= overlinks_among(s, ks.drop_last()));
        }
    }
}

/// Every warning of `ws` belongs to the rule `r`.
pub open spec fn all_of_rule(ws: Seq<WarningV>, r: LintRuleName) -> bool {
    forall|i: int| 0 <= i < ws.len() ==> (#[trigger] ws[i]).rule == r
}

proof fn lemma_all_of_rule_concat(a: Seq<WarningV>, b: Seq<WarningV>, r: LintRuleName)
    requires
        all_of_rule(a, r),
        all_of_rule(b, r),
    ensures
        all_of_rule(a + b, r),
{
    assert forall|i: int| 0 <= i < (a + b).len() implies (#[trigger] (a + b)[i]).rule == r by {
        if i < a.len() {
            assert((a + b)[i] == a[i]);
        } else {
            assert((a + b)[i] == b[i - a.len()]);
        }
    }
}

proof fn lemma_flat_all_of_rule(ss: Seq<ScrapV>, f: spec_fn(ScrapV) -> Seq<WarningV>, r: LintRuleName)
    requires
        forall|s: ScrapV| all_of_rule(#[trigger] f(s), r),
    ensures
        all_of_rule(flat_warnings(ss, f), r),
    decreases ss.len(),
{
    if ss.len() > 0 {
        lemma_flat_all_of_rule(ss.drop_last(), f, r);
        assert(all_of_rule(f(ss.last()), r));
        lemma_all_of_rule_concat(flat_warnings(ss.drop_last(), f), f(ss.last()), r);
    }
}

proof fn lemma_broken_headings_rule(ss: Seq<ScrapV>, s: ScrapV, refs: Seq<crate::model::RefV>)
    ensures
        all_of_rule(broken_headings_among(ss, s, refs), LintRuleName::BrokenHeadingRef),
    decreases refs.len(),
{
    if refs.len() > 0 {
        lemma_broken_headings_rule(ss, s, refs.drop_last());
        let tail = broken_headings_among(ss, s, refs) .subrange(
            broken_headings_among(ss, s, refs.drop_last()).len() as int,
            broken_headings_among(ss, s, refs).len() as int,
        );
        let head = broken_headings_among(ss, s, refs.drop_last());
        assert(broken_headings_among(ss, s, refs) =~= head + tail);
        assert(all_of_rule(tail, LintRuleName::BrokenHeadingRef));
        lemma_all_of_rule_concat(head, tail, LintRuleName::BrokenHeadingRef);
    }
}

proof fn lemma_singletons_rule(bm: Seq<ScrapV>, s: ScrapV, ts: Seq<Seq<char>>)
    ensures
        all_of_rule(singletons_among(bm, s, ts), LintRuleName::SingletonTag),
    decreases ts.len(),
{
    if ts.len() > 0 {
        lemma_singletons_rule(bm, s, ts.drop_last());
        let head = singletons_among(bm, s, ts.drop_last());
        let tail = singletons_among(bm, s, ts).subrange(
            head.len() as int,
            singletons_among(bm, s, ts).len() as int,
        );
        assert(singletons_among(bm, s, ts) =~= head + tail);
        assert(all_of_rule(tail, LintRuleName::SingletonTag));
        lemma_all_of_rule_concat(head, tail, LintRuleName::SingletonTag);
    }
}

proof fn lemma_map_all_of_rule<A>(xs: Seq<A>, g: spec_fn(A) -> WarningV, r: LintRuleName)
    requires
        forall|x: A| (#[trigger] g(x)).rule == r,
    ensures
        all_of_rule(xs.map_values(g), r),
{
    assert forall|i: int| 0 <= i < xs.map_values(g).len() implies (#[trigger] xs.map_values(
        g,
    )[i]).rule == r by {
        assert(xs.map_values(g)[i] == g(xs[i]));
    }
}

/// Every warning a rule reports carries that rule's name.
pub proof fn lemma_rule_warnings_carry_their_rule(rule: LintRuleName, ss: Seq<ScrapV>)
    ensures
        all_of_rule(rule_warnings(rule, ss), rule),
{
    let f = |s: ScrapV| scrap_warnings(rule, ss, s);
    assert forall|s: ScrapV| all_of_rule(#[trigger] f(s), rule) by {
        match rule {
            LintRuleName::Overlinking => {
                lemma_overlinks_among_filter(s, links(s));
                lemma_map_all_of_rule(
                    links(s).filter(|k: KeyV| count_key(link_keys(s.refs), k) > 1),
                    |k: KeyV| overlink_warning(s, k),
                    rule,
                );
            },
            LintRuleName::BrokenLink => {
                lemma_broken_among_filter(self_keys(ss), s, links(s));
                lemma_map_all_of_rule(
                    links(s).filter(|k: KeyV| !self_keys(ss).contains(k)),
                    |k: KeyV| broken_link_warning(s, k),
                    rule,
                );
            },
            LintRuleName::BrokenHeadingRef => {
                lemma_broken_headings_rule(ss, s, s.refs);
            },
            LintRuleName::SingletonTag => {
                lemma_singletons_rule(ss, s, tags(s));
            },
            _ => {},
        }
    }
    lemma_flat_all_of_rule(ss, f, rule);
}

proof fn lemma_stale_from_rule(ss: Seq<ScrapV>, ts: Seq<Option<i64>>, cutoff: int, now: i64)
    ensures
        all_of_rule(stale_from(ss, ts, cutoff, now), LintRuleName::StaleByGit),
    decreases ss.len(),
{
    if ss.len() > 0 {
        lemma_stale_from_rule(ss.drop_last(), ts, cutoff, now);
        lemma_all_of_rule_concat(
            stale_from(ss.drop_last(), ts, cutoff, now),
            stale_one(ss.last(), ts_at(ts, ss.len() - 1), cutoff, now),
            LintRuleName::StaleByGit,
        );
    }
}

/// Every warning the stale rule reports is a stale-by-git warning.
pub proof fn lemma_stale_warnings_carry_their_rule(rule: StaleByGitRule, ss: Seq<ScrapV>)
    ensures
        all_of_rule(rule.warnings_over(ss), LintRuleName::StaleByGit),
{
    lemma_stale_from_rule(
        ss,
        rule.commit_ts@,
        stale_cutoff(rule.threshold_days, rule.now_ts),
        rule.now_ts,
    );
}

/// Every warning of `ws` comes from a rule that runs for `names`.
pub open spec fn all_selected(ws: Seq<WarningV>, names: Seq<LintRuleName>) -> bool {
    forall|i: int| 0 <= i < ws.len() ==> runs(names, (#[trigger] ws[i]).rule)
}

proof fn lemma_all_selected_concat(a: Seq<WarningV>, b: Seq<WarningV>, names: Seq<LintRuleName>)
    requires
        all_selected(a, names),
        all_selected(b, names),
    ensures
        all_selected(a + b, names),
{
    assert forall|i: int| 0 <= i < (a + b).len() implies runs(names, (#[trigger] (a + b)[i]).rule) by {
        if i < a.len() {
            assert((a + b)[i] == a[i]);
        } else {
            assert((a + b)[i] == b[i - a.len()]);
        }
    }
}

proof fn lemma_rules_part_selected(ss: Seq<ScrapV>, names: Seq<LintRuleName>, rules: Seq<LintRuleName>)
    ensures
        all_selected(rules_part(ss, names, rules), names),
    decreases rules.len(),
{
    if rules.len() > 0 {
        lemma_rules_part_selected(ss, names, rules.drop_last());
        let r = rules.last();
        let tail = if runs(names, r) {
            rule_warnings(r, ss)
        } else {
            seq![]
        };
        if runs(names, r) {
            lemma_rule_warnings_carry_their_rule(r, ss);
            assert forall|i: int| 0 <= i < tail.len() implies runs(names, (#[trigger] tail[i]).rule) by {
                assert(tail[i].rule == r);
            }
        }
        lemma_all_selected_concat(rules_part(ss, names, rules.drop_last()), tail, names);
    }
}

proof fn lemma_extras_part_selected(
    ss: Seq<ScrapV>,
    names: Seq<LintRuleName>,
    extras: Seq<StaleByGitRule>,
)
    ensures
        all_selected(extras_part(ss, names, extras), names),
    decreases extras.len(),
{
    if extras.len() > 0 {
        lemma_extras_part_selected(ss, names, extras.drop_last());
        let named = names.len() > 0 && names.contains(LintRuleName::StaleByGit);
        let tail = if named {
            extras.last().warnings_over(ss)
        } else {
            seq![]
        };
        if named {
            lemma_stale_warnings_carry_their_rule(extras.last(), ss);
            assert forall|i: int| 0 <= i < tail.len() implies runs(names, (#[trigger] tail[i]).rule) by {
                assert(tail[i].rule == LintRuleName::StaleByGit);
            }
        }
        lemma_all_selected_concat(extras_part(ss, names, extras.drop_last()), tail, names);
    }
}

/// A lint run reports only warnings of the rules it runs: the named ones,
/// or, when none is named, the default ones.
pub proof fn lemma_lint_reports_only_selected_rules(
    ss: Seq<ScrapV>,
    names: Seq<LintRuleName>,
    extras: Seq<StaleByGitRule>,
)
    ensures
        all_selected(lint_result(ss, names, extras), names),
{
    lemma_rules_part_selected(ss, names, builtin_rule_seq());
    lemma_extras_part_selected(ss, names, extras);
    lemma_all_selected_concat(
        rules_part(ss, names, builtin_rule_seq()),
        extras_part(ss, names, extras),
        names,
    );
}

/// With no rule named, the opt-in rules stay silent, even when registered.
pub proof fn lemma_default_run_skips_opt_in_rules(ss: Seq<ScrapV>, extras: Seq<StaleByGitRule>)
    ensures
        forall|i: int|
            0 <= i < lint_result(ss, seq![], extras).len() ==> (#[trigger] lint_result(
                ss,
                seq![],
                extras,
            )[i]).rule != LintRuleName::StaleByGit && lint_result(ss, seq![], extras)[i].rule
                != LintRuleName::SingletonTag,
{
    lemma_lint_reports_only_selected_rules(ss, seq![], extras);
    assert forall|i: int| 0 <= i < lint_result(ss, seq![], extras).len() implies (#[trigger] lint_result(
        ss,
        seq![],
        extras,
    )[i]).rule != LintRuleName::StaleByGit && lint_result(ss, seq![], extras)[i].rule
        != LintRuleName::SingletonTag by {
        let w = lint_result(ss, seq![], extras)[i];
        assert(runs(seq![], w.rule));
        if w.rule == LintRuleName::StaleByGit || w.rule == LintRuleName::SingletonTag {
            assert(default_rule_seq().contains(w.rule));
            let k = choose|k: int| 0 <= k < default_rule_seq().len() && default_rule_seq()[k] == w.rule;
            assert(false);
        }
    }
}

proof fn lemma_rules_part_empty(names: Seq<LintRuleName>, rules: Seq<LintRuleName>)
    ensures
        rules_part(seq![], names, rules) == Seq::<WarningV>::empty(),
    decreases rules.len(),
{
    if rules.len() > 0 {
        lemma_rules_part_empty(names, rules.drop_last());
        assert(flat_warnings(seq![], |s: ScrapV| scrap_warnings(rules.last(), seq![], s)) == Seq::<
            WarningV,
        >::empty());
        assert(rules_part(seq![], names, rules) =~= Seq::<WarningV>::empty());
    }
}

proof fn lemma_extras_part_empty(names: Seq<LintRuleName>, extras: Seq<StaleByGitRule>)
    ensures
        extras_part(seq![], names, extras) == Seq::<WarningV>::empty(),
    decreases extras.len(),
{
    if extras.len() > 0 {
        lemma_extras_part_empty(names, extras.drop_last());
        assert(extras_part(seq![], names, extras) =~= Seq::<WarningV>::empty());
    }
}

/// An empty wiki draws no warning, whatever rules run.
pub proof fn lemma_empty_wiki_is_clean(names: Seq<LintRuleName>, extras: Seq<StaleByGitRule>)
    ensures
        lint_result(seq![], names, extras) == Seq::<WarningV>::empty(),
{
    lemma_rules_part_empty(names, builtin_rule_seq());
    lemma_extras_part_empty(names, extras);
    assert(lint_result(seq![], names, extras) =~= Seq::<WarningV>::empty());
}

/// Filtering never lengthens a sequence.
pub proof fn lemma_filter_len_le<A>(s: Seq<A>, p: spec_fn(A) -> bool)
    ensures
        s.filter(p).len() <= s.len(),
    decreases s.len(),
{
    reveal_with_fuel(Seq::filter, 1);
    if s.len() > 0 {
        lemma_filter_len_le(s.drop_last(), p);
    }
}

} // verus!

//! The wiki's data: scraps, the keys that name them, and the wiki references
//! (links, embeds, tags) found in their markdown.

use vstd::prelude::*;

verus! {

/// What a key names: an optional context (the folder path) and a title.
#[verifier::ext_equal]
pub struct KeyV {
    pub ctx: Option<Seq<char>>,
    pub title: Seq<char>,
}

/// The kind of a wiki reference.
#[derive(Debug, Clone, Copy, PartialEq, Eq, Hash, Structural)]
pub enum RefKind {
    /// `[[...]]`
    Link,
    /// `![[...]]`
    Embed,
    /// `#[[...]]`
    Tag,
}

/// A wiki reference as a value: kind, target and heading.
#[verifier::ext_equal]
pub struct RefV {
    pub kind: RefKind,
    pub key: KeyV,
    pub heading: Option<Seq<char>>,
}

/// A scrap as a value.
#[verifier::ext_equal]
pub struct ScrapV {
    pub title: Seq<char>,
    pub ctx: Option<Seq<char>>,
    pub md_text: Seq<char>,
    pub refs: Seq<RefV>,
    pub headings: Seq<Seq<char>>,
}

pub open spec fn opt_chars(o: Option<String>) -> Option<Seq<char>> {
    match o {
        Some(s) => Some(s@),
        None => None,
    }
}

/// The name of a scrap: its title, within an optional context.
#[derive(Debug, Clone, PartialEq, Eq, Hash, PartialOrd, Ord)]
pub struct ScrapKey {
    pub title: String,
    pub ctx: Option<String>,
}

impl View for ScrapKey {
    type V = KeyV;

    open spec fn view(&self) -> KeyV {
        KeyV { ctx: opt_chars(self.ctx), title: self.title@ }
    }
}

/// One wiki reference found in a scrap's markdown.
#[derive(Debug, Clone, PartialEq, Eq, Hash)]
pub struct WikiRef {
    pub kind: RefKind,
    /// The referenced scrap; for a tag, its path as the title.
    pub key: ScrapKey,
    /// The `#heading` part of a link or an embed.
    pub heading: Option<String>,
}

impl View for WikiRef {
    type V = RefV;

    open spec fn view(&self) -> RefV {
        RefV { kind: self.kind, key: self.key@, heading: opt_chars(self.heading) }
    }
}

/// A markdown note of the wiki, with the wiki references and headings of its
/// text.
#[derive(Debug, Clone, PartialEq, Eq)]
pub struct Scrap {
    pub title: String,
    pub ctx: Option<String>,
    /// The text; private, so that the references and headings below stay
    /// those read from it (see `reads_its_text`).
    pub(crate) md_text: String,
    pub(crate) refs: Vec<WikiRef>,
    pub(crate) headings: Vec<String>,
}

/// The references and headings of a scrap are those of its text. Every
/// scrap built outside this crate comes from `Scrap::new` or `duplicate`,
/// which keep this.
pub open spec fn reads_its_text(v: ScrapV) -> bool {
    &&& v.refs == crate::wiki::refs_of(v.md_text)
    &&& v.headings == crate::wiki::headings_of(v.md_text)
}

impl View for Scrap {
    type V = ScrapV;

    closed spec fn view(&self) -> ScrapV {
        ScrapV {
            title: self.title@,
            ctx: opt_chars(self.ctx),
            md_text: self.md_text@,
            refs: self.refs@.map_values(|r: WikiRef| r@),
            headings: self.headings@.map_values(|h: String| h@),
        }
    }
}

/// A scrap's view is made of its fields.
pub(crate) broadcast proof fn lemma_scrap_view(s: Scrap)
    ensures
        #[trigger] s@ == (ScrapV {
            title: s.title@,
            ctx: opt_chars(s.ctx),
            md_text: s.md_text@,
            refs: s.refs@.map_values(|r: WikiRef| r@),
            headings: s.headings@.map_values(|h: String| h@),
        }),
{
}

pub open spec fn scrap_views(v: Seq<Scrap>) -> Seq<ScrapV> {
    v.map_values(|s: Scrap| s@)
}

pub open spec fn key_views(v: Seq<ScrapKey>) -> Seq<KeyV> {
    v.map_values(|k: ScrapKey| k@)
}

pub open spec fn string_views(v: Seq<String>) -> Seq<Seq<char>> {
    v.map_values(|s: String| s@)
}

/// The key a scrap is known by.
pub open spec fn self_key(s: ScrapV) -> KeyV {
    KeyV { ctx: s.ctx, title: s.title }
}

/// The first occurrence of each element, in order.
pub open spec fn dedup<A>(s: Seq<A>) -> Seq<A>
    decreases s.len(),
{
    if s.len() == 0 {
        seq![]
    } else {
        let d = dedup(s.drop_last());
        if d.contains(s.last()) {
            d
        } else {
            d.push(s.last())
        }
    }
}

/// The targets of the plain links, in order, repeats kept.
pub open spec fn link_keys(refs: Seq<RefV>) -> Seq<KeyV>
    decreases refs.len(),
{
    if refs.len() == 0 {
        seq![]
    } else {
        let p = link_keys(refs.drop_last());
        if refs.last().kind == RefKind::Link {
            p.push(refs.last().key)
        } else {
            p
        }
    }
}

/// The tag paths, in order, repeats kept.
pub open spec fn tag_paths(refs: Seq<RefV>) -> Seq<Seq<char>>
    decreases refs.len(),
{
    if refs.len() == 0 {
        seq![]
    } else {
        let p = tag_paths(refs.drop_last());
        if refs.last().kind == RefKind::Tag {
            p.push(refs.last().key.title)
        } else {
            p
        }
    }
}

/// The scraps a scrap links to: each link target once, in order of first
/// appearance.
pub open spec fn links(s: ScrapV) -> Seq<KeyV> {
    dedup(link_keys(s.refs))
}

/// The tags a scrap declares: each once, in order of first appearance.
pub open spec fn tags(s: ScrapV) -> Seq<Seq<char>> {
    dedup(tag_paths(s.refs))
}

/// The text of a key: `ctx/title`, or the title alone.
pub open spec fn key_text(k: KeyV) -> Seq<char> {
    match k.ctx {
        Some(c) => c + seq!['/'] + k.title,
        None => k.title,
    }
}

pub proof fn lemma_dedup_push<A>(s: Seq<A>, x: A)
    ensures
        dedup(s.push(x)) == (if dedup(s).contains(x) {
            dedup(s)
        } else {
            dedup(s).push(x)
        }),
{
    assert(s.push(x).drop_last() =~= s);
}

pub proof fn lemma_dedup_contains<A>(s: Seq<A>, x: A)
    ensures
        dedup(s).contains(x) <==> s.contains(x),
    decreases s.len(),
{
    broadcast use vstd::seq_lib::group_seq_properties;

    if s.len() > 0 {
        let p = s.drop_last();
        let y = s.last();
        lemma_dedup_contains(p, x);
        assert(s =~= p.push(y));
        assert(s.contains(x) <==> (p.contains(x) || x == y));
        let d = dedup(p);
        if !d.contains(y) {
            assert(d.push(y).contains(x) <==> (d.contains(x) || x == y));
        }
    }
}

pub proof fn lemma_dedup_distinct<A>(s: Seq<A>)
    ensures
        dedup(s).no_duplicates(),
    decreases s.len(),
{
    if s.len() > 0 {
        lemma_dedup_distinct(s.drop_last());
        let d = dedup(s.drop_last());
        if !d.contains(s.last()) {
            let e = d.push(s.last());
            assert forall|i: int, j: int| 0 <= i < e.len() && 0 <= j < e.len() && i != j implies e[i]
                != e[j] by {
                if i == d.len() && j < d.len() {
                    assert(d[j] == e[j]);
                }
                if j == d.len() && i < d.len() {
                    assert(d[i] == e[i]);
                }
            }
        }
    }
}

impl ScrapKey {
    pub fn new(title: &str, ctx: &Option<String>) -> (r: ScrapKey)
        ensures
            r@ == (KeyV { ctx: opt_chars(*ctx), title: title@ }),
    {
        ScrapKey { title: title.to_owned(), ctx: clone_opt(ctx) }
    }

    /// An equal key.
    pub fn duplicate(&self) -> (r: ScrapKey)
        ensures
            r@ == self@,
    {
        ScrapKey { title: self.title.clone(), ctx: clone_opt(&self.ctx) }
    }

    /// Whether both keys name the same scrap.
    pub fn same(&self, other: &ScrapKey) -> (r: bool)
        ensures
            r == (self@ == other@),
    {
        let t = self.title == other.title;
        let c = match (&self.ctx, &other.ctx) {
            (Some(a), Some(b)) => *a == *b,
            (None, None) => true,
            _ => false,
        };
        proof {
            if t && c {
                assert(self@ =~= other@);
            }
        }
        t && c
    }

    /// `ctx/title`, or the title alone.
    pub fn to_text(&self) -> (r: String)
        ensures
            r@ == key_text(self@),
    {
        match &self.ctx {
            Some(c) => {
                let mut v = crate::text::chars_of(c.as_str());
                v.push('/');
                let t = crate::text::chars_of(self.title.as_str());
                crate::textops::append_range(&mut v, t.as_slice(), 0, t.len());
                assert(t@.subrange(0, t@.len() as int) =~= t@);
                crate::text::string_of(v.as_slice())
            },
            None => self.title.clone(),
        }
    }
}

pub fn clone_opt(o: &Option<String>) -> (r: Option<String>)
    ensures
        opt_chars(r) == opt_chars(*o),
{
    match o {
        Some(s) => Some(s.clone()),
        None => None,
    }
}

pub fn clone_strings(v: &Vec<String>) -> (r: Vec<String>)
    ensures
        string_views(r@) == string_views(v@),
{
    let mut r: Vec<String> = Vec::new();
    let mut i: usize = 0;
    while i < v.len()
        invariant
            i <= v.len(),
            r.len() == i,
            forall|j: int| 0 <= j < i ==> (#[trigger] r@[j])@ == v@[j]@,
        decreases v.len() - i,
    {
        r.push(v[i].clone());
        i += 1;
    }
    assert(string_views(r@) =~= string_views(v@));
    r
}

/// Whether `k` is among `ks`.
pub fn contains_key(ks: &Vec<ScrapKey>, k: &ScrapKey) -> (r: bool)
    ensures
        r == key_views(ks@).contains(k@),
{
    let mut i: usize = 0;
    while i < ks.len()
        invariant
            i <= ks.len(),
            forall|j: int| 0 <= j < i ==> ks@[j]@ != k@,
        decreases ks.len() - i,
    {
        if ks[i].same(k) {
            assert(key_views(ks@)[i as int] == k@);
            return true;
        }
        i += 1;
    }
    proof {
        if key_views(ks@).contains(k@) {
            let j = choose|j: int| 0 <= j < key_views(ks@).len() && key_views(ks@)[j] == k@;
            assert(ks@[j]@ == k@);
        }
    }
    false
}

/// Whether `s` is among `ss`.
pub fn contains_string(ss: &Vec<String>, s: &String) -> (r: bool)
    ensures
        r == string_views(ss@).contains(s@),
{
    let mut i: usize = 0;
    while i < ss.len()
        invariant
            i <= ss.len(),
            forall|j: int| 0 <= j < i ==> ss@[j]@ != s@,
        decreases ss.len() - i,
    {
        if ss[i] == *s {
            assert(string_views(ss@)[i as int] == s@);
            return true;
        }
        i += 1;
    }
    proof {
        if string_views(ss@).contains(s@) {
            let j = choose|j: int| 0 <= j < string_views(ss@).len() && string_views(ss@)[j] == s@;
            assert(ss@[j]@ == s@);
        }
    }
    false
}

impl WikiRef {
    pub fn duplicate(&self) -> (r: WikiRef)
        ensures
            r@ == self@,
    {
        WikiRef { kind: self.kind, key: self.key.duplicate(), heading: clone_opt(&self.heading) }
    }
}

impl Scrap {
    /// A scrap of the given title and context, its wiki references and
    /// headings read from `md_text`.
    pub fn new(title: &str, ctx: &Option<String>, md_text: &str) -> (r: Scrap)
        ensures
            r@ == (ScrapV {
                title: title@,
                ctx: opt_chars(*ctx),
                md_text: md_text@,
                refs: crate::wiki::refs_of(md_text@),
                headings: crate::wiki::headings_of(md_text@),
            }),
            reads_its_text(r@),
    {
        let md = crate::text::chars_of(md_text);
        let refs = crate::wiki::scan_refs(md.as_slice());
        let headings = crate::wiki::scan_headings(md.as_slice());
        let r = Scrap {
            title: title.to_owned(),
            ctx: clone_opt(ctx),
            md_text: md_text.to_owned(),
            refs,
            headings,
        };
        assert(r@.refs =~= crate::wiki::refs_of(md_text@));
        assert(r@ =~= (ScrapV {
            title: title@,
            ctx: opt_chars(*ctx),
            md_text: md_text@,
            refs: crate::wiki::refs_of(md_text@),
            headings: crate::wiki::headings_of(md_text@),
        }));
        r
    }

    /// The scrap's markdown text.
    pub fn md_text(&self) -> (r: &str)
        ensures
            r@ == self@.md_text,
    {
        self.md_text.as_str()
    }

    /// The key this scrap is known by.
    pub fn self_key(&self) -> (r: ScrapKey)
        ensures
            r@ == self_key(self@),
    {
        ScrapKey { title: self.title.clone(), ctx: clone_opt(&self.ctx) }
    }

    /// An equal scrap.
    pub fn duplicate(&self) -> (r: Scrap)
        ensures
            r@ == self@,
            reads_its_text(self@) ==> reads_its_text(r@),
    {
        let mut refs: Vec<WikiRef> = Vec::new();
        let mut i: usize = 0;
        while i < self.refs.len()
            invariant
                i <= self.refs.len(),
                refs.len() == i,
                forall|j: int| 0 <= j < i ==> (#[trigger] refs@[j])@ == self.refs@[j]@,
            decreases self.refs.len() - i,
        {
            refs.push(self.refs[i].duplicate());
            i += 1;
        }
        let r = Scrap {
            title: self.title.clone(),
            ctx: clone_opt(&self.ctx),
            md_text: self.md_text.clone(),
            refs,
            headings: clone_strings(&self.headings),
        };
        assert(r@.refs =~= self@.refs);
        assert(r@.headings =~= self@.headings);
        r
    }

    /// The scraps this one links to, each once, in order of first appearance.
    pub fn links(&self) -> (r: Vec<ScrapKey>)
        ensures
            key_views(r@) == links(self@),
    {
        let ghost rv = self@.refs;
        let mut out: Vec<ScrapKey> = Vec::new();
        let mut i: usize = 0;
        while i < self.refs.len()
            invariant
                i <= self.refs.len(),
                rv == self@.refs,
                key_views(out@) == dedup(link_keys(rv.take(i as int))),
            decreases self.refs.len() - i,
        {
            let r = &self.refs[i];
            assert(rv.take(i + 1).drop_last() =~= rv.take(i as int));
            assert(rv[i as int] == r@);
            if r.kind == RefKind::Link {
                proof {
                    lemma_dedup_push(link_keys(rv.take(i as int)), r@.key);
                }
                if !contains_key(&out, &r.key) {
                    let ghost before = out@;
                    out.push(r.key.duplicate());
                    assert(key_views(out@) =~= key_views(before).push(r@.key));
                }
            }
            i += 1;
        }
        assert(rv.take(self.refs.len() as int) =~= rv);
        out
    }

    /// The link targets in order, a target linked twice appearing twice.
    pub fn link_occurrences(&self) -> (r: Vec<ScrapKey>)
        ensures
            key_views(r@) == link_keys(self@.refs),
    {
        let ghost rv = self@.refs;
        let mut out: Vec<ScrapKey> = Vec::new();
        let mut i: usize = 0;
        while i < self.refs.len()
            invariant
                i <= self.refs.len(),
                rv == self@.refs,
                key_views(out@) == link_keys(rv.take(i as int)),
            decreases self.refs.len() - i,
        {
            let r = &self.refs[i];
            assert(rv.take(i + 1).drop_last() =~= rv.take(i as int));
            assert(rv[i as int] == r@);
            if r.kind == RefKind::Link {
                let ghost before = out@;
                out.push(r.key.duplicate());
                assert(key_views(out@) =~= key_views(before).push(r@.key));
            }
            i += 1;
        }
        assert(rv.take(self.refs.len() as int) =~= rv);
        out
    }

    /// The tags this scrap declares, each once, in order of first appearance.
    pub fn tags(&self) -> (r: Vec<String>)
        ensures
            string_views(r@) == tags(self@),
    {
        let ghost rv = self@.refs;
        let mut out: Vec<String> = Vec::new();
        let mut i: usize = 0;
        while i < self.refs.len()
            invariant
                i <= self.refs.len(),
                rv == self@.refs,
                string_views(out@) == dedup(tag_paths(rv.take(i as int))),
            decreases self.refs.len() - i,
        {
            let r = &self.refs[i];
            assert(rv.take(i + 1).drop_last() =~= rv.take(i as int));
            assert(rv[i as int] == r@);
            if r.kind == RefKind::Tag {
                proof {
                    lemma_dedup_push(tag_paths(rv.take(i as int)), r@.key.title);
                }
                if !contains_string(&out, &r.key.title) {
                    let ghost before = out@;
                    out.push(r.key.title.clone());
                    assert(string_views(out@) =~= string_views(before).push(r@.key.title));
                }
            }
            i += 1;
        }
        assert(rv.take(self.refs.len() as int) =~= rv);
        out
    }
}

pub fn clone_scraps(v: &[Scrap]) -> (r: Vec<Scrap>)
    ensures
        scrap_views(r@) == scrap_views(v@),
{
    let mut r: Vec<Scrap> = Vec::new();
    let mut i: usize = 0;
    while i < v.len()
        invariant
            i <= v.len(),
            r.len() == i,
            forall|j: int| 0 <= j < i ==> (#[trigger] r@[j])@ == v@[j]@,
        decreases v.len() - i,
    {
        r.push(v[i].duplicate());
        i += 1;
    }
    assert(scrap_views(r@) =~= scrap_views(v@));
    r
}

} // verus!

//! How a markdown file of the scraps directory names its scrap: the file
//! name without `.md` is the title, the folders above it the context.

use vstd::prelude::*;

use crate::model::{opt_chars, Scrap};
use crate::textops::slice_to_vec;
use crate::text::{chars_of, string_of};

verus! {

broadcast use crate::model::lemma_scrap_view;

/// The position of the last `/` of `p` before `j`, or -1.
pub open spec fn last_slash(p: Seq<char>, j: int) -> int
    decreases j,
{
    if j <= 0 {
        -1
    } else if p[j - 1] == '/' {
        j - 1
    } else {
        last_slash(p, j - 1)
    }
}

proof fn lemma_last_slash(p: Seq<char>, j: int)
    requires
        0 <= j <= p.len(),
    ensures
        -1 <= last_slash(p, j) < j,
        last_slash(p, j) >= 0 ==> p[last_slash(p, j)] == '/',
    decreases j,
{
    if j > 0 && p[j - 1] != '/' {
        lemma_last_slash(p, j - 1);
    }
}

/// The file stem of a file name: the name without a final `.md`.
pub open spec fn stem(name: Seq<char>) -> Seq<char> {
    if name.len() > 3 && name.skip(name.len() - 3) == ".md"@ {
        name.take(name.len() - 3)
    } else {
        name
    }
}

/// The title and context of the scrap stored at `rel`, a path relative to
/// the scraps directory with `/` between folders.
pub open spec fn scrap_name(rel: Seq<char>) -> (Seq<char>, Option<Seq<char>>) {
    let k = last_slash(rel, rel.len() as int);
    let name = rel.skip(k + 1);
    (stem(name), if k > 0 { Some(rel.take(k)) } else { None })
}

/// The title and context of the scrap stored at `rel_path`.
pub fn scrap_name_of(rel_path: &str) -> (r: (String, Option<String>))
    ensures
        (r.0@, opt_chars(r.1)) == scrap_name(rel_path@),
{
    let p = chars_of(rel_path);
    let mut j = p.len();
    while j > 0 && p[j - 1] != '/'
        invariant
            j <= p.len(),
            p@ == rel_path@,
            last_slash(p@, p.len() as int) == last_slash(p@, j as int),
        decreases j,
    {
        j -= 1;
    }
    proof {
        lemma_last_slash(p@, p.len() as int);
    }
    let name = slice_to_vec(p.as_slice(), j, p.len());
    let n = name.len();
    let is_md = n > 3 && name[n - 3] == '.' && name[n - 2] == 'm' && name[n - 1] == 'd';
    proof {
        reveal_strlit(".md");
        if n > 3 {
            if is_md {
                assert(name@.skip(n - 3) =~= ".md"@);
            } else {
                assert(name@.skip(n - 3) != ".md"@) by {
                    if name@.skip(n - 3) == ".md"@ {
                        assert(name@.skip(n - 3)[0] == name@[n - 3]);
                        assert(name@.skip(n - 3)[1] == name@[n - 2]);
                        assert(name@.skip(n - 3)[2] == name@[n - 1]);
                    }
                }
            }
        }
    }
    let title = if is_md {
        string_of(slice_to_vec(name.as_slice(), 0, n - 3).as_slice())
    } else {
        string_of(name.as_slice())
    };
    let ctx = if j > 1 {
        Some(string_of(slice_to_vec(p.as_slice(), 0, j - 1).as_slice()))
    } else {
        None
    };
    assert(name@ =~= rel_path@.skip(last_slash(rel_path@, rel_path@.len() as int) + 1));
    if is_md {
        assert(name@.subrange(0, n - 3) =~= name@.take(n - 3));
    }
    (title, ctx)
}

/// The scrap stored at `rel_path` with the text `md_text`.
pub fn scrap_of_file(rel_path: &str, md_text: &str) -> (r: Scrap)
    ensures
        r@.title == scrap_name(rel_path@).0,
        r@.ctx == scrap_name(rel_path@).1,
        r@.md_text == md_text@,
        r@.refs == crate::wiki::refs_of(md_text@),
        r@.headings == crate::wiki::headings_of(md_text@),
{
    let (title, ctx) = scrap_name_of(rel_path);
    Scrap::new(title.as_str(), &ctx, md_text)
}

} // verus!

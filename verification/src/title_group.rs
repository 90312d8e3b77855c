//! Sections of the title index: which bucket a title belongs to, derived
//! from its first character.

use vstd::prelude::*;

use crate::text::{char_from_u32, lemma_char_of_code, string_of};

verus! {

/// Which section of the title index a scrap belongs to, derived from the
/// first character of its title. Kanji get their own bucket because reading
/// them needs a dictionary.
#[derive(Debug, Clone, Copy, PartialEq, Eq, PartialOrd, Ord, Hash, Structural)]
pub enum TitleGroup {
    /// A gojuon row, labelled by its leading kana (あ か さ た な は ま や ら わ).
    Kana(char),
    /// An ASCII letter, uppercased.
    Latin(char),
    Kanji,
    Other,
}

/// Full-width ASCII (U+FF01..U+FF5E) folded onto ASCII.
pub open spec fn spec_fold_width(c: char) -> char {
    if '\u{FF01}' <= c && c <= '\u{FF5E}' {
        ((c as u32) - 0xFF01 + 0x21) as char
    } else {
        c
    }
}

/// Katakana (U+30A1..U+30F6) folded onto hiragana.
pub open spec fn spec_katakana_to_hiragana(c: char) -> char {
    if '\u{30A1}' <= c && c <= '\u{30F6}' {
        ((c as u32) - 0x60) as char
    } else {
        c
    }
}

pub open spec fn in_range(c: char, lo: char, hi: char) -> bool {
    lo <= c && c <= hi
}

/// The gojuon row of a hiragana, voiced and small kana folded onto their
/// base row.
pub open spec fn spec_gojuon_row(c: char) -> Option<char> {
    if in_range(c, 'ぁ', 'お') || c == 'ゔ' {
        Some('あ')
    } else if in_range(c, 'か', 'ご') || c == 'ゕ' || c == 'ゖ' {
        Some('か')
    } else if in_range(c, 'さ', 'ぞ') {
        Some('さ')
    } else if in_range(c, 'た', 'ど') {
        Some('た')
    } else if in_range(c, 'な', 'の') {
        Some('な')
    } else if in_range(c, 'は', 'ぽ') {
        Some('は')
    } else if in_range(c, 'ま', 'も') {
        Some('ま')
    } else if in_range(c, 'ゃ', 'よ') {
        Some('や')
    } else if in_range(c, 'ら', 'ろ') {
        Some('ら')
    } else if in_range(c, 'ゎ', 'ん') {
        Some('わ')
    } else {
        None
    }
}

pub open spec fn spec_is_cjk_ideograph(c: char) -> bool {
    in_range(c, '\u{3400}', '\u{4DBF}') || in_range(c, '\u{4E00}', '\u{9FFF}') || in_range(
        c,
        '\u{F900}',
        '\u{FAFF}',
    )
}

pub open spec fn spec_is_ascii_alphabetic(c: char) -> bool {
    in_range(c, 'a', 'z') || in_range(c, 'A', 'Z')
}

pub open spec fn spec_to_ascii_uppercase(c: char) -> char {
    if in_range(c, 'a', 'z') {
        ((c as u32) - 32) as char
    } else {
        c
    }
}

/// The group of a single character.
pub open spec fn spec_group_of_char(c: char) -> TitleGroup {
    let c = spec_katakana_to_hiragana(spec_fold_width(c));
    if spec_is_ascii_alphabetic(c) {
        TitleGroup::Latin(spec_to_ascii_uppercase(c))
    } else if spec_gojuon_row(c) is Some {
        TitleGroup::Kana(spec_gojuon_row(c)->0)
    } else if spec_is_cjk_ideograph(c) {
        TitleGroup::Kanji
    } else {
        TitleGroup::Other
    }
}

/// The group of a title: that of its first character, `Other` when empty.
pub open spec fn spec_group_of_title(title: Seq<char>) -> TitleGroup {
    if title.len() == 0 {
        TitleGroup::Other
    } else {
        spec_group_of_char(title[0])
    }
}

/// The label a group is shown under.
pub open spec fn spec_label(g: TitleGroup) -> Seq<char> {
    match g {
        TitleGroup::Kana(row) => seq![row],
        TitleGroup::Latin(letter) => seq![letter],
        TitleGroup::Kanji => seq!['漢', '字'],
        TitleGroup::Other => seq!['#'],
    }
}

fn fold_width(c: char) -> (r: char)
    ensures
        r == spec_fold_width(c),
{
    if '\u{FF01}' <= c && c <= '\u{FF5E}' {
        let u = (c as u32) - 0xFF01 + 0x21;
        match char_from_u32(u) {
            Some(r) => {
                proof {
                    lemma_char_of_code(r, u);
                }
                r
            },
            None => c,
        }
    } else {
        c
    }
}

fn katakana_to_hiragana(c: char) -> (r: char)
    ensures
        r == spec_katakana_to_hiragana(c),
{
    if '\u{30A1}' <= c && c <= '\u{30F6}' {
        let u = (c as u32) - 0x60;
        match char_from_u32(u) {
            Some(r) => {
                proof {
                    lemma_char_of_code(r, u);
                }
                r
            },
            None => c,
        }
    } else {
        c
    }
}

fn gojuon_row(c: char) -> (r: Option<char>)
    ensures
        r == spec_gojuon_row(c),
{
    if ('ぁ' <= c && c <= 'お') || c == 'ゔ' {
        Some('あ')
    } else if ('か' <= c && c <= 'ご') || c == 'ゕ' || c == 'ゖ' {
        Some('か')
    } else if 'さ' <= c && c <= 'ぞ' {
        Some('さ')
    } else if 'た' <= c && c <= 'ど' {
        Some('た')
    } else if 'な' <= c && c <= 'の' {
        Some('な')
    } else if 'は' <= c && c <= 'ぽ' {
        Some('は')
    } else if 'ま' <= c && c <= 'も' {
        Some('ま')
    } else if 'ゃ' <= c && c <= 'よ' {
        Some('や')
    } else if 'ら' <= c && c <= 'ろ' {
        Some('ら')
    } else if 'ゎ' <= c && c <= 'ん' {
        Some('わ')
    } else {
        None
    }
}

fn is_cjk_ideograph(c: char) -> (r: bool)
    ensures
        r == spec_is_cjk_ideograph(c),
{
    ('\u{3400}' <= c && c <= '\u{4DBF}') || ('\u{4E00}' <= c && c <= '\u{9FFF}') || (
    '\u{F900}' <= c && c <= '\u{FAFF}')
}

impl TitleGroup {
    /// The group of a title, from its first character.
    pub fn from_title(title: &str) -> (r: TitleGroup)
        ensures
            r == spec_group_of_title(title@),
    {
        let chars = crate::text::chars_of(title);
        if chars.len() == 0 {
            TitleGroup::Other
        } else {
            Self::from_char(chars[0])
        }
    }

    fn from_char(c: char) -> (r: TitleGroup)
        ensures
            r == spec_group_of_char(c),
    {
        let c = fold_width(c);
        let c = katakana_to_hiragana(c);
        if ('a' <= c && c <= 'z') || ('A' <= c && c <= 'Z') {
            if 'a' <= c && c <= 'z' {
                let u = (c as u32) - 32;
                match char_from_u32(u) {
                    Some(up) => {
                        proof {
                            lemma_char_of_code(up, u);
                        }
                        TitleGroup::Latin(up)
                    },
                    None => TitleGroup::Latin(c),
                }
            } else {
                TitleGroup::Latin(c)
            }
        } else {
            match gojuon_row(c) {
                Some(row) => TitleGroup::Kana(row),
                None => {
                    if is_cjk_ideograph(c) {
                        TitleGroup::Kanji
                    } else {
                        TitleGroup::Other
                    }
                },
            }
        }
    }

    /// The label this group is shown under.
    pub fn label(&self) -> (r: String)
        ensures
            r@ == spec_label(*self),
    {
        match self {
            TitleGroup::Kana(row) => {
                let v = vec![*row];
                string_of(v.as_slice())
            },
            TitleGroup::Latin(letter) => {
                let v = vec![*letter];
                string_of(v.as_slice())
            },
            TitleGroup::Kanji => {
                let v = vec!['漢', '字'];
                string_of(v.as_slice())
            },
            TitleGroup::Other => {
                let v = vec!['#'];
                string_of(v.as_slice())
            },
        }
    }
}

/// The leading kana of the gojuon rows, in table order.
pub open spec fn row_leads() -> Seq<char> {
    seq!['あ', 'か', 'さ', 'た', 'な', 'は', 'ま', 'や', 'ら', 'わ']
}

/// `l` labels the gojuon row that the hiragana `c` stands in: `l` is the
/// last row lead at or before `c`, save for the small kana ぁ, ゃ and ゎ,
/// which sit just before a lead and belong to its row.
pub open spec fn labels_row_of(l: char, c: char) -> bool {
    &&& row_leads().contains(l)
    &&& if c == 'ぁ' || c == 'ゃ' || c == 'ゎ' {
        l as u32 == c as u32 + 1
    } else {
        l <= c && forall|i: int| 0 <= i < row_leads().len() && #[trigger] row_leads()[i] <= c ==> row_leads()[i] <= l
    }
}

/// A title that opens with a hiragana from ぁ to ん, or with the katakana
/// of one, is filed under a kana row, and that row is the one the kana
/// stands in, labelled by the row's leading kana. The kana outside that
/// run go with their base row: ゔ and ヴ with あ, ゕ, ゖ, ヵ and ヶ with か.
pub proof fn lemma_kana_titles_file_under_their_row(title: Seq<char>, c: char)
    requires
        title.len() > 0,
        'ぁ' <= c <= 'ん',
        title[0] == c || title[0] as u32 == c as u32 + 0x60,
    ensures
        spec_group_of_title(title) is Kana,
        labels_row_of(spec_group_of_title(title)->Kana_0, c),
        spec_group_of_char('ゔ') == TitleGroup::Kana('あ'),
        spec_group_of_char('ゕ') == TitleGroup::Kana('か'),
        spec_group_of_char('ゖ') == TitleGroup::Kana('か'),
        spec_group_of_char('ヴ') == TitleGroup::Kana('あ'),
        spec_group_of_char('ヵ') == TitleGroup::Kana('か'),
        spec_group_of_char('ヶ') == TitleGroup::Kana('か'),
{
    lemma_char_of_code('ゔ', 0x3094);
    lemma_char_of_code('ゕ', 0x3095);
    lemma_char_of_code('ゖ', 0x3096);
    let k = title[0];
    if k != c {
        lemma_char_of_code(c, (k as u32 - 0x60) as u32);
    }
    assert(spec_katakana_to_hiragana(spec_fold_width(k)) == c);
    let l = spec_gojuon_row(c)->0;
    assert(spec_gojuon_row(c) is Some);
    assert(row_leads().contains(l)) by {
        if l == 'あ' { assert(row_leads()[0] == l); }
        else if l == 'か' { assert(row_leads()[1] == l); }
        else if l == 'さ' { assert(row_leads()[2] == l); }
        else if l == 'た' { assert(row_leads()[3] == l); }
        else if l == 'な' { assert(row_leads()[4] == l); }
        else if l == 'は' { assert(row_leads()[5] == l); }
        else if l == 'ま' { assert(row_leads()[6] == l); }
        else if l == 'や' { assert(row_leads()[7] == l); }
        else if l == 'ら' { assert(row_leads()[8] == l); }
        else { assert(row_leads()[9] == l); }
    }
}

/// Where a group's kind stands among the kinds: kana rows, Latin letters,
/// kanji, the rest.
pub open spec fn kind_pos(g: TitleGroup) -> int {
    match g {
        TitleGroup::Kana(_) => 0,
        TitleGroup::Latin(_) => 1,
        TitleGroup::Kanji => 2,
        TitleGroup::Other => 3,
    }
}

/// `a` comes before `b` in the order of the groups' declaration: by kind,
/// then kana rows by their lead and Latin letters by their letter.
pub open spec fn group_precedes(a: TitleGroup, b: TitleGroup) -> bool {
    kind_pos(a) < kind_pos(b) || match (a, b) {
        (TitleGroup::Kana(x), TitleGroup::Kana(y)) => x < y,
        (TitleGroup::Latin(x), TitleGroup::Latin(y)) => x < y,
        _ => false,
    }
}

/// The order of groups is transitive and never runs both ways.
pub proof fn lemma_group_order_facts(a: TitleGroup, b: TitleGroup, c: TitleGroup)
    ensures
        group_precedes(a, b) && group_precedes(b, c) ==> group_precedes(a, c),
        !(group_precedes(a, b) && group_precedes(b, a)),
        !group_precedes(a, a),
{
}

} // verus!

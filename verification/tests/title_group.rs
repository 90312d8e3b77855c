use scraps::title_group::TitleGroup;

#[test]
fn hiragana_maps_to_its_row() {
    assert_eq!(TitleGroup::from_title("あいうえお"), TitleGroup::Kana('あ'));
    assert_eq!(TitleGroup::from_title("すくらっぷ"), TitleGroup::Kana('さ'));
    assert_eq!(TitleGroup::from_title("わたし"), TitleGroup::Kana('わ'));
    assert_eq!(TitleGroup::from_title("んじゃめな"), TitleGroup::Kana('わ'));
}

#[test]
fn voiced_and_small_kana_fold_onto_the_base_row() {
    assert_eq!(TitleGroup::from_title("がぎぐ"), TitleGroup::Kana('か'));
    assert_eq!(TitleGroup::from_title("ぱぴぷ"), TitleGroup::Kana('は'));
    assert_eq!(TitleGroup::from_title("っち"), TitleGroup::Kana('た'));
    assert_eq!(TitleGroup::from_title("ゃゅょ"), TitleGroup::Kana('や'));
}

#[test]
fn katakana_folds_to_hiragana_rows() {
    assert_eq!(TitleGroup::from_title("デザイントークン"), TitleGroup::Kana('た'));
    assert_eq!(TitleGroup::from_title("クラウド"), TitleGroup::Kana('か'));
    assert_eq!(TitleGroup::from_title("ヴァイオリン"), TitleGroup::Kana('あ'));
}

#[test]
fn latin_uppercases_and_folds_width() {
    assert_eq!(TitleGroup::from_title("scraps"), TitleGroup::Latin('S'));
    assert_eq!(TitleGroup::from_title("DTCG"), TitleGroup::Latin('D'));
    assert_eq!(TitleGroup::from_title("Ｋubernetes"), TitleGroup::Latin('K'));
}

#[test]
fn kanji_gets_its_own_bucket() {
    assert_eq!(TitleGroup::from_title("良いコード"), TitleGroup::Kanji);
    assert_eq!(TitleGroup::from_title("設計"), TitleGroup::Kanji);
}

#[test]
fn digits_symbols_and_empty_fall_back_to_other() {
    assert_eq!(TitleGroup::from_title("12 factor"), TitleGroup::Other);
    assert_eq!(TitleGroup::from_title("６つの帽子"), TitleGroup::Other);
    assert_eq!(TitleGroup::from_title("ーん"), TitleGroup::Other);
    assert_eq!(TitleGroup::from_title(""), TitleGroup::Other);
}

#[test]
fn groups_order_kana_then_latin_then_kanji_then_other() {
    let mut groups = vec![
        TitleGroup::Other,
        TitleGroup::Latin('B'),
        TitleGroup::Kanji,
        TitleGroup::Kana('わ'),
        TitleGroup::Latin('A'),
        TitleGroup::Kana('あ'),
    ];
    groups.sort();
    assert_eq!(
        groups,
        vec![
            TitleGroup::Kana('あ'),
            TitleGroup::Kana('わ'),
            TitleGroup::Latin('A'),
            TitleGroup::Latin('B'),
            TitleGroup::Kanji,
            TitleGroup::Other,
        ]
    );
}

#[test]
fn labels() {
    assert_eq!(TitleGroup::Kana('た').label(), "た");
    assert_eq!(TitleGroup::Latin('D').label(), "D");
    assert_eq!(TitleGroup::Kanji.label(), "漢字");
    assert_eq!(TitleGroup::Other.label(), "#");
}

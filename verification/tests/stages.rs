use srgn::actions::Action;
use srgn::stages::{LowerStage, UpperStage};

#[test]
fn lower_substitute() {
    for (input, expected) in [
        ("A", "a"),
        ("a", "a"),
        ("Ä", "ä"),
        ("ä", "ä"),
        ("Ö", "ö"),
        ("ö", "ö"),
        ("Ü", "ü"),
        ("ü", "ü"),
        ("ẞ", "ß"),
        ("ß", "ß"),
        ("AaÄäÖöÜüẞß!", "aaääööüüßß!"),
        ("SS", "ss"),
        ("你好!", "你好!"),
        ("こんにちは!", "こんにちは!"),
        ("안녕하세요!", "안녕하세요!"),
        ("ПРИВЕТ!", "привет!"),
        ("👋\0", "👋\0"),
    ] {
        assert_eq!(LowerStage {}.substitute(input), expected);
        assert_eq!(LowerStage {}.act(input), expected);
    }
}

#[test]
fn upper_process() {
    for (input, expected) in [
        ("a", "A"),
        ("A", "A"),
        ("ä", "Ä"),
        ("Ä", "Ä"),
        ("ö", "Ö"),
        ("Ö", "Ö"),
        ("ü", "Ü"),
        ("Ü", "Ü"),
        ("ß", "ẞ"),
        ("ẞ", "ẞ"),
        ("aAäÄöÖüÜßẞ!", "AAÄÄÖÖÜÜẞẞ!"),
        ("ss", "SS"),
        ("你好!", "你好!"),
        ("こんにちは!", "こんにちは!"),
        ("안녕하세요!", "안녕하세요!"),
        ("привет!", "ПРИВЕТ!"),
        ("👋\0", "👋\0"),
    ] {
        assert_eq!(UpperStage::default().process(input), expected);
        assert_eq!(UpperStage::default().act(input), expected);
    }
}

use flooglyflup::language;

#[test]
fn languages_are_told_apart() {
    assert_eq!(
        language::detect_language("The quick brown fox jumps over the lazy dog and then sleeps in the warm sun."),
        "en"
    );
    assert_eq!(
        language::detect_language("Der schnelle braune Fuchs springt über den faulen Hund und schläft dann in der Sonne."),
        "de"
    );
    assert_eq!(
        language::detect_language("Быстрая коричневая лиса прыгает через ленивую собаку и потом спит на солнце."),
        "ru"
    );
}

#[test]
fn short_texts_are_unknown() {
    assert_eq!(language::detect_language(""), "unknown");
    assert_eq!(language::detect_language("Hello there, you!!!"), "unknown");
    assert_eq!(language::detect_language("1234567890 1234567890 !!!"), "unknown");
}

#[test]
fn codes_have_names() {
    let name = |code: &str| language::name_language(&Some(code.to_string()));
    assert_eq!(name("eng"), "en");
    assert_eq!(name("cmn"), "zh");
    assert_eq!(name("pol"), "pl");
    assert_eq!(name("fin"), "other");
    assert_eq!(name(""), "other");
    assert_eq!(language::name_language(&None), "unknown");
}

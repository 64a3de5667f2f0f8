use translator::Error;
use translator::Translator;

fn greetings() -> Translator {
    let mut tr = Translator::new(&["pt", "en", "it"]);
    tr.add_text(
        "greetings",
        &["NAME"],
        &[
            ("en", "Good morning, NAME!"),
            ("pt", "Bom dia, NAME!"),
            ("it", "Buongiorno, NAME!"),
        ],
    )
    .unwrap();
    tr
}

#[test]
fn one_argument() {
    let mut tr = Translator::new(&["pt", "en", "it"]);

    tr.add_text(
        "greetings",
        &["NAME"],
        &[
            ("en", "Good morning, NAME!"),
            ("pt", "Bom dia, NAME!"),
            ("it", "Buongiorno, NAME!"),
        ],
    )
    .unwrap();

    assert_eq!(
        tr.translate("greetings", "pt", &[("NAME", "Julian")]).unwrap(),
        "Bom dia, Julian!"
    );
    assert_eq!(
        tr.translate("greetings", "en", &[("NAME", "Julian")]).unwrap(),
        "Good morning, Julian!"
    );
    assert_eq!(
        tr.translate("greetings", "it", &[("NAME", "Julian")]).unwrap(),
        "Buongiorno, Julian!"
    );

    // Validations
    assert_eq!(
        tr.translate("greetings", "cz", &[("NAME", "Julian")]),
        Err(Error::UnknownLanguage("cz".into()))
    );
    assert_eq!(
        tr.translate("greetings", "pt", &[("NOME", "Julian")]),
        Err(Error::UnknownArgument("NOME".into()))
    );
}

#[test]
fn overlapping_arguments() {
    let mut tr = Translator::new(&["pt", "en", "it"]);

    tr.add_text(
        "greetings",
        &["NAME", "NAME2"],
        &[
            ("en", "Good morning, NAME! Good afternoon, NAME2!"),
            ("pt", "Bom dia, NAME! Boa tarde, NAME2!"),
            ("it", "Buongiorno, NAME! Buon pomeriggio, NAME2!"),
        ],
    )
    .unwrap();

    let text = tr
        .translate("greetings", "pt", &[("NAME", "Julian"), ("NAME2", "Kyle")])
        .unwrap();
    println!("{}", text);
}

#[test]
fn language_ids_follow_ascending_order() {
    let tr = Translator::new(&["pt", "en", "it"]);
    assert_eq!(tr.language_id("en"), Some(0));
    assert_eq!(tr.language_id("it"), Some(1));
    assert_eq!(tr.language_id("pt"), Some(2));
    assert_eq!(tr.language_id("cz"), None);
    assert_eq!(tr.language_id(""), None);
}

#[test]
fn language_ids_ignore_order_and_duplicates() {
    let messy = Translator::new(&["pt", "en", "pt", "it", "en", "en"]);
    let tidy = Translator::new(&["en", "it", "pt"]);
    for language in ["en", "it", "pt", "cz", "e", "enn"] {
        assert_eq!(messy.language_id(language), tidy.language_id(language));
    }
    assert_eq!(messy.language_id("pt"), Some(2));
}

#[test]
fn a_prefix_comes_before_the_longer_language() {
    let tr = Translator::new(&["pt-br", "pt", "p", ""]);
    assert_eq!(tr.language_id(""), Some(0));
    assert_eq!(tr.language_id("p"), Some(1));
    assert_eq!(tr.language_id("pt"), Some(2));
    assert_eq!(tr.language_id("pt-br"), Some(3));
}

#[test]
fn languages_are_ranked_by_code_point() {
    let tr = Translator::new(&["é", "z", "Z", "日本"]);
    assert_eq!(tr.language_id("Z"), Some(0));
    assert_eq!(tr.language_id("z"), Some(1));
    assert_eq!(tr.language_id("é"), Some(2));
    assert_eq!(tr.language_id("日本"), Some(3));
}

#[test]
fn languages_beyond_the_basic_plane_come_last() {
    let tr = Translator::new(&["\u{1D11E}", "\u{FFFD}", "\u{E000}", "~"]);
    assert_eq!(tr.language_id("~"), Some(0));
    assert_eq!(tr.language_id("\u{E000}"), Some(1));
    assert_eq!(tr.language_id("\u{FFFD}"), Some(2));
    assert_eq!(tr.language_id("\u{1D11E}"), Some(3));
}

#[test]
fn store_without_languages_takes_a_message_without_templates() {
    let mut tr = Translator::new(&[]);
    assert_eq!(tr.language_id("en"), None);
    assert_eq!(tr.add_text("empty", &[], &[]), Ok(()));
    assert_eq!(
        tr.translate("empty", "en", &[]),
        Err(Error::UnknownLanguage("en".into()))
    );
}

#[test]
fn second_add_of_a_key_is_refused() {
    let mut tr = greetings();
    assert_eq!(
        tr.add_text(
            "greetings",
            &["NAME"],
            &[
                ("en", "Good morning, NAME!"),
                ("pt", "Bom dia, NAME!"),
                ("it", "Buongiorno, NAME!"),
            ],
        ),
        Err(Error::DuplicatedKey("greetings".into()))
    );
    assert_eq!(
        tr.add_text("greetings", &[], &[]),
        Err(Error::DuplicatedKey("greetings".into()))
    );
    assert_eq!(
        tr.add_text("greetings", &["A", "A"], &[("cz", "Ahoj")]),
        Err(Error::DuplicatedKey("greetings".into()))
    );
    // the first message is still the one that is stored
    assert_eq!(
        tr.translate("greetings", "en", &[("NAME", "Ann")]).unwrap(),
        "Good morning, Ann!"
    );
}

#[test]
fn add_text_refuses_an_unknown_language() {
    let mut tr = Translator::new(&["pt", "en"]);
    assert_eq!(
        tr.add_text("bye", &[], &[("en", "Bye"), ("cz", "Ahoj"), ("pt", "Tchau")]),
        Err(Error::UnknownLanguage("cz".into()))
    );
}

#[test]
fn add_text_refuses_a_language_given_twice() {
    let mut tr = Translator::new(&["pt", "en"]);
    assert_eq!(
        tr.add_text("bye", &[], &[("en", "Bye"), ("en", "Goodbye"), ("pt", "Tchau")]),
        Err(Error::DuplicatedKey("en".into()))
    );
}

#[test]
fn add_text_reports_the_first_faulty_pair() {
    let mut tr = Translator::new(&["pt", "en"]);
    assert_eq!(
        tr.add_text("bye", &[], &[("en", "Bye"), ("en", "Goodbye"), ("cz", "Ahoj")]),
        Err(Error::DuplicatedKey("en".into()))
    );
    assert_eq!(
        tr.add_text("bye", &[], &[("en", "Bye"), ("cz", "Ahoj"), ("en", "Goodbye")]),
        Err(Error::UnknownLanguage("cz".into()))
    );
}

#[test]
fn add_text_refuses_a_missing_language() {
    let mut tr = Translator::new(&["pt", "en", "it"]);
    assert_eq!(
        tr.add_text("bye", &[], &[("en", "Bye"), ("pt", "Tchau")]),
        Err(Error::MissingLanguage(
            "Not all languages have translations".into()
        ))
    );
    assert_eq!(
        tr.add_text("bye", &[], &[]),
        Err(Error::MissingLanguage(
            "Not all languages have translations".into()
        ))
    );
    assert_eq!(
        tr.add_text("bye", &[], &[("it", "Ciao"), ("en", "Bye"), ("pt", "Tchau")]),
        Ok(())
    );
}

#[test]
fn a_faulty_pair_is_reported_before_a_missing_language() {
    let mut tr = Translator::new(&["pt", "en", "it"]);
    assert_eq!(
        tr.add_text("bye", &[], &[("cz", "Ahoj")]),
        Err(Error::UnknownLanguage("cz".into()))
    );
    assert_eq!(
        tr.add_text("bye", &[], &[("en", "Bye"), ("en", "Bye")]),
        Err(Error::DuplicatedKey("en".into()))
    );
}

// A placeholder declared twice for one message is refused, as a
// duplicated argument; this is checked last, after the key and the
// translations.
#[test]
fn add_text_refuses_a_placeholder_declared_twice() {
    let mut tr = Translator::new(&["pt", "en"]);
    assert_eq!(
        tr.add_text(
            "hello",
            &["NAME", "TITLE", "NAME"],
            &[("en", "Hello, TITLE NAME"), ("pt", "Olá, TITLE NAME")],
        ),
        Err(Error::DuplicatedArgument("NAME".into()))
    );
    assert_eq!(
        tr.add_text("hello", &["A", "B", "B", "A"], &[("cz", "Ahoj")]),
        Err(Error::UnknownLanguage("cz".into()))
    );
    assert_eq!(
        tr.add_text(
            "hello",
            &["A", "B", "B", "A"],
            &[("pt", "Olá"), ("en", "Hello")],
        ),
        Err(Error::DuplicatedArgument("B".into()))
    );
    assert_eq!(
        tr.translate("hello", "en", &[]),
        Err(Error::MissingKey("hello".into()))
    );
}

#[test]
fn the_translations_are_checked_before_the_placeholders() {
    let mut tr = Translator::new(&["pt", "en"]);
    assert_eq!(
        tr.add_text("hello", &["NAME", "NAME"], &[("en", "Hello, NAME")]),
        Err(Error::MissingLanguage(
            "Not all languages have translations".into()
        ))
    );
    assert_eq!(
        tr.add_text(
            "hello",
            &["NAME", "NAME"],
            &[("en", "Hello, NAME"), ("en", "Hi, NAME")],
        ),
        Err(Error::DuplicatedKey("en".into()))
    );
    assert_eq!(
        tr.add_text(
            "hello",
            &["NAME", "NAME"],
            &[("en", "Hello, NAME"), ("pt", "Olá, NAME")],
        ),
        Err(Error::DuplicatedArgument("NAME".into()))
    );
    assert_eq!(
        tr.add_text(
            "hello",
            &["NAME"],
            &[("en", "Hello, NAME"), ("pt", "Olá, NAME")],
        ),
        Ok(())
    );
    assert_eq!(
        tr.add_text("hello", &["NAME", "NAME"], &[("cz", "Ahoj")]),
        Err(Error::DuplicatedKey("hello".into()))
    );
}

#[test]
fn a_refused_message_leaves_the_store_as_it_was() {
    let mut tr = Translator::new(&["pt", "en"]);
    assert!(tr.add_text("bye", &[], &[("en", "Bye")]).is_err());
    assert_eq!(
        tr.translate("bye", "en", &[]),
        Err(Error::MissingKey("bye".into()))
    );
    assert_eq!(
        tr.add_text("bye", &[], &[("en", "Bye"), ("pt", "Tchau")]),
        Ok(())
    );
    assert_eq!(tr.translate("bye", "en", &[]).unwrap(), "Bye");
    assert_eq!(tr.translate("bye", "pt", &[]).unwrap(), "Tchau");
}

#[test]
fn translate_refuses_a_missing_key() {
    let tr = greetings();
    assert_eq!(
        tr.translate("farewell", "pt", &[("NAME", "Julian")]),
        Err(Error::MissingKey("farewell".into()))
    );
}

#[test]
fn translate_refuses_a_binding_given_twice() {
    let tr = greetings();
    assert_eq!(
        tr.translate("greetings", "pt", &[("NAME", "Julian"), ("NAME", "Kyle")]),
        Err(Error::DuplicatedArgument("NAME".into()))
    );
}

#[test]
fn translate_checks_key_then_language_then_bindings() {
    let tr = greetings();
    assert_eq!(
        tr.translate("farewell", "cz", &[("NOME", "Julian")]),
        Err(Error::MissingKey("farewell".into()))
    );
    assert_eq!(
        tr.translate("greetings", "cz", &[("NOME", "Julian")]),
        Err(Error::UnknownLanguage("cz".into()))
    );
    assert_eq!(
        tr.translate(
            "greetings",
            "pt",
            &[("NAME", "Julian"), ("NAME", "Kyle"), ("NOME", "Ann")],
        ),
        Err(Error::DuplicatedArgument("NAME".into()))
    );
    assert_eq!(
        tr.translate(
            "greetings",
            "pt",
            &[("NAME", "Julian"), ("NOME", "Ann"), ("NAME", "Kyle")],
        ),
        Err(Error::UnknownArgument("NOME".into()))
    );
}

#[test]
fn translate_without_bindings_returns_the_template() {
    let tr = greetings();
    assert_eq!(
        tr.translate("greetings", "pt", &[]).unwrap(),
        "Bom dia, NAME!"
    );
    assert_eq!(
        tr.translate("greetings", "it", &[]).unwrap(),
        "Buongiorno, NAME!"
    );
}

#[test]
fn a_declared_placeholder_may_be_absent_from_a_template() {
    let mut tr = Translator::new(&["en", "pt"]);
    tr.add_text(
        "count",
        &["N", "UNIT"],
        &[("en", "N UNIT left"), ("pt", "Restam N")],
    )
    .unwrap();
    assert_eq!(
        tr.translate("count", "pt", &[("N", "3"), ("UNIT", "days")]).unwrap(),
        "Restam 3"
    );
    assert_eq!(
        tr.translate("count", "en", &[("UNIT", "days")]).unwrap(),
        "N days left"
    );
}

#[test]
fn each_language_gets_its_own_template_whatever_the_order_of_the_pairs() {
    let mut tr = Translator::new(&["it", "pt", "en"]);
    tr.add_text("a", &[], &[("pt", "um"), ("it", "uno"), ("en", "one")])
        .unwrap();
    tr.add_text("b", &[], &[("en", "two"), ("pt", "dois"), ("it", "due")])
        .unwrap();
    assert_eq!(tr.translate("a", "en", &[]).unwrap(), "one");
    assert_eq!(tr.translate("a", "it", &[]).unwrap(), "uno");
    assert_eq!(tr.translate("a", "pt", &[]).unwrap(), "um");
    assert_eq!(tr.translate("b", "en", &[]).unwrap(), "two");
    assert_eq!(tr.translate("b", "it", &[]).unwrap(), "due");
    assert_eq!(tr.translate("b", "pt", &[]).unwrap(), "dois");
}

#[test]
fn long_texts_are_kept_whole() {
    let long = "This template is much longer than what fits inline: NAME, welcome back to NAME!";
    let mut tr = Translator::new(&["a-language-with-quite-a-long-identifier"]);
    tr.add_text(
        "a-key-that-is-rather-long-as-well",
        &["NAME"],
        &[("a-language-with-quite-a-long-identifier", long)],
    )
    .unwrap();
    assert_eq!(
        tr.translate(
            "a-key-that-is-rather-long-as-well",
            "a-language-with-quite-a-long-identifier",
            &[("NAME", "a-rather-long-replacement-value-of-many-bytes")],
        )
        .unwrap(),
        "This template is much longer than what fits inline: \
         a-rather-long-replacement-value-of-many-bytes, welcome back to \
         a-rather-long-replacement-value-of-many-bytes!"
    );
    assert_eq!(
        tr.translate("a-key-that-is-rather-long-as-well", "a-language", &[]),
        Err(Error::UnknownLanguage("a-language".into()))
    );
}

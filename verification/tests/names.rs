use bird_barrier::{name_can_be_tidied, provider_name};

/// The name as the string functions of the standard library tidy it.
fn tidied_by_std(full_name: &str) -> String {
    let full_name = if full_name.starts_with('<') && full_name.ends_with('>') {
        &full_name[1..full_name.len() - 2]
    } else {
        full_name
    };
    let full_name = full_name.trim_start_matches("setup_tracking::");
    if full_name.contains("setup_tracking::") {
        full_name.replace("setup_tracking::", "")
    } else {
        full_name.to_owned()
    }
}

#[test]
fn a_plain_name_stays_as_it_is() {
    assert_eq!(provider_name("my_game::load_assets"), "my_game::load_assets");
    assert_eq!(provider_name(""), "");
    assert_eq!(provider_name("<"), "<");
    assert_eq!(provider_name(">"), ">");
    assert_eq!(provider_name("<open"), "<open");
    assert_eq!(provider_name("closed>"), "closed>");
}

#[test]
fn the_module_path_is_dropped_wherever_it_stands() {
    assert_eq!(provider_name("setup_tracking::advance"), "advance");
    assert_eq!(provider_name("setup_tracking::setup_tracking::advance"), "advance");
    assert_eq!(
        provider_name("game::wrap<setup_tracking::Provider, setup_tracking::Key>"),
        "game::wrap<Provider, Key>"
    );
    assert_eq!(provider_name("setup_tracking::"), "");
    assert_eq!(provider_name("setup_tracking:"), "setup_tracking:");
    // what is left is not read again
    assert_eq!(
        provider_name("setup_setup_tracking::tracking::x"),
        "setup_tracking::x"
    );
}

#[test]
fn a_bracketed_name_loses_its_first_character_and_its_last_two() {
    assert_eq!(provider_name("<game::System>"), "game::Syste");
    assert_eq!(provider_name("<a>"), "");
    assert_eq!(provider_name("<ab>"), "a");
    assert_eq!(provider_name("<setup_tracking::closure#0}>"), "closure#0");
    assert_eq!(provider_name("<é a>"), "é ");
}

#[test]
fn names_that_cannot_be_cut_are_told() {
    assert!(name_can_be_tidied("plain"));
    assert!(name_can_be_tidied(""));
    assert!(name_can_be_tidied("<a>"));
    assert!(name_can_be_tidied("<é a>"));
    // nothing between the brackets
    assert!(!name_can_be_tidied("<>"));
    // the cut would fall into a character of several bytes
    assert!(!name_can_be_tidied("<aé>"));
    assert!(!name_can_be_tidied("<é>"));
}

#[test]
fn tidying_agrees_with_the_string_functions_of_std() {
    let names = [
        "",
        "a",
        "game::system",
        "setup_tracking::x",
        "setup_tracking::setup_tracking::x::setup_tracking::y",
        "xsetup_tracking::y",
        "setup_trackingsetup_tracking::::",
        "<game::System as Trait>",
        "<setup_tracking::A as setup_tracking::B>",
        "<<setup_tracking::x>>",
        "<a>",
        "<ab>",
        "<é a>",
        "été::setup_tracking::ö",
        "setup_tracking:setup_tracking::",
        "ssetup_tracking::etup_tracking::",
    ];
    for name in names {
        assert!(name_can_be_tidied(name), "{name}");
        assert_eq!(provider_name(name), tidied_by_std(name), "{name}");
    }
}

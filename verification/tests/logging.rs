use servicecache::directives::stop;
use servicecache::logging::{
    checked, choose_directives, directives, directives_for, init, Logging,
};
use tracing_subscriber::EnvFilter;

#[test]
fn levels_are_valid_directives() {
    for verbosity in 0..=5 {
        let directives = directives_for(verbosity);
        EnvFilter::try_new(&directives).unwrap_or_else(|error| panic!("{directives}: {error}"));
    }
    assert!(directives_for(2).contains("servicecache=debug"));
    assert!(directives_for(3).contains("wasmer_vm::trap::suspend=trace"));
    assert_eq!(directives_for(9), "trace");
}

#[test]
fn the_flag_goes_before_the_level_and_the_environment() {
    assert_eq!(choose_directives(2, Some("off"), Some("error")), "off");
    assert_eq!(choose_directives(1, None, Some("error")), "warn,servicecache=info");
    assert_eq!(choose_directives(0, None, Some("error")), "error");
    assert_eq!(choose_directives(0, None, None), "warn");
}

#[test]
fn directives_are_known_once_set() {
    let mut logging = Logging::new();
    assert_eq!(directives(&logging), None);
    logging.set("info".to_string());
    assert_eq!(directives(&logging), Some("info"));
}

#[test]
fn the_first_filter_stays() {
    let mut logging = Logging::new();
    assert!(init(&mut logging, 0, Some("servicecache=\"loud\""), None).is_err());
    assert_eq!(directives(&logging), None);
    assert_eq!(init(&mut logging, 0, None, Some("info")), Ok("info".to_string()));
    assert_eq!(init(&mut logging, 4, None, None), Ok("trace".to_string()));
    assert_eq!(directives(&logging), Some("info"));
}

/// What `init` makes of directives on a fresh start.
fn init_with(directives: &str) -> Result<String, String> {
    init(&mut Logging::new(), 0, Some(directives), None)
}

/// Where directives are to end, if a cut falls inside a character.
fn stop_of(directives: &str) -> Option<usize> {
    stop(&directives.chars().collect::<Vec<char>>())
}

#[test]
fn directives_that_would_be_cut_inside_a_character_are_refused() {
    for (cut, at) in [
        ("\u{a0}a=info", 2),
        (" \u{e9}=info", 2),
        ("  \u{e9}=info", 3),
        ("warn, \u{e9}=info", 7),
        ("  \u{e9}[x]", 3),
        ("\u{3000}[x]", 0),
        ("warn,\u{3000}[x]", 5),
        (" [{\u{e9}}]", 0),
    ] {
        assert_eq!(stop_of(cut), Some(at), "{cut:?}");
        let mut logging = Logging::new();
        assert_eq!(
            init(&mut logging, 0, Some(cut), None),
            Err(format!(
                "bad log directives {cut:?}: white space before a directive that is not ASCII"
            ))
        );
        assert_eq!(directives(&logging), None);
    }
}

#[test]
fn directives_that_are_cut_between_characters_go_to_the_parser() {
    for sound in [
        "",
        ",",
        " warn, info",
        "\u{e9}=info",
        "\u{e9} =info,warn",
        "warn ,a=info",
        " \u{e9}",
        " a[\u{e9}",
        "warn, a=\u{e9}",
        "    \u{e9}[x]",
        " [\u{e9}=]",
        "   \u{e9}=info",
        "[span{field=1}]=debug",
        "\u{3000}x",
    ] {
        assert_eq!(stop_of(sound), None, "{sound:?}");
        let expected = EnvFilter::try_new(sound)
            .map(|_| sound.to_string())
            .map_err(|error| format!("bad log directives {sound:?}: {error}"));
        assert_eq!(init_with(sound), expected);
    }
    assert_eq!(init_with("    \u{e9}[x]"), Ok("    \u{e9}[x]".to_string()));
}

#[test]
fn directives_refused_before_a_cut_are_refused_as_the_parser_does() {
    for refused in [
        // A piece before the cut, the first character of the piece, and a
        // field whose pattern is none.
        "?, \u{e9}=info",
        " \u{20ac}=info",
        "    [a=([{\u{e9}}]=a",
    ] {
        assert!(stop_of(refused).is_some(), "{refused:?}");
        let error = EnvFilter::try_new(refused).expect_err("no filter");
        assert_eq!(
            init_with(refused),
            Err(format!("bad log directives {refused:?}: {error}"))
        );
    }
}

#[test]
fn bad_directives_are_refused() {
    let mut logging = Logging::new();
    assert_eq!(init(&mut logging, 1, None, None), Ok("warn,servicecache=info".to_string()));
    assert_eq!(init(&mut logging, 0, None, Some("info")), Ok("info".to_string()));
    let error =
        init(&mut logging, 0, Some("servicecache=\"loud\""), None).expect_err("no level");
    assert!(
        error.starts_with("bad log directives \"servicecache=\\\"loud\\\"\": "),
        "{error}"
    );
    assert_eq!(checked("x".to_string(), None), Ok("x".to_string()));
    assert_eq!(
        checked("x".to_string(), Some("why".to_string())),
        Err("bad log directives \"x\": why".to_string())
    );
}

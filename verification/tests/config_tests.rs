use iron_mockside::directive::ParseError;
use iron_mockside::model::DEFAULT_PROFILE;
use iron_mockside::parser;
use iron_mockside::validate;

#[test]
fn process_config_file() {
    let config_file = r##"
            # comment
            POST /path
            headers;body

            GET /path
            headers
            "##;

    let config = parser::process_config_file(config_file).unwrap().rules;
    assert_eq!(2, config.len());
    assert_eq!(DEFAULT_PROFILE, config[0].profile);
}

#[test]
fn process_config_file_with_time() {
    let config_file = r##"
        POST /path1
        `after 1000;headers;body

        POST /path2
        `delay 2000;headers;body
        "##;

    let config = parser::process_config_file(config_file).unwrap().rules;
    assert_eq!(2, config.len());
    assert_eq!(Some(1000), config.first().unwrap().time);
    assert_eq!(Some(2000), config.last().unwrap().delay);
}

#[test]
fn process_bad_config_file() {
    let config_file = r##"
        POST /path
        `delay; headers
        "##;

    let config = parser::process_config_file(config_file);
    assert!(config.is_err());
}

#[test]
fn process_bad_config_file2() {
    let config_file = r##"
        POST /path
        `1000; headers
        "##;

    let config = parser::process_config_file(config_file);
    assert!(config.is_err());
}

#[test]
fn process_config_with_profile_name() {
    let config_file = r##"
        POST /path1
        `[my profile] after 1000;headers;body

        GET /path
        `[second profile];headers;body

        "##;

    let config = parser::process_config_file(config_file).unwrap().rules;
    assert_eq!(2, config.len());
    assert_eq!(Some(1000), config.first().unwrap().time);
    assert_eq!(1, config.first().unwrap().profile);
    assert_eq!(2, config.last().unwrap().profile);
}

#[test]
fn process_bad_config_file_with_unreferenced_profile() {
    let config_file = r##"
        POST /path
        `[profile1]; headers
        "##;

    let config = parser::process_config_file(config_file).unwrap().rules;
    assert!(!validate::verify_all_profiles_are_referenced(&config));
}

#[test]
fn process_config_file_with_unreferenced_default_profile() {
    let config_file = r##"
        GET /default
        headers;default.html
        
        POST /path
        `[profile1]; headers

        /switch
        `profile [profile1]; headers; ok.html
        "##;

    let config = parser::process_config_file(config_file).unwrap().rules;
    assert!(validate::verify_all_profiles_are_referenced(&config));
}

#[test]
fn bad_directive_reports_the_line_of_its_group() {
    let config_file = "GET /a\nA.http\n\n# note\nPOST /path\n`delay; headers\n";
    let error = parser::process_config_file(config_file).unwrap_err();
    assert_eq!(ParseError::Instructions { line_number: 5 }, error);
}

use gl_client::utils::{scheduler_uri_from, DEFAULT_SCHEDULER_URI};

#[test]
fn scheduler_is_the_public_one_where_nothing_is_set() {
    assert_eq!(DEFAULT_SCHEDULER_URI, "https://scheduler.gl.blckstrm.com:2601");
    assert_eq!(scheduler_uri_from(None, None), DEFAULT_SCHEDULER_URI);
    assert_eq!(
        scheduler_uri_from(None, Some("https://ignored".to_string())),
        DEFAULT_SCHEDULER_URI
    );
}

#[test]
fn scheduler_is_the_variable_where_it_names_no_file() {
    assert_eq!(
        scheduler_uri_from(Some("https://localhost:2601".to_string()), None),
        "https://localhost:2601"
    );
    assert_eq!(scheduler_uri_from(Some(String::new()), None), "");
}

#[test]
fn scheduler_is_the_content_of_the_file_that_the_variable_names() {
    assert_eq!(
        scheduler_uri_from(
            Some("/tmp/scheduler-uri".to_string()),
            Some("https://10.0.0.1:2601\n".to_string())
        ),
        "https://10.0.0.1:2601\n"
    );
}

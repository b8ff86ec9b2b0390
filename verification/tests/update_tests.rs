use evm_deployment_info::update::{
    check_install_permissions, decide_update, get_latest_version, version_from_fields,
    UpdateDecision, UpdateError,
};

#[test]
fn version_is_the_tag_without_its_v() {
    assert_eq!(get_latest_version(true, "{\"tag_name\": \"v0.1.2\", \"id\": 7}"), Ok("0.1.2".to_string()));
    assert_eq!(get_latest_version(true, "{\"tag_name\": \"vv2\"}"), Ok("2".to_string()));
    assert_eq!(get_latest_version(true, "{\"tag_name\": \"1.0v\"}"), Ok("1.0v".to_string()));
}

#[test]
fn failed_request_is_a_status_error() {
    assert_eq!(get_latest_version(false, "{\"tag_name\": \"v1\"}"), Err(UpdateError::Status));
}

#[test]
fn answer_that_is_no_json_is_a_parse_error() {
    assert!(matches!(get_latest_version(true, "<html>"), Err(UpdateError::Parse(_))));
}

#[test]
fn answer_without_tag_is_a_format_error() {
    for body in ["{}", "[]", "{\"tag_name\": 3}", "{\"name\": \"v1\"}"] {
        assert_eq!(get_latest_version(true, body), Err(UpdateError::Format), "{}", body);
    }
}

#[test]
fn update_error_messages() {
    assert_eq!(UpdateError::Status.message(), "Failed to get latest version information");
    assert_eq!(UpdateError::Parse("eof".to_string()).message(), "Failed to parse response: eof");
    assert_eq!(UpdateError::Format.message(), "Invalid version format in response");
}

#[test]
fn version_from_fields_reads_the_tag() {
    let fields = vec![("id".to_string(), None), ("tag_name".to_string(), Some("v3".to_string()))];
    assert_eq!(version_from_fields(&fields), Some("3".to_string()));
    assert_eq!(version_from_fields(&vec![("tag_name".to_string(), None)]), None);
    assert_eq!(version_from_fields(&Vec::new()), None);
}

#[test]
fn permissions() {
    assert!(check_install_permissions(Some(1000), 1000));
    assert!(check_install_permissions(Some(0), 0));
    assert!(check_install_permissions(Some(1000), 0));
    assert!(!check_install_permissions(Some(0), 1000));
    assert!(!check_install_permissions(None, 0));
}

#[test]
fn decisions() {
    assert_eq!(decide_update(false, "0.1.1", "0.1.1", true), UpdateDecision::UpToDate);
    assert_eq!(decide_update(false, "0.1.1", "0.1.0", true), UpdateDecision::Older);
    assert_eq!(decide_update(false, "0.1.1", "0.1.2", false), UpdateDecision::NotPermitted);
    assert_eq!(decide_update(false, "0.1.1", "0.1.2", true), UpdateDecision::Install);
    assert_eq!(decide_update(true, "0.1.1", "0.1.1", true), UpdateDecision::Install);
    assert_eq!(decide_update(true, "0.1.1", "0.1.0", false), UpdateDecision::NotPermitted);
    assert_eq!(decide_update(false, "0.9.0", "0.10.0", true), UpdateDecision::Older);
}

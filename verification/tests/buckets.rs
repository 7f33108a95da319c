use s3_explorer::buckets::{list_buckets, show_buckets, BucketRecord, LocationAnswer};
use s3_explorer::error::{classify_bucket_failure, AwsError, AwsErrorKind, StoreFailure};

fn bucket(name: Option<&str>, created: Option<&str>, location: LocationAnswer) -> BucketRecord {
    BucketRecord {
        name: name.map(|s| s.to_string()),
        created_at: created.map(|s| s.to_string()),
        location,
    }
}

#[test]
fn expired_token_is_told_apart() {
    let failure = StoreFailure::ServiceError { code: Some("ExpiredToken".to_string()) };
    assert_eq!(classify_bucket_failure(&failure).kind(), AwsErrorKind::ExpiredToken);
    let r = list_buckets(&Err(failure));
    assert_eq!(r.err().map(|e| e.name()), Some("ExpiredToken".to_string()));
}

#[test]
fn every_other_failure_is_access_denied() {
    let failures = vec![
        StoreFailure::ConstructionFailure,
        StoreFailure::TimeoutError,
        StoreFailure::DispatchFailure,
        StoreFailure::ResponseError,
        StoreFailure::ServiceError { code: None },
        StoreFailure::ServiceError { code: Some("AccessDenied".to_string()) },
        StoreFailure::ServiceError { code: Some("ExpiredTokenX".to_string()) },
        StoreFailure::ServiceError { code: Some("expiredtoken".to_string()) },
    ];
    for f in failures {
        let r = list_buckets(&Err(f));
        assert_eq!(r.err().map(|e| e.kind()), Some(AwsErrorKind::AccessDenied));
    }
}

#[test]
fn buckets_are_shown_in_the_order_of_the_answer() {
    let records = vec![
        bucket(Some("b"), Some("2024/01/02 00:00:00"), LocationAnswer::Found("eu-west-1".to_string())),
        bucket(None, Some("2024/01/02 00:00:00"), LocationAnswer::Missing),
        bucket(Some("x"), None, LocationAnswer::Failed),
        bucket(Some("a"), Some("2023/05/06 07:08:09"), LocationAnswer::Found("us-east-1".to_string())),
    ];
    let list = list_buckets(&Ok(records)).ok().unwrap();
    assert_eq!(list.len(), 2);
    assert_eq!(list[0].name, "b");
    assert_eq!(list[0].created_at, "2024/01/02 00:00:00");
    assert_eq!(list[0].location, "eu-west-1");
    assert_eq!(list[1].name, "a");
    assert_eq!(list[1].created_at, "2023/05/06 07:08:09");
    assert_eq!(list[1].location, "us-east-1");
}

#[test]
fn missing_location_is_not_found() {
    let records = vec![
        bucket(Some("a"), Some("2023/05/06 07:08:09"), LocationAnswer::Found("us-east-1".to_string())),
        bucket(Some("b"), Some("2024/01/02 00:00:00"), LocationAnswer::Missing),
    ];
    let r = show_buckets(&records);
    assert_eq!(r.err().map(|e| e.kind()), Some(AwsErrorKind::NotFoundObject));
}

#[test]
fn failed_location_request_is_not_found() {
    let records = vec![bucket(Some("b"), Some("2024/01/02 00:00:00"), LocationAnswer::Failed)];
    let r = list_buckets(&Ok(records));
    assert_eq!(r.err().map(|e| e.name()), Some("NotFoundObject".to_string()));
}

#[test]
fn no_buckets_is_an_empty_list() {
    let r = list_buckets(&Ok(vec![]));
    assert_eq!(r.ok().map(|l| l.len()), Some(0));
}

#[test]
fn error_kinds_have_names_and_messages() {
    assert_eq!(AwsErrorKind::AccessDenied.name(), "AccessDenied");
    assert_eq!(AwsErrorKind::ExpiredToken.name(), "ExpiredToken");
    assert_eq!(AwsErrorKind::NotFoundObject.name(), "NotFoundObject");
    assert_eq!(AwsErrorKind::AccessDenied.description(), "Access denied.");
    assert_eq!(AwsErrorKind::ExpiredToken.description(), "The provided token has expired.");
    assert_eq!(AwsErrorKind::NotFoundObject.description(), "Not found object in bucket.");
}

#[test]
fn error_shows_the_name_and_the_message_of_its_kind() {
    let e = AwsError::new(AwsErrorKind::ExpiredToken);
    assert_eq!(e.kind(), AwsErrorKind::ExpiredToken);
    assert_eq!(e.name(), "ExpiredToken");
    assert_eq!(e.message(), "The provided token has expired.");
    let e = AwsError::new(AwsErrorKind::NotFoundObject);
    assert_eq!(e.name(), "NotFoundObject");
    assert_eq!(e.message(), "Not found object in bucket.");
    let e = AwsError::new(AwsErrorKind::AccessDenied);
    assert_eq!(e.name(), "AccessDenied");
    assert_eq!(e.message(), "Access denied.");
}

use mfa_creds::error::Error;
use mfa_creds::exchange::{
    CredentialTriple, ServiceOutcome, build_request, extract_triple, interpret_outcome,
    resolve_region,
};
use mfa_creds::reconcile::{apply_triple, credential_fields, reconcile_store_text};

fn complete_outcome(a: &str, s: &str, t: &str) -> ServiceOutcome {
    ServiceOutcome::Credentials {
        access_key_id: Some(String::from(a)),
        secret_access_key: Some(String::from(s)),
        session_token: Some(String::from(t)),
    }
}

#[test]
fn existing_profile_is_reconciled_in_place() {
    let before = "[default]\naws_access_key_id=OLD\n";
    let outcome = complete_outcome("AKIA_NEW", "secret123", "tokXYZ");
    let after = reconcile_store_text(outcome, before, "default").unwrap();
    assert_eq!(
        after,
        "[default]\naws_access_key_id=AKIA_NEW\naws_secret_access_key=secret123\naws_session_token=tokXYZ\n"
    );
}

#[test]
fn absent_store_creates_exactly_one_section() {
    let outcome = complete_outcome("AKIA", "sec", "tok");
    let after = reconcile_store_text(outcome, "", "myprofile").unwrap();
    assert_eq!(
        after,
        "[myprofile]\naws_access_key_id=AKIA\naws_secret_access_key=sec\naws_session_token=tok\n"
    );
}

#[test]
fn service_rejection_reports_exact_message() {
    let outcome = ServiceOutcome::Rejected { message: Some(String::from("MFA code invalid")) };
    let r = reconcile_store_text(outcome, "[default]\n", "default");
    match r {
        Err(Error::ServiceRejected { message }) => {
            assert_eq!(message, "MFA code invalid");
        }
        _ => panic!("expected a service rejection"),
    }
}

#[test]
fn rejection_without_message_reads_unknown_error() {
    let outcome = ServiceOutcome::Rejected { message: None };
    match interpret_outcome(outcome) {
        Err(Error::ServiceRejected { message }) => assert_eq!(message, "unknown error"),
        _ => panic!("expected a service rejection"),
    }
}

#[test]
fn missing_session_token_never_yields_store_text() {
    let outcome = ServiceOutcome::Credentials {
        access_key_id: Some(String::from("AKIA")),
        secret_access_key: Some(String::from("sec")),
        session_token: None,
    };
    match reconcile_store_text(outcome, "[default]\naws_access_key_id=OLD\n", "default") {
        Err(Error::IncompleteCredentials) => {}
        _ => panic!("expected incomplete credentials"),
    }
}

#[test]
fn transport_failure_carries_detail() {
    let outcome =
        ServiceOutcome::TransportFailed { detail: String::from("connection reset") };
    match interpret_outcome(outcome) {
        Err(Error::TransportError { detail }) => assert_eq!(detail, "connection reset"),
        _ => panic!("expected a transport error"),
    }
}

#[test]
fn extract_triple_is_all_or_nothing() {
    let ok = extract_triple(
        Some(String::from("a")),
        Some(String::from("s")),
        Some(String::from("t")),
    )
    .unwrap();
    assert_eq!(ok.access_key_id, "a");
    assert_eq!(ok.secret_access_key, "s");
    assert_eq!(ok.session_token, "t");
    assert!(extract_triple(None, Some(String::from("s")), Some(String::from("t"))).is_err());
    assert!(extract_triple(Some(String::from("a")), None, Some(String::from("t"))).is_err());
    assert!(extract_triple(Some(String::from("a")), Some(String::from("s")), None).is_err());
}

#[test]
fn region_is_required() {
    assert_eq!(resolve_region(Some(String::from("us-east-1"))).unwrap(), "us-east-1");
    match resolve_region(None) {
        Err(Error::RegionUnresolved) => {}
        _ => panic!("expected an unresolved region"),
    }
}

#[test]
fn request_carries_all_four_fields() {
    let r = build_request("role", "serial", "session", "123456");
    assert_eq!(r.role_identifier, "role");
    assert_eq!(r.mfa_serial, "serial");
    assert_eq!(r.session_name, "session");
    assert_eq!(r.one_time_code, "123456");
}

#[test]
fn credential_fields_are_the_three_standard_keys() {
    let triple = CredentialTriple {
        access_key_id: String::from("a"),
        secret_access_key: String::from("s"),
        session_token: String::from("t"),
    };
    let fields = credential_fields(&triple);
    assert_eq!(fields.len(), 3);
    assert_eq!(fields[0].key, "aws_access_key_id");
    assert_eq!(fields[0].value, "a");
    assert_eq!(fields[1].key, "aws_secret_access_key");
    assert_eq!(fields[1].value, "s");
    assert_eq!(fields[2].key, "aws_session_token");
    assert_eq!(fields[2].value, "t");
}

#[test]
fn apply_triple_keeps_unrelated_sections_and_keys() {
    let before = "[keep]\nx=1\n[default]\nregion=eu-west-1\naws_access_key_id=OLD\n[tail]\ny=2\n";
    let triple = CredentialTriple {
        access_key_id: String::from("NEW"),
        secret_access_key: String::from("sec"),
        session_token: String::from("tok"),
    };
    let after = apply_triple(before, "default", &triple).unwrap();
    assert_eq!(
        after,
        "[keep]\nx=1\n[default]\nregion=eu-west-1\naws_access_key_id=NEW\naws_secret_access_key=sec\naws_session_token=tok\n[tail]\ny=2\n"
    );
}

#[test]
fn apply_triple_twice_is_once() {
    let before = "[p]\naws_access_key_id=OLD\nother=keep\n";
    let triple = CredentialTriple {
        access_key_id: String::from("NEW"),
        secret_access_key: String::from("sec"),
        session_token: String::from("tok"),
    };
    let once = apply_triple(before, "p", &triple).unwrap();
    let twice = apply_triple(&once, "p", &triple).unwrap();
    assert_eq!(twice, once);
}

#[test]
fn reconcile_overwrites_spaced_key_in_place() {
    let before = "; credentials for the default role\n[default]\naws_access_key_id = OLD\nregion = eu-west-1\n";
    let outcome = complete_outcome("AKIA_NEW", "secret123", "tokXYZ");
    let after = reconcile_store_text(outcome, before, "default").unwrap();
    assert_eq!(
        after,
        "[default]\naws_access_key_id=AKIA_NEW\nregion=eu-west-1\naws_secret_access_key=secret123\naws_session_token=tokXYZ\n"
    );
}

#[test]
fn apply_triple_rejects_value_with_line_break() {
    let triple = CredentialTriple {
        access_key_id: String::from("AKIA"),
        secret_access_key: String::from("se\ncret"),
        session_token: String::from("tok"),
    };
    match apply_triple("[p]\n", "p", &triple) {
        Err(Error::StoreFormatError { .. }) => {}
        _ => panic!("expected a store format error"),
    }
}

#[test]
fn apply_triple_rejects_profile_with_line_break() {
    let triple = CredentialTriple {
        access_key_id: String::from("AKIA"),
        secret_access_key: String::from("sec"),
        session_token: String::from("tok"),
    };
    match apply_triple("[p]\n", "p\nq", &triple) {
        Err(Error::StoreFormatError { .. }) => {}
        _ => panic!("expected a store format error"),
    }
}

#[test]
fn apply_triple_rejects_malformed_store() {
    let triple = CredentialTriple {
        access_key_id: String::from("a"),
        secret_access_key: String::from("s"),
        session_token: String::from("t"),
    };
    match apply_triple("garbage line\n", "p", &triple) {
        Err(Error::StoreFormatError { .. }) => {}
        _ => panic!("expected a store format error"),
    }
}

#[test]
fn persisted_text_reads_back_unchanged() {
    let outcome = complete_outcome("AKIA", "sec", "tok");
    let after =
        reconcile_store_text(outcome, "[a]\nx=1\n[p]\nk=2\n", "p").unwrap();
    let reread = mfa_creds::codec::parse_store(&after).unwrap();
    assert_eq!(mfa_creds::codec::serialize_store(&reread), after);
    assert_eq!(reread.sections[0].name, "a");
    assert_eq!(reread.sections[0].entries[0].value, "1");
    assert_eq!(reread.sections[1].entries[0].value, "2");
}

#[test]
fn error_messages_name_their_stage() {
    assert_eq!(Error::RegionUnresolved.stage_label(), "region resolution");
    assert_eq!(Error::IncompleteCredentials.stage_label(), "exchange");
    assert_eq!(
        Error::StoreIoError { detail: String::from("denied") }.stage_label(),
        "credential store"
    );
    assert_eq!(Error::IncompleteCredentials.message(), "could not extract credentials");
    assert_eq!(Error::RegionUnresolved.message(), "no default region could be resolved");
    assert_eq!(Error::StoreIoError { detail: String::from("denied") }.message(), "denied");
}

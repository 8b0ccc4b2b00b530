use chatstore::api::{APIClient, CredField, ImportError};

fn pairs(entries: &[(&str, &str)]) -> Vec<(String, String)> {
    entries
        .iter()
        .map(|(k, v)| (k.to_string(), v.to_string()))
        .collect()
}

#[test]
fn store_exports_three_fields() {
    let c = APIClient::new(
        "https://api.example".to_string(),
        "SECRET-REDACTED".to_string(),
        vec!["m1".to_string(), "m2".to_string()],
    );
    let kv = c.store();
    assert_eq!(
        kv,
        pairs(&[
            ("endpoint", "https://api.example"),
            ("api_key", "SECRET-REDACTED"),
            ("models", "m1,m2"),
        ])
    );
}

#[test]
fn store_joins_empty_model_list_as_empty_text() {
    let c = APIClient::new("e".to_string(), "k".to_string(), vec![]);
    let kv = c.store();
    assert_eq!(kv[2], ("models".to_string(), "".to_string()));
}

#[test]
fn import_empty_mapping_misses_endpoint() {
    let r = APIClient::import(&pairs(&[]));
    assert_eq!(r.unwrap_err(), ImportError::MissingField(CredField::Endpoint));
}

#[test]
fn import_without_api_key_misses_api_key() {
    let r = APIClient::import(&pairs(&[("endpoint", "e")]));
    assert_eq!(r.unwrap_err(), ImportError::MissingField(CredField::ApiKey));
}

#[test]
fn import_without_models_yields_empty_list() {
    let r = APIClient::import(&pairs(&[("endpoint", "e"), ("api_key", "k")])).unwrap();
    assert_eq!(r.endpoint, "e");
    assert_eq!(r.api_key, "k");
    assert_eq!(r.models, Vec::<String>::new());
}

#[test]
fn import_splits_models_on_comma() {
    let r = APIClient::import(&pairs(&[
        ("endpoint", "e"),
        ("api_key", "k"),
        ("models", "m1,m2"),
    ]))
    .unwrap();
    assert_eq!(r.models, vec!["m1".to_string(), "m2".to_string()]);
}

#[test]
fn import_does_not_trim_or_dedup() {
    let r = APIClient::import(&pairs(&[
        ("endpoint", "e"),
        ("api_key", "k"),
        ("models", " a , a ,"),
    ]))
    .unwrap();
    assert_eq!(
        r.models,
        vec![" a ".to_string(), " a ".to_string(), "".to_string()]
    );
}

#[test]
fn export_import_round_trip() {
    let c = APIClient::new(
        "https://api.example".to_string(),
        "SECRET-REDACTED".to_string(),
        vec!["alpha".to_string(), "beta".to_string(), "gamma".to_string()],
    );
    let back = APIClient::import(&c.store()).unwrap();
    assert_eq!(back, c);
}

#[test]
fn import_takes_first_occurrence_of_a_key() {
    let r = APIClient::import(&pairs(&[
        ("endpoint", "first"),
        ("endpoint", "second"),
        ("api_key", "k"),
    ]))
    .unwrap();
    assert_eq!(r.endpoint, "first");
}

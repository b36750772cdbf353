use ratchet::client::{ApiBuilder, RepoType};

#[test]
fn endpoints_per_repo_type() {
    assert_eq!(
        ApiBuilder::endpoint("org/model", RepoType::Model),
        "https://huggingface.co/org/model/resolve/main"
    );
    assert_eq!(
        ApiBuilder::endpoint("org/data", RepoType::Dataset),
        "https://huggingface.co/datasets/org/data/resolve/main"
    );
    assert_eq!(
        ApiBuilder::endpoint("org/demo", RepoType::Space),
        "https://huggingface.co/spaces/org/demo/resolve/main"
    );
}

#[test]
fn builder_carries_endpoint_and_caching() {
    let api = ApiBuilder::from_hf("jantxu/ratchet-test", RepoType::Model).build();
    assert_eq!(api.endpoint(), "https://huggingface.co/jantxu/ratchet-test/resolve/main");
    assert!(api.is_cached());
    assert_eq!(
        api.file_url("model.safetensors"),
        "https://huggingface.co/jantxu/ratchet-test/resolve/main/model.safetensors"
    );
    assert!(!api.must_fetch(true));
    assert!(api.must_fetch(false));
    let uncached = ApiBuilder::from_custom("http://localhost:8000".to_string()).uncached().build();
    assert_eq!(uncached.endpoint(), "http://localhost:8000");
    assert!(!uncached.is_cached());
    assert!(uncached.must_fetch(true));
}

#[test]
fn revision_endpoint() {
    let api = ApiBuilder::from_hf_with_revision("a/b".to_string(), "v2".to_string()).build();
    assert_eq!(api.endpoint(), "https://huggingface.co/a/b/resolve/v2");
}

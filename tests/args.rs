use reco_forge::Args;

fn args(model_id: Option<&str>, revision: Option<&str>, use_pth: bool) -> Args {
    Args {
        cpu: true,
        tracing: false,
        model_id: model_id.map(|s| s.to_string()),
        revision: revision.map(|s| s.to_string()),
        prompt: None,
        use_pth,
        n: 1,
        normalize_embeddings: true,
        approximate_gelu: true,
    }
}

#[test]
fn default_model_and_revision() {
    let (m, r) = args(None, None, false).model_and_revision();
    assert_eq!(m, "sentence-transformers/all-MiniLM-L6-v2");
    assert_eq!(r, "refs/pr/21");
}

#[test]
fn given_model_defaults_to_main() {
    let (m, r) = args(Some("org/model"), None, false).model_and_revision();
    assert_eq!((m.as_str(), r.as_str()), ("org/model", "main"));
    let (m, r) = args(None, Some("v2"), false).model_and_revision();
    assert_eq!((m.as_str(), r.as_str()), ("sentence-transformers/all-MiniLM-L6-v2", "v2"));
}

#[test]
fn weights_file_follows_format() {
    assert_eq!(args(None, None, true).weights_file(), "pytorch_model.bin");
    assert_eq!(args(None, None, false).weights_file(), "model.safetensors");
}

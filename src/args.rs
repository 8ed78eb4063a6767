use vstd::prelude::*;
use vstd::string::StringExecFns;

verus! {

/// How the embedding model is chosen and run.
pub struct Args {
    /// Run on the CPU rather than on a GPU.
    pub cpu: bool,
    /// Record a trace of the run.
    pub tracing: bool,
    /// The model repository to load; a sentence-transformers model if absent.
    pub model_id: Option<String>,
    /// The revision of the model repository.
    pub revision: Option<String>,
    /// A prompt to embed.
    pub prompt: Option<String>,
    /// Load the PyTorch weights rather than the safetensors ones.
    pub use_pth: bool,
    /// How many times to run the prompt.
    pub n: usize,
    /// Scale embeddings to unit length.
    pub normalize_embeddings: bool,
    /// Use the tanh approximation of GELU.
    pub approximate_gelu: bool,
}

impl Args {
    /// The model repository and revision to load: the ones given; a given
    /// model without a revision takes `main`; without a model, the default
    /// model at its own default revision, unless a revision is given.
    pub fn model_and_revision(&self) -> (r: (String, String))
        ensures
            r.0@ == match self.model_id {
                Some(m) => m@,
                None => "sentence-transformers/all-MiniLM-L6-v2"@,
            },
            r.1@ == match (self.model_id, self.revision) {
                (_, Some(v)) => v@,
                (Some(_), None) => "main"@,
                (None, None) => "refs/pr/21"@,
            },
    {
        let model = match &self.model_id {
            Some(m) => m.clone(),
            None => String::from_str("sentence-transformers/all-MiniLM-L6-v2"),
        };
        let revision = match (&self.model_id, &self.revision) {
            (_, Some(v)) => v.clone(),
            (Some(_), None) => String::from_str("main"),
            (None, None) => String::from_str("refs/pr/21"),
        };
        (model, revision)
    }

    /// The weights file to fetch from the repository.
    pub fn weights_file(&self) -> (r: &'static str)
        ensures
            r@ == if self.use_pth {
                "pytorch_model.bin"@
            } else {
                "model.safetensors"@
            },
    {
        if self.use_pth {
            "pytorch_model.bin"
        } else {
            "model.safetensors"
        }
    }
}

} // verus!

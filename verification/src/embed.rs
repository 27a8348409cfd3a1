//! The seam to embedding models.
pub mod cache;
pub mod e5;
pub mod fake;
use vstd::prelude::*;
pub use crate::score::Vector;
use crate::config::Config;
use crate::text::{join3, same_text};

verus! {

/// What turns texts into vectors.
pub trait Embedder {
    /// The name of the model. Vectors of different models do not compare.
    fn model_id(&self) -> String;

    /// The vectors of texts that are stored.
    fn embed_passages(&self, texts: &Vec<String>) -> Result<Vec<Vector>, EmbedError>;

    /// The vector of a text that is searched for.
    fn embed_query(&self, text: &str) -> Result<Vector, EmbedError>;
}

/// Why a text was not embedded.
#[derive(Debug)]
pub struct EmbedError(pub String);

impl View for EmbedError {
    type V = Seq<char>;

    open spec fn view(&self) -> Seq<char> {
        self.0@
    }
}

impl EmbedError {
    /// The message.
    pub fn message(&self) -> (r: &str)
        ensures
            r@ == self@,
    {
        self.0.as_str()
    }
}

/// An embedder that gives every text the empty vector, which resembles nothing.
pub struct NullEmbedder;

impl Embedder for NullEmbedder {
    fn model_id(&self) -> (r: String)
        ensures
            r@ == "null"@,
    {
        "null".to_string()
    }

    fn embed_passages(&self, texts: &Vec<String>) -> (r: Result<Vec<Vector>, EmbedError>)
        ensures
            r is Ok,
            r->Ok_0.len() == texts.len(),
            forall|i: int| 0 <= i < texts.len() ==> (#[trigger] r->Ok_0@[i]).len() == 0,
    {
        let mut out: Vec<Vector> = Vec::new();
        for i in 0..texts.len()
            invariant
                out.len() == i,
                forall|j: int| 0 <= j < i ==> (#[trigger] out@[j]).len() == 0,
        {
            out.push(Vec::new());
        }
        Ok(out)
    }

    fn embed_query(&self, text: &str) -> (r: Result<Vector, EmbedError>)
        ensures
            r is Ok,
            r->Ok_0.len() == 0,
    {
        Ok(Vec::new())
    }
}

/// An embedder that a configuration names.
#[derive(Debug, PartialEq)]
pub enum Choice {
    /// The one that counts words.
    Bucket,
    /// The one with given vectors.
    Pinned,
    /// A model with this name.
    Model(String),
}

/// What a [`Choice`] stands for.
pub enum ChoiceView {
    Bucket,
    Pinned,
    Model(Seq<char>),
}

impl View for Choice {
    type V = ChoiceView;

    open spec fn view(&self) -> ChoiceView {
        match self {
            Choice::Bucket => ChoiceView::Bucket,
            Choice::Pinned => ChoiceView::Pinned,
            Choice::Model(m) => ChoiceView::Model(m@),
        }
    }
}

/// Why a model cannot be used where no models can be run.
pub open spec fn unknown_model(model: Seq<char>) -> Seq<char> {
    "unknown model '"@ + model + "' (onnx feature not enabled)"@
}

fn refuse_model(model: &str) -> (r: EmbedError)
    ensures
        r@ == unknown_model(model@),
{
    EmbedError(join3("unknown model '", model, "' (onnx feature not enabled)"))
}

/// The embedder that a configuration names. `onnx` says whether models can be
/// run; without, only the embedders that need no model can be named.
pub fn default_embedder(cfg: &Config, onnx: bool) -> (r: Result<Choice, EmbedError>)
    ensures
        match r {
            Ok(choice) => choice@ == (if cfg@.model == "fake-bucket"@ {
                ChoiceView::Bucket
            } else if cfg@.model == "fake-pinned"@ {
                ChoiceView::Pinned
            } else {
                ChoiceView::Model(cfg@.model)
            }),
            Err(e) => e@ == unknown_model(cfg@.model),
        },
        r is Ok <==> onnx || cfg@.model == "fake-bucket"@ || cfg@.model == "fake-pinned"@,
{
    let model = cfg.embedding.model.as_str();
    if same_text(model, "fake-bucket") {
        Ok(Choice::Bucket)
    } else if same_text(model, "fake-pinned") {
        Ok(Choice::Pinned)
    } else if onnx {
        Ok(Choice::Model(model.to_string()))
    } else {
        Err(refuse_model(model))
    }
}

/// The model whose files have to be present before the configured embedder can
/// be used; none for the embedders that need no model.
pub fn prefetch_model(cfg: &Config, onnx: bool) -> (r: Result<Option<String>, EmbedError>)
    ensures
        match r {
            Ok(None) => cfg@.model == "fake-bucket"@ || cfg@.model == "fake-pinned"@,
            Ok(Some(model)) => model@ == cfg@.model && onnx && cfg@.model != "fake-bucket"@
                && cfg@.model != "fake-pinned"@,
            Err(e) => e@ == unknown_model(cfg@.model) && !onnx && cfg@.model != "fake-bucket"@
                && cfg@.model != "fake-pinned"@,
        },
{
    let model = cfg.embedding.model.as_str();
    if same_text(model, "fake-bucket") || same_text(model, "fake-pinned") {
        Ok(None)
    } else if onnx {
        Ok(Some(model.to_string()))
    } else {
        Err(refuse_model(model))
    }
}

/// A model that cannot be run is named in the message.
pub proof fn law_unknown_models_are_named(model: Seq<char>)
    ensures
        unknown_model(model) == "unknown model '"@ + model + "' (onnx feature not enabled)"@,
{
}

} // verus!

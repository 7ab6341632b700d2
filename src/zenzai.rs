//! Configuration of the optional neural conversion backend, and the prompt
//! format of the zenz-v3 model it runs.

use vstd::prelude::*;
use vstd::string::StringExecFns;
use crate::text::string_from_chars;

verus! {

/// Marks the start of the context in a prompt.
pub const ZENZ_CONTEXT: char = '\u{EE02}';

/// Marks the start of the reading in a prompt.
pub const ZENZ_INPUT_START: char = '\u{EE00}';

/// Marks where the model starts its output.
pub const ZENZ_OUTPUT_START: char = '\u{EE01}';

/// Configuration of the neural backend.
#[derive(Debug, Clone)]
pub struct ZenzaiConfig {
    /// Whether neural conversion is wanted.
    pub enabled: bool,
    /// Path of the GGUF model file.
    pub model_path: Option<String>,
    /// Maximum number of inference iterations.
    pub inference_limit: u32,
    /// Whether the previous text is used as context.
    pub contextual: bool,
}

/// The default maximum number of inference iterations.
pub fn default_inference_limit() -> (r: u32)
    ensures
        r == 10,
{
    10
}

impl Default for ZenzaiConfig {
    fn default() -> (r: ZenzaiConfig)
        ensures
            !r.enabled,
            r.model_path is None,
            r.inference_limit == 10,
            !r.contextual,
    {
        ZenzaiConfig {
            enabled: false,
            model_path: None,
            inference_limit: default_inference_limit(),
            contextual: false,
        }
    }
}

impl ZenzaiConfig {
    /// Whether the neural backend can be used. This library carries no
    /// inference engine, so it never can.
    pub fn is_usable(&self) -> (r: bool)
        ensures
            !r,
    {
        false
    }

    /// The model file to load: the configured path if it exists, else the
    /// first of the default locations that exists. `configured_exists` says
    /// whether the configured path exists; `existing_defaults` lists the
    /// default locations that exist, in order of preference.
    pub fn get_model_path(&self, configured_exists: bool, existing_defaults: &Vec<String>) -> (r: Option<String>)
        ensures
            r matches Some(p) ==> (
                if self.model_path is Some && configured_exists {
                    p@ == self.model_path->0@
                } else {
                    existing_defaults@.len() > 0 && p@ == existing_defaults@[0]@
                }),
            r is None <==> !(self.model_path is Some && configured_exists) && existing_defaults@.len() == 0,
    {
        if let Some(path) = &self.model_path {
            if configured_exists {
                return Some(path.clone());
            }
        }
        if existing_defaults.len() > 0 {
            Some(existing_defaults[0].clone())
        } else {
            None
        }
    }
}

/// The zenz-v3 prompt for a reading: the context (when given and not empty)
/// after its marker, then the reading after the input marker, then the
/// output marker.
pub open spec fn prompt_of(reading: Seq<char>, context: Option<Seq<char>>) -> Seq<char> {
    let head = match context {
        Some(c) => if c.len() > 0 {
            seq![ZENZ_CONTEXT] + c
        } else {
            seq![]
        },
        None => seq![],
    };
    head + seq![ZENZ_INPUT_START] + reading + seq![ZENZ_OUTPUT_START]
}

/// Builds the zenz-v3 prompt for a reading and an optional context.
pub fn build_prompt(reading: &str, context: Option<&str>) -> (r: String)
    ensures
        r@ == prompt_of(
            reading@,
            match context {
                Some(c) => Some(c@),
                None => None,
            },
        ),
{
    let mut prompt = String::new();
    if let Some(ctx) = context {
        if !ctx.is_empty() {
            let marker = vec![ZENZ_CONTEXT];
            prompt = string_from_chars(marker.as_slice());
            prompt.append(ctx);
        }
    }
    let input = vec![ZENZ_INPUT_START];
    prompt.append(string_from_chars(input.as_slice()).as_str());
    prompt.append(reading);
    let output = vec![ZENZ_OUTPUT_START];
    prompt.append(string_from_chars(output.as_slice()).as_str());
    proof {
        let head = match context {
            Some(c) => if c@.len() > 0 {
                seq![ZENZ_CONTEXT] + c@
            } else {
                seq![]
            },
            None => seq![],
        };
        assert(prompt@ =~= head + seq![ZENZ_INPUT_START] + reading@ + seq![ZENZ_OUTPUT_START]);
    }
    prompt
}

/// Errors of the neural backend.
#[derive(Debug, Clone, PartialEq, Eq)]
pub enum ZenzaiError {
    /// No model file was found.
    ModelNotFound,
    /// The backend was not initialized.
    NotInitialized,
    /// Loading the model failed.
    LoadError(String),
    /// Inference failed.
    InferenceError(String),
}

impl ZenzaiError {
    /// A readable description of the error.
    pub fn message(&self) -> (r: String)
        ensures
            r@ == match self {
                ZenzaiError::ModelNotFound => "Zenzai model file not found"@,
                ZenzaiError::NotInitialized => "Zenzai backend not initialized"@,
                ZenzaiError::LoadError(m) => "Failed to load Zenzai model: "@ + m@,
                ZenzaiError::InferenceError(m) => "Zenzai inference failed: "@ + m@,
            },
    {
        match self {
            ZenzaiError::ModelNotFound => String::from_str("Zenzai model file not found"),
            ZenzaiError::NotInitialized => String::from_str("Zenzai backend not initialized"),
            ZenzaiError::LoadError(m) => {
                let mut s = String::from_str("Failed to load Zenzai model: ");
                s.append(m.as_str());
                s
            },
            ZenzaiError::InferenceError(m) => {
                let mut s = String::from_str("Zenzai inference failed: ");
                s.append(m.as_str());
                s
            },
        }
    }
}

} // verus!

//! The weights artifact: the envelope written around a trained model, and the
//! checks made on an envelope before its model is read back.
use vstd::prelude::*;
use crate::error::{CartoBoostError, Result, invalid_input};
use crate::text::{decimal, decimal_text_u64, join3};

verus! {

/// Version of the weights envelope that this library writes and reads.
pub const WEIGHTS_ARTIFACT_VERSION: u32 = 1;

/// Artifact type recorded in every weights envelope.
pub const WEIGHTS_ARTIFACT_TYPE: &'static str = "cartoboost.weights";

/// Backend recorded in every weights envelope written here.
pub const WEIGHTS_BACKEND: &'static str = "rust";

/// A trained model with the envelope fields that identify it as a weights artifact.
pub struct WeightsArtifact<M> {
    pub artifact_type: String,
    pub weights_artifact_version: u32,
    pub model_artifact_version: u32,
    pub backend: String,
    pub model: M,
}

/// Wraps `model`, whose own artifact version is `model_artifact_version`, in the
/// envelope that the weights file holds.
pub fn weights_artifact<M>(model: M, model_artifact_version: u32) -> (artifact: WeightsArtifact<M>)
    ensures
        artifact.artifact_type@ == WEIGHTS_ARTIFACT_TYPE@,
        artifact.weights_artifact_version == WEIGHTS_ARTIFACT_VERSION,
        artifact.model_artifact_version == model_artifact_version,
        artifact.backend@ == WEIGHTS_BACKEND@,
        artifact.model == model,
{
    WeightsArtifact {
        artifact_type: String::from_str(WEIGHTS_ARTIFACT_TYPE),
        weights_artifact_version: WEIGHTS_ARTIFACT_VERSION,
        model_artifact_version,
        backend: String::from_str(WEIGHTS_BACKEND),
        model,
    }
}

/// How a weights file holds its model.
#[derive(Debug, Clone, Copy, PartialEq, Eq, Structural)]
pub enum WeightsLayout {
    /// The file is a bare model, written before the envelope existed.
    BareModel,
    /// The file is an envelope whose `model` field holds the model.
    Envelope,
}

/// What reading a weights file yields, from what its top-level object shows:
/// whether it has an `artifact_version` field and a `trees` field (together the
/// fields of a bare model), its `artifact_type` text if any, and its
/// `weights_artifact_version` number if any.
pub open spec fn weights_header_outcome(
    has_artifact_version: bool,
    has_trees: bool,
    artifact_type: Option<Seq<char>>,
    version: Option<u64>,
) -> core::result::Result<WeightsLayout, Seq<char>> {
    if has_artifact_version && has_trees {
        Ok(WeightsLayout::BareModel)
    } else {
        match artifact_type {
            None => Err("missing weights artifact type"@),
            Some(kind) => if kind != WEIGHTS_ARTIFACT_TYPE@ {
                Err("unsupported weights artifact type "@ + kind)
            } else {
                match version {
                    None => Err("missing weights artifact version"@),
                    Some(number) => if number != WEIGHTS_ARTIFACT_VERSION {
                        Err("unsupported weights artifact version "@ + decimal(number as nat))
                    } else {
                        Ok(WeightsLayout::Envelope)
                    },
                }
            },
        }
    }
}

/// The characters of an optional text.
pub open spec fn text_of(text: Option<&str>) -> Option<Seq<char>> {
    match text {
        Some(t) => Some(t@),
        None => None,
    }
}

/// Decides how a weights file holds its model, or why it cannot be read: a bare
/// model (a file with both `artifact_version` and `trees`) is read as it is;
/// otherwise the envelope must name the weights artifact type and the
/// supported envelope version.
pub fn check_weights_header(
    has_artifact_version: bool,
    has_trees: bool,
    artifact_type: Option<&str>,
    version: Option<u64>,
) -> (r: Result<
    WeightsLayout,
>)
    ensures
        match r {
            Ok(layout) => weights_header_outcome(has_artifact_version, has_trees, text_of(artifact_type), version) == Ok::<
                WeightsLayout,
                Seq<char>,
            >(layout),
            Err(e) => weights_header_outcome(has_artifact_version, has_trees, text_of(artifact_type), version) == Err::<
                WeightsLayout,
                Seq<char>,
            >(e.text()),
        },
{
    if has_artifact_version && has_trees {
        return Ok(WeightsLayout::BareModel);
    }
    let kind = match artifact_type {
        None => {
            return Err(invalid_input("missing weights artifact type"));
        },
        Some(kind) => kind,
    };
    if !crate::text::str_eq(kind, WEIGHTS_ARTIFACT_TYPE) {
        let message = String::from_str("unsupported weights artifact type ").concat(kind);
        return Err(CartoBoostError::InvalidInput(message));
    }
    let number = match version {
        None => {
            return Err(invalid_input("missing weights artifact version"));
        },
        Some(number) => number,
    };
    if number != WEIGHTS_ARTIFACT_VERSION as u64 {
        let digits = decimal_text_u64(number);
        let message = join3("unsupported weights artifact version ", digits.as_str(), "");
        proof {
            reveal_strlit("");
            assert(message@ =~= "unsupported weights artifact version "@ + decimal(number as nat));
        }
        return Err(CartoBoostError::InvalidInput(message));
    }
    Ok(WeightsLayout::Envelope)
}

/// An envelope as `weights_artifact` writes it is read back as an envelope.
pub proof fn lemma_written_envelope_reads_back<M>(artifact: WeightsArtifact<M>)
    requires
        artifact.artifact_type@ == WEIGHTS_ARTIFACT_TYPE@,
        artifact.weights_artifact_version == WEIGHTS_ARTIFACT_VERSION,
    ensures
        weights_header_outcome(
            false,
            false,
            Some(artifact.artifact_type@),
            Some(artifact.weights_artifact_version as u64),
        ) == Ok::<WeightsLayout, Seq<char>>(WeightsLayout::Envelope),
{
}

} // verus!

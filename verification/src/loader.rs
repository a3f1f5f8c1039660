use vstd::prelude::*;
use base64::engine::general_purpose::STANDARD;
use base64::Engine;
use base64::DecodeError;
use crate::error::PipelineError;

verus! {

#[verifier::external_type_specification]
#[verifier::external_body]
pub struct ExDecodeError(DecodeError);

/// Where the pixels of an annotated image come from: image bytes embedded
/// in the annotation, or an image file named relative to the annotation.
pub enum ImageSource {
    Encoded(Vec<u8>),
    File(String),
}

/// The bytes that the standard base64 alphabet, with padding, decodes
/// `text` to; `None` when `text` is not valid base64 of that kind.
pub uninterp spec fn base64_standard_decode(text: Seq<char>) -> Option<Seq<u8>>;

/// Decodes `text` with `base64::engine::general_purpose::STANDARD`
/// (`Engine::decode`). The contract claims only that the outcome is the one
/// `base64_standard_decode` names for `text`: the bytes on success, an
/// error exactly when it names none.
#[verifier::external_body]
fn decode_base64(text: &str) -> (r: Result<Vec<u8>, DecodeError>)
    ensures
        match r {
            Ok(bytes) => base64_standard_decode(text@) == Some(bytes@),
            Err(_) => base64_standard_decode(text@) is None,
        },
{
    STANDARD.decode(text)
}

/// The image source for embedded data, given the outcome of decoding it.
pub fn encoded_image_source(decoded: Result<Vec<u8>, DecodeError>) -> (r: Result<ImageSource, PipelineError>)
    ensures
        match decoded {
            Ok(bytes) => r == Ok::<ImageSource, PipelineError>(ImageSource::Encoded(bytes)),
            Err(_) => r == Err::<ImageSource, PipelineError>(PipelineError::InvalidImageData),
        },
{
    match decoded {
        Ok(bytes) => Ok(ImageSource::Encoded(bytes)),
        Err(_) => Err(PipelineError::InvalidImageData),
    }
}

/// Chooses where the pixels of an annotated image come from. Embedded
/// base64 data wins and must decode; otherwise the image path is used when
/// the annotation file has a directory to resolve it in.
pub fn image_source(image_data: &Option<String>, image_path: &Option<String>, has_parent_dir: bool) -> (r: Result<ImageSource, PipelineError>)
    ensures
        image_data matches Some(data) ==> match base64_standard_decode(data@) {
            Some(bytes) => r matches Ok(ImageSource::Encoded(b)) && b@ == bytes,
            None => r == Err::<ImageSource, PipelineError>(PipelineError::InvalidImageData),
        },
        image_data is None && image_path is Some ==> if has_parent_dir {
            r matches Ok(ImageSource::File(p)) && p@ == image_path->0@
        } else {
            r == Err::<ImageSource, PipelineError>(PipelineError::ImagePathUnresolved)
        },
        image_data is None && image_path is None ==> r == Err::<ImageSource, PipelineError>(PipelineError::NoImageSource),
{
    match image_data {
        Some(data) => encoded_image_source(decode_base64(data.as_str())),
        None => match image_path {
            Some(path) => {
                if has_parent_dir {
                    Ok(ImageSource::File(path.clone()))
                } else {
                    Err(PipelineError::ImagePathUnresolved)
                }
            },
            None => Err(PipelineError::NoImageSource),
        },
    }
}

} // verus!

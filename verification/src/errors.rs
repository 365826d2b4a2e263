//! The error taxonomy shared by every operation of the crate.

use vstd::prelude::*;
use vstd::string::StringExecFns;

verus! {

/// One error kind for each way an operation can fail: conversion of a
/// value to or from the wire format, decoding a record against its
/// schema, a key lookup that matched nothing, and failures surfaced by
/// the store or by one of the peer services.
#[derive(Debug, Clone, PartialEq, Eq)]
pub enum AwwsyError {
    /// An attribute could not be converted: an unparsable number or an
    /// unsupported array shape.
    ConversionError(String),
    /// A record did not match its schema: a missing or mistyped field,
    /// or a top-level value that is not an object.
    SchemaError(String),
    /// A key lookup returned no item.
    NotFound,
    /// A failure reported by the store, carrying its message verbatim.
    ServiceError(String),
    PollyError(String),
    RekognitionError(String),
    S3Error(String),
    SQSError(String),
}

impl AwwsyError {
    /// The human-readable text of this error.
    pub open spec fn spec_message(self) -> Seq<char> {
        match self {
            AwwsyError::ConversionError(m) => "Conversion Error: "@ + m@,
            AwwsyError::SchemaError(m) => "Schema Error: "@ + m@,
            AwwsyError::NotFound => "Not Found"@,
            AwwsyError::ServiceError(m) => "AWS SDK Service Error: "@ + m@,
            AwwsyError::PollyError(m) => "AWS SDK Polly Error: "@ + m@,
            AwwsyError::RekognitionError(m) => "AWS SDK Rekognition Error: "@ + m@,
            AwwsyError::S3Error(m) => "AWS SDK S3 Error: "@ + m@,
            AwwsyError::SQSError(m) => "AWS SDK SQS Error: "@ + m@,
        }
    }

    /// Render the error as text, kind first, then the message verbatim.
    pub fn message(&self) -> (r: String)
        ensures
            r@ == self.spec_message(),
    {
        match self {
            AwwsyError::ConversionError(m) => String::from_str("Conversion Error: ").concat(
                m.as_str(),
            ),
            AwwsyError::SchemaError(m) => String::from_str("Schema Error: ").concat(m.as_str()),
            AwwsyError::NotFound => String::from_str("Not Found"),
            AwwsyError::ServiceError(m) => String::from_str("AWS SDK Service Error: ").concat(
                m.as_str(),
            ),
            AwwsyError::PollyError(m) => String::from_str("AWS SDK Polly Error: ").concat(
                m.as_str(),
            ),
            AwwsyError::RekognitionError(m) => String::from_str(
                "AWS SDK Rekognition Error: ",
            ).concat(m.as_str()),
            AwwsyError::S3Error(m) => String::from_str("AWS SDK S3 Error: ").concat(m.as_str()),
            AwwsyError::SQSError(m) => String::from_str("AWS SDK SQS Error: ").concat(m.as_str()),
        }
    }

    /// Wrap a message from the store itself.
    pub fn service(message: String) -> (r: AwwsyError)
        ensures
            r == AwwsyError::ServiceError(message),
    {
        AwwsyError::ServiceError(message)
    }

    /// Wrap a message from the text-to-speech service.
    pub fn polly(message: String) -> (r: AwwsyError)
        ensures
            r == AwwsyError::PollyError(message),
    {
        AwwsyError::PollyError(message)
    }

    /// Wrap a message from the image-analysis service.
    pub fn rekognition(message: String) -> (r: AwwsyError)
        ensures
            r == AwwsyError::RekognitionError(message),
    {
        AwwsyError::RekognitionError(message)
    }

    /// Wrap a message from the object-storage service.
    pub fn s3(message: String) -> (r: AwwsyError)
        ensures
            r == AwwsyError::S3Error(message),
    {
        AwwsyError::S3Error(message)
    }

    /// Wrap a message from the message-queue service.
    pub fn sqs(message: String) -> (r: AwwsyError)
        ensures
            r == AwwsyError::SQSError(message),
    {
        AwwsyError::SQSError(message)
    }
}

} // verus!

//! Tests of the error taxonomy and the queue message options.

use awwsy::errors::AwwsyError;
use awwsy::sqs::{SqsFifoMessageOptions, SqsMessageOptions};

#[test]
fn constructors_pick_their_variants() {
    assert_eq!(
        AwwsyError::service("boom".to_string()),
        AwwsyError::ServiceError("boom".to_string())
    );
    assert_eq!(
        AwwsyError::polly("p".to_string()),
        AwwsyError::PollyError("p".to_string())
    );
    assert_eq!(
        AwwsyError::rekognition("r".to_string()),
        AwwsyError::RekognitionError("r".to_string())
    );
    assert_eq!(AwwsyError::s3("s".to_string()), AwwsyError::S3Error("s".to_string()));
    assert_eq!(AwwsyError::sqs("q".to_string()), AwwsyError::SQSError("q".to_string()));
}

#[test]
fn messages_carry_kind_and_text() {
    assert_eq!(
        AwwsyError::service("throttled".to_string()).message(),
        "AWS SDK Service Error: throttled"
    );
    assert_eq!(AwwsyError::NotFound.message(), "Not Found");
    assert_eq!(
        AwwsyError::ConversionError("unparsable number".to_string()).message(),
        "Conversion Error: unparsable number"
    );
    assert_eq!(
        AwwsyError::SchemaError("missing".to_string()).message(),
        "Schema Error: missing"
    );
}

#[test]
fn message_options_defaults() {
    let standard = SqsMessageOptions::default();
    assert_eq!(standard.delay_seconds, 0);
    let fifo = SqsFifoMessageOptions::default();
    assert_eq!(fifo.message_group_id.len(), 21);
    assert_eq!(fifo.message_deduplication_id.len(), 21);
}

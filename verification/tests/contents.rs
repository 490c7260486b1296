use form_data::content::{
    count_file_chunk, decode_field, decoded_text, file_content, float_content, gather_chunk,
    gather_field, generated_path, int_content, plan_file_upload, planned_upload,
    required_filename, Decoded,
};
use form_data::error::Error;
use form_data::schema::{FieldTerminator, FilenameGenerator};
use form_data::types::MultipartContent;
use form_data::writer::{CreateFuture, Progress, WriteSink, QUEUE_CAPACITY};

struct Fixed;

impl FilenameGenerator for Fixed {
    fn next_filename(&self, _: &mime::Mime) -> Option<String> {
        Some("uploads/f0.png".to_string())
    }
}

struct Declines;

impl FilenameGenerator for Declines {
    fn next_filename(&self, _: &mime::Mime) -> Option<String> {
        None
    }
}

struct ByType;

impl FilenameGenerator for ByType {
    fn next_filename(&self, mime_type: &mime::Mime) -> Option<String> {
        if *mime_type == mime::IMAGE_PNG {
            Some("png/0".to_string())
        } else {
            None
        }
    }
}

fn content_of(term: &FieldTerminator<'_, Fixed>, bytes: &[u8]) -> Result<MultipartContent, Error> {
    match decode_field(term, bytes.to_vec()) {
        Ok(Decoded::Content(content)) => Ok(content),
        Ok(Decoded::FloatText(text)) => float_content(text.parse::<f64>().ok().map(f64::to_bits)),
        Err(e) => Err(e),
    }
}

#[test]
fn field_of_exactly_the_limit_is_taken() {
    let chunks = vec![b"abc".to_vec(), b"de".to_vec()];
    assert_eq!(gather_field(&chunks, 5), Ok(b"abcde".to_vec()));
    assert_eq!(gather_field(&chunks, 6), Ok(b"abcde".to_vec()));
}

#[test]
fn field_one_byte_over_the_limit_fails() {
    let chunks = vec![b"abc".to_vec(), b"de".to_vec()];
    assert_eq!(gather_field(&chunks, 4), Err(Error::FieldSize));
    assert_eq!(gather_field(&chunks, 0), Err(Error::FieldSize));
    assert_eq!(gather_field(&vec![], 0), Ok(vec![]));
}

#[test]
fn chunks_are_gathered_in_order() {
    let first = gather_chunk(bytes::BytesMut::new(), b"ab", 4).unwrap();
    assert_eq!(&first[..], b"ab");
    let second = gather_chunk(first, b"cd", 4).unwrap();
    assert_eq!(&second[..], b"abcd");
    assert!(matches!(gather_chunk(second, b"e", 4), Err(Error::FieldSize)));
}

#[test]
fn file_of_exactly_the_limit_is_taken() {
    assert_eq!(count_file_chunk(0, 10, 10), Ok(10));
    assert_eq!(count_file_chunk(4, 6, 10), Ok(10));
    assert_eq!(count_file_chunk(4, 5, 10), Ok(9));
}

#[test]
fn file_one_byte_over_the_limit_fails() {
    assert_eq!(count_file_chunk(4, 7, 10), Err(Error::FileSize));
    assert_eq!(count_file_chunk(0, 1, 0), Err(Error::FileSize));
    assert_eq!(count_file_chunk(usize::MAX, 1, usize::MAX), Err(Error::FileSize));
}

#[test]
fn decodes_text_and_integers() {
    assert_eq!(
        content_of(&FieldTerminator::Text, "héllo".as_bytes()),
        Ok(MultipartContent::Text("héllo".to_string()))
    );
    assert_eq!(content_of(&FieldTerminator::Int, b"42"), Ok(MultipartContent::Int(42)));
    assert_eq!(content_of(&FieldTerminator::Int, b"-7"), Ok(MultipartContent::Int(-7)));
    assert_eq!(
        content_of(&FieldTerminator::Int, b"9223372036854775807"),
        Ok(MultipartContent::Int(i64::MAX))
    );
}

#[test]
fn decodes_floats_through_their_text() {
    assert_eq!(
        content_of(&FieldTerminator::Float, b"1.5"),
        Ok(MultipartContent::Float(1.5f64.to_bits()))
    );
    assert_eq!(content_of(&FieldTerminator::Float, b"x"), Err(Error::ParseFloat));
    assert!(matches!(
        decode_field(&FieldTerminator::<Fixed>::Float, b"2.25".to_vec()),
        Ok(Decoded::FloatText(text)) if text == "2.25"
    ));
}

#[test]
fn reads_signs_and_leading_zeros() {
    assert_eq!(content_of(&FieldTerminator::Int, b"+5"), Ok(MultipartContent::Int(5)));
    assert_eq!(content_of(&FieldTerminator::Int, b"-0"), Ok(MultipartContent::Int(0)));
    assert_eq!(content_of(&FieldTerminator::Int, b"007"), Ok(MultipartContent::Int(7)));
    assert_eq!(
        content_of(&FieldTerminator::Int, b"-9223372036854775808"),
        Ok(MultipartContent::Int(i64::MIN))
    );
}

#[test]
fn refuses_what_is_no_decimal_integer() {
    for text in ["+", "-", " 1", "1 ", "1_000", "--1", "+-1", "1.0", "0x10", "-9223372036854775809"] {
        assert_eq!(content_of(&FieldTerminator::Int, text.as_bytes()), Err(Error::ParseInt));
    }
}

#[test]
fn plan_holds_the_name_and_the_generated_path() {
    let plan = planned_upload("a.png".to_string(), Some("uploads/f0.png".to_string()));
    let plan = plan.ok().unwrap();
    assert_eq!(plan.filename, "a.png");
    assert_eq!(plan.stored_as, "uploads/f0.png");
    assert!(matches!(planned_upload("a.png".to_string(), None), Err(Error::GenFilename)));
}

#[test]
fn keeps_raw_bytes() {
    assert_eq!(
        content_of(&FieldTerminator::Bytes, &[0xff, 0x00, 0x80]),
        Ok(MultipartContent::Bytes(vec![0xff, 0x00, 0x80]))
    );
}

#[test]
fn rejects_bad_utf8_and_bad_integers() {
    assert_eq!(content_of(&FieldTerminator::Text, &[0xff, 0xfe]), Err(Error::ParseField));
    assert_eq!(content_of(&FieldTerminator::Int, &[0xff]), Err(Error::ParseField));
    assert_eq!(content_of(&FieldTerminator::Int, b"4x"), Err(Error::ParseInt));
    assert_eq!(content_of(&FieldTerminator::Int, b""), Err(Error::ParseInt));
    assert_eq!(
        content_of(&FieldTerminator::Int, b"9223372036854775808"),
        Err(Error::ParseInt)
    );
}

#[test]
fn scalar_bytes_under_a_file_node_are_refused() {
    let gen = Fixed;
    assert_eq!(content_of(&FieldTerminator::File(&gen), b"abc"), Err(Error::FieldType));
}

#[test]
fn outcomes_of_outside_steps_map_to_errors() {
    assert_eq!(decoded_text(Some("a".to_string())), Ok("a".to_string()));
    assert_eq!(decoded_text(None), Err(Error::ParseField));
    assert_eq!(int_content(Some(3)), Ok(MultipartContent::Int(3)));
    assert_eq!(int_content(None), Err(Error::ParseInt));
    assert_eq!(float_content(Some(7)), Ok(MultipartContent::Float(7)));
    assert_eq!(float_content(None), Err(Error::ParseFloat));
    assert_eq!(required_filename(Some("a".to_string())), Ok("a".to_string()));
    assert_eq!(required_filename(None), Err(Error::Filename));
    assert_eq!(generated_path(Some("p".to_string())), Ok("p".to_string()));
    assert_eq!(generated_path(None), Err(Error::GenFilename));
}

#[test]
fn plans_a_file_upload() {
    let plan = plan_file_upload(&Fixed, &mime::IMAGE_PNG, Some("a.png".to_string()));
    let plan = plan.ok().unwrap();
    assert_eq!(plan.filename, "a.png");
    assert_eq!(plan.stored_as, "uploads/f0.png");
    assert_eq!(
        file_content(plan),
        MultipartContent::File {
            filename: "a.png".to_string(),
            stored_as: "uploads/f0.png".to_string()
        }
    );
}

#[test]
fn reported_filename_is_the_last_component() {
    let plan = plan_file_upload(&Fixed, &mime::IMAGE_PNG, Some("some/dir/a.png".to_string()));
    assert_eq!(plan.ok().unwrap().filename, "a.png");
}

#[test]
fn generator_sees_the_media_type() {
    let png = plan_file_upload(&ByType, &mime::IMAGE_PNG, Some("a".to_string()));
    assert_eq!(png.ok().unwrap().stored_as, "png/0");
    let text = plan_file_upload(&ByType, &mime::TEXT_PLAIN, Some("a".to_string()));
    assert!(matches!(text, Err(Error::GenFilename)));
}

#[test]
fn file_without_filename_fails() {
    assert!(matches!(plan_file_upload(&Fixed, &mime::IMAGE_PNG, None), Err(Error::Filename)));
    assert!(matches!(
        plan_file_upload(&Fixed, &mime::IMAGE_PNG, Some("".to_string())),
        Err(Error::Filename)
    ));
    assert!(matches!(
        plan_file_upload(&Fixed, &mime::IMAGE_PNG, Some("..".to_string())),
        Err(Error::Filename)
    ));
    assert!(matches!(plan_file_upload(&Declines, &mime::IMAGE_PNG, None), Err(Error::Filename)));
}

#[test]
fn declining_generator_fails() {
    assert!(matches!(
        plan_file_upload(&Declines, &mime::IMAGE_PNG, Some("a.png".to_string())),
        Err(Error::GenFilename)
    ));
}

fn run_writer(chunks: &[&[u8]], step: usize) -> Vec<u8> {
    let mut disk: Vec<u8> = Vec::new();
    let mut sink = WriteSink::new();
    for chunk in chunks {
        assert!(sink.start_send(chunk));
        loop {
            let pending = sink.pending_bytes();
            let written = if pending.len() < step { pending.len() } else { step };
            disk.extend_from_slice(&pending[..written]);
            match sink.poll_complete(written) {
                Ok(Progress::Ready) => break,
                Ok(Progress::NotReady) => {}
                Err(e) => panic!("{:?}", e),
            }
        }
    }
    disk
}

#[test]
fn chunk_boundaries_do_not_change_the_file() {
    let whole: &[u8] = b"hello, world";
    let one = run_writer(&[whole], 100);
    assert_eq!(one, whole.to_vec());
    assert_eq!(run_writer(&[b"hel", b"lo, w", b"orld"], 100), one);
    assert_eq!(run_writer(&[b"h", b"ello, worl", b"d"], 3), one);
    assert_eq!(run_writer(&[b"", b"hello, ", b"", b"world"], 1), one);
}

#[test]
fn writer_takes_a_chunk_only_when_nothing_is_pending() {
    let mut sink = WriteSink::new();
    assert_eq!(sink.poll_complete(0), Ok(Progress::Ready));
    assert!(sink.start_send(b"abcd"));
    assert!(!sink.start_send(b"zz"));
    assert_eq!(sink.pending_bytes(), b"abcd".to_vec());
    assert_eq!(sink.poll_complete(3), Ok(Progress::NotReady));
    assert_eq!(sink.pending_bytes(), b"d".to_vec());
    assert!(!sink.start_send(b"zz"));
    assert_eq!(sink.poll_complete(1), Ok(Progress::Ready));
    assert_eq!(sink.pending_bytes(), Vec::<u8>::new());
    assert!(sink.start_send(b"zz"));
    assert_eq!(sink.pending_bytes(), b"zz".to_vec());
}

#[test]
fn write_of_nothing_is_an_io_error() {
    let mut sink = WriteSink::new();
    assert!(sink.start_send(b"abcd"));
    assert_eq!(sink.poll_complete(0), Err(Error::Io));
    assert_eq!(sink.pending_bytes(), b"abcd".to_vec());
}

#[test]
fn queue_holds_fifty_chunks() {
    assert_eq!(QUEUE_CAPACITY, 50);
}

#[test]
fn create_future_keeps_its_path() {
    assert_eq!(CreateFuture::new("uploads/f0.png".to_string()).path, "uploads/f0.png");
}

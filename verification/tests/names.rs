use form_data::error::Error;
use form_data::name::parse_multipart_name;
use form_data::schema::{Field, FieldTerminator, FilenameGenerator, Form};
use form_data::types::NamePart;

struct Gen;

impl FilenameGenerator for Gen {
    fn next_filename(&self, _: &mime::Mime) -> Option<String> {
        Some("uploads/f0.png".to_string())
    }
}

fn key(s: &str) -> NamePart {
    NamePart::MapKey(s.to_string())
}

fn sample_form() -> Form<Gen> {
    Form::new()
        .field("Hey", Field::text())
        .field(
            "Hi",
            Field::map()
                .field("One", Field::integer())
                .field("Two", Field::float())
                .finalize(),
        )
        .field("raw", Field::binary())
        .field("files", Field::array(Field::file(Gen)))
}

#[test]
fn parses_nested_keys() {
    assert_eq!(parse_multipart_name("Hi[One]".to_string()), Ok(vec![key("Hi"), key("One")]));
    assert_eq!(
        parse_multipart_name("a[b][c]".to_string()),
        Ok(vec![key("a"), key("b"), key("c")])
    );
}

#[test]
fn parses_array_placeholder() {
    assert_eq!(
        parse_multipart_name("files[]".to_string()),
        Ok(vec![key("files"), NamePart::ArrayIndex])
    );
    assert_eq!(
        parse_multipart_name("a[][b][]".to_string()),
        Ok(vec![key("a"), NamePart::ArrayIndex, key("b"), NamePart::ArrayIndex])
    );
}

#[test]
fn parses_plain_and_empty_names() {
    assert_eq!(parse_multipart_name("plain".to_string()), Ok(vec![key("plain")]));
    assert_eq!(parse_multipart_name("".to_string()), Ok(vec![key("")]));
    assert_eq!(parse_multipart_name("[x]".to_string()), Ok(vec![key(""), key("x")]));
}

#[test]
fn strips_one_closing_bracket() {
    assert_eq!(parse_multipart_name("a]".to_string()), Ok(vec![key("a")]));
    assert_eq!(parse_multipart_name("a[b]]".to_string()), Ok(vec![key("a"), key("b]")]));
    assert_eq!(parse_multipart_name("a[b".to_string()), Ok(vec![key("a"), key("b")]));
}

#[test]
fn parses_names_beyond_ascii() {
    assert_eq!(
        parse_multipart_name("né[çà]".to_string()),
        Ok(vec![key("né"), key("çà")])
    );
}

#[test]
fn rejects_leading_array_placeholder() {
    assert_eq!(parse_multipart_name("]".to_string()), Err(Error::ContentDisposition));
    assert_eq!(parse_multipart_name("][x]".to_string()), Err(Error::ContentDisposition));
}

#[test]
fn name_opening_with_brackets_has_an_empty_first_key() {
    assert_eq!(
        parse_multipart_name("[]".to_string()),
        Ok(vec![key(""), NamePart::ArrayIndex])
    );
}

#[test]
fn name_part_knows_its_kind() {
    assert!(key("a").is_map());
    assert!(!NamePart::ArrayIndex.is_map());
}

#[test]
fn matcher_finds_scalars() {
    let form = sample_form();
    assert!(matches!(form.valid_field(&vec![key("Hey")]), Some(FieldTerminator::Text)));
    assert!(matches!(
        form.valid_field(&vec![key("Hi"), key("One")]),
        Some(FieldTerminator::Int)
    ));
    assert!(matches!(
        form.valid_field(&vec![key("Hi"), key("Two")]),
        Some(FieldTerminator::Float)
    ));
    assert!(matches!(form.valid_field(&vec![key("raw")]), Some(FieldTerminator::Bytes)));
}

#[test]
fn matcher_finds_files_in_arrays() {
    let form = sample_form();
    assert!(matches!(
        form.valid_field(&vec![key("files"), NamePart::ArrayIndex]),
        Some(FieldTerminator::File(_))
    ));
}

#[test]
fn matcher_rejects_paths_outside_the_form() {
    let form = sample_form();
    assert!(form.valid_field(&vec![]).is_none());
    assert!(form.valid_field(&vec![key("nope")]).is_none());
    assert!(form.valid_field(&vec![key("Hi")]).is_none());
    assert!(form.valid_field(&vec![key("Hi"), key("Three")]).is_none());
    assert!(form.valid_field(&vec![key("Hi"), NamePart::ArrayIndex]).is_none());
    assert!(form.valid_field(&vec![key("files")]).is_none());
    assert!(form.valid_field(&vec![key("files"), key("x")]).is_none());
    assert!(form.valid_field(&vec![key("Hey"), key("x")]).is_none());
    assert!(form.valid_field(&vec![NamePart::ArrayIndex]).is_none());
}

#[test]
fn later_declaration_replaces_earlier() {
    let form: Form<Gen> = Form::new().field("x", Field::text()).field("x", Field::integer());
    assert_eq!(form.fields.len(), 1);
    assert!(matches!(form.valid_field(&vec![key("x")]), Some(FieldTerminator::Int)));
}

#[test]
fn form_limits_can_be_set() {
    let form: Form<Gen> = Form::new();
    assert_eq!(
        (form.max_fields, form.max_field_size, form.max_files, form.max_file_size),
        (100, 10_000, 20, 10_000_000)
    );
    let form = form.max_fields(3).max_field_size(4).max_files(5).max_file_size(6);
    assert_eq!(
        (form.max_fields, form.max_field_size, form.max_files, form.max_file_size),
        (3, 4, 5, 6)
    );
}

use form_data::consolidate::{consolidate, singleton_value};
use form_data::content::{decode_field, float_content, gather_field, plan_file_upload, file_content, Decoded};
use form_data::error::Error;
use form_data::schema::{Field, FieldTerminator, FilenameGenerator, Form};
use form_data::types::{ContentDisposition, MultipartContent, NamePart, Value};
use form_data::upload::{handle_multipart, handle_stream_field, Accepted};

struct Gen;

impl FilenameGenerator for Gen {
    fn next_filename(&self, _: &mime::Mime) -> Option<String> {
        Some("uploads/f0.png".to_string())
    }
}

fn key(s: &str) -> NamePart {
    NamePart::MapKey(s.to_string())
}

fn map(entries: Vec<(&str, Value)>) -> Value {
    Value::Mapping(entries.into_iter().map(|(k, v)| (k.to_string(), v)).collect())
}

fn file(n: u32) -> MultipartContent {
    MultipartContent::File { filename: format!("{}.png", n), stored_as: format!("up/{}", n) }
}

fn named(name: &str, filename: Option<&str>) -> ContentDisposition {
    ContentDisposition {
        name: Some(name.to_string()),
        filename: filename.map(|f| f.to_string()),
    }
}

type FieldResult = Result<(Vec<NamePart>, MultipartContent), Error>;

fn run_field(form: &Form<Gen>, name: &str, filename: Option<&str>, chunks: Vec<Vec<u8>>) -> FieldResult {
    let plan = handle_stream_field(named(name, filename), form)?;
    let content = match plan.terminator {
        FieldTerminator::File(gen) => {
            file_content(plan_file_upload(gen, &mime::IMAGE_PNG, plan.filename)?)
        }
        term => match decode_field(&term, gather_field(&chunks, form.max_field_size)?)? {
            Decoded::Content(content) => content,
            Decoded::FloatText(text) => {
                float_content(text.parse::<f64>().ok().map(f64::to_bits))?
            }
        },
    };
    Ok((plan.name, content))
}

fn sample_form() -> Form<Gen> {
    Form::new()
        .field(
            "Hi",
            Field::map()
                .field("One", Field::integer())
                .field("Two", Field::float())
                .finalize(),
        )
        .field("files", Field::array(Field::file(Gen)))
}

#[test]
fn integer_field_in_a_map() {
    let form = sample_form();
    let results = vec![run_field(&form, "Hi[One]", None, vec![b"42".to_vec()])];
    assert_eq!(
        handle_multipart(results, &form),
        Ok(map(vec![("Hi", map(vec![("One", Value::Int(42))]))]))
    );
}

#[test]
fn two_fields_of_one_map() {
    let form = sample_form();
    let results = vec![
        run_field(&form, "Hi[One]", None, vec![b"4".to_vec(), b"2".to_vec()]),
        run_field(&form, "Hi[Two]", None, vec![b"0.5".to_vec()]),
    ];
    assert_eq!(
        handle_multipart(results, &form),
        Ok(map(vec![(
            "Hi",
            map(vec![("One", Value::Int(42)), ("Two", Value::Float(0.5f64.to_bits()))])
        )]))
    );
}

#[test]
fn file_field_in_an_array() {
    let form = sample_form();
    let results = vec![run_field(&form, "files[]", Some("a.png"), vec![b"png".to_vec()])];
    assert_eq!(
        handle_multipart(results, &form),
        Ok(map(vec![(
            "files",
            Value::Array(vec![Value::File {
                filename: "a.png".to_string(),
                stored_as: "uploads/f0.png".to_string()
            }])
        )]))
    );
}

#[test]
fn unknown_field_fails_with_field_type() {
    let form = sample_form();
    let result = run_field(&form, "nope", None, vec![b"1".to_vec()]);
    assert_eq!(result, Err(Error::FieldType));
    assert_eq!(handle_multipart(vec![result], &form), Err(Error::FieldType));
    assert!(matches!(
        handle_stream_field(named("Hi[Three]", None), &form),
        Err(Error::FieldType)
    ));
    assert!(matches!(handle_stream_field(named("Hi", None), &form), Err(Error::FieldType)));
}

#[test]
fn field_without_name_fails() {
    let form = sample_form();
    assert!(matches!(
        handle_stream_field(ContentDisposition::empty(), &form),
        Err(Error::Field)
    ));
}

#[test]
fn field_with_leading_placeholder_fails() {
    let form = sample_form();
    assert!(matches!(
        handle_stream_field(named("][x]", None), &form),
        Err(Error::ContentDisposition)
    ));
}

#[test]
fn plan_keeps_path_and_filename() {
    let form = sample_form();
    let plan = handle_stream_field(named("files[]", Some("a.png")), &form).ok().unwrap();
    assert_eq!(plan.name, vec![key("files"), NamePart::ArrayIndex]);
    assert_eq!(plan.filename, Some("a.png".to_string()));
    assert!(matches!(plan.terminator, FieldTerminator::File(_)));
}

#[test]
fn first_failure_ends_the_submission() {
    let form = sample_form();
    let results: Vec<FieldResult> = vec![
        Ok((vec![key("Hi"), key("One")], MultipartContent::Int(1))),
        Err(Error::Multipart),
        Err(Error::FieldSize),
    ];
    assert_eq!(handle_multipart(results, &form), Err(Error::Multipart));
}

#[test]
fn failures_of_the_surroundings_pass_through() {
    let form = sample_form();
    for e in [Error::MkDir, Error::Io, Error::ChannelError, Error::FileSize, Error::Filename] {
        let results: Vec<FieldResult> =
            vec![Ok((vec![key("a")], MultipartContent::Int(1))), Err(e)];
        assert_eq!(handle_multipart(results, &form), Err(e));
    }
}

#[test]
fn empty_submission_is_an_empty_map() {
    let form = sample_form();
    assert_eq!(handle_multipart(vec![], &form), Ok(Value::Mapping(vec![])));
    assert_eq!(consolidate(vec![]), Ok(Value::Mapping(vec![])));
}

#[test]
fn file_limit_turns_away_the_last_of_max() {
    let form = sample_form().max_files(3);
    let two: Vec<FieldResult> =
        (0..2).map(|n| Ok((vec![key("files"), NamePart::ArrayIndex], file(n)))).collect();
    assert_eq!(
        handle_multipart(two, &form),
        Ok(map(vec![(
            "files",
            Value::Array(vec![
                Value::File { filename: "0.png".to_string(), stored_as: "up/0".to_string() },
                Value::File { filename: "1.png".to_string(), stored_as: "up/1".to_string() },
            ])
        )]))
    );
    let three: Vec<FieldResult> =
        (0..3).map(|n| Ok((vec![key("files"), NamePart::ArrayIndex], file(n)))).collect();
    assert_eq!(handle_multipart(three, &form), Err(Error::FileCount));
}

#[test]
fn field_limit_turns_away_the_last_of_max() {
    let form = sample_form().max_fields(2);
    let one: Vec<FieldResult> = vec![Ok((vec![key("a")], MultipartContent::Int(1)))];
    assert_eq!(handle_multipart(one, &form), Ok(map(vec![("a", Value::Int(1))])));
    let two: Vec<FieldResult> = vec![
        Ok((vec![key("a")], MultipartContent::Int(1))),
        Ok((vec![key("b")], MultipartContent::Text("x".to_string()))),
    ];
    assert_eq!(handle_multipart(two, &form), Err(Error::FieldCount));
}

#[test]
fn limits_of_zero_and_one_take_nothing() {
    for max in [0u32, 1] {
        let accepted = Accepted::new().accept(vec![key("f")], file(0), max, 10);
        assert!(matches!(accepted, Err(Error::FileCount)));
        let accepted = Accepted::new().accept(vec![key("a")], MultipartContent::Int(1), 10, max);
        assert!(matches!(accepted, Err(Error::FieldCount)));
    }
}

#[test]
fn files_and_fields_are_counted_apart() {
    let accepted = Accepted::new();
    let accepted = accepted.accept(vec![key("f")], file(0), 2, 2).ok().unwrap();
    let accepted = accepted.accept(vec![key("a")], MultipartContent::Int(1), 2, 2).ok().unwrap();
    assert_eq!((accepted.file_count, accepted.field_count), (1, 1));
    assert_eq!(accepted.fields.len(), 2);
    assert!(matches!(
        accepted.accept(vec![key("g")], file(1), u32::MAX, u32::MAX),
        Ok(Accepted { file_count: 2, field_count: 1, .. })
    ));
}

#[test]
fn arrays_keep_arrival_order() {
    let fields = vec![
        (vec![key("a"), NamePart::ArrayIndex], MultipartContent::Int(1)),
        (vec![key("a"), NamePart::ArrayIndex], MultipartContent::Int(2)),
    ];
    assert_eq!(
        consolidate(fields),
        Ok(map(vec![("a", Value::Array(vec![Value::Int(1), Value::Int(2)]))]))
    );
}

#[test]
fn merge_of_disjoint_maps_is_associative() {
    let a = || map(vec![("a", Value::Int(1))]);
    let b = || map(vec![("b", Value::Text("x".to_string()))]);
    let c = || map(vec![("c", Value::Array(vec![Value::Int(3)]))]);
    let left = a().merge(b()).and_then(|ab| ab.merge(c()));
    let right = b().merge(c()).and_then(|bc| a().merge(bc));
    assert_eq!(left, right);
    assert_eq!(
        left,
        Ok(map(vec![
            ("a", Value::Int(1)),
            ("b", Value::Text("x".to_string())),
            ("c", Value::Array(vec![Value::Int(3)])),
        ]))
    );
}

#[test]
fn merge_descends_into_shared_keys() {
    let left = map(vec![("m", map(vec![("x", Value::Int(1))])), ("k", Value::Int(0))]);
    let right = map(vec![("n", Value::Int(9)), ("m", map(vec![("y", Value::Int(2))]))]);
    assert_eq!(
        left.merge(right),
        Ok(map(vec![
            ("m", map(vec![("x", Value::Int(1)), ("y", Value::Int(2))])),
            ("k", Value::Int(0)),
            ("n", Value::Int(9)),
        ]))
    );
}

#[test]
fn merge_of_different_shapes_fails() {
    assert_eq!(map(vec![]).merge(Value::Array(vec![])), Err(Error::Merge));
    assert_eq!(Value::Int(1).merge(Value::Text("1".to_string())), Err(Error::Merge));
    let left = map(vec![("a", Value::Array(vec![]))]);
    let right = map(vec![("a", map(vec![]))]);
    assert_eq!(left.merge(right), Err(Error::Merge));
    let fields = vec![
        (vec![key("a")], MultipartContent::Int(1)),
        (vec![key("a"), key("b")], MultipartContent::Int(2)),
        (vec![key("c")], MultipartContent::Int(3)),
    ];
    assert_eq!(consolidate(fields), Err(Error::Merge));
}

#[test]
fn repeated_scalar_keeps_the_first() {
    assert_eq!(Value::Int(1).merge(Value::Int(2)), Ok(Value::Int(1)));
    let fields = vec![
        (vec![key("a")], MultipartContent::Text("first".to_string())),
        (vec![key("a")], MultipartContent::Text("second".to_string())),
    ];
    assert_eq!(consolidate(fields), Ok(map(vec![("a", Value::Text("first".to_string()))])));
}

#[test]
fn singleton_wraps_from_the_inside_out() {
    let value = singleton_value(
        vec![key("a"), NamePart::ArrayIndex, key("b")],
        MultipartContent::Bytes(vec![1, 2]),
    );
    assert_eq!(
        value,
        map(vec![("a", Value::Array(vec![map(vec![("b", Value::Bytes(vec![1, 2]))])]))])
    );
    assert_eq!(singleton_value(vec![], MultipartContent::Int(5)), Value::Int(5));
    assert_eq!(Value::from_content(MultipartContent::Float(9)), Value::Float(9));
    assert!(file(1).is_file());
    assert!(!MultipartContent::Int(1).is_file());
}

#[test]
fn comparison_ignores_the_order_of_entries() {
    let a = map(vec![
        ("x", Value::Int(1)),
        ("m", map(vec![("p", Value::Text("t".to_string())), ("q", Value::Bytes(vec![1]))])),
    ]);
    let b = map(vec![
        ("m", map(vec![("q", Value::Bytes(vec![1])), ("p", Value::Text("t".to_string()))])),
        ("x", Value::Int(1)),
    ]);
    assert!(a.same_as(&b));
    assert!(b.same_as(&a));
    assert!(a != b);
    let left = map(vec![("a", Value::Int(1))]).merge(map(vec![("b", Value::Int(2))])).unwrap();
    let right = map(vec![("b", Value::Int(2))]).merge(map(vec![("a", Value::Int(1))])).unwrap();
    assert!(left.same_as(&right));
}

#[test]
fn comparison_keeps_the_order_of_arrays() {
    let a = Value::Array(vec![Value::Int(1), Value::Int(2)]);
    let b = Value::Array(vec![Value::Int(2), Value::Int(1)]);
    assert!(!a.same_as(&b));
    assert!(a.same_as(&Value::Array(vec![Value::Int(1), Value::Int(2)])));
}

#[test]
fn comparison_tells_values_apart() {
    assert!(!Value::Int(1).same_as(&Value::Int(2)));
    assert!(!Value::Int(1).same_as(&Value::Float(1)));
    assert!(!Value::Text("a".to_string()).same_as(&Value::Text("b".to_string())));
    assert!(!Value::Bytes(vec![1, 2]).same_as(&Value::Bytes(vec![1, 3])));
    assert!(!Value::Bytes(vec![1, 2]).same_as(&Value::Bytes(vec![1])));
    let f = |name: &str, path: &str| Value::File {
        filename: name.to_string(),
        stored_as: path.to_string(),
    };
    assert!(f("a", "p").same_as(&f("a", "p")));
    assert!(!f("a", "p").same_as(&f("a", "q")));
    assert!(!f("a", "p").same_as(&f("b", "p")));
    assert!(!map(vec![("a", Value::Int(1))]).same_as(&map(vec![("b", Value::Int(1))])));
    assert!(!map(vec![("a", Value::Int(1))]).same_as(&map(vec![("a", Value::Int(2))])));
    assert!(!map(vec![("a", Value::Int(1))]).same_as(&map(vec![])));
    assert!(!map(vec![]).same_as(&Value::Array(vec![])));
}

#[test]
fn empty_submission_succeeds_under_limits_of_zero() {
    let form = sample_form().max_files(0).max_fields(0);
    assert_eq!(handle_multipart(vec![], &form), Ok(Value::Mapping(vec![])));
}

#[test]
fn a_kind_without_items_may_have_a_limit_of_zero() {
    let form = sample_form().max_files(0).max_fields(2);
    let results: Vec<FieldResult> =
        vec![Ok((vec![key("Hi"), key("One")], MultipartContent::Int(1)))];
    assert_eq!(
        handle_multipart(results, &form),
        Ok(map(vec![("Hi", map(vec![("One", Value::Int(1))]))]))
    );
    let form = sample_form().max_files(2).max_fields(0);
    let results: Vec<FieldResult> = vec![Ok((vec![key("files"), NamePart::ArrayIndex], file(0)))];
    assert!(handle_multipart(results, &form).is_ok());
}

#[test]
fn interleaved_files_and_fields_are_limited_apart() {
    let form = sample_form().max_files(2).max_fields(3);
    let results: Vec<FieldResult> = vec![
        Ok((vec![key("Hi"), key("One")], MultipartContent::Int(1))),
        Ok((vec![key("files"), NamePart::ArrayIndex], file(0))),
        Ok((vec![key("Hi"), key("Two")], MultipartContent::Float(0))),
    ];
    assert!(handle_multipart(results, &form).is_ok());
    let results: Vec<FieldResult> = vec![
        Ok((vec![key("Hi"), key("One")], MultipartContent::Int(1))),
        Ok((vec![key("files"), NamePart::ArrayIndex], file(0))),
        Ok((vec![key("files"), NamePart::ArrayIndex], file(1))),
    ];
    assert_eq!(handle_multipart(results, &form), Err(Error::FileCount));
}

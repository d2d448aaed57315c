use action_path::formats::{
    last_part, longest_ending, media_type_from_extension, SerializationFormats,
    ValueSerializationFormats,
};

#[test]
fn media_types_of_known_extensions() {
    let table = [
        ("json", "application/json"),
        ("js", "text/javascript"),
        ("txt", "text/plain"),
        ("html", "text/html"),
        ("htm", "text/html"),
        ("md", "text/markdown"),
        ("xls", "application/vnd.ms-excel"),
        ("xlsx", "application/vnd.openxmlformats-officedocument.spreadsheetml.sheet"),
        ("ods", "application/vnd.oasis.opendocument.spreadsheet"),
        ("tsv", "text/tab-separated-values"),
        ("csv", "text/csv"),
        ("msgpack", "application/x-msgpack"),
        ("hdf5", "application/x-hdf"),
        ("h5", "application/x-hdf"),
        ("png", "image/png"),
        ("svg", "image/svg+xml"),
        ("jpg", "image/jpeg"),
        ("jpeg", "image/jpeg"),
        ("b", "application/octet-stream"),
        ("pkl", "application/octet-stream"),
        ("pickle", "application/octet-stream"),
        ("wasm", "application/wasm"),
    ];
    for (extension, media_type) in table {
        assert_eq!(media_type_from_extension(extension), media_type);
    }
}

#[test]
fn media_type_of_unknown_extension() {
    assert_eq!(media_type_from_extension(""), "application/octet-stream");
    assert_eq!(media_type_from_extension("JSON"), "application/octet-stream");
    assert_eq!(media_type_from_extension(".json"), "application/octet-stream");
    assert_eq!(media_type_from_extension("jsonx"), "application/octet-stream");
}

#[test]
fn formats_have_names() {
    assert_eq!(ValueSerializationFormats::Text.to_name(), "Text");
    assert_eq!(ValueSerializationFormats::Json.to_name(), "Json");
    assert_eq!(ValueSerializationFormats::SerdeJson.to_name(), "SerdeJson");
    assert_eq!(ValueSerializationFormats::from_name("Text"), Some(ValueSerializationFormats::Text));
    assert_eq!(ValueSerializationFormats::from_name("Json"), Some(ValueSerializationFormats::Json));
    assert_eq!(
        ValueSerializationFormats::from_name("SerdeJson"),
        Some(ValueSerializationFormats::SerdeJson)
    );
    assert_eq!(ValueSerializationFormats::from_name("json"), None);
    assert_eq!(ValueSerializationFormats::from_name(""), None);
}

#[test]
fn formats_have_extensions() {
    assert_eq!(ValueSerializationFormats::supported_extensions(), vec!["txt", "json", "serde.json"]);
    assert_eq!(ValueSerializationFormats::from_extension("txt"), Some(ValueSerializationFormats::Text));
    assert_eq!(ValueSerializationFormats::from_extension("json"), Some(ValueSerializationFormats::Json));
    assert_eq!(
        ValueSerializationFormats::from_extension("serde.json"),
        Some(ValueSerializationFormats::SerdeJson)
    );
    assert_eq!(ValueSerializationFormats::from_extension("md"), None);
    assert_eq!(ValueSerializationFormats::Text.default_extension(), "txt");
    assert_eq!(ValueSerializationFormats::Json.default_extension(), "json");
    assert_eq!(ValueSerializationFormats::SerdeJson.default_extension(), "serde.json");
}

#[test]
fn formats_are_listed_and_told_apart() {
    let all = ValueSerializationFormats::formats();
    assert_eq!(
        all,
        vec![
            ValueSerializationFormats::Text,
            ValueSerializationFormats::Json,
            ValueSerializationFormats::SerdeJson
        ]
    );
    assert!(all[0].same(&ValueSerializationFormats::Text));
    assert!(!all[0].same(&all[1]));
    assert!(all[2].same(&all[2]));
}

#[test]
fn formats_have_media_types() {
    assert_eq!(ValueSerializationFormats::Text.media_type(), "text/plain");
    assert_eq!(ValueSerializationFormats::Json.media_type(), "application/json");
    assert_eq!(ValueSerializationFormats::SerdeJson.media_type(), "application/json");
}

#[test]
fn longest_extension_of_a_file_name_wins() {
    assert_eq!(ValueSerializationFormats::extension_from_filename("a.json"), Some("json"));
    assert_eq!(ValueSerializationFormats::extension_from_filename("a.serde.json"), Some("serde.json"));
    assert_eq!(ValueSerializationFormats::extension_from_filename("serde.json"), Some("serde.json"));
    assert_eq!(ValueSerializationFormats::extension_from_filename("notes.txt"), Some("txt"));
    assert_eq!(ValueSerializationFormats::extension_from_filename("json"), Some("json"));
    assert_eq!(ValueSerializationFormats::extension_from_filename("a.md"), None);
    assert_eq!(ValueSerializationFormats::extension_from_filename(""), None);
    assert_eq!(ValueSerializationFormats::extension_from_filename("a.json.bak"), None);
    assert_eq!(
        ValueSerializationFormats::from_filename("a.serde.json"),
        Some(ValueSerializationFormats::SerdeJson)
    );
    assert_eq!(ValueSerializationFormats::from_filename("a.json"), Some(ValueSerializationFormats::Json));
    assert_eq!(ValueSerializationFormats::from_filename("a.txt"), Some(ValueSerializationFormats::Text));
    assert_eq!(ValueSerializationFormats::from_filename("a"), None);
}

#[test]
fn of_equally_long_endings_the_last_wins() {
    let extensions = vec!["ab", "b", "zb", "ab"];
    assert_eq!(longest_ending("xab", &extensions), Some(3));
    assert_eq!(longest_ending("xzb", &extensions), Some(2));
    assert_eq!(longest_ending("b", &extensions), Some(1));
    assert_eq!(longest_ending("x", &extensions), None);
    assert_eq!(longest_ending("x", &vec![]), None);
    assert_eq!(longest_ending("x", &vec![""]), Some(0));
}

#[test]
fn part_behind_the_last_dot() {
    assert_eq!(last_part("serde.json"), "json");
    assert_eq!(last_part("json"), "json");
    assert_eq!(last_part("a.b.c"), "c");
    assert_eq!(last_part("a."), "");
    assert_eq!(last_part(".a"), "a");
    assert_eq!(last_part(""), "");
}

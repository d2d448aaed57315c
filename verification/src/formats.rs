//! Names, file extensions and media types of the formats in which a value
//! can be written to bytes.
use crate::error::Error;
use crate::text::{chars_of, ends_with, is_suffix, same_text, string_of};
use vstd::prelude::*;
use vstd::string::StringExecFns;

verus! {

/// The media type that goes with a file extension.
pub open spec fn media_type_of(extension: Seq<char>) -> Seq<char> {
    if extension == "json"@ {
        "application/json"@
    } else if extension == "js"@ {
        "text/javascript"@
    } else if extension == "txt"@ {
        "text/plain"@
    } else if extension == "html"@ || extension == "htm"@ {
        "text/html"@
    } else if extension == "md"@ {
        "text/markdown"@
    } else if extension == "xls"@ {
        "application/vnd.ms-excel"@
    } else if extension == "xlsx"@ {
        "application/vnd.openxmlformats-officedocument.spreadsheetml.sheet"@
    } else if extension == "ods"@ {
        "application/vnd.oasis.opendocument.spreadsheet"@
    } else if extension == "tsv"@ {
        "text/tab-separated-values"@
    } else if extension == "csv"@ {
        "text/csv"@
    } else if extension == "msgpack"@ {
        "application/x-msgpack"@
    } else if extension == "hdf5"@ || extension == "h5"@ {
        "application/x-hdf"@
    } else if extension == "png"@ {
        "image/png"@
    } else if extension == "svg"@ {
        "image/svg+xml"@
    } else if extension == "jpg"@ || extension == "jpeg"@ {
        "image/jpeg"@
    } else if extension == "wasm"@ {
        "application/wasm"@
    } else {
        "application/octet-stream"@
    }
}

/// The media type that goes with a file extension; for an extension that is
/// not known, `application/octet-stream`.
pub fn media_type_from_extension(extension: &str) -> (r: &'static str)
    ensures
        r@ == media_type_of(extension@),
{
    if same_text(extension, "json") {
        "application/json"
    } else if same_text(extension, "js") {
        "text/javascript"
    } else if same_text(extension, "txt") {
        "text/plain"
    } else if same_text(extension, "html") || same_text(extension, "htm") {
        "text/html"
    } else if same_text(extension, "md") {
        "text/markdown"
    } else if same_text(extension, "xls") {
        "application/vnd.ms-excel"
    } else if same_text(extension, "xlsx") {
        "application/vnd.openxmlformats-officedocument.spreadsheetml.sheet"
    } else if same_text(extension, "ods") {
        "application/vnd.oasis.opendocument.spreadsheet"
    } else if same_text(extension, "tsv") {
        "text/tab-separated-values"
    } else if same_text(extension, "csv") {
        "text/csv"
    } else if same_text(extension, "msgpack") {
        "application/x-msgpack"
    } else if same_text(extension, "hdf5") || same_text(extension, "h5") {
        "application/x-hdf"
    } else if same_text(extension, "png") {
        "image/png"
    } else if same_text(extension, "svg") {
        "image/svg+xml"
    } else if same_text(extension, "jpg") || same_text(extension, "jpeg") {
        "image/jpeg"
    } else if same_text(extension, "wasm") {
        "application/wasm"
    } else {
        "application/octet-stream"
    }
}

/// What stands behind the last `.` of `text`: all of it where it holds none.
pub open spec fn after_last_dot(text: Seq<char>) -> Seq<char>
    decreases text.len(),
{
    if text.len() == 0 {
        Seq::empty()
    } else if text.last() == '.' {
        Seq::empty()
    } else {
        after_last_dot(text.drop_last()).push(text.last())
    }
}

proof fn after_last_dot_of_tail(text: Seq<char>, i: int)
    requires
        0 <= i <= text.len(),
        forall|k: int| i <= k < text.len() ==> text[k] != '.',
    ensures
        after_last_dot(text) == after_last_dot(text.take(i)) + text.skip(i),
    decreases text.len() - i,
{
    if i == text.len() {
        assert(text.take(i) =~= text);
        assert(after_last_dot(text) + text.skip(i) =~= after_last_dot(text));
    } else {
        let front = text.drop_last();
        after_last_dot_of_tail(front, i);
        assert(front.take(i) =~= text.take(i));
        assert((after_last_dot(text.take(i)) + front.skip(i)).push(text.last()) =~= after_last_dot(
            text.take(i),
        ) + text.skip(i));
    }
}

/// What stands behind the last `.` of `text`.
pub fn last_part(text: &str) -> (r: String)
    ensures
        r@ == after_last_dot(text@),
{
    let chars = chars_of(text);
    let mut i: usize = chars.len();
    while i > 0 && chars[i - 1] != '.'
        invariant
            i <= chars.len(),
            forall|k: int| i <= k < chars.len() ==> chars@[k] != '.',
        decreases i,
    {
        i -= 1;
    }
    proof {
        after_last_dot_of_tail(chars@, i as int);
        if i > 0 {
            assert(chars@.take(i as int).last() == '.');
        } else {
            assert(chars@.take(0) =~= Seq::<char>::empty());
        }
        assert(Seq::<char>::empty() + chars@.skip(i as int) =~= chars@.skip(i as int));
        assert(chars@.subrange(i as int, chars@.len() as int) =~= chars@.skip(i as int));
    }
    string_of(&chars, i, chars.len())
}

/// Whether `extensions[i]` is the ending of `filename` to prefer: it is an
/// ending, no ending among `extensions` is longer in bytes, and none of the
/// same length stands behind it.
pub open spec fn is_best_ending(filename: Seq<char>, extensions: Seq<&'static str>, i: int) -> bool {
    &&& 0 <= i < extensions.len()
    &&& is_suffix(extensions[i]@, filename)
    &&& forall|j: int|
        0 <= j < extensions.len() && is_suffix(#[trigger] extensions[j]@, filename) ==> extensions[j].len()
            < extensions[i].len() || (extensions[j].len() == extensions[i].len() && j <= i)
}

/// The index of the extension that `filename` ends with: of several, the
/// longest in bytes, and of those the last.
pub fn longest_ending(filename: &str, extensions: &Vec<&'static str>) -> (r: Option<usize>)
    ensures
        match r {
            Some(i) => is_best_ending(filename@, extensions@, i as int),
            None => forall|j: int|
                0 <= j < extensions.len() ==> !is_suffix(#[trigger] extensions[j]@, filename@),
        },
{
    let mut best: Option<usize> = None;
    let mut k: usize = 0;
    while k < extensions.len()
        invariant
            k <= extensions.len(),
            match best {
                Some(i) => is_best_ending(filename@, extensions@.take(k as int), i as int),
                None => forall|j: int| 0 <= j < k ==> !is_suffix(#[trigger] extensions[j]@, filename@),
            },
        decreases extensions.len() - k,
    {
        let ghost seen = extensions@.take(k as int);
        let ghost next = extensions@.take(k + 1);
        assert(forall|j: int| 0 <= j < k ==> next[j] == seen[j]);
        assert(next[k as int] == extensions@[k as int]);
        if ends_with(filename, extensions[k]) {
            let better = match best {
                Some(i) => extensions[i].len() <= extensions[k].len(),
                None => true,
            };
            if better {
                best = Some(k);
            }
        }
        k += 1;
    }
    assert(extensions@.take(k as int) =~= extensions@);
    best
}

/// The first of `items` that is `wanted`.
pub open spec fn first_where<A>(items: Seq<A>, wanted: spec_fn(A) -> bool) -> Option<A>
    decreases items.len(),
{
    if items.len() == 0 {
        None
    } else if wanted(items[0]) {
        Some(items[0])
    } else {
        first_where(items.drop_first(), wanted)
    }
}

/// The text of an extension; the empty text where there is none.
pub open spec fn text_or_empty(extension: Option<&'static str>) -> Seq<char> {
    match extension {
        Some(e) => e@,
        None => Seq::empty(),
    }
}

/// A family of formats: each has a name and file extensions.
///
/// An implementor lists the formats and the extensions, names each format,
/// says which format an extension stands for, and tells two formats apart.
/// What a name, a format or a file name calls for follows from that.
pub trait SerializationFormats: Sized {
    /// All formats, in the order in which a name is looked up.
    spec fn all() -> Seq<Self>;

    /// The name of the format.
    spec fn name(&self) -> Seq<char>;

    /// The supported extensions, in the order in which they are tried.
    spec fn extensions() -> Seq<&'static str>;

    /// The format that the extension stands for.
    spec fn of_extension(ext: Seq<char>) -> Option<Self>;

    fn formats() -> (r: Vec<Self>)
        ensures
            r@ == Self::all(),
    ;

    /// Whether the two are the same format.
    fn same(&self, other: &Self) -> (r: bool)
        ensures
            r == (*self == *other),
    ;

    fn to_name(&self) -> (r: String)
        ensures
            r@ == self.name(),
    ;

    fn supported_extensions() -> (r: Vec<&'static str>)
        ensures
            r@ == Self::extensions(),
    ;

    fn from_extension(ext: &str) -> (r: Option<Self>)
        ensures
            r == Self::of_extension(ext@),
    ;

    /// The format whose name is `name`: of several, the first.
    fn from_name(name: &str) -> (r: Option<Self>)
        ensures
            r == first_where(Self::all(), |f: Self| f.name() == name@),
    {
        let mut formats = Self::formats();
        let ghost wanted = |f: Self| f.name() == name@;
        let mut i: usize = 0;
        assert(formats@.skip(0) =~= formats@);
        while i < formats.len()
            invariant
                i <= formats.len(),
                formats@ == Self::all(),
                wanted == (|f: Self| f.name() == name@),
                first_where(Self::all(), wanted) == first_where(formats@.skip(i as int), wanted),
            decreases formats.len() - i,
        {
            let found = formats[i].to_name();
            proof {
                assert(formats@.skip(i as int)[0] == formats@[i as int]);
                assert(formats@.skip(i as int).drop_first() =~= formats@.skip(i + 1));
            }
            if same_text(found.as_str(), name) {
                return Some(formats.swap_remove(i));
            }
            i += 1;
        }
        None
    }

    /// The media type of the default extension: of the part of it behind
    /// its last `.`.
    fn media_type(&self) -> (r: &'static str)
        ensures
            r@ == media_type_of(
                after_last_dot(
                    text_or_empty(
                        first_where(
                            Self::extensions(),
                            |e: &'static str| Self::of_extension(e@) == Some(*self),
                        ),
                    ),
                ),
            ),
    {
        let part = last_part(self.default_extension());
        media_type_from_extension(part.as_str())
    }

    /// The first of the supported extensions that stands for the format;
    /// the empty text where none does.
    fn default_extension(&self) -> (r: &'static str)
        ensures
            r@ == text_or_empty(
                first_where(
                    Self::extensions(),
                    |e: &'static str| Self::of_extension(e@) == Some(*self),
                ),
            ),
    {
        let extensions = Self::supported_extensions();
        let ghost wanted = |e: &'static str| Self::of_extension(e@) == Some(*self);
        let mut i: usize = 0;
        assert(extensions@.skip(0) =~= extensions@);
        while i < extensions.len()
            invariant
                i <= extensions.len(),
                extensions@ == Self::extensions(),
                wanted == (|e: &'static str| Self::of_extension(e@) == Some(*self)),
                first_where(Self::extensions(), wanted) == first_where(
                    extensions@.skip(i as int),
                    wanted,
                ),
            decreases extensions.len() - i,
        {
            let ext = extensions[i];
            proof {
                assert(extensions@.skip(i as int)[0] == extensions@[i as int]);
                assert(extensions@.skip(i as int).drop_first() =~= extensions@.skip(i + 1));
            }
            if let Some(fmt) = Self::from_extension(ext) {
                if fmt.same(self) {
                    return ext;
                }
            }
            i += 1;
        }
        proof {
            reveal_strlit("");
            assert(""@ =~= Seq::<char>::empty());
        }
        ""
    }

    /// The supported extension that `filename` ends with: of several, the
    /// longest in bytes, and of those the last.
    fn extension_from_filename(filename: &str) -> (r: Option<&'static str>)
        ensures
            match r {
                Some(ext) => exists|i: int|
                    is_best_ending(filename@, Self::extensions(), i) && ext
                        == #[trigger] Self::extensions()[i],
                None => forall|j: int|
                    0 <= j < Self::extensions().len() ==> !is_suffix(
                        #[trigger] Self::extensions()[j]@,
                        filename@,
                    ),
            },
    {
        let extensions = Self::supported_extensions();
        match longest_ending(filename, &extensions) {
            Some(i) => Some(extensions[i]),
            None => None,
        }
    }

    /// The format of the supported extension that `filename` ends with.
    fn from_filename(filename: &str) -> (r: Option<Self>)
        ensures
            match r {
                Some(format) => exists|i: int|
                    is_best_ending(filename@, Self::extensions(), i) && Self::of_extension(
                        (#[trigger] Self::extensions()[i])@,
                    ) == Some(format),
                None => forall|i: int|
                    is_best_ending(filename@, Self::extensions(), i) ==> Self::of_extension(
                        (#[trigger] Self::extensions()[i])@,
                    ) is None,
            },
    {
        match Self::extension_from_filename(filename) {
            Some(ext) => Self::from_extension(ext),
            None => None,
        }
    }
}

/// The formats in which a value is written to bytes.
#[derive(Debug, Clone, Copy, PartialEq, Eq, Structural)]
pub enum ValueSerializationFormats {
    Text,
    Json,
    SerdeJson,
}

impl SerializationFormats for ValueSerializationFormats {
    open spec fn all() -> Seq<Self> {
        seq![
            ValueSerializationFormats::Text,
            ValueSerializationFormats::Json,
            ValueSerializationFormats::SerdeJson,
        ]
    }

    open spec fn name(&self) -> Seq<char> {
        match *self {
            ValueSerializationFormats::Text => "Text"@,
            ValueSerializationFormats::Json => "Json"@,
            ValueSerializationFormats::SerdeJson => "SerdeJson"@,
        }
    }

    open spec fn extensions() -> Seq<&'static str> {
        seq!["txt", "json", "serde.json"]
    }

    open spec fn of_extension(ext: Seq<char>) -> Option<Self> {
        if ext == "txt"@ {
            Some(ValueSerializationFormats::Text)
        } else if ext == "json"@ {
            Some(ValueSerializationFormats::Json)
        } else if ext == "serde.json"@ {
            Some(ValueSerializationFormats::SerdeJson)
        } else {
            None
        }
    }

    fn formats() -> (r: Vec<Self>) {
        let mut r: Vec<Self> = Vec::new();
        r.push(ValueSerializationFormats::Text);
        r.push(ValueSerializationFormats::Json);
        r.push(ValueSerializationFormats::SerdeJson);
        assert(r@ =~= Self::all());
        r
    }

    fn same(&self, other: &Self) -> (r: bool) {
        *self == *other
    }

    fn to_name(&self) -> (r: String) {
        match self {
            ValueSerializationFormats::Text => String::from_str("Text"),
            ValueSerializationFormats::Json => String::from_str("Json"),
            ValueSerializationFormats::SerdeJson => String::from_str("SerdeJson"),
        }
    }

    fn supported_extensions() -> (r: Vec<&'static str>) {
        let mut r: Vec<&'static str> = Vec::new();
        r.push("txt");
        r.push("json");
        r.push("serde.json");
        assert(r@ =~= Self::extensions());
        r
    }

    fn from_extension(ext: &str) -> (r: Option<Self>) {
        if same_text(ext, "txt") {
            Some(ValueSerializationFormats::Text)
        } else if same_text(ext, "json") {
            Some(ValueSerializationFormats::Json)
        } else if same_text(ext, "serde.json") {
            Some(ValueSerializationFormats::SerdeJson)
        } else {
            None
        }
    }
}

/// Each format of a value has an extension of its own for its default:
/// `txt`, `json` and `serde.json`.
pub proof fn default_extensions_of_value_formats()
    ensures
        text_or_empty(
            first_where(
                ValueSerializationFormats::extensions(),
                |e: &'static str|
                    ValueSerializationFormats::of_extension(e@) == Some(
                        ValueSerializationFormats::Text,
                    ),
            ),
        ) == "txt"@,
        text_or_empty(
            first_where(
                ValueSerializationFormats::extensions(),
                |e: &'static str|
                    ValueSerializationFormats::of_extension(e@) == Some(
                        ValueSerializationFormats::Json,
                    ),
            ),
        ) == "json"@,
        text_or_empty(
            first_where(
                ValueSerializationFormats::extensions(),
                |e: &'static str|
                    ValueSerializationFormats::of_extension(e@) == Some(
                        ValueSerializationFormats::SerdeJson,
                    ),
            ),
        ) == "serde.json"@,
{
    reveal_strlit("txt");
    reveal_strlit("json");
    reveal_strlit("serde.json");
    let extensions = ValueSerializationFormats::extensions();
    assert("txt"@.len() == 3 && "json"@.len() == 4 && "serde.json"@.len() == 10);
    assert(extensions.drop_first() =~= seq!["json", "serde.json"]);
    assert(extensions.drop_first().drop_first() =~= seq!["serde.json"]);
    reveal_with_fuel(first_where, 4);
}

/// A value that can be written to bytes and read from them, in the formats
/// of a family.
pub trait ValueSerializer: Sized {
    type Formats: SerializationFormats;

    fn type_identifier(&self) -> String;

    fn default_extension(&self) -> String;

    fn default_media_type(&self) -> String;

    fn as_bytes(&self, format: &str) -> Result<Vec<u8>, Error>;

    fn from_bytes(b: &[u8], format: &str) -> Result<Self, Error>;
}

} // verus!

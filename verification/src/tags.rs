//! The tag model: what the codec reports of one file, the display value of
//! a frame, and the fixed vocabulary of summarized fields.

use vstd::prelude::*;

verus! {

/// The content of one frame, as far as the summary reads it.
#[derive(Debug)]
pub enum Content {
    Text(String),
    Comment { text: String },
    Picture { description: String, mime_type: String },
    Other,
}

/// One frame of a tag: a field id and its content.
#[derive(Debug)]
pub struct Frame {
    pub id: String,
    pub content: Content,
}

/// The parsed metadata of one file.
#[derive(Debug)]
pub struct Tag {
    pub frames: Vec<Frame>,
}

/// The display value that stands for absent data.
pub open spec fn none_value() -> Seq<char> {
    "<none>"@
}

/// The display value that stands for conflicting data.
pub open spec fn multiple_value() -> Seq<char> {
    "<multiple>"@
}

/// The display value of a frame's content: the text of a text or comment
/// frame, the description and the mime type in angle brackets of a picture,
/// and a fixed word for anything else.
pub open spec fn display_of(c: Content) -> Seq<char> {
    match c {
        Content::Text(text) => text@,
        Content::Comment { text } => text@,
        Content::Picture { description, mime_type } => description@ + " <"@ + mime_type@ + ">"@,
        Content::Other => "<other>"@,
    }
}

/// The display value of `c`.
pub fn display_value(c: &Content) -> (value: String)
    ensures
        value@ == display_of(*c),
{
    match c {
        Content::Text(text) => text.clone(),
        Content::Comment { text } => text.clone(),
        Content::Picture { description, mime_type } => {
            description.clone().concat(" <").concat(mime_type.as_str()).concat(">")
        },
        Content::Other => String::from_str("<other>"),
    }
}

/// Whether two strings hold the same text.
pub fn same_text(a: &str, b: &str) -> (same: bool)
    ensures
        same == (a@ == b@),
{
    let x = String::from_str(a);
    let y = String::from_str(b);
    x == y
}

/// The number of summarized fields.
pub const FIELD_COUNT: usize = 14;

/// The summarized fields, in the order in which they are shown.
pub open spec fn vocabulary() -> Seq<Seq<char>> {
    seq![
        "APIC"@, "COMM"@, "TALB"@, "TCON"@, "TIT2"@, "TPE1"@, "TPE2"@,
        "TPOS"@, "TRCK"@, "TSRC"@, "TSSE"@, "TYER"@, "TXXX"@, "USLT"@,
    ]
}

/// The id of the `i`-th summarized field.
pub fn field_id(i: usize) -> (id: &'static str)
    requires
        i < FIELD_COUNT,
    ensures
        id@ == vocabulary()[i as int],
{
    if i == 0 {
        "APIC"
    } else if i == 1 {
        "COMM"
    } else if i == 2 {
        "TALB"
    } else if i == 3 {
        "TCON"
    } else if i == 4 {
        "TIT2"
    } else if i == 5 {
        "TPE1"
    } else if i == 6 {
        "TPE2"
    } else if i == 7 {
        "TPOS"
    } else if i == 8 {
        "TRCK"
    } else if i == 9 {
        "TSRC"
    } else if i == 10 {
        "TSSE"
    } else if i == 11 {
        "TYER"
    } else if i == 12 {
        "TXXX"
    } else {
        "USLT"
    }
}

} // verus!

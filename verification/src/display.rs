//! What the view shows of a field id and of a long name.

use crate::tags::{same_text, vocabulary};
use vstd::prelude::*;
use vstd::utf8::{decode_utf8, encode_utf8, encode_utf8_decode_utf8, is_char_boundary};

verus! {

/// The display name of a summarized field, padded to twelve columns.
pub open spec fn label_of(id: Seq<char>) -> Seq<char> {
    if id == "APIC"@ {
        "Image       "@
    } else if id == "COMM"@ {
        "Comment     "@
    } else if id == "TALB"@ {
        "Album       "@
    } else if id == "TCON"@ {
        "Genre       "@
    } else if id == "TIT2"@ {
        "Title       "@
    } else if id == "TPE1"@ {
        "Artist      "@
    } else if id == "TPE2"@ {
        "Album Artist"@
    } else if id == "TPOS"@ {
        "Disc        "@
    } else if id == "TRCK"@ {
        "Track       "@
    } else if id == "TSRC"@ {
        "ISRC        "@
    } else if id == "TSSE"@ {
        "Encoding    "@
    } else if id == "TYER"@ {
        "Date        "@
    } else if id == "TXXX"@ {
        "Custom Frame"@
    } else {
        "Lyrics      "@
    }
}

/// The display name of the summarized field `id`.
pub fn translate_tag_id(id: &str) -> (label: String)
    requires
        vocabulary().contains(id@),
    ensures
        label@ == label_of(id@),
{
    let label = if same_text(id, "APIC") {
        "Image       "
    } else if same_text(id, "COMM") {
        "Comment     "
    } else if same_text(id, "TALB") {
        "Album       "
    } else if same_text(id, "TCON") {
        "Genre       "
    } else if same_text(id, "TIT2") {
        "Title       "
    } else if same_text(id, "TPE1") {
        "Artist      "
    } else if same_text(id, "TPE2") {
        "Album Artist"
    } else if same_text(id, "TPOS") {
        "Disc        "
    } else if same_text(id, "TRCK") {
        "Track       "
    } else if same_text(id, "TSRC") {
        "ISRC        "
    } else if same_text(id, "TSSE") {
        "Encoding    "
    } else if same_text(id, "TYER") {
        "Date        "
    } else if same_text(id, "TXXX") {
        "Custom Frame"
    } else {
        "Lyrics      "
    };
    String::from_str(label)
}

/// A name cut to fit `max_length` bytes: a name that fits is kept; a longer
/// one keeps its first `max_length - 3` bytes and ends in three dots.
pub open spec fn truncated(text: Seq<char>, max_length: int) -> Seq<char> {
    if encode_utf8(text).len() > max_length {
        decode_utf8(encode_utf8(text).subrange(0, max_length - 3)) + "..."@
    } else {
        text
    }
}

/// Cuts `text` to fit `max_length` bytes. Where it has to cut, there
/// must be room for the three dots, and the cut must not split a character.
pub fn truncate_text(text: String, max_length: usize) -> (short: String)
    requires
        encode_utf8(text@).len() > max_length ==> max_length >= 3 && is_char_boundary(
            encode_utf8(text@),
            max_length - 3,
        ),
    ensures
        short@ == truncated(text@, max_length as int),
{
    if text.as_str().as_bytes().len() > max_length {
        let (head, _) = text.as_str().split_at(max_length - 3);
        proof {
            encode_utf8_decode_utf8(head@);
        }
        String::from_str(head).concat("...")
    } else {
        text
    }
}

} // verus!

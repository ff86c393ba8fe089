//! The library's data: commands, file entries and their content, and the
//! items that results are reported in.
use vstd::prelude::*;
use vstd::string::StringSliceAdditionalSpecFns;
use crate::text::{chars_eq, chars_of, utf8_text};

verus! {

/// What to analyse.
pub enum Command {
    /// A histogram of word frequency in a file.
    Histogram { filepath: String, json: bool },
    /// Duplicated sections in all files at the given paths.
    Duplication { paths: Vec<String>, min_lines: usize, files_only: bool },
    /// A histogram of line lengths in the files at the given paths.
    LineLength { paths: Vec<String>, json: bool },
}

/// A run's configuration.
pub struct Config {
    pub command: Command,
}

/// A file's content: bytes that a mapping of the file shows, not yet known
/// to be UTF-8, or text already read.
pub enum MappedContent<'a> {
    Mapped(&'a [u8]),
    String(String),
}

impl<'a> MappedContent<'a> {
    /// The text of the content, where it is valid UTF-8.
    pub open spec fn text(&self) -> Option<Seq<char>> {
        match self {
            MappedContent::Mapped(b) => if vstd::utf8::valid_utf8(b@) {
                Some(vstd::utf8::decode_utf8(b@))
            } else {
                None
            },
            MappedContent::String(s) => Some(s@),
        }
    }

    /// The content as a string slice, where it is valid UTF-8.
    pub fn as_str(&self) -> (r: Option<&str>)
        ensures
            match self.text() {
                Some(t) => r.is_some() && r.unwrap()@ == t,
                None => r.is_none(),
            },
    {
        match self {
            MappedContent::Mapped(b) => {
                let r = utf8_text(b);
                proof {
                    if r.is_some() {
                        vstd::utf8::encode_utf8_decode_utf8(r.unwrap()@);
                    }
                }
                r
            },
            MappedContent::String(s) => Some(s.as_str()),
        }
    }

    /// The content as an owned string, where it is valid UTF-8.
    pub fn to_string(&self) -> (r: Option<String>)
        ensures
            match self.text() {
                Some(t) => r.is_some() && r.unwrap()@ == t,
                None => r.is_none(),
            },
    {
        match self.as_str() {
            Some(s) => Some(s.to_owned()),
            None => None,
        }
    }
}

impl<'a> PartialEq<str> for MappedContent<'a> {
    /// Whether the content is valid UTF-8 and reads `other`.
    fn eq(&self, other: &str) -> (r: bool) {
        match self.as_str() {
            Some(s) => chars_eq(&chars_of(s), &chars_of(other)),
            None => false,
        }
    }
}

impl<'a> vstd::std_specs::cmp::PartialEqSpecImpl<str> for MappedContent<'a> {
    open spec fn obeys_eq_spec() -> bool {
        true
    }

    open spec fn eq_spec(&self, other: &str) -> bool {
        self.text() == Some(other@)
    }
}

impl<'a, 'b> PartialEq<&'b str> for MappedContent<'a> {
    /// Whether the content is valid UTF-8 and reads `other`.
    fn eq(&self, other: &&'b str) -> (r: bool) {
        match self.as_str() {
            Some(s) => chars_eq(&chars_of(s), &chars_of(*other)),
            None => false,
        }
    }
}

impl<'a, 'b> vstd::std_specs::cmp::PartialEqSpecImpl<&'b str> for MappedContent<'a> {
    open spec fn obeys_eq_spec() -> bool {
        true
    }

    open spec fn eq_spec(&self, other: &&'b str) -> bool {
        self.text() == Some((*other)@)
    }
}

impl<'a> PartialEq<String> for MappedContent<'a> {
    /// Whether the content is valid UTF-8 and reads `other`.
    fn eq(&self, other: &String) -> (r: bool) {
        match self.as_str() {
            Some(s) => chars_eq(&chars_of(s), &chars_of(other.as_str())),
            None => false,
        }
    }
}

impl<'a> vstd::std_specs::cmp::PartialEqSpecImpl<String> for MappedContent<'a> {
    open spec fn obeys_eq_spec() -> bool {
        true
    }

    open spec fn eq_spec(&self, other: &String) -> bool {
        self.text() == Some(other@)
    }
}

/// A named file and its content.
pub struct FileEntry<'a> {
    pub name: String,
    pub content: MappedContent<'a>,
}

impl<'a> FileEntry<'a> {
    /// The file's text; content that is not UTF-8 counts as empty.
    pub open spec fn text(&self) -> Seq<char> {
        match self.content.text() {
            Some(t) => t,
            None => seq![],
        }
    }
}

/// A line of a file, numbered from one.
#[derive(PartialEq, Debug)]
pub struct LineEntry {
    pub file_name: String,
    pub line_number: u32,
    pub content: String,
}

/// A word and the number of times it occurs.
pub struct FrequencyItem {
    pub word: String,
    pub count: i32,
}

/// A line length and the number of lines of that length.
pub struct LineLengthItem {
    pub length: usize,
    pub count: usize,
}

} // verus!

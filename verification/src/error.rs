use vstd::prelude::*;
use vstd::string::StringExecFns;

verus! {

#[verifier::external_type_specification]
#[verifier::external_body]
pub struct ExReaderError(xml::reader::Error);

#[verifier::external_type_specification]
#[verifier::external_body]
pub struct ExWriterError(xml::writer::Error);

#[verifier::external_type_specification]
#[verifier::external_body]
pub struct ExFromUtf8Error(std::string::FromUtf8Error);

/// Everything that can go wrong while reading or writing a document.
#[derive(Debug)]
pub enum XmlError {
    /// The format has no way to express what was asked for.
    Unsupported(&'static str),
    /// The next event of the document is not the one that the current step needs, or a tag
    /// names no variant of the union that is read.
    Unexpected { expected: &'static str, but_got: String },
    /// An attribute field was met after the opening tag had already been written.
    AttributesMustComeBeforeElements { element_name: String, attribute_name: String },
    /// The value and its shape do not fit together.
    Custom(String),
    /// The tokenizer rejected the document.
    Reader(xml::reader::Error),
    /// The emitter rejected an event.
    Writer(xml::writer::Error),
    /// The emitter's output is no UTF-8.
    FromUtf8(std::string::FromUtf8Error),
    /// A text is no boolean.
    ParseBool(String),
    /// A text is no single character.
    ParseChar(String),
    /// A text is no integer of the requested kind.
    ParseInt(String),
    /// A closing tag does not carry the name of the element that is open.
    EndTagMismatch { expected: String, found: String },
}

/// An [`XmlError`] with its texts as sequences of characters.
pub enum XmlErrorView {
    Unsupported(Seq<char>),
    Unexpected { expected: Seq<char>, but_got: Seq<char> },
    AttributesMustComeBeforeElements { element_name: Seq<char>, attribute_name: Seq<char> },
    Custom(Seq<char>),
    Reader(xml::reader::Error),
    Writer(xml::writer::Error),
    FromUtf8(std::string::FromUtf8Error),
    ParseBool(Seq<char>),
    ParseChar(Seq<char>),
    ParseInt(Seq<char>),
    EndTagMismatch { expected: Seq<char>, found: Seq<char> },
}

impl View for XmlError {
    type V = XmlErrorView;

    open spec fn view(&self) -> XmlErrorView {
        match self {
            XmlError::Unsupported(what) => XmlErrorView::Unsupported(what@),
            XmlError::Unexpected { expected, but_got } => XmlErrorView::Unexpected {
                expected: expected@,
                but_got: but_got@,
            },
            XmlError::AttributesMustComeBeforeElements { element_name, attribute_name } => {
                XmlErrorView::AttributesMustComeBeforeElements {
                    element_name: element_name@,
                    attribute_name: attribute_name@,
                }
            },
            XmlError::Custom(message) => XmlErrorView::Custom(message@),
            XmlError::Reader(cause) => XmlErrorView::Reader(*cause),
            XmlError::Writer(cause) => XmlErrorView::Writer(*cause),
            XmlError::FromUtf8(cause) => XmlErrorView::FromUtf8(*cause),
            XmlError::ParseBool(text) => XmlErrorView::ParseBool(text@),
            XmlError::ParseChar(text) => XmlErrorView::ParseChar(text@),
            XmlError::ParseInt(text) => XmlErrorView::ParseInt(text@),
            XmlError::EndTagMismatch { expected, found } => XmlErrorView::EndTagMismatch {
                expected: expected@,
                found: found@,
            },
        }
    }
}

/// A result with its value and its error seen through their views.
pub open spec fn outcome<T: View>(r: Result<T, XmlError>) -> Result<T::V, XmlErrorView> {
    match r {
        Ok(value) => Ok(value@),
        Err(error) => Err(error@),
    }
}

impl XmlErrorView {
    /// Whether a sequence that pulls its members from the whole sibling run takes this error
    /// for the end of the run.
    pub open spec fn ends_a_run(self) -> bool {
        self is Custom || self is Unexpected
    }
}

/// `ToString::to_string` of an error of the reader of the `xml` crate. What it writes may
/// hold a message of the operating system; nothing is claimed of it.
#[verifier::external_body]
fn show_reader_error(error: &xml::reader::Error) -> (text: String) {
    error.to_string()
}

/// `ToString::to_string` of an error of the writer of the `xml` crate. What it writes may
/// hold a message of the operating system; nothing is claimed of it.
#[verifier::external_body]
fn show_writer_error(error: &xml::writer::Error) -> (text: String) {
    error.to_string()
}

/// `ToString::to_string` of an error of `String::from_utf8`. Nothing is claimed of what
/// it writes.
#[verifier::external_body]
fn show_utf8_error(error: &std::string::FromUtf8Error) -> (text: String) {
    error.to_string()
}

impl XmlErrorView {
    /// Whether the error is one of an outside crate or of the standard library, which
    /// brings its own words.
    pub open spec fn is_foreign(self) -> bool {
        self is Reader || self is Writer || self is FromUtf8
    }

    /// The error in words; for an error that brings its own words, what stands before
    /// them.
    pub open spec fn message(self) -> Seq<char> {
        match self {
            XmlErrorView::Unsupported(what) => "Unsupported operation "@ + what,
            XmlErrorView::Unexpected { expected, but_got } => "Expected "@ + expected
                + " but got "@ + but_got,
            XmlErrorView::AttributesMustComeBeforeElements { element_name, attribute_name } => {
                "In '"@ + element_name + "', attribute '"@ + attribute_name
                    + "' comes after at least one element. All attributes must come before any elements."@
            },
            XmlErrorView::Custom(message) => "Custom: "@ + message,
            XmlErrorView::Reader(_) => "Reader: "@,
            XmlErrorView::Writer(_) => "Writer: "@,
            XmlErrorView::FromUtf8(_) => "UTF-8: "@,
            XmlErrorView::ParseBool(text) => "Parse: "@ + text,
            XmlErrorView::ParseChar(text) => "Parse char: "@ + text,
            XmlErrorView::ParseInt(text) => "Parse int: "@ + text,
            XmlErrorView::EndTagMismatch { expected, found } => "Expected end of "@ + expected
                + " but got end of "@ + found,
        }
    }
}

impl XmlError {
    /// The error in words. An error of an outside crate or of the standard library is
    /// shown in its own words, behind a word that says where it came from.
    pub fn message(&self) -> (text: String)
        ensures
            !self@.is_foreign() ==> text@ == self@.message(),
            self@.is_foreign() ==> self@.message().is_prefix_of(text@),
    {
        match self {
            XmlError::Unsupported(what) => {
                let mut text = String::from_str("Unsupported operation ");
                text.append(what);
                text
            },
            XmlError::Unexpected { expected, but_got } => {
                let mut text = String::from_str("Expected ");
                text.append(expected);
                text.append(" but got ");
                text.append(but_got.as_str());
                text
            },
            XmlError::AttributesMustComeBeforeElements { element_name, attribute_name } => {
                let mut text = String::from_str("In '");
                text.append(element_name.as_str());
                text.append("', attribute '");
                text.append(attribute_name.as_str());
                text.append(
                    "' comes after at least one element. All attributes must come before any elements.",
                );
                text
            },
            XmlError::Custom(message) => {
                let mut text = String::from_str("Custom: ");
                text.append(message.as_str());
                text
            },
            XmlError::Reader(cause) => {
                let mut text = String::from_str("Reader: ");
                let shown = show_reader_error(cause);
                text.append(shown.as_str());
                text
            },
            XmlError::Writer(cause) => {
                let mut text = String::from_str("Writer: ");
                let shown = show_writer_error(cause);
                text.append(shown.as_str());
                text
            },
            XmlError::FromUtf8(cause) => {
                let mut text = String::from_str("UTF-8: ");
                let shown = show_utf8_error(cause);
                text.append(shown.as_str());
                text
            },
            XmlError::ParseBool(text) => {
                let mut shown = String::from_str("Parse: ");
                shown.append(text.as_str());
                shown
            },
            XmlError::ParseChar(text) => {
                let mut shown = String::from_str("Parse char: ");
                shown.append(text.as_str());
                shown
            },
            XmlError::ParseInt(text) => {
                let mut shown = String::from_str("Parse int: ");
                shown.append(text.as_str());
                shown
            },
            XmlError::EndTagMismatch { expected, found } => {
                let mut text = String::from_str("Expected end of ");
                text.append(expected.as_str());
                text.append(" but got end of ");
                text.append(found.as_str());
                text
            },
        }
    }

    /// Whether a sequence that pulls its members from the whole sibling run takes this error
    /// for the end of the run.
    pub fn ends_a_run(&self) -> (r: bool)
        ensures
            r == self@.ends_a_run(),
    {
        match self {
            XmlError::Custom(_) => true,
            XmlError::Unexpected { .. } => true,
            _ => false,
        }
    }
}

} // verus!

use vstd::prelude::*;
use crate::latex::{full_descriptor, LatexFormatOutputFormatDescriptor};
use crate::parser::GrammarDecodeError;

verus! {

/// The command line: where the grammar comes from, what to print, and which
/// fragments a LaTeX report holds.
#[derive(Debug, Clone)]
pub struct Args {
    pub file: Option<String>,
    pub base64: Option<String>,
    pub latex: bool,
    pub dot: bool,
    pub grammophone_link: bool,
    pub graphviz_link: bool,
    pub grammar_definition: bool,
    pub lr0_parsing_table: bool,
    pub slr1_parsing_table: bool,
    pub first_follow_set: bool,
    pub all: bool,
}

/// Where the grammar text comes from.
#[derive(Debug, Clone)]
pub enum InputType {
    File(String),
    Base64(String),
}

/// What is printed.
#[derive(Debug, Clone, Copy, PartialEq, Eq, Structural)]
pub enum OutputType {
    Latex,
    Dot,
}

/// The command line once its choices are settled.
#[derive(Debug, Clone)]
pub struct FinalizedArgs {
    pub input_type: InputType,
    pub output_type: OutputType,
    pub latex_format_descriptor: Option<LatexFormatOutputFormatDescriptor>,
}

/// Why the program could not start.
#[derive(Debug, Clone, PartialEq)]
pub enum InitError {
    GrammarDecodeError(GrammarDecodeError),
}

impl Args {
    /// No fragment flag is set.
    pub open spec fn no_fragment_flag(self) -> bool {
        !self.grammophone_link && !self.graphviz_link && !self.grammar_definition && !self.lr0_parsing_table
            && !self.slr1_parsing_table && !self.first_follow_set
    }

    /// Settles the choices: the one input given; LaTeX when asked for, DOT
    /// otherwise; and every fragment when `all` or no fragment flag is set.
    pub fn finalize(&self) -> (r: FinalizedArgs)
        requires
            self.file.is_some() != self.base64.is_some(),
            !(self.latex && self.dot),
        ensures
            match r.input_type {
                InputType::File(f) => self.file.is_some() && f@ == self.file.unwrap()@,
                InputType::Base64(b) => self.base64.is_some() && b@ == self.base64.unwrap()@,
            },
            r.output_type == if self.latex {
                OutputType::Latex
            } else {
                OutputType::Dot
            },
            (self.latex || self.dot) == r.latex_format_descriptor.is_some(),
            r.latex_format_descriptor.is_some() ==> r.latex_format_descriptor.unwrap() == if self.all || self.no_fragment_flag() {
                full_descriptor()
            } else {
                LatexFormatOutputFormatDescriptor {
                    grammophone_link: self.grammophone_link,
                    graphviz_link: self.graphviz_link,
                    grammar_definition: self.grammar_definition,
                    lr0_parsing_table: self.lr0_parsing_table,
                    slr1_parsing_table: self.slr1_parsing_table,
                    first_follow_set: self.first_follow_set,
                }
            },
    {
        let input_type = match &self.file {
            Some(f) => InputType::File(f.clone()),
            None => match &self.base64 {
                Some(b) => InputType::Base64(b.clone()),
                None => InputType::Base64(String::new()),
            },
        };
        let output_type = if self.latex {
            OutputType::Latex
        } else {
            OutputType::Dot
        };
        let descriptor = if self.all || (!self.grammophone_link && !self.graphviz_link && !self.grammar_definition
            && !self.lr0_parsing_table && !self.slr1_parsing_table && !self.first_follow_set) {
            LatexFormatOutputFormatDescriptor::full()
        } else {
            LatexFormatOutputFormatDescriptor {
                grammophone_link: self.grammophone_link,
                graphviz_link: self.graphviz_link,
                grammar_definition: self.grammar_definition,
                lr0_parsing_table: self.lr0_parsing_table,
                slr1_parsing_table: self.slr1_parsing_table,
                first_follow_set: self.first_follow_set,
            }
        };
        FinalizedArgs {
            input_type,
            output_type,
            latex_format_descriptor: if self.latex || self.dot {
                Some(descriptor)
            } else {
                None
            },
        }
    }
}

/// Names what base64's `STANDARD` engine decodes `s` to: the bytes, or
/// nothing where `s` is not padded standard base64.
pub uninterp spec fn base64_decoded(s: Seq<char>) -> Option<Seq<u8>>;

/// Names the text that the bytes `b` encode in UTF-8, or nothing where they
/// are not UTF-8.
pub uninterp spec fn utf8_text(b: Seq<u8>) -> Option<Seq<char>>;

/// Relies on base64's `STANDARD.decode`: the decoded bytes, or a
/// `DecodeError`; the result depends on the text alone.
#[verifier::external_body]
fn decode_base64_bytes(s: &str) -> (r: Option<Vec<u8>>)
    ensures
        match r {
            Some(b) => base64_decoded(s@) == Some(b@),
            None => base64_decoded(s@).is_none(),
        },
{
    base64::Engine::decode(&base64::engine::general_purpose::STANDARD, s).ok()
}

/// Relies on `String::from_utf8`: the text when the bytes are UTF-8.
#[verifier::external_body]
fn string_from_utf8(b: Vec<u8>) -> (r: Option<String>)
    ensures
        match r {
            Some(t) => utf8_text(b@) == Some(t@),
            None => utf8_text(b@).is_none(),
        },
{
    String::from_utf8(b).ok()
}

/// Decodes a base64 text into the grammar text that it carries.
pub fn decode_base_64(base64: String) -> (r: Result<String, GrammarDecodeError>)
    ensures
        match base64_decoded(base64@) {
            None => r matches Err(GrammarDecodeError::ParseError(_)),
            Some(b) => match utf8_text(b) {
                None => r matches Err(GrammarDecodeError::ParseError(_)),
                Some(t) => r.is_ok() && r.unwrap()@ == t,
            },
        },
{
    match decode_base64_bytes(base64.as_str()) {
        None => Err(GrammarDecodeError::ParseError(String::from_str("Failed to decode base64 string"))),
        Some(bytes) => match string_from_utf8(bytes) {
            None => Err(GrammarDecodeError::ParseError(String::from_str("Failed to convert bytes to string"))),
            Some(t) => Ok(t),
        },
    }
}

} // verus!

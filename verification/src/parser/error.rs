//! Errors of parsing.
use vstd::prelude::*;

use crate::number::IntErrorKind;
use crate::validator::{ValidatorError, ValidatorErrorView};

verus! {

/// A value that is neither `true` nor `false` where a boolean is expected.
#[derive(Debug, Clone, Copy, PartialEq, Eq)]
pub struct ParseBoolFailure;

/// Why parsing failed.
#[derive(Debug)]
pub enum ParserError {
    Checker(ValidatorError),
    UnsupportedFileType { path: String },
    NestedMarker { line: usize, path: String },
    EndWithoutBegin { line: usize, path: String },
    BeginWithoutEnd { line: usize, path: String },
    BothInputOutputMarker { comment: String },
    MultipleOutputMarker { comment: String },
    NoPatternMatch { pattern: String },
    /// A glob pattern refused by `glob`: where and why.
    Pattern { pos: usize, msg: String },
    InvalidOption { opt: String },
    InvalidIntOptionFormat { opt: String },
    InvalidOptionNameFormat { opt: String },
    MissingOptionName { opt: String },
    ParseIntError(IntErrorKind),
    ParseBoolError(ParseBoolFailure),
}

/// A parser error with its texts as character sequences.
pub enum ParserErrorView {
    Checker(ValidatorErrorView),
    UnsupportedFileType { path: Seq<char> },
    NestedMarker { line: usize, path: Seq<char> },
    EndWithoutBegin { line: usize, path: Seq<char> },
    BeginWithoutEnd { line: usize, path: Seq<char> },
    BothInputOutputMarker { comment: Seq<char> },
    MultipleOutputMarker { comment: Seq<char> },
    NoPatternMatch { pattern: Seq<char> },
    Pattern { pos: usize, msg: Seq<char> },
    InvalidOption { opt: Seq<char> },
    InvalidIntOptionFormat { opt: Seq<char> },
    InvalidOptionNameFormat { opt: Seq<char> },
    MissingOptionName { opt: Seq<char> },
    ParseIntError(IntErrorKind),
    ParseBoolError,
}

impl View for ParserError {
    type V = ParserErrorView;

    open spec fn view(&self) -> ParserErrorView {
        match self {
            ParserError::Checker(e) => ParserErrorView::Checker(e@),
            ParserError::UnsupportedFileType { path } => ParserErrorView::UnsupportedFileType {
                path: path@,
            },
            ParserError::NestedMarker { line, path } => ParserErrorView::NestedMarker {
                line: *line,
                path: path@,
            },
            ParserError::EndWithoutBegin { line, path } => ParserErrorView::EndWithoutBegin {
                line: *line,
                path: path@,
            },
            ParserError::BeginWithoutEnd { line, path } => ParserErrorView::BeginWithoutEnd {
                line: *line,
                path: path@,
            },
            ParserError::BothInputOutputMarker { comment } =>
                ParserErrorView::BothInputOutputMarker { comment: comment@ },
            ParserError::MultipleOutputMarker { comment } => ParserErrorView::MultipleOutputMarker {
                comment: comment@,
            },
            ParserError::NoPatternMatch { pattern } => ParserErrorView::NoPatternMatch {
                pattern: pattern@,
            },
            ParserError::Pattern { pos, msg } => ParserErrorView::Pattern { pos: *pos, msg: msg@ },
            ParserError::InvalidOption { opt } => ParserErrorView::InvalidOption { opt: opt@ },
            ParserError::InvalidIntOptionFormat { opt } => ParserErrorView::InvalidIntOptionFormat {
                opt: opt@,
            },
            ParserError::InvalidOptionNameFormat { opt } =>
                ParserErrorView::InvalidOptionNameFormat { opt: opt@ },
            ParserError::MissingOptionName { opt } => ParserErrorView::MissingOptionName {
                opt: opt@,
            },
            ParserError::ParseIntError(k) => ParserErrorView::ParseIntError(*k),
            ParserError::ParseBoolError(_) => ParserErrorView::ParseBoolError,
        }
    }
}

} // verus!

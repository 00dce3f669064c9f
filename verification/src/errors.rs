//! What can go wrong while a catalog is built and a playthrough is planned.

use vstd::prelude::*;
use vstd::string::*;

verus! {

#[derive(Debug, Clone, PartialEq, Eq)]
pub enum DjError {
    NoOutputDeviceAvailable,
    MaxRepeatsInvalidValue,
    UnrecognizedSongFormat(String),
    PathNotValidUnicode,
    InvalidFileName(String),
    MultipleSegmentsWithSameId(String, String),
    /// A plan grew past the step limit without reaching a stop.
    PlanTooLong,
}

/// A `DjError` with its strings as character sequences.
pub enum ErrorView {
    NoOutputDeviceAvailable,
    MaxRepeatsInvalidValue,
    UnrecognizedSongFormat(Seq<char>),
    PathNotValidUnicode,
    InvalidFileName(Seq<char>),
    MultipleSegmentsWithSameId(Seq<char>, Seq<char>),
    PlanTooLong,
}

impl ErrorView {
    /// The sentence that describes the error.
    pub open spec fn message(self) -> Seq<char> {
        match self {
            ErrorView::NoOutputDeviceAvailable => "no output device is available"@,
            ErrorView::MaxRepeatsInvalidValue => "invalid value for max-repeats"@,
            ErrorView::UnrecognizedSongFormat(name) => "'"@ + name
                + "' - unrecognized song format. Only wav, flac, ogg, mp3 and zip are supported"@,
            ErrorView::PathNotValidUnicode =>
                "one or several files have non Unicode characters in their path or filename"@,
            ErrorView::InvalidFileName(name) => "'"@ + name
                + "' - invalid file name. Files should be named in this format: song_1_start"@,
            ErrorView::MultipleSegmentsWithSameId(song, segment) =>
                "found multiple segments with same ID: Song: "@ + song + " Segment: "@ + segment,
            ErrorView::PlanTooLong => "plan too long"@,
        }
    }
}

impl View for DjError {
    type V = ErrorView;

    open spec fn view(&self) -> ErrorView {
        match self {
            DjError::NoOutputDeviceAvailable => ErrorView::NoOutputDeviceAvailable,
            DjError::MaxRepeatsInvalidValue => ErrorView::MaxRepeatsInvalidValue,
            DjError::UnrecognizedSongFormat(name) => ErrorView::UnrecognizedSongFormat(name@),
            DjError::PathNotValidUnicode => ErrorView::PathNotValidUnicode,
            DjError::InvalidFileName(name) => ErrorView::InvalidFileName(name@),
            DjError::MultipleSegmentsWithSameId(song, segment) =>
                ErrorView::MultipleSegmentsWithSameId(song@, segment@),
            DjError::PlanTooLong => ErrorView::PlanTooLong,
        }
    }
}

impl DjError {
    /// The sentence that describes the error, for a person to read.
    pub fn message(&self) -> (r: String)
        ensures
            r@ == self@.message(),
    {
        match self {
            DjError::NoOutputDeviceAvailable => String::from_str("no output device is available"),
            DjError::MaxRepeatsInvalidValue => String::from_str("invalid value for max-repeats"),
            DjError::UnrecognizedSongFormat(name) => {
                let mut r = String::from_str("'");
                r.append(name.as_str());
                r.append(
                    "' - unrecognized song format. Only wav, flac, ogg, mp3 and zip are supported",
                );
                r
            },
            DjError::PathNotValidUnicode => String::from_str(
                "one or several files have non Unicode characters in their path or filename",
            ),
            DjError::InvalidFileName(name) => {
                let mut r = String::from_str("'");
                r.append(name.as_str());
                r.append(
                    "' - invalid file name. Files should be named in this format: song_1_start",
                );
                r
            },
            DjError::MultipleSegmentsWithSameId(song, segment) => {
                let mut r = String::from_str("found multiple segments with same ID: Song: ");
                r.append(song.as_str());
                r.append(" Segment: ");
                r.append(segment.as_str());
                r
            },
            DjError::PlanTooLong => String::from_str("plan too long"),
        }
    }
}

} // verus!

//! Errors from FITS reading/writing and image output.

use vstd::prelude::*;

verus! {

/// Errors from FITS reading/writing and image output. Each carries the path or
/// the text that its message ends with.
#[derive(Debug)]
pub enum Error {
    Io(String),
    FileNotFound(String),
    NoImageData(String),
    Fits(String),
    UnsupportedLayout(String),
    Image(String),
}

impl Error {
    /// What the message starts with.
    pub open spec fn prefix(self) -> Seq<char> {
        match self {
            Error::Io(_) => "I/O error: "@,
            Error::FileNotFound(_) => "FITS file not found: "@,
            Error::NoImageData(_) => "no image data found in FITS file: "@,
            Error::Fits(_) => "FITS error: "@,
            Error::UnsupportedLayout(_) => "unsupported FITS layout: "@,
            Error::Image(_) => "image encoding error: "@,
        }
    }

    /// The path or the text that the error carries.
    pub open spec fn detail(self) -> Seq<char> {
        match self {
            Error::Io(s) => s@,
            Error::FileNotFound(s) => s@,
            Error::NoImageData(s) => s@,
            Error::Fits(s) => s@,
            Error::UnsupportedLayout(s) => s@,
            Error::Image(s) => s@,
        }
    }

    /// The message of the error.
    pub fn message(&self) -> (r: String)
        ensures
            r@ == self.prefix() + self.detail(),
    {
        let (prefix, detail) = match self {
            Error::Io(s) => ("I/O error: ", s),
            Error::FileNotFound(s) => ("FITS file not found: ", s),
            Error::NoImageData(s) => ("no image data found in FITS file: ", s),
            Error::Fits(s) => ("FITS error: ", s),
            Error::UnsupportedLayout(s) => ("unsupported FITS layout: ", s),
            Error::Image(s) => ("image encoding error: ", s),
        };
        let mut text = prefix.to_owned();
        text.append(detail.as_str());
        text
    }
}

} // verus!

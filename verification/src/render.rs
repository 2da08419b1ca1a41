//! What a document renderer is asked for and what it can answer: a rectangle
//! of a sheet to render, and the ways that can fail.

use vstd::prelude::*;

use crate::text::{dec, push_int, push_str, push_string};

verus! {

/// A rectangle of a sheet to render, in device pixels at the requested zoom,
/// with its origin at the sheet's top-left.
#[derive(Clone, Copy, PartialEq, Eq, Debug, Default, Structural)]
pub struct Tile {
    pub x: i32,
    pub y: i32,
    pub width: i32,
    pub height: i32,
}

impl Tile {
    pub fn new(x: i32, y: i32, width: i32, height: i32) -> (t: Self)
        ensures
            t == (Tile { x, y, width, height }),
    {
        Tile { x, y, width, height }
    }

    /// The whole sheet, given its device size.
    pub fn whole(width: i32, height: i32) -> (t: Self)
        ensures
            t == (Tile { x: 0, y: 0, width, height }),
    {
        Tile { x: 0, y: 0, width, height }
    }
}

/// Kept distinct so the distinctions the caller acts on stay distinct: "this
/// file is not a PDF" and "this file is not readable" want different sentences
/// in front of a person.
#[derive(Debug)]
pub enum Error {
    /// The file could not be opened or read.
    Io(String),
    /// The file opened but is not a document this tool can read.
    Format(String),
    /// A page number outside the document.
    NoSuchPage(i32),
    /// The requested tile has no area, or is so large it cannot be allocated.
    BadGeometry,
    /// The renderer refused, and this is what it said.
    Mupdf(String),
}

/// The sentence to put in front of a person for an error.
pub open spec fn spec_message(e: Error) -> Seq<char> {
    match e {
        Error::Io(s) => "cannot read the file: "@ + s@,
        Error::Format(s) => "not a document this tool can read: "@ + s@,
        Error::NoSuchPage(n) => "this document has no sheet "@ + dec(n as int),
        Error::BadGeometry => "the requested area is empty or too large"@,
        Error::Mupdf(s) => s@,
    }
}

impl Error {
    /// The sentence to put in front of a person.
    pub fn message(&self) -> (m: String)
        ensures
            m@ == spec_message(*self),
    {
        let mut m = String::new();
        match self {
            Error::Io(s) => {
                push_str(&mut m, "cannot read the file: ");
                push_string(&mut m, s);
            },
            Error::Format(s) => {
                push_str(&mut m, "not a document this tool can read: ");
                push_string(&mut m, s);
            },
            Error::NoSuchPage(n) => {
                push_str(&mut m, "this document has no sheet ");
                push_int(&mut m, *n as i64);
            },
            Error::BadGeometry => {
                push_str(&mut m, "the requested area is empty or too large");
            },
            Error::Mupdf(s) => {
                push_string(&mut m, s);
            },
        }
        proof {
            assert(m@ =~= spec_message(*self));
        }
        m
    }
}

} // verus!

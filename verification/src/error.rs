//! Why the index could not be read.

use vstd::prelude::*;
use vstd::string::*;

use crate::decimal::{decimal, push_decimal};

verus! {

/// What was read is not what this layout writes, or a cursor is not one it issued.
///
/// Each of the stored values carries the length that was found.
#[derive(Debug, PartialEq, Eq)]
pub enum Error {
    /// A key does not end in a 12-byte position.
    PositionKey(usize),
    /// A row is not a header, its flagged addresses and whole call targets.
    Row(usize),
    /// A counter is not 8 bytes.
    Count(usize),
    /// A tip is not 40 bytes.
    Tip(usize),
    /// A secondary entry names a position that holds no row.
    MissingRow,
    /// A cursor that does not name a position.
    Cursor(String),
}

impl Error {
    /// The text of the message.
    pub open spec fn text(self) -> Seq<char> {
        match self {
            Error::PositionKey(len) => "position key: expected 12 bytes, found "@ + decimal(
                len as nat,
            ),
            Error::Row(len) => "row value: "@ + decimal(len as nat)
                + " bytes is not a 54-byte header, its flagged addresses and whole call targets -- an index written by an older layout has to be deleted and rebuilt"@,
            Error::Count(len) => "count value: expected 8 bytes, found "@ + decimal(len as nat),
            Error::Tip(len) => "tip value: expected 40 bytes, found "@ + decimal(len as nat),
            Error::MissingRow => "secondary entry points at a missing row"@,
            Error::Cursor(cursor) => "malformed cursor: "@ + cursor@,
        }
    }

    /// The message, for whoever operates the node.
    pub fn message(&self) -> (r: String)
        ensures
            r@ == self.text(),
    {
        let mut out: String = String::new();
        match self {
            Error::PositionKey(len) => {
                out.append("position key: expected 12 bytes, found ");
                push_decimal(&mut out, *len as u64);
            },
            Error::Row(len) => {
                out.append("row value: ");
                push_decimal(&mut out, *len as u64);
                out.append(
                    " bytes is not a 54-byte header, its flagged addresses and whole call targets -- an index written by an older layout has to be deleted and rebuilt",
                );
            },
            Error::Count(len) => {
                out.append("count value: expected 8 bytes, found ");
                push_decimal(&mut out, *len as u64);
            },
            Error::Tip(len) => {
                out.append("tip value: expected 40 bytes, found ");
                push_decimal(&mut out, *len as u64);
            },
            Error::MissingRow => {
                out.append("secondary entry points at a missing row");
            },
            Error::Cursor(cursor) => {
                out.append("malformed cursor: ");
                out.append(cursor.as_str());
            },
        }
        assert(out@ =~= self.text());
        out
    }
}

/// A message says what was found: how long the value was, in decimal, or which cursor it was.
pub proof fn a_message_says_what_was_found(e: &Error, r: String)
    requires
        call_ensures(Error::message, (e,), r),
    ensures
        *e matches Error::PositionKey(len) ==> r@ == "position key: expected 12 bytes, found "@
            + decimal(len as nat),
        *e matches Error::Row(len) ==> r@ == "row value: "@ + decimal(len as nat)
            + " bytes is not a 54-byte header, its flagged addresses and whole call targets -- an index written by an older layout has to be deleted and rebuilt"@,
        *e matches Error::Count(len) ==> r@ == "count value: expected 8 bytes, found "@ + decimal(
            len as nat,
        ),
        *e matches Error::Tip(len) ==> r@ == "tip value: expected 40 bytes, found "@ + decimal(
            len as nat,
        ),
        *e is MissingRow ==> r@ == "secondary entry points at a missing row"@,
        *e matches Error::Cursor(cursor) ==> r@ == "malformed cursor: "@ + cursor@,
{
}

} // verus!

//! The on-disk format marker: what stops a directory that an older layout wrote from being served
//! under the current one.
//!
//! Table keys used to be name-prefixed (`orders/o1`); they are now a numeric table id and the key,
//! and the region table and catalog changed shape with them. Nothing detects that by itself: an
//! old directory opens cleanly, and every key in it belongs to a table that nobody can name. So a
//! directory states its format, and a node refuses one that it does not recognize. There is no
//! migration.

use vstd::prelude::*;
use crate::text;

verus! {

/// The current on-disk format. It is raised when a change makes an existing directory unreadable.
///
/// 1. name-prefixed table keys, node-declared catalog.
/// 2. numeric table ids, allocated by the placement driver, which owns the catalog.
pub const FORMAT: u32 = 2;

/// The marker's file.
pub const FORMAT_FILE: &'static str = "format";

/// What a marker begins with.
pub const MARKER_PREFIX: &'static str = "arcux-format";

/// Why a directory is refused.
#[derive(Clone, Copy, Debug, PartialEq, Eq, Structural)]
pub enum FormatError {
    /// Its marker is of another format.
    Other(u32),
    /// Its marker cannot be read.
    Unreadable,
    /// It has no marker, and is not empty.
    Unmarked,
}

impl FormatError {
    /// What the operator is told of the directory `dir`, which is used for `what`.
    pub open spec fn text(self, what: Seq<char>, dir: Seq<char>) -> Seq<char> {
        let head = what + " directory '"@ + dir;
        match self {
            FormatError::Other(n) => head + "' is arcux format "@ + text::decimal(n as nat)
                + ", but this build uses format "@ + text::decimal(2)
                + ". There is no migration — point it at a fresh directory"@,
            FormatError::Unreadable => head
                + "' has an unreadable format marker. Point it at a fresh directory"@,
            FormatError::Unmarked => head
                + "' was written by an older arcux: table keys were name-prefixed ('orders/o1') and are now a 4-byte numeric table id. There is no migration — point --data at a fresh directory, or delete this one to start over"@,
        }
    }

    /// What the operator is told of the directory `dir`, which is used for `what`.
    pub fn message(&self, what: &str, dir: &str) -> (r: String)
        ensures
            r@ == self.text(what@, dir@),
    {
        let mut s = text::owned(what);
        s.push_str(" directory '");
        s.push_str(dir);
        match self {
            FormatError::Other(n) => {
                s.push_str("' is arcux format ");
                text::push_decimal(&mut s, *n as u64);
                s.push_str(", but this build uses format ");
                text::push_decimal(&mut s, FORMAT as u64);
                s.push_str(". There is no migration — point it at a fresh directory");
            },
            FormatError::Unreadable => {
                s.push_str("' has an unreadable format marker. Point it at a fresh directory");
            },
            FormatError::Unmarked => {
                s.push_str(
                    "' was written by an older arcux: table keys were name-prefixed ('orders/o1') and are now a 4-byte numeric table id. There is no migration — point --data at a fresh directory, or delete this one to start over",
                );
            },
        }
        s
    }
}

/// The format that a marker's text states.
pub open spec fn stated(t: Seq<char>) -> Option<nat> {
    let line = text::trimmed(t);
    if text::begins(line, "arcux-format"@) {
        text::parse_unsigned(
            text::trimmed(line.skip("arcux-format"@.len() as int)),
            u32::MAX as nat,
        )
    } else {
        None
    }
}

/// The format that a marker states, where it can be read.
pub open spec fn found(marker: Seq<u8>) -> Option<nat> {
    match text::text_of(marker) {
        Some(t) => stated(t),
        None => None,
    }
}

/// The text of the current marker.
pub open spec fn stamp_text() -> Seq<char> {
    "arcux-format"@ + " "@ + text::decimal(2) + "\n"@
}

/// The current marker.
pub open spec fn stamp() -> Seq<u8> {
    vstd::utf8::encode_utf8(stamp_text())
}

/// What becomes of a directory: it is taken as it is, it is taken and stamped, or it is refused.
pub open spec fn verdict(marker: Option<Seq<u8>>, empty: bool) -> Result<
    Option<Seq<u8>>,
    FormatError,
> {
    match marker {
        Some(b) => match found(b) {
            Some(n) => if n == 2 {
                Ok(None)
            } else {
                Err(FormatError::Other(n as u32))
            },
            None => Err(FormatError::Unreadable),
        },
        None => if empty {
            Ok(Some(stamp()))
        } else {
            Err(FormatError::Unmarked)
        },
    }
}

/// Read a marker.
fn read_marker(marker: &[u8]) -> (r: Option<u32>)
    ensures
        match r {
            Some(n) => found(marker@) == Some(n as nat),
            None => found(marker@) is None,
        },
{
    let t = match text::from_utf8(marker) {
        Some(t) => t,
        None => {
            return None;
        },
    };
    let line: &str = text::trim(t.as_str());
    match text::strip_prefix(line, MARKER_PREFIX) {
        Some(v) => match text::parse_u64(text::trim(v), u32::MAX as u64) {
            Some(n) => Some(n as u32),
            None => None,
        },
        None => None,
    }
}

/// Check a directory's format, from what its marker file holds and whether the directory is empty.
/// The bytes that are returned are the marker of a new directory, to be written to it.
///
/// A directory of the first format has no marker at all, so absence alone cannot mean "fresh": an
/// unmarked directory with anything in it is an old one, and is refused.
pub fn check_or_init(marker: Option<&[u8]>, empty: bool) -> (r: Result<Option<Vec<u8>>, FormatError>)
    ensures
        match verdict(
            match marker {
                Some(b) => Some(b@),
                None => None,
            },
            empty,
        ) {
            Ok(Some(b)) => r matches Ok(Some(v)) && v@ == b,
            Ok(None) => r matches Ok(None),
            Err(e) => r == Err::<Option<Vec<u8>>, FormatError>(e),
        },
{
    match marker {
        Some(b) => match read_marker(b) {
            Some(n) => if n == FORMAT {
                Ok(None)
            } else {
                Err(FormatError::Other(n))
            },
            None => Err(FormatError::Unreadable),
        },
        None => {
            if !empty {
                return Err(FormatError::Unmarked);
            }
            let mut s = text::owned(MARKER_PREFIX);
            s.push_str(" ");
            text::push_decimal(&mut s, FORMAT as u64);
            s.push_str("\n");
            let mut out: Vec<u8> = Vec::new();
            crate::bytes::push_all(&mut out, text::utf8_bytes(s.as_str()));
            assert(out@ =~= stamp());
            Ok(Some(out))
        },
    }
}

/// A stamped directory is accepted from then on, whatever else it holds.
pub proof fn law_stamped(empty: bool)
    ensures
        verdict(Some(stamp()), empty) == Ok::<Option<Seq<u8>>, FormatError>(None),
{
    text::lemma_text_roundtrip(stamp_text());
    reveal_strlit("arcux-format");
    reveal_strlit(" ");
    reveal_strlit("\n");
    reveal_with_fuel(text::decimal, 2);
    let p = "arcux-format"@;
    let t = stamp_text();
    let two = seq!['2'];
    assert(text::decimal(2) =~= two);
    assert(t =~= p + seq![' ', '2', '\n']);
    let line = p + seq![' ', '2'];
    assert(text::trim_start(t) == t);
    assert(t.drop_last() =~= line);
    assert(text::trim_end(line) == line);
    assert(text::trimmed(t) == line);
    assert(line.take(p.len() as int) =~= p);
    let rest = line.skip(p.len() as int);
    assert(rest =~= seq![' ', '2']);
    assert(rest.skip(1) =~= two);
    assert(text::trim_start(two) == two);
    assert(text::trim_start(rest) == two);
    assert(text::trim_end(two) == two);
    reveal_with_fuel(text::digits_value, 2);
    assert(two.drop_last() =~= Seq::<char>::empty());
    assert(text::digits_value(two) == Some(2nat));
}

/// The marker of a format.
pub open spec fn marker_of(n: u32) -> Seq<u8> {
    vstd::utf8::encode_utf8("arcux-format "@ + text::decimal(n as nat) + "\n"@)
}

/// A directory is taken exactly where its marker is of this format, whatever else it holds; one of
/// any other format is refused with that format's number. A directory without a marker is taken,
/// and stamped with this format's, where it is empty, and refused where it is not.
pub proof fn law_verdict(n: u32, empty: bool)
    ensures
        verdict(Some(marker_of(n)), empty) == if n == 2 {
            Ok::<Option<Seq<u8>>, FormatError>(None)
        } else {
            Err(FormatError::Other(n))
        },
        verdict(None, true) == Ok::<Option<Seq<u8>>, FormatError>(Some(marker_of(2))),
        verdict(None, false) == Err::<Option<Seq<u8>>, FormatError>(FormatError::Unmarked),
{
    reveal_strlit("arcux-format");
    reveal_strlit("arcux-format ");
    reveal_strlit(" ");
    reveal_strlit("\n");
    let p = "arcux-format"@;
    let d = text::decimal(n as nat);
    let t = "arcux-format "@ + d + "\n"@;
    assert("arcux-format "@ =~= p + " "@);
    assert("arcux-format "@ + text::decimal(2) + "\n"@ =~= stamp_text());
    text::lemma_text_roundtrip(t);
    text::lemma_decimal(n as nat);
    let line = p + seq![' '] + d;
    assert(t.drop_last() =~= line);
    assert(t[0] == 'a');
    assert(text::trim_start(t) == t);
    assert(t.last() == '\n');
    assert(line.last() == d.last());
    assert(text::trim_end(line) == line);
    assert(text::trimmed(t) == line);
    assert(line.take(p.len() as int) =~= p);
    let rest = line.skip(p.len() as int);
    assert(rest =~= seq![' '] + d);
    assert(rest.skip(1) =~= d);
    assert(d[0] == d[0]);
    assert(text::trim_start(d) == d);
    assert(text::trim_start(rest) == d);
    assert(text::trim_end(d) == d);
    text::law_decimal_roundtrip(n as nat, u32::MAX as nat);
}

} // verus!

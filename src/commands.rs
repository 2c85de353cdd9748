//! What the `cat-file` and `ls-tree` operations compute from a stored
//! object, short of reading the file and writing the output.

use vstd::prelude::*;

use crate::error::ObjectError;
use crate::framing::push_all;
use crate::objects::{body_spec, parse_header_spec, Object, ObjectKind};
use crate::tree::{decode_entries, entries_spec, entry_line, EntryView, TreeEntry};
use crate::zlib::{zlib_decompress, zlib_decompressed};

verus! {

/// The payload of a blob, from its decompressed bytes; other kinds are
/// refused.
pub open spec fn cat_spec(raw: Seq<u8>) -> Result<Seq<u8>, ObjectError> {
    match parse_header_spec(raw) {
        Err(e) => Err(e),
        Ok((kind, n, c)) => if kind != ObjectKind::Blob {
            Err(ObjectError::UnsupportedType)
        } else {
            body_spec(raw.subrange(c as int, raw.len() as int), n)
        },
    }
}

/// The listing lines of a sequence of entries, in order.
pub open spec fn listing(entries: Seq<EntryView>, name_only: bool) -> Seq<u8>
    decreases entries.len(),
{
    if entries.len() == 0 {
        seq![]
    } else {
        listing(entries.drop_last(), name_only) + entry_line(entries.last(), name_only)
    }
}

/// The listing of a tree, from its decompressed bytes; other kinds are
/// refused.
pub open spec fn ls_spec(raw: Seq<u8>, name_only: bool) -> Result<Seq<u8>, ObjectError> {
    match parse_header_spec(raw) {
        Err(e) => Err(e),
        Ok((kind, n, c)) => if kind != ObjectKind::Tree {
            Err(ObjectError::UnsupportedType)
        } else {
            match entries_spec(raw.subrange(c as int, raw.len() as int), n) {
                Err(e) => Err(e),
                Ok(entries) => Ok(listing(entries, name_only)),
            }
        },
    }
}

/// The payload of a blob from its decompressed bytes.
pub fn cat_blob(raw: Vec<u8>) -> (r: Result<Vec<u8>, ObjectError>)
    ensures
        match cat_spec(raw@) {
            Err(e) => r == Err::<Vec<u8>, ObjectError>(e),
            Ok(body) => r matches Ok(v) && v@ == body,
        },
{
    let object = match Object::parse(raw) {
        Err(e) => return Err(e),
        Ok(object) => object,
    };
    if object.kind != ObjectKind::Blob {
        return Err(ObjectError::UnsupportedType);
    }
    object.read_body()
}

/// The payload of a blob from the compressed bytes of its file.
pub fn cat_file(stored: &[u8]) -> (r: Result<Vec<u8>, ObjectError>)
    ensures
        zlib_decompressed(stored@) is None ==> r == Err::<Vec<u8>, ObjectError>(ObjectError::Io),
        zlib_decompressed(stored@) matches Some(raw) ==> match cat_spec(raw) {
            Err(e) => r == Err::<Vec<u8>, ObjectError>(e),
            Ok(body) => r matches Ok(v) && v@ == body,
        },
{
    match zlib_decompress(stored) {
        None => Err(ObjectError::Io),
        Some(raw) => cat_blob(raw),
    }
}

/// The listing of a tree from its decompressed bytes: one line per entry,
/// in stored order.
pub fn list_tree(raw: Vec<u8>, name_only: bool) -> (r: Result<Vec<u8>, ObjectError>)
    ensures
        match ls_spec(raw@, name_only) {
            Err(e) => r == Err::<Vec<u8>, ObjectError>(e),
            Ok(text) => r matches Ok(v) && v@ == text,
        },
{
    let object = match Object::parse(raw) {
        Err(e) => return Err(e),
        Ok(object) => object,
    };
    if object.kind != ObjectKind::Tree {
        return Err(ObjectError::UnsupportedType);
    }
    let entries = match decode_entries(object.body_reader, object.expected_size) {
        Err(e) => return Err(e),
        Ok(entries) => entries,
    };
    let ghost views = entries@.map_values(|t: TreeEntry| t@);
    let mut out: Vec<u8> = Vec::new();
    let mut i: usize = 0;
    while i < entries.len()
        invariant
            i <= entries@.len(),
            views == entries@.map_values(|t: TreeEntry| t@),
            out@ == listing(views.subrange(0, i as int), name_only),
        decreases entries@.len() - i,
    {
        let line = entries[i].display(name_only);
        push_all(&mut out, line.as_slice());
        i = i + 1;
        assert(views.subrange(0, i as int).drop_last() =~= views.subrange(0, i - 1));
    }
    assert(views.subrange(0, i as int) =~= views);
    Ok(out)
}

/// The listing of a tree from the compressed bytes of its file.
pub fn ls_tree(stored: &[u8], name_only: bool) -> (r: Result<Vec<u8>, ObjectError>)
    ensures
        zlib_decompressed(stored@) is None ==> r == Err::<Vec<u8>, ObjectError>(ObjectError::Io),
        zlib_decompressed(stored@) matches Some(raw) ==> match ls_spec(raw, name_only) {
            Err(e) => r == Err::<Vec<u8>, ObjectError>(e),
            Ok(text) => r matches Ok(v) && v@ == text,
        },
{
    match zlib_decompress(stored) {
        None => Err(ObjectError::Io),
        Some(raw) => list_tree(raw, name_only),
    }
}

} // verus!

//! Decoding the body of a tree object into its directory entries.

use vstd::prelude::*;
use vstd::string::*;
use vstd::utf8::*;

use crate::digest::{hash_to_hex, hex_text};
use crate::error::ObjectError;
use crate::framing::{
    all_digits, decimal_digits, digits_value, parse_decimal, parse_decimal_spec, push_all,
    push_decimal, DIGIT_ZERO, NUL, SPACE,
};
use crate::objects::{
    kind_tag, lemma_ascii_valid_utf8, mode_number, mode_object_kind, mode_of_number, ObjectKind,
    ObjectMode,
};
use crate::reader::{index_of, lemma_index_of, lemma_index_of_props, position_of, ByteReader};
use crate::text::utf8_str;

verus! {

/// The length of an identifier in bytes.
pub const HASH_LEN: usize = 20;

/// A directory entry: its mode, its name and the identifier it refers to.
pub struct TreeEntry {
    pub mode: ObjectMode,
    pub name: String,
    pub sha: Vec<u8>,
}

/// The mathematical form of a directory entry.
pub type EntryView = (ObjectMode, Seq<char>, Seq<u8>);

impl View for TreeEntry {
    type V = EntryView;

    open spec fn view(&self) -> EntryView {
        (self.mode, self.name@, self.sha@)
    }
}

/// ASCII tab.
pub const TAB: u8 = 9;

/// ASCII line feed.
pub const NEWLINE: u8 = 10;

/// The decimal spelling of `n`, padded with leading zeros to six digits.
pub open spec fn padded_mode(n: nat) -> Seq<u8> {
    let d = decimal_digits(n);
    if d.len() < 6 {
        Seq::new((6 - d.len()) as nat, |i: int| DIGIT_ZERO) + d
    } else {
        d
    }
}

/// The listing line of an entry: its name alone, or
/// `<mode, six digits> <type> <hex identifier>\t<name>`; then a line feed.
pub open spec fn entry_line(e: EntryView, name_only: bool) -> Seq<u8> {
    if name_only {
        encode_utf8(e.1) + seq![NEWLINE]
    } else {
        padded_mode(mode_number(e.0) as nat) + seq![SPACE] + kind_tag(mode_object_kind(e.0))
            + seq![SPACE] + encode_utf8(hex_text(e.2)) + seq![TAB] + encode_utf8(e.1)
            + seq![NEWLINE]
    }
}

impl TreeEntry {
    /// An entry with the given mode, name and identifier.
    pub fn new(mode: ObjectMode, name: &str, sha: Vec<u8>) -> (r: TreeEntry)
        ensures
            r@ == (mode, name@, sha@),
    {
        TreeEntry { mode, name: String::from_str(name), sha }
    }

    /// The line that lists this entry.
    pub fn display(&self, name_only: bool) -> (r: Vec<u8>)
        ensures
            r@ == entry_line(self@, name_only),
    {
        let mut out: Vec<u8> = Vec::new();
        if name_only {
            push_all(&mut out, self.name.as_str().as_bytes());
            out.push(NEWLINE);
            assert(out@ =~= entry_line(self@, name_only));
            return out;
        }
        let mut digits: Vec<u8> = Vec::new();
        push_decimal(&mut digits, self.mode.to_number() as usize);
        assert(digits@ =~= decimal_digits(mode_number(self.mode) as nat));
        let mut pad = digits.len();
        while pad < 6
            invariant
                digits@.len() <= pad,
                pad <= 6 || pad == digits@.len(),
                out@ == Seq::new((pad - digits@.len()) as nat, |i: int| DIGIT_ZERO),
            decreases 6 - pad,
        {
            out.push(DIGIT_ZERO);
            pad = pad + 1;
            assert(out@ =~= Seq::new((pad - digits@.len()) as nat, |i: int| DIGIT_ZERO));
        }
        push_all(&mut out, digits.as_slice());
        assert(out@ =~= padded_mode(mode_number(self.mode) as nat));
        out.push(SPACE);
        let kind = match self.mode {
            ObjectMode::Directory => ObjectKind::Tree,
            _ => ObjectKind::Blob,
        };
        let tag = kind.tag_bytes();
        push_all(&mut out, tag.as_slice());
        out.push(SPACE);
        let hex = hash_to_hex(self.sha.as_slice());
        push_all(&mut out, hex.as_str().as_bytes());
        out.push(TAB);
        push_all(&mut out, self.name.as_str().as_bytes());
        out.push(NEWLINE);
        assert(out@ =~= entry_line(self@, name_only));
        out
    }
}

/// Reads one entry from the front of `s`, with `remaining` bytes of the
/// declared body left: the entry and how many bytes it takes.
///
/// An entry is `<mode> <name>\0` followed by a 20-byte identifier. A stream
/// that ends before the entry does, or an entry that runs past the declared
/// length, is truncated.
pub open spec fn parse_entry_spec(s: Seq<u8>, remaining: nat) -> Result<
    (EntryView, nat),
    ObjectError,
> {
    match index_of(s, NUL) {
        None => Err(ObjectError::Truncated),
        Some(k) => {
            let h = s.subrange(0, k as int);
            if !valid_utf8(h) {
                Err(ObjectError::CorruptHeader)
            } else {
                match index_of(h, SPACE) {
                    None => Err(ObjectError::CorruptHeader),
                    Some(sp) => match parse_decimal_spec(h.subrange(0, sp as int), u32::MAX as nat) {
                        None => Err(ObjectError::InvalidMode),
                        Some(v) => match mode_of_number(v) {
                            None => Err(ObjectError::InvalidMode),
                            Some(mode) => if s.len() < k + 1 + HASH_LEN || k + 1 + HASH_LEN
                                > remaining {
                                Err(ObjectError::Truncated)
                            } else {
                                Ok(
                                    (
                                        (
                                            mode,
                                            decode_utf8(h.subrange(sp as int + 1, k as int)),
                                            s.subrange(k as int + 1, k as int + 1 + HASH_LEN),
                                        ),
                                        (k + 1 + HASH_LEN) as nat,
                                    ),
                                )
                            },
                        },
                    },
                }
            }
        },
    }
}

/// The entries of a tree body: entries are read until the declared length
/// is used up exactly, and then nothing may follow.
pub open spec fn entries_spec(s: Seq<u8>, remaining: nat) -> Result<Seq<EntryView>, ObjectError>
    decreases remaining,
{
    if remaining == 0 {
        if s.len() == 0 {
            Ok(seq![])
        } else {
            Err(ObjectError::TrailingData)
        }
    } else {
        match parse_entry_spec(s, remaining) {
            Err(e) => Err(e),
            Ok((entry, c)) => if 0 < c <= remaining {
                match entries_spec(s.subrange(c as int, s.len() as int), (remaining - c) as nat) {
                    Err(e) => Err(e),
                    Ok(rest) => Ok(seq![entry] + rest),
                }
            } else {
                // not taken: an entry that parses fits in `remaining`
                Err(ObjectError::Truncated)
            },
        }
    }
}

/// The bytes after an ASCII byte of valid UTF-8 are valid UTF-8 too.
proof fn lemma_valid_after_ascii(h: Seq<u8>, sp: int)
    requires
        valid_utf8(h),
        0 <= sp < h.len(),
        h[sp] < 128,
    ensures
        valid_utf8(h.subrange(sp + 1, h.len() as int)),
{
    is_char_boundary_iff_not_is_continuation_byte(h, sp);
    valid_utf8_split(h, sp);
    let t = h.subrange(sp, h.len() as int);
    assert(t[0] == h[sp]);
    assert(pop_first_scalar(t) =~= h.subrange(sp + 1, h.len() as int));
}

/// An entry whose mode field is `999999`, a number outside the known codes,
/// fails with `InvalidMode` rather than giving an entry: whatever its name
/// (valid UTF-8 without NUL), whatever follows it, and whatever length is
/// left.
pub proof fn lemma_unknown_mode_rejected(name: Seq<u8>, rest: Seq<u8>, remaining: nat)
    requires
        valid_utf8(name),
        forall|i: int| 0 <= i < name.len() ==> #[trigger] name[i] != NUL,
    ensures
        parse_entry_spec(
            seq![57u8, 57u8, 57u8, 57u8, 57u8, 57u8, SPACE] + name + seq![NUL] + rest,
            remaining,
        ) == Err::<(EntryView, nat), ObjectError>(ObjectError::InvalidMode),
        remaining > 0 ==> entries_spec(
            seq![57u8, 57u8, 57u8, 57u8, 57u8, 57u8, SPACE] + name + seq![NUL] + rest,
            remaining,
        ) == Err::<Seq<EntryView>, ObjectError>(ObjectError::InvalidMode),
{
    let field = seq![57u8, 57u8, 57u8, 57u8, 57u8, 57u8];
    let lead = field.push(SPACE);
    let h = lead + name;
    let s = h + seq![NUL] + rest;
    assert(lead =~= seq![57u8, 57u8, 57u8, 57u8, 57u8, 57u8, SPACE]);
    assert forall|j: int| 0 <= j < h.len() implies #[trigger] h[j] != NUL by {
        if j >= 7 {
            assert(h[j] == name[j - 7]);
        }
    }
    assert forall|j: int| 0 <= j < h.len() implies s[j] == #[trigger] h[j] by {}
    lemma_index_of(s, NUL, h.len() as int);
    assert(s.subrange(0, h.len() as int) =~= h);
    assert forall|j: int| 0 <= j < lead.len() implies #[trigger] lead[j] < 128 by {}
    lemma_ascii_valid_utf8(lead);
    valid_utf8_concat(lead, name);
    lemma_index_of(h, SPACE, 6);
    assert(h.subrange(0, 6) =~= field);
    assert(field.drop_last() =~= seq![57u8, 57u8, 57u8, 57u8, 57u8]);
    assert(field.drop_last().drop_last() =~= seq![57u8, 57u8, 57u8, 57u8]);
    assert(field.drop_last().drop_last().drop_last() =~= seq![57u8, 57u8, 57u8]);
    assert(field.drop_last().drop_last().drop_last().drop_last() =~= seq![57u8, 57u8]);
    assert(field.drop_last().drop_last().drop_last().drop_last().drop_last() =~= seq![57u8]);
    assert(seq![57u8].drop_last() =~= Seq::<u8>::empty());
    reveal_with_fuel(digits_value, 7);
    assert(digits_value(field) == 999999);
    assert(all_digits(field));
    assert(parse_decimal_spec(field, u32::MAX as nat) == Some(999999nat));
    assert(index_of(s, NUL) == Some(h.len()));
    assert(valid_utf8(h));
    assert(index_of(h, SPACE) == Some(6nat));
}

/// Reads one entry from `reader` with `remaining` bytes of the declared body
/// left; on success the reader stands after the entry.
pub fn parse_tree_entry(reader: &mut ByteReader, remaining: usize) -> (r: Result<
    (TreeEntry, usize),
    ObjectError,
>)
    ensures
        match parse_entry_spec(old(reader)@, remaining as nat) {
            Err(e) => r matches Err(e2) && e2 == e,
            Ok((entry, c)) => r matches Ok((t, n)) && t@ == entry && n == c && final(reader)@
                == old(reader)@.subrange(c as int, old(reader)@.len() as int),
        },
{
    let ghost s = reader@;
    let buf = reader.read_until(NUL);
    let len = buf.len();
    proof {
        lemma_index_of_props(s, NUL);
    }
    if len == 0 || buf[len - 1] != NUL {
        return Err(ObjectError::Truncated);
    }
    let k = len - 1;
    let header = &buf.as_slice()[0..k];
    assert(header@ =~= s.subrange(0, k as int));
    if utf8_str(header).is_none() {
        return Err(ObjectError::CorruptHeader);
    }
    let sp = match position_of(header, SPACE) {
        None => return Err(ObjectError::CorruptHeader),
        Some(sp) => sp,
    };
    proof {
        lemma_index_of_props(header@, SPACE);
    }
    let number = match parse_decimal(header, 0, sp, 0xffff_ffff) {
        None => return Err(ObjectError::InvalidMode),
        Some(v) => v,
    };
    let mode = match ObjectMode::from_number(number as u32) {
        None => return Err(ObjectError::InvalidMode),
        Some(mode) => mode,
    };
    let name_bytes = &header[sp + 1..k];
    proof {
        lemma_valid_after_ascii(header@, sp as int);
        assert(name_bytes@ =~= header@.subrange(sp + 1, k as int));
    }
    let name = match utf8_str(name_bytes) {
        None => return Err(ObjectError::CorruptHeader),
        Some(name) => name,
    };
    let sha = reader.read(HASH_LEN);
    if sha.len() < HASH_LEN || remaining < HASH_LEN || k >= remaining - HASH_LEN {
        return Err(ObjectError::Truncated);
    }
    Ok((TreeEntry::new(mode, name, sha), k + 1 + HASH_LEN))
}

/// A single pass over the entries of a tree body. It stops once the
/// declared length is used up, and after the first failure.
pub struct TreeEntryIter {
    body_reader: ByteReader,
    remaining_bytes: usize,
    failed: bool,
}

impl TreeEntryIter {
    /// A pass over a body of `expected_size` declared bytes.
    pub fn new(body_reader: ByteReader, expected_size: usize) -> (r: TreeEntryIter)
        ensures
            r.stream() == body_reader@,
            r.remaining() == expected_size,
            !r.failed(),
    {
        TreeEntryIter { body_reader, remaining_bytes: expected_size, failed: false }
    }

    /// The bytes that the body reader still holds.
    pub closed spec fn stream(&self) -> Seq<u8> {
        self.body_reader@
    }

    /// How much of the declared length is left.
    pub closed spec fn remaining(&self) -> nat {
        self.remaining_bytes as nat
    }

    /// Whether an entry failed to decode.
    pub closed spec fn failed(&self) -> bool {
        self.failed
    }

    /// The next entry; `None` once the declared length is used up or after
    /// a failure.
    pub fn next(&mut self) -> (r: Option<Result<TreeEntry, ObjectError>>)
        ensures
            old(self).failed() || old(self).remaining() == 0 ==> r is None && final(self).stream()
                == old(self).stream() && final(self).remaining() == old(self).remaining()
                && final(self).failed() == old(self).failed(),
            !old(self).failed() && old(self).remaining() > 0 ==> match parse_entry_spec(
                old(self).stream(),
                old(self).remaining(),
            ) {
                Err(e) => (r matches Some(Err(e2)) && e2 == e) && final(self).failed(),
                Ok((entry, c)) => (r matches Some(Ok(t)) && t@ == entry) && !final(self).failed()
                    && final(self).stream() == old(self).stream().subrange(
                    c as int,
                    old(self).stream().len() as int,
                ) && final(self).remaining() == old(self).remaining() - c,
            },
    {
        if self.failed || self.remaining_bytes == 0 {
            return None;
        }
        match parse_tree_entry(&mut self.body_reader, self.remaining_bytes) {
            Err(e) => {
                self.failed = true;
                Some(Err(e))
            },
            Ok((entry, n)) => {
                self.remaining_bytes = self.remaining_bytes - n;
                Some(Ok(entry))
            },
        }
    }

    /// Whether the body reader holds nothing more.
    pub fn at_end(&self) -> (r: bool)
        ensures
            r == (self.stream().len() == 0),
    {
        self.body_reader.remaining() == 0
    }
}

/// Decodes every entry of a tree body of `expected_size` declared bytes, in
/// the order they are stored, and checks that nothing follows them.
pub fn decode_entries(body_reader: ByteReader, expected_size: usize) -> (r: Result<
    Vec<TreeEntry>,
    ObjectError,
>)
    ensures
        match entries_spec(body_reader@, expected_size as nat) {
            Err(e) => r matches Err(e2) && e2 == e,
            Ok(entries) => r matches Ok(v) && v@.map_values(|t: TreeEntry| t@) == entries,
        },
{
    let ghost whole = body_reader@;
    let mut iter = TreeEntryIter::new(body_reader, expected_size);
    let mut out: Vec<TreeEntry> = Vec::new();
    loop
        invariant
            whole == body_reader@,
            !iter.failed(),
            match entries_spec(iter.stream(), iter.remaining()) {
                Err(e) => entries_spec(whole, expected_size as nat) == Err::<
                    Seq<EntryView>,
                    ObjectError,
                >(e),
                Ok(rest) => entries_spec(whole, expected_size as nat) == Ok::<
                    Seq<EntryView>,
                    ObjectError,
                >(out@.map_values(|t: TreeEntry| t@) + rest),
            },
        decreases iter.remaining(),
    {
        let ghost before = iter.stream();
        let ghost rem = iter.remaining();
        let ghost prev = out@.map_values(|t: TreeEntry| t@);
        match iter.next() {
            None => {
                if !iter.at_end() {
                    return Err(ObjectError::TrailingData);
                }
                assert(entries_spec(before, rem) == Ok::<Seq<EntryView>, ObjectError>(seq![]));
                assert(prev + seq![] =~= prev);
                return Ok(out);
            },
            Some(Err(e)) => {
                return Err(e);
            },
            Some(Ok(entry)) => {
                let ghost v = entry@;
                out.push(entry);
                assert(out@.map_values(|t: TreeEntry| t@) =~= prev + seq![v]);
                proof {
                    match entries_spec(iter.stream(), iter.remaining()) {
                        Err(e) => {},
                        Ok(rest) => {
                            assert(prev + (seq![v] + rest) =~= prev + seq![v] + rest);
                        },
                    }
                }
            },
        }
    }
}

} // verus!

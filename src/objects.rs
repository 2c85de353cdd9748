use vstd::prelude::*;
use vstd::string::*;
use vstd::utf8::*;

use crate::digest::{
    compute_hash, hash_to_hex, hex_text, is_hex_char, lemma_hex_text_shape, object_id,
};
use crate::error::ObjectError;
use crate::framing::{
    decimal_digits, frame_object, framed, lemma_decimal_digits, lemma_parse_decimal_digits,
    object_header, parse_decimal, parse_decimal_spec, NUL, SPACE,
};
use crate::reader::{
    index_of, lemma_index_of, lemma_index_of_props, position_of, ByteReader, LimitReader,
};
use crate::text::utf8_str;
use crate::zlib::{zlib_compress, zlib_decompress, zlib_decompressed};

verus! {

/// The type tag of a stored object.
#[derive(Clone, Copy, Debug, PartialEq, Eq, Structural)]
pub enum ObjectKind {
    Blob,
    Tree,
}

/// The ASCII bytes of a type tag as it appears in an object header
/// (`blob` or `tree`).
pub open spec fn kind_tag(kind: ObjectKind) -> Seq<u8> {
    match kind {
        ObjectKind::Blob => seq![98u8, 108u8, 111u8, 98u8],
        ObjectKind::Tree => seq![116u8, 114u8, 101u8, 101u8],
    }
}

/// The name of a kind, as text.
pub open spec fn kind_name(kind: ObjectKind) -> Seq<char> {
    match kind {
        ObjectKind::Blob => "blob"@,
        ObjectKind::Tree => "tree"@,
    }
}

impl ObjectKind {
    /// The name of the kind, as text.
    pub fn as_str(&self) -> (r: &'static str)
        ensures
            r@ == kind_name(*self),
    {
        match self {
            ObjectKind::Blob => "blob",
            ObjectKind::Tree => "tree",
        }
    }

    /// The tag bytes written into an object header.
    pub fn tag_bytes(&self) -> (r: Vec<u8>)
        ensures
            r@ == kind_tag(*self),
    {
        match self {
            ObjectKind::Blob => vec![98u8, 108u8, 111u8, 98u8],
            ObjectKind::Tree => vec![116u8, 114u8, 101u8, 101u8],
        }
    }
}

/// The permission and type tag of a directory entry.
#[derive(Clone, Copy, Debug, PartialEq, Eq, Structural)]
pub enum ObjectMode {
    RegularFile,
    ExecutableFile,
    SymbolicLink,
    Directory,
}

/// The canonical numeric code of a mode.
pub open spec fn mode_number(mode: ObjectMode) -> u32 {
    match mode {
        ObjectMode::RegularFile => 100644,
        ObjectMode::ExecutableFile => 100755,
        ObjectMode::SymbolicLink => 120000,
        ObjectMode::Directory => 40000,
    }
}

/// The mode whose canonical code is `n`, if there is one.
pub open spec fn mode_of_number(n: nat) -> Option<ObjectMode> {
    if n == 100644 {
        Some(ObjectMode::RegularFile)
    } else if n == 100755 {
        Some(ObjectMode::ExecutableFile)
    } else if n == 120000 {
        Some(ObjectMode::SymbolicLink)
    } else if n == 40000 {
        Some(ObjectMode::Directory)
    } else {
        None
    }
}

/// The kind of object that an entry of a given mode refers to.
pub open spec fn mode_object_kind(mode: ObjectMode) -> ObjectKind {
    match mode {
        ObjectMode::Directory => ObjectKind::Tree,
        _ => ObjectKind::Blob,
    }
}

impl ObjectMode {
    /// The mode with canonical code `input`; `None` for any other number.
    pub fn from_number(input: u32) -> (r: Option<ObjectMode>)
        ensures
            r == mode_of_number(input as nat),
    {
        match input {
            100644 => Some(ObjectMode::RegularFile),
            100755 => Some(ObjectMode::ExecutableFile),
            120000 => Some(ObjectMode::SymbolicLink),
            40000 => Some(ObjectMode::Directory),
            _ => None,
        }
    }

    /// The canonical numeric code of the mode.
    pub fn to_number(&self) -> (r: u32)
        ensures
            r == mode_number(*self),
    {
        match self {
            ObjectMode::RegularFile => 100644,
            ObjectMode::ExecutableFile => 100755,
            ObjectMode::SymbolicLink => 120000,
            ObjectMode::Directory => 40000,
        }
    }

    /// The name of the kind of object that an entry of this mode refers to.
    pub fn to_object_type(&self) -> (r: &'static str)
        ensures
            r@ == kind_name(mode_object_kind(*self)),
    {
        match self {
            ObjectMode::Directory => "tree",
            _ => "blob",
        }
    }
}

/// The kind that a header tag names, if it is a known one.
pub open spec fn kind_of_tag(tag: Seq<u8>) -> Option<ObjectKind> {
    if tag == kind_tag(ObjectKind::Blob) {
        Some(ObjectKind::Blob)
    } else if tag == kind_tag(ObjectKind::Tree) {
        Some(ObjectKind::Tree)
    } else {
        None
    }
}

/// Reads the header at the start of a decompressed object: the kind, the
/// declared body length, and how many bytes the header takes (its NUL
/// included).
pub open spec fn parse_header_spec(s: Seq<u8>) -> Result<(ObjectKind, nat, nat), ObjectError> {
    match index_of(s, NUL) {
        None => Err(ObjectError::CorruptHeader),
        Some(k) => {
            let h = s.subrange(0, k as int);
            if !valid_utf8(h) {
                Err(ObjectError::CorruptHeader)
            } else {
                match index_of(h, SPACE) {
                    None => Err(ObjectError::CorruptHeader),
                    Some(sp) => match kind_of_tag(h.subrange(0, sp as int)) {
                        None => Err(ObjectError::UnsupportedType),
                        Some(kind) => match parse_decimal_spec(
                            h.subrange(sp as int + 1, k as int),
                            usize::MAX as nat,
                        ) {
                            None => Err(ObjectError::CorruptHeader),
                            Some(n) => Ok((kind, n, k + 1)),
                        },
                    },
                }
            }
        },
    }
}

/// What draining a body with `declared` bytes announced gives, where `rest`
/// is everything that the stream still holds.
pub open spec fn body_spec(rest: Seq<u8>, declared: nat) -> Result<Seq<u8>, ObjectError> {
    if rest.len() > declared {
        Err(ObjectError::TrailingData)
    } else if rest.len() < declared {
        Err(ObjectError::Truncated)
    } else {
        Ok(rest)
    }
}

/// What a whole decompressed object decodes to: its kind and its body.
pub open spec fn decode_spec(raw: Seq<u8>) -> Result<(ObjectKind, Seq<u8>), ObjectError> {
    match parse_header_spec(raw) {
        Err(e) => Err(e),
        Ok((kind, n, c)) => match body_spec(raw.subrange(c as int, raw.len() as int), n) {
            Err(e) => Err(e),
            Ok(body) => Ok((kind, body)),
        },
    }
}

/// The kind named by the `len` bytes at the start of `tag`.
fn kind_from_tag(tag: &[u8], len: usize) -> (r: Option<ObjectKind>)
    requires
        len <= tag@.len(),
    ensures
        r == kind_of_tag(tag@.subrange(0, len as int)),
{
    let ghost t = tag@.subrange(0, len as int);
    if len != 4 {
        assert(t.len() != kind_tag(ObjectKind::Blob).len());
        assert(t.len() != kind_tag(ObjectKind::Tree).len());
        return None;
    }
    if tag[0] == 98 && tag[1] == 108 && tag[2] == 111 && tag[3] == 98 {
        assert(t =~= kind_tag(ObjectKind::Blob));
        Some(ObjectKind::Blob)
    } else if tag[0] == 116 && tag[1] == 114 && tag[2] == 101 && tag[3] == 101 {
        assert(t =~= kind_tag(ObjectKind::Tree));
        Some(ObjectKind::Tree)
    } else {
        proof {
            if t == kind_tag(ObjectKind::Blob) {
                assert(t[0] == 98 && t[1] == 108 && t[2] == 111 && t[3] == 98);
            }
            if t == kind_tag(ObjectKind::Tree) {
                assert(t[0] == 116 && t[1] == 114 && t[2] == 101 && t[3] == 101);
            }
        }
        None
    }
}

/// Reads an object header from `reader`, leaving it at the first body byte.
pub fn parse_object_header(reader: &mut ByteReader) -> (r: Result<(ObjectKind, usize), ObjectError>)
    ensures
        match parse_header_spec(old(reader)@) {
            Err(e) => r == Err::<(ObjectKind, usize), ObjectError>(e),
            Ok((kind, n, c)) => r == Ok::<(ObjectKind, usize), ObjectError>((kind, n as usize))
                && final(reader)@ == old(reader)@.subrange(c as int, old(reader)@.len() as int),
        },
{
    let ghost s = reader@;
    let buf = reader.read_until(NUL);
    let len = buf.len();
    proof {
        lemma_index_of_props(s, NUL);
    }
    if len == 0 || buf[len - 1] != NUL {
        return Err(ObjectError::CorruptHeader);
    }
    let k = len - 1;
    let header = &buf.as_slice()[0..k];
    assert(header@ =~= s.subrange(0, k as int));
    if utf8_str(header).is_none() {
        return Err(ObjectError::CorruptHeader);
    }
    let sp = match position_of(header, SPACE) {
        None => return Err(ObjectError::CorruptHeader),
        Some(sp) => sp,
    };
    proof {
        lemma_index_of_props(header@, SPACE);
    }
    let kind = match kind_from_tag(header, sp) {
        None => return Err(ObjectError::UnsupportedType),
        Some(kind) => kind,
    };
    match parse_decimal(header, sp + 1, k, usize::MAX) {
        None => Err(ObjectError::CorruptHeader),
        Some(n) => Ok((kind, n)),
    }
}

/// The text form of an identifier: 40 lowercase hex digits.
pub open spec fn is_object_hex(h: Seq<char>) -> bool {
    h.len() == 40 && forall|i: int| 0 <= i < 40 ==> is_hex_char(#[trigger] h[i])
}

/// Where the object named by `h` is stored: a directory named by its first
/// two digits, and a file named by the other 38.
pub open spec fn object_path_text(h: Seq<char>) -> Seq<char> {
    ".git/objects/"@ + h.subrange(0, 2) + "/"@ + h.subrange(2, h.len() as int)
}

/// The storage path of the object whose identifier is spelled `object_hash`;
/// `None` unless it is 40 lowercase hex digits.
pub fn get_object_path(object_hash: &str) -> (r: Option<String>)
    ensures
        r is Some <==> is_object_hex(object_hash@),
        r matches Some(p) ==> p@ == object_path_text(object_hash@),
{
    if object_hash.unicode_len() != 40 {
        return None;
    }
    let mut i: usize = 0;
    while i < 40
        invariant
            object_hash@.len() == 40,
            i <= 40,
            forall|j: int| 0 <= j < i ==> is_hex_char(#[trigger] object_hash@[j]),
        decreases 40 - i,
    {
        let c = object_hash.get_char(i);
        if !(('0' <= c && c <= '9') || ('a' <= c && c <= 'f')) {
            return None;
        }
        i = i + 1;
    }
    let mut path = String::from_str(".git/objects/");
    path.append(object_hash.substring_char(0, 2));
    path.append("/");
    path.append(object_hash.substring_char(2, 40));
    Some(path)
}

/// Where the object named `object_hash` is stored. A spelling that is not
/// 40 lowercase hex digits names no object, so it is not found.
pub fn locate_object(object_hash: &str) -> (r: Result<String, ObjectError>)
    ensures
        is_object_hex(object_hash@) ==> (r matches Ok(p) && p@ == object_path_text(object_hash@)),
        !is_object_hex(object_hash@) ==> r == Err::<String, ObjectError>(ObjectError::NotFound),
{
    match get_object_path(object_hash) {
        Some(path) => Ok(path),
        None => Err(ObjectError::NotFound),
    }
}

/// An object made ready for storage: its identifier, in bytes and in text,
/// the path it goes to, and the compressed bytes to write there.
pub struct EncodedObject {
    pub hash: Vec<u8>,
    pub hex: String,
    pub path: String,
    pub data: Vec<u8>,
}

/// How many bytes a body read asks for at a time.
pub const READ_CHUNK: usize = 8192;

/// An opened object: its kind, its declared body length, and a reader
/// positioned at the first body byte.
pub struct Object {
    pub kind: ObjectKind,
    pub expected_size: usize,
    pub body_reader: ByteReader,
}

impl Object {
    /// Computes the identifier, path and compressed form of a payload.
    pub fn encode(kind: ObjectKind, content: &[u8]) -> (r: EncodedObject)
        ensures
            r.hash@ == object_id(kind, content@),
            r.hex@ == hex_text(r.hash@),
            is_object_hex(r.hex@),
            r.path@ == object_path_text(r.hex@),
            zlib_decompressed(r.data@) == Some(framed(kind, content@)),
    {
        let hash = compute_hash(kind, content);
        let hex = hash_to_hex(hash.as_slice());
        proof {
            lemma_hex_text_shape(hash@);
        }
        let path = get_object_path(hex.as_str()).unwrap();
        let framed_bytes = frame_object(kind, content);
        let data = zlib_compress(framed_bytes.as_slice()).unwrap();
        EncodedObject { hash, hex, path, data }
    }

    /// Opens an object from its decompressed bytes by reading the header.
    pub fn parse(raw: Vec<u8>) -> (r: Result<Object, ObjectError>)
        ensures
            match parse_header_spec(raw@) {
                Err(e) => r matches Err(e2) && e2 == e,
                Ok((kind, n, c)) => r matches Ok(o) && o.kind == kind && o.expected_size == n
                    && o.body_reader@ == raw@.subrange(c as int, raw@.len() as int),
            },
    {
        let mut reader = ByteReader::new(raw);
        match parse_object_header(&mut reader) {
            Err(e) => Err(e),
            Ok((kind, expected_size)) => Ok(Object { kind, expected_size, body_reader: reader }),
        }
    }

    /// Opens an object from the compressed bytes of its file.
    pub fn open(stored: &[u8]) -> (r: Result<Object, ObjectError>)
        ensures
            zlib_decompressed(stored@) is None ==> (r matches Err(e) && e == ObjectError::Io),
            zlib_decompressed(stored@) matches Some(raw) ==> match parse_header_spec(raw) {
                Err(e) => r matches Err(e2) && e2 == e,
                Ok((kind, n, c)) => r matches Ok(o) && o.kind == kind && o.expected_size == n
                    && o.body_reader@ == raw.subrange(c as int, raw.len() as int),
            },
    {
        match zlib_decompress(stored) {
            None => Err(ObjectError::Io),
            Some(raw) => Object::parse(raw),
        }
    }

    /// Decodes a whole decompressed object: reads the header, then the body,
    /// which must hold exactly the declared number of bytes.
    pub fn decode(raw: Vec<u8>) -> (r: Result<(ObjectKind, Vec<u8>), ObjectError>)
        ensures
            match decode_spec(raw@) {
                Err(e) => r == Err::<(ObjectKind, Vec<u8>), ObjectError>(e),
                Ok((kind, body)) => r matches Ok((k, v)) && k == kind && v@ == body,
            },
    {
        let object = match Object::parse(raw) {
            Err(e) => return Err(e),
            Ok(object) => object,
        };
        let kind = object.kind;
        match object.read_body() {
            Err(e) => Err(e),
            Ok(body) => Ok((kind, body)),
        }
    }

    /// Drains the body through a reader bounded by the declared length, and
    /// checks that exactly that many bytes were there.
    pub fn read_body(self) -> (r: Result<Vec<u8>, ObjectError>)
        ensures
            match body_spec(self.body_reader@, self.expected_size as nat) {
                Err(e) => r matches Err(e2) && e2 == e,
                Ok(body) => r matches Ok(v) && v@ == body,
            },
    {
        let ghost rest = self.body_reader@;
        let expected = self.expected_size;
        let mut reader = LimitReader::new(self.body_reader, expected);
        let mut out: Vec<u8> = Vec::new();
        loop
            invariant
                rest == self.body_reader@,
                expected == self.expected_size,
                out@.len() + reader.limit_view() == expected,
                out@ + reader.inner_view() == rest,
            decreases reader.inner_view().len(),
        {
            let ghost before = reader.inner_view();
            let ghost limit = reader.limit_view();
            let chunk = match reader.read(READ_CHUNK) {
                Err(e) => {
                    assert(rest.len() > expected);
                    return Err(e);
                },
                Ok(chunk) => chunk,
            };
            if chunk.len() == 0 {
                assert(before.len() == 0);
                assert(out@ =~= rest);
                if out.len() < expected {
                    return Err(ObjectError::Truncated);
                }
                return Ok(out);
            }
            let mut i: usize = 0;
            let ghost out0 = out@;
            while i < chunk.len()
                invariant
                    i <= chunk@.len(),
                    out@ == out0 + chunk@.subrange(0, i as int),
                decreases chunk@.len() - i,
            {
                out.push(chunk[i]);
                i = i + 1;
                assert(out@ =~= out0 + chunk@.subrange(0, i as int));
            }
            assert(chunk@.subrange(0, i as int) =~= chunk@);
            assert(out@ + reader.inner_view() =~= rest);
        }
    }
}

/// Bytes below 128 are valid UTF-8.
pub proof fn lemma_ascii_valid_utf8(b: Seq<u8>)
    requires
        forall|i: int| 0 <= i < b.len() ==> #[trigger] b[i] < 128,
    ensures
        valid_utf8(b),
    decreases b.len(),
{
    if b.len() > 0 {
        let b0 = b[0];
        assert((b0 & 0x7f) as u32 <= 0x7f) by (bit_vector);
        let tail = b.subrange(1, b.len() as int);
        assert forall|i: int| 0 <= i < tail.len() implies #[trigger] tail[i] < 128 by {
            assert(tail[i] == b[i + 1]);
        }
        lemma_ascii_valid_utf8(tail);
    }
}

/// The header written for `kind` and `n` reads back as `kind` and `n`,
/// whatever follows it.
pub proof fn lemma_parse_header_of(kind: ObjectKind, n: nat, body: Seq<u8>)
    requires
        n <= usize::MAX,
    ensures
        parse_header_spec(object_header(kind, n) + body) == Ok::<
            (ObjectKind, nat, nat),
            ObjectError,
        >((kind, n, object_header(kind, n).len())),
{
    let tag = kind_tag(kind);
    let digits = decimal_digits(n);
    let h = tag + seq![SPACE] + digits;
    let s = object_header(kind, n) + body;
    lemma_decimal_digits(n);
    assert(object_header(kind, n) =~= h + seq![NUL]);
    assert forall|j: int| 0 <= j < h.len() implies #[trigger] h[j] != NUL && h[j] < 128 by {
        if j > 4 {
            assert(h[j] == digits[j - 5]);
        }
    }
    assert forall|j: int| 0 <= j < h.len() implies s[j] == #[trigger] h[j] by {}
    lemma_index_of(s, NUL, h.len() as int);
    assert(s.subrange(0, h.len() as int) =~= h);
    lemma_ascii_valid_utf8(h);
    lemma_index_of(h, SPACE, 4);
    assert(h.subrange(0, 4) =~= tag);
    assert(h.subrange(5, h.len() as int) =~= digits);
    lemma_parse_decimal_digits(n, usize::MAX as nat);
}

/// A framed object decodes to the kind and payload it was framed from.
pub proof fn lemma_decode_framed(kind: ObjectKind, payload: Seq<u8>)
    requires
        payload.len() <= usize::MAX,
    ensures
        decode_spec(framed(kind, payload)) == Ok::<(ObjectKind, Seq<u8>), ObjectError>(
            (kind, payload),
        ),
{
    let hd = object_header(kind, payload.len());
    lemma_parse_header_of(kind, payload.len(), payload);
    assert((hd + payload).subrange(hd.len() as int, (hd + payload).len() as int) =~= payload);
}

/// Framing loses nothing: two framed objects are equal only when their kinds
/// and payloads are, so distinct contents are hashed from distinct bytes.
pub proof fn lemma_framing_injective(
    kind_a: ObjectKind,
    payload_a: Seq<u8>,
    kind_b: ObjectKind,
    payload_b: Seq<u8>,
)
    requires
        payload_a.len() <= usize::MAX,
        payload_b.len() <= usize::MAX,
    ensures
        framed(kind_a, payload_a) == framed(kind_b, payload_b) ==> kind_a == kind_b && payload_a
            == payload_b,
{
    lemma_decode_framed(kind_a, payload_a);
    lemma_decode_framed(kind_b, payload_b);
}

/// Opening what `Object::encode` stored gives back the kind, the length and,
/// once the body is drained, the payload: `stored` is any byte string that
/// decompresses to the framed payload, as `encode` promises of its output.
pub proof fn lemma_open_encoded(kind: ObjectKind, payload: Seq<u8>, stored: Seq<u8>)
    requires
        payload.len() <= usize::MAX,
        zlib_decompressed(stored) == Some(framed(kind, payload)),
    ensures
        zlib_decompressed(stored) matches Some(raw) && parse_header_spec(raw) matches Ok(
            (k, n, c),
        ) && k == kind && n == payload.len() && body_spec(raw.subrange(c as int, raw.len() as int), n)
            == Ok::<Seq<u8>, ObjectError>(payload),
{
    let hd = object_header(kind, payload.len());
    lemma_parse_header_of(kind, payload.len(), payload);
    assert((hd + payload).subrange(hd.len() as int, (hd + payload).len() as int) =~= payload);
}

/// A body one byte longer than its header declares fails with trailing data.
pub proof fn lemma_decode_trailing(kind: ObjectKind, n: nat, body: Seq<u8>)
    requires
        n <= usize::MAX,
        body.len() == n + 1,
    ensures
        decode_spec(object_header(kind, n) + body) == Err::<(ObjectKind, Seq<u8>), ObjectError>(
            ObjectError::TrailingData,
        ),
{
    let hd = object_header(kind, n);
    lemma_parse_header_of(kind, n, body);
    assert((hd + body).subrange(hd.len() as int, (hd + body).len() as int) =~= body);
}

/// A body one byte shorter than its header declares fails as truncated.
pub proof fn lemma_decode_truncated(kind: ObjectKind, n: nat, body: Seq<u8>)
    requires
        n <= usize::MAX,
        body.len() + 1 == n,
    ensures
        decode_spec(object_header(kind, n) + body) == Err::<(ObjectKind, Seq<u8>), ObjectError>(
            ObjectError::Truncated,
        ),
{
    let hd = object_header(kind, n);
    lemma_parse_header_of(kind, n, body);
    assert((hd + body).subrange(hd.len() as int, (hd + body).len() as int) =~= body);
}

} // verus!

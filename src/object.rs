//! Objects and their loose form: the canonical bytes `"<kind> <size>\0" +
//! payload`, the identifier that hashes them, and the compressed file that
//! stores them.
use vstd::prelude::*;
use vstd::string::StringExecFns;
use vstd::utf8::valid_utf8;
use crate::bytes::{bytes_equal, copy_range, find_byte, find_byte_from, lemma_find_at, lemma_find_byte, push_all};
use crate::error::Error;
use crate::hashing::{hex_decode, hex_encode, hex_of, unhex, lemma_hex_of_concat, lemma_hex_of_len, sha1_digest, sha1_of};
use crate::zlib::{deflate, first_bytes, inflate_error, inflate_upto, zlib_deflated, zlib_inflated, zlib_inflated_upto};

verus! {

/// The four kinds of stored object.
#[derive(Debug, Clone, Copy, PartialEq, Eq, Structural)]
pub enum Kind {
    Blob,
    Tree,
    Commit,
    Tag,
}

/// The ASCII name of a kind, as it stands in object headers.
pub open spec fn kind_name(k: Kind) -> Seq<u8> {
    match k {
        Kind::Blob => seq![98u8, 108, 111, 98],  // "blob"
        Kind::Tree => seq![116u8, 114, 101, 101],  // "tree"
        Kind::Commit => seq![99u8, 111, 109, 109, 105, 116],  // "commit"
        Kind::Tag => seq![116u8, 97, 103],  // "tag"
    }
}

/// The kind whose name is `s`, if any.
pub open spec fn kind_named(s: Seq<u8>) -> Option<Kind> {
    if s == kind_name(Kind::Blob) {
        Some(Kind::Blob)
    } else if s == kind_name(Kind::Tree) {
        Some(Kind::Tree)
    } else if s == kind_name(Kind::Commit) {
        Some(Kind::Commit)
    } else if s == kind_name(Kind::Tag) {
        Some(Kind::Tag)
    } else {
        None
    }
}

/// The decimal digits of `n`, without leading zeros.
pub open spec fn decimal(n: nat) -> Seq<u8>
    decreases n,
{
    if n < 10 {
        seq![(48 + n) as u8]
    } else {
        decimal(n / 10).push((48 + n % 10) as u8)
    }
}

/// Whether `s` is a non-empty run of ASCII digits.
pub open spec fn is_digits(s: Seq<u8>) -> bool {
    s.len() > 0 && forall|i: int| 0 <= i < s.len() ==> 48 <= #[trigger] s[i] <= 57
}

/// The number that the ASCII digits `s` spell.
pub open spec fn digits_value(s: Seq<u8>) -> nat
    decreases s.len(),
{
    if s.len() == 0 {
        0
    } else {
        digits_value(s.drop_last()) * 10 + (s.last() - 48) as nat
    }
}

/// The header of an object: `"<kind> <size>\0"`.
pub open spec fn header(k: Kind, size: nat) -> Seq<u8> {
    kind_name(k) + seq![32u8] + decimal(size) + seq![0u8]
}

/// The canonical bytes of an object, which its identifier hashes.
pub open spec fn canonical(k: Kind, payload: Seq<u8>) -> Seq<u8> {
    header(k, payload.len()) + payload
}

/// The identifier of an object: the SHA-1 digest of its canonical bytes.
pub open spec fn object_id(k: Kind, payload: Seq<u8>) -> Seq<u8> {
    sha1_of(canonical(k, payload))
}

/// The 20-byte identifier of an object.
#[derive(Debug, Clone, Copy, PartialEq, Eq, Hash)]
pub struct ObjectId {
    pub bytes: [u8; 20],
}

impl Kind {
    /// The name of this kind, as it stands in object headers.
    pub fn name(&self) -> (r: Vec<u8>)
        ensures
            r@ == kind_name(*self),
    {
        match self {
            Kind::Blob => vec![98u8, 108, 111, 98],
            Kind::Tree => vec![116u8, 114, 101, 101],
            Kind::Commit => vec![99u8, 111, 109, 109, 105, 116],
            Kind::Tag => vec![116u8, 97, 103],
        }
    }

    /// The kind called `name`, if any.
    pub fn from_name(name: &[u8]) -> (r: Option<Kind>)
        ensures
            r == kind_named(name@),
    {
        let candidates = [Kind::Blob, Kind::Tree, Kind::Commit, Kind::Tag];
        let mut j: usize = 0;
        while j < 4
            invariant
                j <= 4,
                candidates@ == seq![Kind::Blob, Kind::Tree, Kind::Commit, Kind::Tag],
                forall|m: int| 0 <= m < j ==> name@ != kind_name(#[trigger] candidates@[m]),
            decreases 4 - j,
        {
            let k = candidates[j];
            let kn = k.name();
            if bytes_equal(name, kn.as_slice()) {
                return Some(k);
            }
            j = j + 1;
        }
        None
    }
}

/// Appends the decimal digits of `n` to `out`.
pub fn push_decimal(out: &mut Vec<u8>, n: u64)
    ensures
        final(out)@ == old(out)@ + decimal(n as nat),
    decreases n,
{
    if n >= 10 {
        push_decimal(out, n / 10);
    }
    out.push(48 + (n % 10) as u8);
    proof {
        if n >= 10 {
            assert(old(out)@ + decimal(n as nat) == old(out)@ + decimal((n / 10) as nat) + seq![(48 + n % 10) as u8]);
        }
    }
}

/// The canonical bytes of an object of kind `k` with `payload`.
pub fn canonical_bytes(k: Kind, payload: &[u8]) -> (r: Vec<u8>)
    ensures
        r@ == canonical(k, payload@),
{
    let mut out = k.name();
    out.push(32);
    push_decimal(&mut out, payload.len() as u64);
    out.push(0);
    assert(out@ == header(k, payload@.len()));
    push_all(&mut out, payload);
    out
}

/// The identifier of an object of kind `k` with `payload`.
pub fn hash_object(k: Kind, payload: &[u8]) -> (r: ObjectId)
    ensures
        r.bytes@ == object_id(k, payload@),
{
    let bytes = canonical_bytes(k, payload);
    ObjectId { bytes: sha1_digest(bytes.as_slice()) }
}

/// Relies on `std::str::from_utf8`, which accepts exactly the valid UTF-8 byte strings.
#[verifier::external_body]
fn is_utf8(b: &[u8]) -> (r: bool)
    ensures
        r == valid_utf8(b@),
{
    std::str::from_utf8(b).is_ok()
}

/// The unsigned 64-bit number that `s` spells in decimal, if it does.
pub open spec fn decimal_u64(s: Seq<u8>) -> Option<u64> {
    if is_digits(s) && digits_value(s) <= u64::MAX {
        Some(digits_value(s) as u64)
    } else {
        None
    }
}

/// Parses `s` as an unsigned 64-bit decimal number.
pub fn parse_decimal(s: &[u8]) -> (r: Option<u64>)
    ensures
        r == decimal_u64(s@),
{
    if s.len() == 0 {
        return None;
    }
    let mut acc: u64 = 0;
    let mut i: usize = 0;
    while i < s.len()
        invariant
            i <= s@.len(),
            acc == digits_value(s@.subrange(0, i as int)),
            forall|j: int| 0 <= j < i ==> 48 <= #[trigger] s@[j] <= 57,
        decreases s.len() - i,
    {
        let c = s[i];
        assert(s@.subrange(0, i + 1).drop_last() == s@.subrange(0, i as int));
        if c < 48 || c > 57 {
            return None;
        }
        let d = (c - 48) as u64;
        if acc > (u64::MAX - d) / 10 {
            proof {
                lemma_digits_prefix_le(s@, i + 1);
            }
            return None;
        }
        acc = acc * 10 + d;
        i = i + 1;
    }
    assert(s@.subrange(0, s@.len() as int) == s@);
    Some(acc)
}

/// The value of digits only grows as digits are added.
proof fn lemma_digits_prefix_le(s: Seq<u8>, n: int)
    requires
        0 <= n <= s.len(),
    ensures
        digits_value(s.subrange(0, n)) <= digits_value(s),
    decreases s.len() - n,
{
    if n < s.len() {
        lemma_digits_prefix_le(s, n + 1);
        assert(s.subrange(0, n + 1).drop_last() == s.subrange(0, n));
    } else {
        assert(s.subrange(0, n) == s);
    }
}

/// An object read back from its loose form.
pub struct LooseObject {
    pub kind: Kind,
    /// The size the header declares.
    pub size: u64,
    /// The payload, cut at the declared size.
    pub payload: Vec<u8>,
}

/// The longest header a loose object may have, its NUL included. Inflating
/// stops there while the header is looked for.
pub const MAX_HEADER_LEN: u64 = 64;

/// The header at the start of decompressed bytes: kind, declared size, and
/// the position of the NUL that ends it.
pub open spec fn header_fields(raw: Seq<u8>) -> Result<(Kind, u64, int), Error> {
    match find_byte(raw, 0, 0) {
        None => Err(Error::CorruptHeader),
        Some(nul) => {
            let head = raw.subrange(0, nul);
            if !valid_utf8(head) {
                Err(Error::CorruptHeader)
            } else {
                match find_byte(head, 32, 0) {
                    None => Err(Error::CorruptHeader),
                    Some(sp) => match kind_named(head.subrange(0, sp)) {
                        None => Err(Error::UnknownKind),
                        Some(k) => match decimal_u64(head.subrange(sp + 1, nul)) {
                            None => Err(Error::CorruptHeader),
                            Some(size) => Ok((k, size, nul)),
                        },
                    },
                }
            }
        },
    }
}

/// How many bytes to inflate for an object whose header ends at `nul` and
/// declares `size`: the header and the declared payload, and no more than
/// `u64::MAX`.
pub open spec fn read_bound(nul: int, size: u64) -> nat {
    if nul + 1 + size > u64::MAX {
        u64::MAX as nat
    } else {
        (nul + 1 + size) as nat
    }
}

/// The bytes after the header that ends at `nul`.
pub open spec fn body_after(raw: Seq<u8>, nul: int) -> Seq<u8> {
    if nul + 1 <= raw.len() {
        raw.subrange(nul + 1, raw.len() as int)
    } else {
        Seq::empty()
    }
}

/// What a loose object file holds: its kind, its declared size, and its
/// payload. The stream is inflated no further than [`MAX_HEADER_LEN`] bytes to
/// find the header, then no further than the header and the declared size.
pub open spec fn loose_read(file: Seq<u8>) -> Result<(Kind, nat, Seq<u8>), Error> {
    match zlib_inflated_upto(file, MAX_HEADER_LEN as nat) {
        Err(cut_off) => Err(inflate_error(cut_off)),
        Ok(head) => match header_fields(head) {
            Err(e) => Err(e),
            Ok((k, size, nul)) => match zlib_inflated_upto(file, read_bound(nul, size)) {
                Err(cut_off) => Err(inflate_error(cut_off)),
                Ok(raw) => Ok((k, size as nat, body_after(raw, nul))),
            },
        },
    }
}

/// Reads the header at the start of decompressed bytes.
fn parse_header(raw: &[u8]) -> (r: Result<(Kind, u64, usize), Error>)
    ensures
        match r {
            Ok((k, size, nul)) => header_fields(raw@) == Ok::<(Kind, u64, int), Error>((k, size, nul as int)) && nul < raw@.len(),
            Err(e) => header_fields(raw@) == Err::<(Kind, u64, int), Error>(e),
        },
{
    let nul = match find_byte_from(raw, 0, 0) {
        Some(n) => n,
        None => return Err(Error::CorruptHeader),
    };
    proof {
        lemma_find_byte(raw@, 0, 0);
    }
    let head = copy_range(raw, 0, nul);
    let head = head.as_slice();
    if !is_utf8(head) {
        return Err(Error::CorruptHeader);
    }
    let sp = match find_byte_from(head, 32, 0) {
        Some(n) => n,
        None => return Err(Error::CorruptHeader),
    };
    proof {
        lemma_find_byte(head@, 32, 0);
    }
    let name = copy_range(head, 0, sp);
    let kind = match Kind::from_name(name.as_slice()) {
        Some(k) => k,
        None => return Err(Error::UnknownKind),
    };
    let digits = copy_range(head, sp + 1, nul);
    match parse_decimal(digits.as_slice()) {
        Some(size) => Ok((kind, size, nul)),
        None => Err(Error::CorruptHeader),
    }
}

/// Decodes a loose object file: checks the header `"<kind> <size>\0"` and
/// returns the payload. The stream is never inflated past [`MAX_HEADER_LEN`]
/// bytes before the header is read, nor past the header and the declared size
/// after, so a stream longer than it declares cannot make it read more.
/// Fails with `UnexpectedEof` when the file ends inside its compressed
/// stream, `CorruptData` when the stream is corrupt, `CorruptHeader` when the
/// header is not UTF-8, lacks its space or its NUL within the first
/// [`MAX_HEADER_LEN`] bytes, or its size is not a 64-bit decimal, and
/// `UnknownKind` for an unknown kind.
pub fn decode_loose(file: &[u8]) -> (r: Result<LooseObject, Error>)
    ensures
        match r {
            Ok(o) => loose_read(file@) == Ok::<(Kind, nat, Seq<u8>), Error>((o.kind, o.size as nat, o.payload@)),
            Err(e) => loose_read(file@) == Err::<(Kind, nat, Seq<u8>), Error>(e),
        },
        r matches Ok(o) ==> o.payload@.len() <= o.size,
{
    let head = match inflate_upto(file, MAX_HEADER_LEN) {
        Ok(h) => h,
        Err(e) => return Err(e),
    };
    let (kind, size, nul) = match parse_header(head.as_slice()) {
        Ok(x) => x,
        Err(e) => return Err(e),
    };
    let header_len = nul as u64 + 1;
    let bound: u64 = if size > u64::MAX - header_len { u64::MAX } else { header_len + size };
    let raw = match inflate_upto(file, bound) {
        Ok(r) => r,
        Err(e) => return Err(e),
    };
    let payload = if raw.len() >= nul + 1 {
        copy_range(raw.as_slice(), nul + 1, raw.len())
    } else {
        Vec::new()
    };
    assert(payload@ == body_after(raw@, nul as int));
    Ok(LooseObject { kind, size, payload })
}

/// The digits of `n` are digits, and spell `n`.
pub proof fn lemma_decimal(n: nat)
    ensures
        is_digits(decimal(n)),
        digits_value(decimal(n)) == n,
    decreases n,
{
    if n < 10 {
        assert(decimal(n).drop_last() == Seq::<u8>::empty());
        assert(digits_value(Seq::<u8>::empty()) == 0);
        assert(decimal(n).last() == (48 + n) as u8);
        assert(digits_value(decimal(n)) == 0 * 10 + ((48 + n) as u8 - 48) as nat);
    } else {
        lemma_decimal(n / 10);
        let d = decimal(n / 10);
        assert(decimal(n).drop_last() == d);
        assert(decimal(n).last() == (48 + n % 10) as u8);
        assert(digits_value(decimal(n)) == digits_value(d) * 10 + ((48 + n % 10) as u8 - 48) as nat);
        assert((n / 10) * 10 + n % 10 == n);
        assert forall|i: int| 0 <= i < decimal(n).len() implies 48 <= #[trigger] decimal(n)[i] <= 57 by {
            if i < d.len() {
                assert(decimal(n)[i] == d[i]);
            }
        }
    }
}

/// Bytes below 128 are valid UTF-8.
pub proof fn lemma_ascii_is_utf8(s: Seq<u8>)
    requires
        forall|i: int| 0 <= i < s.len() ==> #[trigger] s[i] < 128,
    ensures
        valid_utf8(s),
    decreases s.len(),
{
    if s.len() > 0 {
        let rest = s.subrange(1, s.len() as int);
        assert forall|i: int| 0 <= i < rest.len() implies #[trigger] rest[i] < 128 by {
            assert(rest[i] == s[i + 1]);
        }
        lemma_ascii_is_utf8(rest);
    }
}

/// Decompressed bytes that start with the header of an object of kind `k`
/// and size `n` give back that kind and size, the header ending where it does.
pub proof fn lemma_header_fields(k: Kind, n: nat, raw: Seq<u8>)
    requires
        n <= u64::MAX,
        raw.len() >= header(k, n).len(),
        raw.subrange(0, header(k, n).len() as int) == header(k, n),
    ensures
        header_fields(raw) == Ok::<(Kind, u64, int), Error>((k, n as u64, header(k, n).len() - 1)),
{
    let name = kind_name(k);
    let digits = decimal(n);
    let head = name + seq![32u8] + digits;
    lemma_decimal(n);
    let sp = name.len() as int;
    let nul = sp + 1 + digits.len();
    assert(header(k, n) == head + seq![0u8]);
    assert forall|j: int| 0 <= j <= nul implies #[trigger] raw[j] == header(k, n)[j] by {
        assert(raw.subrange(0, header(k, n).len() as int)[j] == raw[j]);
    }
    assert(forall|j: int| 0 <= j < sp ==> name[j] >= 97 && #[trigger] header(k, n)[j] == name[j]);
    assert(forall|j: int| sp < j < nul ==> #[trigger] header(k, n)[j] == digits[j - sp - 1]);
    assert(forall|j: int| 0 <= j < digits.len() ==> 48 <= #[trigger] digits[j] <= 57);
    assert forall|j: int| 0 <= j < nul implies #[trigger] raw[j] != 0 by {
        assert(raw[j] == header(k, n)[j]);
        if j > sp {
            assert(header(k, n)[j] == digits[j - sp - 1]);
        }
    }
    assert(raw[nul] == 0);
    lemma_find_at(raw, 0, 0, nul);
    assert(raw.subrange(0, nul) =~= head);
    assert forall|i: int| 0 <= i < head.len() implies #[trigger] head[i] < 128 by {
        assert(head[i] == header(k, n)[i]);
        if i > sp {
            assert(header(k, n)[i] == digits[i - sp - 1]);
        }
    }
    lemma_ascii_is_utf8(head);
    assert forall|j: int| 0 <= j < sp implies #[trigger] head[j] != 32 by {
        assert(head[j] == name[j]);
    }
    lemma_find_at(head, 32, 0, sp);
    assert(head.subrange(0, sp) == name);
    assert(head.subrange(sp + 1, nul) == digits);
}

/// `10` to the power `k`.
pub open spec fn pow10(k: nat) -> nat
    decreases k,
{
    if k == 0 { 1 } else { 10 * pow10((k - 1) as nat) }
}

/// A number below `10^k` has at most `k` digits.
pub proof fn lemma_decimal_len(n: nat, k: nat)
    requires
        k >= 1,
        n < pow10(k),
    ensures
        decimal(n).len() <= k,
    decreases k,
{
    if n >= 10 {
        assert(k >= 2) by {
            if k == 1 {
                assert(pow10(1) == 10 * pow10(0));
            }
        }
        assert(n / 10 < pow10((k - 1) as nat)) by (nonlinear_arith)
            requires
                n < pow10(k),
                pow10(k) == 10 * pow10((k - 1) as nat),
        ;
        lemma_decimal_len(n / 10, (k - 1) as nat);
    }
}

/// Every header fits within [`MAX_HEADER_LEN`] bytes.
pub proof fn lemma_header_len(k: Kind, n: nat)
    requires
        n <= u64::MAX,
    ensures
        header(k, n).len() <= 28,
{
    reveal_with_fuel(pow10, 21);
    lemma_decimal_len(n, 20);
}

/// The loose file of an object of kind `k` with `payload`: its canonical
/// bytes, zlib-compressed. It inflates to exactly those bytes, and reads back
/// as `(k, payload)` for every payload shorter than `2^64 - 64` bytes.
pub fn encode_loose(k: Kind, payload: &[u8]) -> (r: Vec<u8>)
    ensures
        r@ == zlib_deflated(canonical(k, payload@)),
        zlib_inflated(r@) matches Ok((raw, used)) && raw == canonical(k, payload@) && used == r@.len(),
        payload@.len() <= u64::MAX - MAX_HEADER_LEN ==> loose_read(r@) == Ok::<(Kind, nat, Seq<u8>), Error>(
            (k, payload@.len(), payload@),
        ),
{
    let bytes = canonical_bytes(k, payload);
    let file = deflate(bytes.as_slice()).unwrap();
    proof {
        if payload@.len() <= u64::MAX - MAX_HEADER_LEN {
            let n = payload@.len();
            let c = canonical(k, payload@);
            let h = header(k, n);
            lemma_header_len(k, n);
            assert(zlib_inflated_upto(file@, MAX_HEADER_LEN as nat) matches Ok(part) && part == first_bytes(c, MAX_HEADER_LEN as nat));
            let part = first_bytes(c, MAX_HEADER_LEN as nat);
            assert(part.subrange(0, h.len() as int) =~= h);
            lemma_header_fields(k, n, part);
            assert(read_bound(h.len() - 1, n as u64) == c.len());
            assert(zlib_inflated_upto(file@, c.len()) matches Ok(whole) && whole == first_bytes(c, c.len()));
            assert(first_bytes(c, c.len()) == c);
            assert(body_after(c, h.len() - 1) =~= payload@);
        }
    }
    file
}

/// Where an object with identifier `id` is stored, relative to the
/// repository directory: `objects/` and the first two hexadecimal digits of
/// the identifier as a directory, the other thirty-eight as the file name.
pub open spec fn loose_path_of(id: Seq<u8>) -> Seq<char> {
    seq!['o', 'b', 'j', 'e', 'c', 't', 's', '/'] + hex_of(id.subrange(0, 1)) + seq!['/'] + hex_of(
        id.subrange(1, id.len() as int),
    )
}

impl ObjectId {
    /// The identifier that forty hexadecimal digits of either case spell;
    /// `None` for any other text.
    pub fn from_hex(text: &[u8]) -> (r: Option<ObjectId>)
        ensures
            match r {
                Some(id) => unhex(text@) == Some(id.bytes@),
                None => !(unhex(text@) matches Some(b) && b.len() == 20),
            },
    {
        let bytes = match hex_decode(text) {
            Some(b) => b,
            None => return None,
        };
        if bytes.len() != 20 {
            return None;
        }
        let mut id = ObjectId { bytes: [0u8; 20] };
        let mut k: usize = 0;
        while k < 20
            invariant
                k <= 20,
                bytes@.len() == 20,
                forall|j: int| 0 <= j < k ==> #[trigger] id.bytes@[j] == bytes@[j],
            decreases 20 - k,
        {
            id.bytes[k] = bytes[k];
            k = k + 1;
        }
        assert(id.bytes@ == bytes@);
        Some(id)
    }

    /// The identifier as forty lowercase hexadecimal digits.
    pub fn to_hex(&self) -> (r: String)
        ensures
            r@ == hex_of(self.bytes@),
    {
        hex_encode(self.bytes.as_slice())
    }
}

/// The path of the loose file of the object `id`, relative to the repository
/// directory.
pub fn loose_path(id: &ObjectId) -> (r: String)
    ensures
        r@ == loose_path_of(id.bytes@),
{
    let all = id.bytes.as_slice();
    let head = copy_range(all, 0, 1);
    let tail = copy_range(all, 1, 20);
    let mut path = String::from_str("objects/");
    let dir = hex_encode(head.as_slice());
    path.append(dir.as_str());
    path.append("/");
    let file = hex_encode(tail.as_slice());
    path.append(file.as_str());
    proof {
        reveal_strlit("objects/");
        reveal_strlit("/");
    }
    path
}

/// The store as a map from loose paths to file contents, after writing the
/// object `(k, p)`: a file already at its path is left as it is, else the
/// file is [`encode_loose`]'s result at [`loose_path`]. This models the write
/// that the program around this library performs on disk; no function here
/// writes files.
pub open spec fn store_write(store: Map<Seq<char>, Seq<u8>>, k: Kind, p: Seq<u8>) -> Map<Seq<char>, Seq<u8>> {
    let path = loose_path_of(object_id(k, p));
    if store.contains_key(path) {
        store
    } else {
        store.insert(path, zlib_deflated(canonical(k, p)))
    }
}

/// Writing an object twice leaves the store as writing it once, no stored
/// file ever changes, and both writes name the same identifier, whose path
/// then holds a file.
pub proof fn lemma_write_idempotent(store: Map<Seq<char>, Seq<u8>>, k: Kind, p: Seq<u8>)
    ensures
        store_write(store_write(store, k, p), k, p) == store_write(store, k, p),
        store_write(store, k, p).contains_key(loose_path_of(object_id(k, p))),
        forall|q: Seq<char>| #[trigger] store.contains_key(q) ==> store_write(store, k, p).contains_key(q)
            && store_write(store, k, p)[q] == store[q],
{
}

/// The loose path splits the forty hexadecimal digits of an identifier into a
/// directory of two and a file name of thirty-eight.
pub proof fn lemma_loose_path_splits_hex(id: Seq<u8>)
    requires
        id.len() == 20,
    ensures
        hex_of(id).len() == 40,
        loose_path_of(id) == seq!['o', 'b', 'j', 'e', 'c', 't', 's', '/'] + hex_of(id).subrange(0, 2) + seq!['/']
            + hex_of(id).subrange(2, 40),
{
    let head = id.subrange(0, 1);
    let tail = id.subrange(1, 20);
    assert(id == head + tail);
    lemma_hex_of_concat(head, tail);
    lemma_hex_of_len(head);
    lemma_hex_of_len(tail);
    assert(hex_of(id).subrange(0, 2) == hex_of(head));
    assert(hex_of(id).subrange(2, 40) == hex_of(tail));
}

} // verus!

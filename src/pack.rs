//! Decoding a pack: a `PACK` signature, a version and an object count, then
//! that many entries, each a whole object or a delta against an earlier one.
use vstd::prelude::*;
use crate::delta::{apply_delta, delta_result};
use crate::error::Error;
use crate::bytes::{bytes_equal, copy_range};
use crate::object::{hash_object, object_id, Kind, ObjectId};
use crate::varint::{
    lemma_varints_advance, ofs_varint, read_ofs_varint, read_size_varint, size_varint,
};
use crate::zlib::{inflate_error, inflate_prefix, zlib_inflated};

verus! {

/// How deep offset deltas may nest: an entry, its base, its base's base, and so on.
pub const MAX_DELTA_DEPTH: u32 = 64;

/// An object decoded from a pack.
pub struct PackedObject {
    pub id: ObjectId,
    pub kind: Kind,
    pub payload: Vec<u8>,
}

/// A decoded object as identifier, kind and payload.
pub open spec fn packed_view(o: PackedObject) -> (Seq<u8>, Kind, Seq<u8>) {
    (o.id.bytes@, o.kind, o.payload@)
}

/// The objects decoded so far, in pack order.
pub open spec fn objects_view(objs: Seq<PackedObject>) -> Seq<(Seq<u8>, Kind, Seq<u8>)> {
    objs.map_values(|o: PackedObject| packed_view(o))
}

/// The first object at or after index `from` whose identifier is `id`.
pub open spec fn cache_find(cache: Seq<(Seq<u8>, Kind, Seq<u8>)>, id: Seq<u8>, from: int) -> Option<int>
    decreases cache.len() - from,
{
    if from < 0 || from >= cache.len() {
        None
    } else if cache[from].0 == id {
        Some(from)
    } else {
        cache_find(cache, id, from + 1)
    }
}

/// The kind of a whole object by its pack type tag.
pub open spec fn pack_kind(code: u8) -> Option<Kind> {
    if code == 1 {
        Some(Kind::Commit)
    } else if code == 2 {
        Some(Kind::Tree)
    } else if code == 3 {
        Some(Kind::Blob)
    } else if code == 4 {
        Some(Kind::Tag)
    } else {
        None
    }
}

/// The type tag of the entry at `pos` and the position after its type and
/// size bytes. The size only hints at the payload length and is not kept.
pub open spec fn entry_header(d: Seq<u8>, pos: int) -> Option<(u8, int)> {
    if pos < 0 || pos >= d.len() {
        None
    } else {
        let code = (d[pos] / 16 % 8) as u8;
        if d[pos] < 128 {
            Some((code, pos + 1))
        } else {
            match size_varint(d, pos + 1) {
                Some((_, next)) => Some((code, next)),
                None => None,
            }
        }
    }
}

/// A delta's zlib stream at `at`, applied to the base `(kind, base)`: the
/// object it gives and the position after the stream.
pub open spec fn delta_entry(d: Seq<u8>, at: int, kind: Kind, base: Seq<u8>) -> Result<(Kind, Seq<u8>, int), Error> {
    match zlib_inflated(d.subrange(at, d.len() as int)) {
        Err(cut_off) => Err(inflate_error(cut_off)),
        Ok((delta, used)) => match delta_result(delta, base) {
            Err(e) => Err(e),
            Ok(out) => Ok((kind, out, at + used)),
        },
    }
}

/// The object that the entry at `pos` decodes to, and the position after the
/// entry. `body` is where the first entry starts; `cache` holds the objects
/// decoded before; `depth` is how many more offset deltas may nest.
///
/// Type tags 1 to 4 are whole objects. Tag 6, an offset delta, names its base
/// by how many bytes before the delta entry's own start the base entry
/// starts; tag 7, a reference delta, by the 20-byte identifier of an object
/// decoded before. A delta's object has its base's kind. Tags 0 and 5 name
/// nothing.
pub open spec fn entry_at(
    d: Seq<u8>,
    body: int,
    pos: int,
    cache: Seq<(Seq<u8>, Kind, Seq<u8>)>,
    depth: nat,
) -> Result<(Kind, Seq<u8>, int), Error>
    decreases depth,
{
    match entry_header(d, pos) {
        None => Err(Error::UnexpectedEof),
        Some((code, p)) => if code == 6 {
            match ofs_varint(d, p) {
                None => Err(Error::UnexpectedEof),
                Some((off, at)) => if off == 0 || off > pos - body {
                    Err(Error::BaseNotFound)
                } else if depth == 0 {
                    Err(Error::DeltaChainTooDeep)
                } else {
                    match entry_at(d, body, pos - off, cache, (depth - 1) as nat) {
                        Err(e) => Err(e),
                        Ok((kind, base, _)) => delta_entry(d, at, kind, base),
                    }
                },
            }
        } else if code == 7 {
            if p + 20 > d.len() {
                Err(Error::UnexpectedEof)
            } else {
                match cache_find(cache, d.subrange(p, p + 20), 0) {
                    None => Err(Error::BaseNotFound),
                    Some(i) => delta_entry(d, p + 20, cache[i].1, cache[i].2),
                }
            }
        } else {
            match pack_kind(code) {
                None => Err(Error::UnknownObjectType),
                Some(kind) => match zlib_inflated(d.subrange(p, d.len() as int)) {
                    Err(cut_off) => Err(inflate_error(cut_off)),
                    Ok((payload, used)) => Ok((kind, payload, p + used)),
                },
            }
        },
    }
}

/// Reads the type tag of the entry at `pos` and skips its size bytes.
fn read_entry_header(d: &[u8], pos: usize) -> (r: Option<(u8, usize)>)
    ensures
        match r {
            Some((code, next)) => entry_header(d@, pos as int) == Some((code, next as int)) && pos < next <= d@.len(),
            None => entry_header(d@, pos as int) is None,
        },
{
    if pos >= d.len() {
        return None;
    }
    let b = d[pos];
    let code = b / 16 % 8;
    if b < 128 {
        return Some((code, pos + 1));
    }
    proof {
        lemma_varints_advance(d@, pos + 1);
    }
    match read_size_varint(d, pos + 1) {
        Some((_, next)) => Some((code, next)),
        None => None,
    }
}

/// The kind of a whole object by its pack type tag.
fn kind_for_code(code: u8) -> (r: Option<Kind>)
    ensures
        r == pack_kind(code),
{
    if code == 1 {
        Some(Kind::Commit)
    } else if code == 2 {
        Some(Kind::Tree)
    } else if code == 3 {
        Some(Kind::Blob)
    } else if code == 4 {
        Some(Kind::Tag)
    } else {
        None
    }
}

/// The index of the first decoded object whose identifier is `id`.
pub fn find_in_cache(cache: &Vec<PackedObject>, id: &[u8]) -> (r: Option<usize>)
    ensures
        match r {
            Some(i) => cache_find(objects_view(cache@), id@, 0) == Some(i as int) && i < cache@.len(),
            None => cache_find(objects_view(cache@), id@, 0) is None,
        },
{
    let mut i: usize = 0;
    while i < cache.len()
        invariant
            i <= cache@.len(),
            cache_find(objects_view(cache@), id@, 0) == cache_find(objects_view(cache@), id@, i as int),
        decreases cache.len() - i,
    {
        if bytes_equal(cache[i].id.bytes.as_slice(), id) {
            return Some(i);
        }
        i = i + 1;
    }
    None
}

/// Inflates the delta stream at `at` and applies it to `base`.
fn read_delta(d: &[u8], at: usize, kind: Kind, base: &[u8]) -> (r: Result<(Kind, Vec<u8>, usize), Error>)
    requires
        at <= d@.len(),
    ensures
        match r {
            Ok((k, p, n)) => delta_entry(d@, at as int, kind, base@) == Ok::<(Kind, Seq<u8>, int), Error>(
                (k, p@, n as int),
            ) && at <= n <= d@.len(),
            Err(e) => delta_entry(d@, at as int, kind, base@) == Err::<(Kind, Seq<u8>, int), Error>(e),
        },
{
    let (delta, used) = match inflate_prefix(&d[at..d.len()]) {
        Ok(x) => x,
        Err(e) => return Err(e),
    };
    match apply_delta(delta.as_slice(), base) {
        Ok(out) => Ok((kind, out, at + used)),
        Err(e) => Err(e),
    }
}

/// Decodes the entry at `pos`: the object it gives and the position after it.
/// An offset delta's base is decoded again from its own entry, at most
/// `depth` levels deep; a reference delta's base is looked up in `cache`.
pub fn read_entry(d: &[u8], body: usize, pos: usize, cache: &Vec<PackedObject>, depth: u32) -> (r: Result<
    (Kind, Vec<u8>, usize),
    Error,
>)
    requires
        body <= pos,
    ensures
        match r {
            Ok((k, p, n)) => entry_at(d@, body as int, pos as int, objects_view(cache@), depth as nat)
                == Ok::<(Kind, Seq<u8>, int), Error>((k, p@, n as int)) && pos < n <= d@.len(),
            Err(e) => entry_at(d@, body as int, pos as int, objects_view(cache@), depth as nat) == Err::<
                (Kind, Seq<u8>, int),
                Error,
            >(e),
        },
    decreases depth,
{
    let (code, p) = match read_entry_header(d, pos) {
        Some(x) => x,
        None => return Err(Error::UnexpectedEof),
    };
    if code == 6 {
        proof {
            lemma_varints_advance(d@, p as int);
        }
        let (off, at) = match read_ofs_varint(d, p) {
            Some(x) => x,
            None => return Err(Error::UnexpectedEof),
        };
        if off == 0 || off > (pos - body) as u128 {
            return Err(Error::BaseNotFound);
        }
        if depth == 0 {
            return Err(Error::DeltaChainTooDeep);
        }
        let (kind, base, _) = match read_entry(d, body, pos - off as usize, cache, depth - 1) {
            Ok(x) => x,
            Err(e) => return Err(e),
        };
        read_delta(d, at, kind, base.as_slice())
    } else if code == 7 {
        if d.len() < 20 || p > d.len() - 20 {
            return Err(Error::UnexpectedEof);
        }
        let i = match find_in_cache(cache, &d[p..p + 20]) {
            Some(i) => i,
            None => return Err(Error::BaseNotFound),
        };
        read_delta(d, p + 20, cache[i].kind, cache[i].payload.as_slice())
    } else {
        let kind = match kind_for_code(code) {
            Some(k) => k,
            None => return Err(Error::UnknownObjectType),
        };
        let (payload, used) = match inflate_prefix(&d[p..d.len()]) {
            Ok(x) => x,
            Err(e) => return Err(e),
        };
        Ok((kind, payload, p + used))
    }
}

/// The first position at or after `from` where the bytes `PACK` start.
pub open spec fn find_signature(d: Seq<u8>, from: int) -> Option<int>
    decreases d.len() - from,
{
    if from < 0 || from + 4 > d.len() {
        None
    } else if d.subrange(from, from + 4) == seq![80u8, 65, 67, 75] {
        Some(from)
    } else {
        find_signature(d, from + 1)
    }
}

/// The big-endian unsigned 32-bit number at `pos`.
pub open spec fn be_u32(d: Seq<u8>, pos: int) -> nat {
    (d[pos] * 0x100_0000 + d[pos + 1] * 0x1_0000 + d[pos + 2] * 0x100 + d[pos + 3]) as nat
}

/// Decoding the entries from `pos` on, `remaining` of them, after the objects
/// `decoded`: every object decoded, in order, and the failure of the first
/// entry that does not decode, if one does not. Each entry may use the
/// objects before it as bases.
pub open spec fn decode_entries(
    d: Seq<u8>,
    body: int,
    pos: int,
    remaining: nat,
    decoded: Seq<(Seq<u8>, Kind, Seq<u8>)>,
) -> (Seq<(Seq<u8>, Kind, Seq<u8>)>, Option<Error>)
    decreases remaining,
{
    if remaining == 0 {
        (decoded, None)
    } else {
        match entry_at(d, body, pos, decoded, MAX_DELTA_DEPTH as nat) {
            Err(e) => (decoded, Some(e)),
            Ok((kind, payload, next)) => decode_entries(
                d,
                body,
                next,
                (remaining - 1) as nat,
                decoded.push((object_id(kind, payload), kind, payload)),
            ),
        }
    }
}

/// Decoding a pack stream: the objects of the entries that decode, in order,
/// up to the first that does not, and that entry's failure, if any. The
/// stream may start with other bytes before the signature; the version must
/// be 2; a failure in the header leaves no object.
pub open spec fn pack_decode(d: Seq<u8>) -> (Seq<(Seq<u8>, Kind, Seq<u8>)>, Option<Error>) {
    match find_signature(d, 0) {
        None => (seq![], Some(Error::MissingSignature)),
        Some(s) => if s + 8 > d.len() {
            (seq![], Some(Error::UnexpectedEof))
        } else if be_u32(d, s + 4) != 2 {
            (seq![], Some(Error::UnsupportedVersion))
        } else if s + 12 > d.len() {
            (seq![], Some(Error::UnexpectedEof))
        } else {
            decode_entries(d, s + 12, s + 12, be_u32(d, s + 8), seq![])
        },
    }
}

/// The objects of a pack, and the failure that stopped decoding, if any.
pub struct DecodedPack {
    /// Every object decoded, in pack order, up to the entry that failed.
    pub objects: Vec<PackedObject>,
    /// Why decoding stopped early; `None` when every entry decoded.
    pub error: Option<Error>,
}

/// Reads the big-endian unsigned 32-bit number at `pos`.
fn read_be_u32(d: &[u8], pos: usize) -> (r: u32)
    requires
        pos + 4 <= d@.len(),
    ensures
        r as nat == be_u32(d@, pos as int),
{
    (d[pos] as u32) * 0x100_0000 + (d[pos + 1] as u32) * 0x1_0000 + (d[pos + 2] as u32) * 0x100 + (d[pos + 3] as u32)
}

/// The position of the first `PACK` signature.
fn locate_signature(d: &[u8]) -> (r: Option<usize>)
    ensures
        match r {
            Some(s) => find_signature(d@, 0) == Some(s as int) && s + 4 <= d@.len(),
            None => find_signature(d@, 0) is None,
        },
{
    let mut i: usize = 0;
    while i < d.len() && d.len() - i >= 4
        invariant
            find_signature(d@, 0) == find_signature(d@, i as int),
        decreases d.len() - i,
    {
        if d[i] == 80 && d[i + 1] == 65 && d[i + 2] == 67 && d[i + 3] == 75 {
            assert(d@.subrange(i as int, i + 4) == seq![80u8, 65, 67, 75]);
            return Some(i);
        }
        assert(d@.subrange(i as int, i + 4)[0] == d@[i as int]);
        assert(d@.subrange(i as int, i + 4)[3] == d@[i + 3]);
        i = i + 1;
    }
    None
}

/// Decodes a whole pack stream into its objects, in pack order.
///
/// Bytes before the `PACK` signature are skipped. Fails with
/// `MissingSignature` when there is none, `UnsupportedVersion` when the
/// version is not 2, and `UnexpectedEof` on a cut-off header, with no object;
/// otherwise decodes entries until one fails, and returns the objects decoded
/// before it with its failure.
pub fn decode_pack(d: &[u8]) -> (r: DecodedPack)
    ensures
        pack_decode(d@) == (objects_view(r.objects@), r.error),
{
    let mut objs: Vec<PackedObject> = Vec::new();
    proof {
        assert(objects_view(objs@) == Seq::<(Seq<u8>, Kind, Seq<u8>)>::empty());
    }
    let s = match locate_signature(d) {
        Some(s) => s,
        None => return DecodedPack { objects: objs, error: Some(Error::MissingSignature) },
    };
    if d.len() - s < 8 {
        return DecodedPack { objects: objs, error: Some(Error::UnexpectedEof) };
    }
    if read_be_u32(d, s + 4) != 2 {
        return DecodedPack { objects: objs, error: Some(Error::UnsupportedVersion) };
    }
    if d.len() - s < 12 {
        return DecodedPack { objects: objs, error: Some(Error::UnexpectedEof) };
    }
    let count = read_be_u32(d, s + 8);
    let body = s + 12;
    let mut pos = body;
    let mut done: u32 = 0;
    while done < count
        invariant
            body <= pos <= d@.len(),
            done <= count,
            pack_decode(d@) == decode_entries(d@, body as int, pos as int, (count - done) as nat, objects_view(objs@)),
        decreases count - done,
    {
        let (kind, payload, next) = match read_entry(d, body, pos, &objs, MAX_DELTA_DEPTH) {
            Ok(x) => x,
            Err(e) => return DecodedPack { objects: objs, error: Some(e) },
        };
        let id = hash_object(kind, payload.as_slice());
        let ghost before = objects_view(objs@);
        objs.push(PackedObject { id, kind, payload });
        proof {
            assert(objects_view(objs@) == before.push((object_id(kind, payload@), kind, payload@)));
        }
        pos = next;
        done = done + 1;
    }
    DecodedPack { objects: objs, error: None }
}

proof fn lemma_no_signature_from(d: Seq<u8>, from: int)
    requires
        0 <= from,
        forall|i: int| 0 <= i && i + 4 <= d.len() ==> #[trigger] d.subrange(i, i + 4) != seq![80u8, 65, 67, 75],
    ensures
        find_signature(d, from) is None,
    decreases d.len() - from,
{
    if from + 4 <= d.len() {
        lemma_no_signature_from(d, from + 1);
    }
}

/// A stream in which the bytes `PACK` stand nowhere, such as a pack whose
/// signature was overwritten, fails with `MissingSignature` and yields no
/// object at all.
pub proof fn lemma_no_signature_no_objects(d: Seq<u8>)
    requires
        forall|i: int| 0 <= i && i + 4 <= d.len() ==> #[trigger] d.subrange(i, i + 4) != seq![80u8, 65, 67, 75],
    ensures
        pack_decode(d) == (Seq::<(Seq<u8>, Kind, Seq<u8>)>::empty(), Some(Error::MissingSignature)),
{
    lemma_no_signature_from(d, 0);
}

} // verus!

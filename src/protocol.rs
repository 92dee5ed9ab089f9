//! The text around a clone: the refs a server advertises, the branch to
//! check out, the request for its pack, and where `HEAD` points.
use vstd::prelude::*;
use crate::hashing::{hex_decode, unhex};
use crate::bytes::{bytes_equal, copy_range, find_byte, find_byte_from, lemma_find_byte};
use crate::object::ObjectId;

verus! {

/// `"refs/heads/"`
pub open spec fn heads_prefix() -> Seq<u8> {
    seq![114u8, 101, 102, 115, 47, 104, 101, 97, 100, 115, 47]
}

/// `"refs/heads/main"`
pub open spec fn main_ref() -> Seq<u8> {
    heads_prefix() + seq![109u8, 97, 105, 110]
}

/// `"refs/heads/master"`
pub open spec fn master_ref() -> Seq<u8> {
    heads_prefix() + seq![109u8, 97, 115, 116, 101, 114]
}

/// Whether `s` begins with `p`.
pub open spec fn starts_with(s: Seq<u8>, p: Seq<u8>) -> bool {
    s.len() >= p.len() && s.subrange(0, p.len() as int) == p
}

/// The branch that an advertised line names, as its full ref name, the
/// forty hexadecimal digits of its commit and the commit's identifier. A line
/// is a 4-digit length (after a `0000` flush marker, if one leads), then
/// `<40 hex digits> <ref name>`, then optionally a NUL and capabilities.
/// Comment lines (`#`) and refs outside `refs/heads/` name none.
pub open spec fn ref_of_line(line: Seq<u8>) -> Option<(Seq<u8>, Seq<u8>, Seq<u8>)> {
    let framed = if line.len() >= 8 && line.subrange(0, 4) == seq![48u8, 48, 48, 48] {
        line.subrange(4, line.len() as int)
    } else {
        line
    };
    if line.len() == 0 || line[0] == 35 || framed.len() < 4 {
        None
    } else {
        let content = framed.subrange(4, framed.len() as int);
        let c = match find_byte(content, 0, 0) {
            Some(n) => content.subrange(0, n),
            None => content,
        };
        if c.len() < 41 || c[40] != 32 {
            None
        } else {
            let hex = c.subrange(0, 40);
            let name = c.subrange(41, c.len() as int);
            match unhex(hex) {
                Some(id) => if starts_with(name, heads_prefix()) {
                    Some((name, hex, id))
                } else {
                    None
                },
                None => None,
            }
        }
    }
}

/// The branches advertised on the lines from `pos` on, in order.
pub open spec fn refs_from(text: Seq<u8>, pos: int) -> Seq<(Seq<u8>, Seq<u8>, Seq<u8>)>
    decreases text.len() - pos,
{
    if pos < 0 || pos >= text.len() {
        seq![]
    } else {
        let end = match find_byte(text, 10, pos) {
            Some(e) => e,
            None => text.len() as int,
        };
        let here = match ref_of_line(text.subrange(pos, end)) {
            Some(r) => seq![r],
            None => seq![],
        };
        if end >= text.len() {
            here
        } else {
            proof {
                lemma_find_byte(text, 10, pos);
            }
            here + refs_from(text, end + 1)
        }
    }
}

/// The branches a ref advertisement names: its first line is the service
/// announcement and names none.
pub open spec fn advertised_refs(text: Seq<u8>) -> Seq<(Seq<u8>, Seq<u8>, Seq<u8>)> {
    match find_byte(text, 10, 0) {
        Some(e) => refs_from(text, e + 1),
        None => seq![],
    }
}

/// A branch that a server advertises.
pub struct RemoteRef {
    /// The full ref name, such as `refs/heads/main`.
    pub name: Vec<u8>,
    /// The forty hexadecimal digits of the branch's commit, as advertised.
    pub hex: Vec<u8>,
    /// The branch's commit.
    pub id: ObjectId,
}

/// Branches as name, digits and identifier.
pub open spec fn remote_refs_view(rs: Seq<RemoteRef>) -> Seq<(Seq<u8>, Seq<u8>, Seq<u8>)> {
    rs.map_values(|r: RemoteRef| (r.name@, r.hex@, r.id.bytes@))
}

/// The branch an advertised line names, if any.
pub fn parse_ref_line(line: &[u8]) -> (r: Option<RemoteRef>)
    ensures
        match r {
            Some(rr) => ref_of_line(line@) == Some((rr.name@, rr.hex@, rr.id.bytes@)),
            None => ref_of_line(line@) is None,
        },
{
    if line.len() == 0 || line[0] == 35 {
        return None;
    }
    let flush = line.len() >= 8 && line[0] == 48 && line[1] == 48 && line[2] == 48 && line[3] == 48;
    assert(flush == (line@.len() >= 8 && line@.subrange(0, 4) == seq![48u8, 48, 48, 48])) by {
        if line@.len() >= 8 {
            if line@[0] == 48 && line@[1] == 48 && line@[2] == 48 && line@[3] == 48 {
                assert(line@.subrange(0, 4) =~= seq![48u8, 48, 48, 48]);
            } else {
                assert(line@.subrange(0, 4)[0] == line@[0]);
                assert(line@.subrange(0, 4)[1] == line@[1]);
                assert(line@.subrange(0, 4)[2] == line@[2]);
                assert(line@.subrange(0, 4)[3] == line@[3]);
            }
        }
    }
    let framed = if flush { copy_range(line, 4, line.len()) } else { copy_range(line, 0, line.len()) };
    assert(line@.subrange(0, line@.len() as int) == line@);
    if framed.len() < 4 {
        return None;
    }
    let content = copy_range(framed.as_slice(), 4, framed.len());
    let c = match find_byte_from(content.as_slice(), 0, 0) {
        Some(n) => {
            proof {
                lemma_find_byte(content@, 0, 0);
            }
            copy_range(content.as_slice(), 0, n)
        },
        None => {
            assert(content@.subrange(0, content@.len() as int) == content@);
            copy_range(content.as_slice(), 0, content.len())
        },
    };
    if c.len() < 41 || c[40] != 32 {
        return None;
    }
    let hex = copy_range(c.as_slice(), 0, 40);
    let name = copy_range(c.as_slice(), 41, c.len());
    let prefix: [u8; 11] = [114, 101, 102, 115, 47, 104, 101, 97, 100, 115, 47];
    assert(prefix@ == heads_prefix());
    if name.len() < 11 {
        return None;
    }
    let head = copy_range(name.as_slice(), 0, 11);
    if !bytes_equal(head.as_slice(), prefix.as_slice()) {
        return None;
    }
    proof {
        if let Some(b) = unhex(hex@) {
            lemma_unhex_len(hex@);
        }
    }
    let id = match ObjectId::from_hex(hex.as_slice()) {
        Some(id) => id,
        None => return None,
    };
    Some(RemoteRef { name, hex, id })
}

/// Decoded hexadecimal text is half as long as the text.
pub proof fn lemma_unhex_len(s: Seq<u8>)
    requires
        unhex(s) is Some,
    ensures
        2 * unhex(s).unwrap().len() == s.len(),
    decreases s.len(),
{
    if s.len() >= 2 {
        lemma_unhex_len(s.subrange(2, s.len() as int));
    }
}

/// The branches that a ref advertisement names, in the order it names them.
/// The first line, the service announcement, is skipped; see
/// [`ref_of_line`] for the other lines.
pub fn parse_ref_advertisement(text: &[u8]) -> (r: Vec<RemoteRef>)
    ensures
        remote_refs_view(r@) == advertised_refs(text@),
{
    let mut refs: Vec<RemoteRef> = Vec::new();
    let first_end = match find_byte_from(text, 10, 0) {
        Some(e) => e,
        None => {
            assert(remote_refs_view(refs@) == Seq::<(Seq<u8>, Seq<u8>, Seq<u8>)>::empty());
            return refs;
        },
    };
    proof {
        lemma_find_byte(text@, 10, 0);
    }
    let mut pos = if first_end < text.len() { first_end + 1 } else { first_end };
    proof {
        assert(remote_refs_view(refs@) == Seq::<(Seq<u8>, Seq<u8>, Seq<u8>)>::empty());
        assert(advertised_refs(text@) == remote_refs_view(refs@) + refs_from(text@, pos as int));
    }
    while pos < text.len()
        invariant
            pos <= text@.len(),
            advertised_refs(text@) == remote_refs_view(refs@) + refs_from(text@, pos as int),
        decreases text.len() - pos,
    {
        let end = match find_byte_from(text, 10, pos) {
            Some(e) => e,
            None => text.len(),
        };
        proof {
            lemma_find_byte(text@, 10, pos as int);
        }
        let line = copy_range(text, pos, end);
        let ghost before = remote_refs_view(refs@);
        match parse_ref_line(line.as_slice()) {
            Some(rr) => {
                let ghost v = (rr.name@, rr.hex@, rr.id.bytes@);
                refs.push(rr);
                assert(remote_refs_view(refs@) == before + seq![v]);
            },
            None => {
                assert(remote_refs_view(refs@) == before + Seq::<(Seq<u8>, Seq<u8>, Seq<u8>)>::empty());
            },
        }
        proof {
            let here = match ref_of_line(text@.subrange(pos as int, end as int)) {
                Some(r) => seq![r],
                None => Seq::<(Seq<u8>, Seq<u8>, Seq<u8>)>::empty(),
            };
            assert(remote_refs_view(refs@) == before + here);
            if end < text@.len() {
                assert(before + (here + refs_from(text@, end + 1)) == before + here + refs_from(text@, end + 1));
            } else {
                assert(refs_from(text@, end as int) == Seq::<(Seq<u8>, Seq<u8>, Seq<u8>)>::empty());
                assert(before + here == before + here + Seq::<(Seq<u8>, Seq<u8>, Seq<u8>)>::empty());
            }
        }
        pos = if end < text.len() { end + 1 } else { end };
    }
    assert(remote_refs_view(refs@) + Seq::<(Seq<u8>, Seq<u8>, Seq<u8>)>::empty() == remote_refs_view(refs@));
    refs
}

/// The index of the first branch, from `from` on, named `refs/heads/main`
/// or `refs/heads/master`.
pub open spec fn first_default(rs: Seq<(Seq<u8>, Seq<u8>, Seq<u8>)>, from: int) -> Option<int>
    decreases rs.len() - from,
{
    if from < 0 || from >= rs.len() {
        None
    } else if rs[from].0 == main_ref() || rs[from].0 == master_ref() {
        Some(from)
    } else {
        first_default(rs, from + 1)
    }
}

/// The branch to check out: the first named `main` or `master`, else the
/// first advertised, else none.
pub open spec fn default_branch(rs: Seq<(Seq<u8>, Seq<u8>, Seq<u8>)>) -> Option<int> {
    match first_default(rs, 0) {
        Some(i) => Some(i),
        None => if rs.len() > 0 { Some(0) } else { None },
    }
}

/// The index of the branch to check out; see [`default_branch`].
pub fn choose_branch(refs: &Vec<RemoteRef>) -> (r: Option<usize>)
    ensures
        match r {
            Some(i) => default_branch(remote_refs_view(refs@)) == Some(i as int) && i < refs@.len(),
            None => default_branch(remote_refs_view(refs@)) is None,
        },
{
    let main_name: [u8; 15] = [114, 101, 102, 115, 47, 104, 101, 97, 100, 115, 47, 109, 97, 105, 110];
    let master_name: [u8; 17] = [114, 101, 102, 115, 47, 104, 101, 97, 100, 115, 47, 109, 97, 115, 116, 101, 114];
    assert(main_name@ == main_ref());
    assert(master_name@ == master_ref());
    let mut i: usize = 0;
    while i < refs.len()
        invariant
            i <= refs@.len(),
            main_name@ == main_ref(),
            master_name@ == master_ref(),
            first_default(remote_refs_view(refs@), 0) == first_default(remote_refs_view(refs@), i as int),
        decreases refs.len() - i,
    {
        let name = refs[i].name.as_slice();
        assert(remote_refs_view(refs@)[i as int].0 == refs@[i as int].name@);
        if bytes_equal(name, main_name.as_slice()) || bytes_equal(name, master_name.as_slice()) {
            return Some(i);
        }
        i = i + 1;
    }
    if refs.len() > 0 {
        Some(0)
    } else {
        None
    }
}

/// The body of the request for the pack of the commit with the forty
/// hexadecimal digits `hex`: `0032want <hex>\n00000009done\n`.
pub open spec fn want_body(hex: Seq<u8>) -> Seq<u8> {
    seq![48u8, 48, 51, 50, 119, 97, 110, 116, 32] + hex + seq![10u8, 48, 48, 48, 48, 48, 48, 48, 57, 100, 111, 110, 101, 10]
}

/// The body of the request for the pack of the commit whose forty
/// hexadecimal digits are `hex`; `None` when `hex` is not forty such digits.
pub fn want_request(hex: &[u8]) -> (r: Option<Vec<u8>>)
    ensures
        match r {
            Some(body) => hex@.len() == 40 && unhex(hex@) is Some && body@ == want_body(hex@),
            None => !(hex@.len() == 40 && unhex(hex@) is Some),
        },
{
    if hex.len() != 40 {
        return None;
    }
    match hex_decode(hex) {
        Some(_) => {},
        None => return None,
    }
    let head: [u8; 9] = [48, 48, 51, 50, 119, 97, 110, 116, 32];
    let tail: [u8; 14] = [10, 48, 48, 48, 48, 48, 48, 48, 57, 100, 111, 110, 101, 10];
    let mut out = copy_range(head.as_slice(), 0, 9);
    let mid = copy_range(hex, 0, 40);
    let end = copy_range(tail.as_slice(), 0, 14);
    out.append(&mut mid.clone());
    let mut rest = end;
    out.append(&mut rest);
    assert(head@.subrange(0, 9) == head@);
    assert(hex@.subrange(0, 40) == hex@);
    assert(tail@.subrange(0, 14) == tail@);
    Some(out)
}

/// Whether `b` is ASCII whitespace: space, tab, line feed, vertical tab,
/// form feed or carriage return.
pub open spec fn is_space(b: u8) -> bool {
    b == 32 || (9 <= b && b <= 13)
}

/// `s` without leading whitespace.
pub open spec fn trim_start(s: Seq<u8>) -> Seq<u8>
    decreases s.len(),
{
    if s.len() > 0 && is_space(s[0]) {
        trim_start(s.subrange(1, s.len() as int))
    } else {
        s
    }
}

/// `s` without trailing whitespace.
pub open spec fn trim_end(s: Seq<u8>) -> Seq<u8>
    decreases s.len(),
{
    if s.len() > 0 && is_space(s.last()) {
        trim_end(s.drop_last())
    } else {
        s
    }
}

/// `"ref: "`
pub open spec fn symref_prefix() -> Seq<u8> {
    seq![114u8, 101, 102, 58, 32]
}

/// The ref that a `HEAD` file names, trimmed of whitespace, when it is
/// symbolic (`ref: <name>`); `None` when `HEAD` holds a commit itself.
pub open spec fn head_ref(head: Seq<u8>) -> Option<Seq<u8>> {
    if starts_with(head, symref_prefix()) {
        Some(trim_end(trim_start(head.subrange(5, head.len() as int))))
    } else {
        None
    }
}

/// Where a new commit goes: the ref that `HEAD` names, or `None` when `HEAD`
/// is detached and the commit is written to `HEAD` itself.
pub fn head_target(head: &[u8]) -> (r: Option<Vec<u8>>)
    ensures
        match r {
            Some(name) => head_ref(head@) == Some(name@),
            None => head_ref(head@) is None,
        },
{
    let prefix: [u8; 5] = [114, 101, 102, 58, 32];
    assert(prefix@ == symref_prefix());
    if head.len() < 5 {
        return None;
    }
    let start = copy_range(head, 0, 5);
    if !bytes_equal(start.as_slice(), prefix.as_slice()) {
        return None;
    }
    let mut lo: usize = 5;
    proof {
        assert(trim_start(head@.subrange(5, head@.len() as int)) == trim_start(head@.subrange(lo as int, head@.len() as int)));
    }
    while lo < head.len() && (head[lo] == 32 || (9 <= head[lo] && head[lo] <= 13))
        invariant
            5 <= lo <= head@.len(),
            trim_start(head@.subrange(5, head@.len() as int)) == trim_start(head@.subrange(lo as int, head@.len() as int)),
        decreases head.len() - lo,
    {
        assert(head@.subrange(lo as int, head@.len() as int).subrange(1, head@.len() - lo) == head@.subrange(lo + 1, head@.len() as int));
        lo = lo + 1;
    }
    let mut hi: usize = head.len();
    proof {
        assert(head@.subrange(lo as int, head@.len() as int)[0] == head@[lo as int] || lo == head@.len());
    }
    while hi > lo && (head[hi - 1] == 32 || (9 <= head[hi - 1] && head[hi - 1] <= 13))
        invariant
            lo <= hi <= head@.len(),
            trim_end(trim_start(head@.subrange(5, head@.len() as int))) == trim_end(head@.subrange(lo as int, hi as int)),
        decreases hi - lo,
    {
        assert(head@.subrange(lo as int, hi as int).drop_last() == head@.subrange(lo as int, hi - 1));
        hi = hi - 1;
    }
    Some(copy_range(head, lo, hi))
}

} // verus!

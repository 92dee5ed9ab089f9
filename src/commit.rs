//! Commit objects: finding the tree a commit records, and writing the
//! payload of a new commit.
use vstd::prelude::*;
use crate::error::Error;
use crate::hashing::unhex;
use crate::bytes::{copy_range, find_byte, find_byte_from, lemma_find_byte, push_all};
use crate::object::{push_decimal, decimal, ObjectId};

verus! {

/// `"tree "`
pub open spec fn tree_keyword() -> Seq<u8> {
    seq![116u8, 114, 101, 101, 32]
}

/// The rest of the first line, at or after `pos`, that begins with `tree `.
pub open spec fn tree_field_from(p: Seq<u8>, pos: int) -> Option<Seq<u8>>
    decreases p.len() - pos,
{
    if pos < 0 || pos >= p.len() {
        None
    } else {
        let end = match find_byte(p, 10, pos) {
            Some(e) => e,
            None => p.len() as int,
        };
        let line = p.subrange(pos, end);
        if line.len() >= 5 && line.subrange(0, 5) == tree_keyword() {
            Some(line.subrange(5, line.len() as int))
        } else if end >= p.len() {
            None
        } else {
            proof {
                lemma_find_byte(p, 10, pos);
            }
            tree_field_from(p, end + 1)
        }
    }
}

/// The tree a commit payload records: the identifier that follows `tree `
/// on its first such line, as forty hexadecimal digits.
pub open spec fn commit_tree_id(p: Seq<u8>) -> Option<Seq<u8>> {
    match tree_field_from(p, 0) {
        Some(f) => match unhex(f) {
            Some(b) => if b.len() == 20 { Some(b) } else { None },
            None => None,
        },
        None => None,
    }
}

/// The tree that a commit payload records. Fails with `CorruptCommit` when no
/// line begins with `tree ` or the first such line does not go on with
/// exactly forty hexadecimal digits.
pub fn commit_tree(payload: &[u8]) -> (r: Result<ObjectId, Error>)
    ensures
        match r {
            Ok(id) => commit_tree_id(payload@) == Some(id.bytes@),
            Err(e) => e == Error::CorruptCommit && commit_tree_id(payload@) is None,
        },
{
    let mut pos: usize = 0;
    while pos < payload.len()
        invariant
            pos <= payload@.len(),
            tree_field_from(payload@, 0) == tree_field_from(payload@, pos as int),
        decreases payload.len() - pos,
    {
        let end = match find_byte_from(payload, 10, pos) {
            Some(e) => e,
            None => payload.len(),
        };
        proof {
            lemma_find_byte(payload@, 10, pos as int);
        }
        let line = copy_range(payload, pos, end);
        if line.len() >= 5 && line[0] == 116 && line[1] == 114 && line[2] == 101 && line[3] == 101 && line[4] == 32 {
            assert(line@.subrange(0, 5) == tree_keyword());
            let field = copy_range(line.as_slice(), 5, line.len());
            return match ObjectId::from_hex(field.as_slice()) {
                Some(id) => Ok(id),
                None => Err(Error::CorruptCommit),
            };
        }
        assert(!(line@.len() >= 5 && line@.subrange(0, 5) == tree_keyword())) by {
            if line@.len() >= 5 && line@.subrange(0, 5) == tree_keyword() {
                assert(line@[0] == line@.subrange(0, 5)[0]);
                assert(line@[1] == line@.subrange(0, 5)[1]);
                assert(line@[2] == line@.subrange(0, 5)[2]);
                assert(line@[3] == line@.subrange(0, 5)[3]);
                assert(line@[4] == line@.subrange(0, 5)[4]);
            }
        }
        if end >= payload.len() {
            return Err(Error::CorruptCommit);
        }
        pos = end + 1;
    }
    Err(Error::CorruptCommit)
}

/// `" +0000"`: the time zone that commits are stamped with.
pub open spec fn utc_suffix() -> Seq<u8> {
    seq![32u8, 43, 48, 48, 48, 48]
}

/// The timestamp of a commit made `seconds` after the Unix epoch: the
/// seconds in decimal, then ` +0000`.
pub fn obtener_timestamp(seconds: u64) -> (r: Vec<u8>)
    ensures
        r@ == decimal(seconds as nat) + utc_suffix(),
{
    let mut out: Vec<u8> = Vec::new();
    push_decimal(&mut out, seconds);
    let suffix: [u8; 6] = [32, 43, 48, 48, 48, 48];
    push_all(&mut out, suffix.as_slice());
    out
}

/// The payload of a commit of the tree `tree`, after `parent` if there is
/// one, by `author` at `timestamp`, who also commits it, with `message`:
/// `tree`, `parent`, `author` and `committer` lines, a blank line, and the
/// message with a final newline.
pub open spec fn commit_text(
    tree: Seq<u8>,
    parent: Option<Seq<u8>>,
    author: Seq<u8>,
    timestamp: Seq<u8>,
    message: Seq<u8>,
) -> Seq<u8> {
    let signature = author + seq![32u8] + timestamp + seq![10u8];
    tree_keyword() + tree + seq![10u8] + match parent {
        Some(p) => seq![112u8, 97, 114, 101, 110, 116, 32] + p + seq![10u8],
        None => Seq::empty(),
    } + seq![97u8, 117, 116, 104, 111, 114, 32] + signature + seq![99u8, 111, 109, 109, 105, 116, 116, 101, 114, 32]
        + signature + seq![10u8] + message + seq![10u8]
}

/// Writes the payload of a new commit; see [`commit_text`].
pub fn commit_payload(
    tree: &[u8],
    parent: Option<&[u8]>,
    author: &[u8],
    timestamp: &[u8],
    message: &[u8],
) -> (r: Vec<u8>)
    ensures
        r@ == commit_text(tree@, match parent {
            Some(p) => Some(p@),
            None => None,
        }, author@, timestamp@, message@),
{
    let tree_word: [u8; 5] = [116, 114, 101, 101, 32];
    let parent_word: [u8; 7] = [112, 97, 114, 101, 110, 116, 32];
    let author_word: [u8; 7] = [97, 117, 116, 104, 111, 114, 32];
    let committer_word: [u8; 10] = [99, 111, 109, 109, 105, 116, 116, 101, 114, 32];
    let mut out: Vec<u8> = Vec::new();
    push_all(&mut out, tree_word.as_slice());
    push_all(&mut out, tree);
    out.push(10);
    let ghost after_tree = out@;
    match parent {
        Some(p) => {
            push_all(&mut out, parent_word.as_slice());
            push_all(&mut out, p);
            out.push(10);
        },
        None => {},
    }
    let ghost after_parent = out@;
    let mut signature: Vec<u8> = Vec::new();
    push_all(&mut signature, author);
    signature.push(32);
    push_all(&mut signature, timestamp);
    signature.push(10);
    push_all(&mut out, author_word.as_slice());
    push_all(&mut out, signature.as_slice());
    push_all(&mut out, committer_word.as_slice());
    push_all(&mut out, signature.as_slice());
    out.push(10);
    push_all(&mut out, message);
    out.push(10);
    proof {
        let sig = author@ + seq![32u8] + timestamp@ + seq![10u8];
        assert(signature@ == sig);
        let mid = match parent {
            Some(p) => seq![112u8, 97, 114, 101, 110, 116, 32] + p@ + seq![10u8],
            None => Seq::<u8>::empty(),
        };
        assert(after_tree == tree_keyword() + tree@ + seq![10u8]);
        assert(after_parent == after_tree + mid);
        assert(out@ == after_parent + seq![97u8, 117, 116, 104, 111, 114, 32] + sig
            + seq![99u8, 111, 109, 109, 105, 116, 116, 101, 114, 32] + sig + seq![10u8] + message@ + seq![10u8]);
    }
    out
}

} // verus!

//! Tree objects: parsing their entries and planning the checkout of a
//! working directory from them.
use vstd::prelude::*;
use vstd::multiset::Multiset;
use vstd::seq_lib::{to_multiset_build, to_multiset_insert};
use crate::error::Error;
use crate::bytes::{bytes_equal, copy_range, find_byte, find_byte_from, lemma_find_at, lemma_find_byte, push_all};
use crate::object::ObjectId;

verus! {

/// The mode of a tree entry.
#[derive(Debug, Clone, Copy, PartialEq, Eq, Structural)]
pub enum EntryMode {
    RegularFile,
    ExecutableFile,
    Directory,
    Symlink,
    Submodule,
}

/// `"100755"`
pub open spec fn executable_text() -> Seq<u8> {
    seq![49u8, 48, 48, 55, 53, 53]
}

/// `"40000"`
pub open spec fn directory_text() -> Seq<u8> {
    seq![52u8, 48, 48, 48, 48]
}

/// `"040000"`
pub open spec fn padded_directory_text() -> Seq<u8> {
    seq![48u8, 52, 48, 48, 48, 48]
}

/// `"120000"`
pub open spec fn symlink_text() -> Seq<u8> {
    seq![49u8, 50, 48, 48, 48, 48]
}

/// `"160000"`
pub open spec fn submodule_text() -> Seq<u8> {
    seq![49u8, 54, 48, 48, 48, 48]
}

/// The mode that the octal text `t` of an entry names. Any mode beginning
/// with `10` but `100755` is a regular file.
pub open spec fn mode_of(t: Seq<u8>) -> Option<EntryMode> {
    if t == executable_text() {
        Some(EntryMode::ExecutableFile)
    } else if t.len() >= 2 && t[0] == 49 && t[1] == 48 {
        Some(EntryMode::RegularFile)
    } else if t == directory_text() || t == padded_directory_text() {
        Some(EntryMode::Directory)
    } else if t == symlink_text() {
        Some(EntryMode::Symlink)
    } else if t == submodule_text() {
        Some(EntryMode::Submodule)
    } else {
        None
    }
}

/// Whether `name` can name a file inside the directory of its tree: not
/// empty, not `.` or `..`, and without `/`.
pub open spec fn valid_name(name: Seq<u8>) -> bool {
    &&& name.len() > 0
    &&& name != seq![46u8]
    &&& name != seq![46u8, 46]
    &&& forall|i: int| 0 <= i < name.len() ==> #[trigger] name[i] != 47
}

/// The entries of a tree payload from `pos` on, each `<mode> <name>\0`
/// followed by the 20 bytes of the entry's identifier.
pub open spec fn tree_entries_from(t: Seq<u8>, pos: int) -> Result<Seq<(EntryMode, Seq<u8>, Seq<u8>)>, Error>
    decreases t.len() - pos,
{
    if pos < 0 || pos >= t.len() {
        Ok(seq![])
    } else {
        match find_byte(t, 0, pos) {
            None => Err(Error::CorruptTree),
            Some(nul) => {
                let text = t.subrange(pos, nul);
                match find_byte(text, 32, 0) {
                    None => Err(Error::CorruptTree),
                    Some(sp) => match mode_of(text.subrange(0, sp)) {
                        None => Err(Error::CorruptTree),
                        Some(mode) => {
                            let name = text.subrange(sp + 1, text.len() as int);
                            if !valid_name(name) {
                                Err(Error::CorruptTree)
                            } else if nul + 21 > t.len() {
                                Err(Error::UnexpectedEof)
                            } else {
                                proof {
                                    lemma_find_byte(t, 0, pos);
                                }
                                match tree_entries_from(t, nul + 21) {
                                    Err(e) => Err(e),
                                    Ok(rest) => Ok(seq![(mode, name, t.subrange(nul + 1, nul + 21))] + rest),
                                }
                            }
                        },
                    },
                }
            },
        }
    }
}

/// An entry of a tree.
pub struct TreeEntry {
    pub mode: EntryMode,
    pub name: Vec<u8>,
    pub id: ObjectId,
}

/// Entries as mode, name and identifier.
pub open spec fn entries_view(es: Seq<TreeEntry>) -> Seq<(EntryMode, Seq<u8>, Seq<u8>)> {
    es.map_values(|e: TreeEntry| (e.mode, e.name@, e.id.bytes@))
}

/// The mode that the octal text `t` names.
pub fn parse_mode(t: &[u8]) -> (r: Option<EntryMode>)
    ensures
        r == mode_of(t@),
{
    let exec_text: [u8; 6] = [49, 48, 48, 55, 53, 53];
    let dir_text: [u8; 5] = [52, 48, 48, 48, 48];
    let padded_dir_text: [u8; 6] = [48, 52, 48, 48, 48, 48];
    let link_text: [u8; 6] = [49, 50, 48, 48, 48, 48];
    let sub_text: [u8; 6] = [49, 54, 48, 48, 48, 48];
    assert(exec_text@ == executable_text());
    assert(dir_text@ == directory_text());
    assert(padded_dir_text@ == padded_directory_text());
    assert(link_text@ == symlink_text());
    assert(sub_text@ == submodule_text());
    if bytes_equal(t, exec_text.as_slice()) {
        Some(EntryMode::ExecutableFile)
    } else if t.len() >= 2 && t[0] == 49 && t[1] == 48 {
        Some(EntryMode::RegularFile)
    } else if bytes_equal(t, dir_text.as_slice()) || bytes_equal(t, padded_dir_text.as_slice()) {
        Some(EntryMode::Directory)
    } else if bytes_equal(t, link_text.as_slice()) {
        Some(EntryMode::Symlink)
    } else if bytes_equal(t, sub_text.as_slice()) {
        Some(EntryMode::Submodule)
    } else {
        None
    }
}

/// Whether `name` can name a file inside its tree's directory.
pub fn is_valid_name(name: &[u8]) -> (r: bool)
    ensures
        r == valid_name(name@),
{
    if name.len() == 0 {
        return false;
    }
    if name.len() == 1 && name[0] == 46 {
        assert(name@ == seq![46u8]);
        return false;
    }
    if name.len() == 2 && name[0] == 46 && name[1] == 46 {
        assert(name@ == seq![46u8, 46]);
        return false;
    }
    let mut i: usize = 0;
    while i < name.len()
        invariant
            i <= name@.len(),
            forall|j: int| 0 <= j < i ==> #[trigger] name@[j] != 47,
        decreases name.len() - i,
    {
        if name[i] == 47 {
            return false;
        }
        i = i + 1;
    }
    proof {
        if name@ == seq![46u8] {
            assert(name@.len() == 1 && name@[0] == 46);
        }
        if name@ == seq![46u8, 46] {
            assert(name@.len() == 2 && name@[0] == 46 && name@[1] == 46);
        }
    }
    true
}

/// Parses a tree payload into its entries, in stored order. Fails with
/// `CorruptTree` when an entry lacks its NUL or space, has an unknown mode or
/// a name that is empty, `.`, `..` or holds `/`, and with `UnexpectedEof`
/// when the payload ends inside an identifier.
pub fn parse_tree(t: &[u8]) -> (r: Result<Vec<TreeEntry>, Error>)
    ensures
        match r {
            Ok(es) => tree_entries_from(t@, 0) == Ok::<Seq<(EntryMode, Seq<u8>, Seq<u8>)>, Error>(entries_view(es@)),
            Err(e) => tree_entries_from(t@, 0) == Err::<Seq<(EntryMode, Seq<u8>, Seq<u8>)>, Error>(e),
        },
{
    let mut es: Vec<TreeEntry> = Vec::new();
    let mut pos: usize = 0;
    proof {
        assert(entries_view(es@) + Seq::<(EntryMode, Seq<u8>, Seq<u8>)>::empty() == entries_view(es@));
        assert(entries_view(es@) == Seq::<(EntryMode, Seq<u8>, Seq<u8>)>::empty());
    }
    while pos < t.len()
        invariant
            pos <= t@.len(),
            tree_entries_from(t@, 0) == match tree_entries_from(t@, pos as int) {
                Ok(rest) => Ok(entries_view(es@) + rest),
                Err(e) => Err::<Seq<(EntryMode, Seq<u8>, Seq<u8>)>, Error>(e),
            },
        decreases t.len() - pos,
    {
        let nul = match find_byte_from(t, 0, pos) {
            Some(n) => n,
            None => return Err(Error::CorruptTree),
        };
        proof {
            lemma_find_byte(t@, 0, pos as int);
        }
        let text = copy_range(t, pos, nul);
        let sp = match find_byte_from(text.as_slice(), 32, 0) {
            Some(n) => n,
            None => return Err(Error::CorruptTree),
        };
        proof {
            lemma_find_byte(text@, 32, 0);
        }
        let mode_text = copy_range(text.as_slice(), 0, sp);
        let mode = match parse_mode(mode_text.as_slice()) {
            Some(m) => m,
            None => return Err(Error::CorruptTree),
        };
        let name = copy_range(text.as_slice(), sp + 1, text.len());
        if !is_valid_name(name.as_slice()) {
            return Err(Error::CorruptTree);
        }
        if t.len() - nul < 21 {
            return Err(Error::UnexpectedEof);
        }
        let mut id = ObjectId { bytes: [0u8; 20] };
        let mut k: usize = 0;
        while k < 20
            invariant
                k <= 20,
                nul + 21 <= t@.len() <= usize::MAX,
                forall|j: int| 0 <= j < k ==> #[trigger] id.bytes@[j] == t@[nul + 1 + j],
            decreases 20 - k,
        {
            id.bytes[k] = t[nul + 1 + k];
            k = k + 1;
        }
        assert(id.bytes@ == t@.subrange(nul + 1, nul + 21));
        let ghost before = entries_view(es@);
        let ghost entry = (mode, name@, id.bytes@);
        es.push(TreeEntry { mode, name, id });
        proof {
            assert(entries_view(es@) == before.push(entry));
            assert(before.push(entry) == before + seq![entry]);
            if let Ok(rest) = tree_entries_from(t@, nul + 21) {
                assert(before + (seq![entry] + rest) == before + seq![entry] + rest);
            }
        }
        pos = nul + 21;
    }
    proof {
        assert(entries_view(es@) + Seq::<(EntryMode, Seq<u8>, Seq<u8>)>::empty() == entries_view(es@));
    }
    Ok(es)
}

/// What checking out an entry does at its path.
#[derive(Debug, Clone, Copy, PartialEq, Eq, Structural)]
pub enum Action {
    /// Create a directory and check out the tree `id` inside it.
    MakeDir,
    /// Write the blob `id` as a file.
    WriteFile,
    /// Write the blob `id` as a file with the owner-executable bit set.
    WriteExecutable,
    /// Create a symbolic link whose target is the content of the blob `id`.
    Link,
    /// Nothing: the entry names a commit of another repository.
    Skip,
}

/// One step of a checkout: an action, the path it acts on relative to the
/// working directory, and the object it takes its content from.
pub struct CheckoutStep {
    pub action: Action,
    pub path: Vec<u8>,
    pub id: ObjectId,
}

/// The action for an entry of mode `m`.
pub open spec fn action_of(m: EntryMode) -> Action {
    match m {
        EntryMode::RegularFile => Action::WriteFile,
        EntryMode::ExecutableFile => Action::WriteExecutable,
        EntryMode::Directory => Action::MakeDir,
        EntryMode::Symlink => Action::Link,
        EntryMode::Submodule => Action::Skip,
    }
}

/// `name` inside the directory `prefix`; the empty prefix is the working directory.
pub open spec fn join_path(prefix: Seq<u8>, name: Seq<u8>) -> Seq<u8> {
    if prefix.len() == 0 {
        name
    } else {
        prefix + seq![47u8] + name
    }
}

/// Steps as action, path and identifier.
pub open spec fn steps_view(steps: Seq<CheckoutStep>) -> Seq<(Action, Seq<u8>, Seq<u8>)> {
    steps.map_values(|st: CheckoutStep| (st.action, st.path@, st.id.bytes@))
}

/// The steps that check out the entries `es` under `prefix`, one per entry,
/// in stored order.
pub open spec fn plan_of(es: Seq<(EntryMode, Seq<u8>, Seq<u8>)>, prefix: Seq<u8>) -> Seq<(Action, Seq<u8>, Seq<u8>)> {
    es.map_values(|e: (EntryMode, Seq<u8>, Seq<u8>)| (action_of(e.0), join_path(prefix, e.1), e.2))
}

/// The action for an entry of mode `m`.
pub fn action_for(m: EntryMode) -> (r: Action)
    ensures
        r == action_of(m),
{
    match m {
        EntryMode::RegularFile => Action::WriteFile,
        EntryMode::ExecutableFile => Action::WriteExecutable,
        EntryMode::Directory => Action::MakeDir,
        EntryMode::Symlink => Action::Link,
        EntryMode::Submodule => Action::Skip,
    }
}

/// `name` inside the directory `prefix`.
pub fn join(prefix: &[u8], name: &[u8]) -> (r: Vec<u8>)
    ensures
        r@ == join_path(prefix@, name@),
{
    if prefix.len() == 0 {
        assert(name@.subrange(0, name@.len() as int) == name@);
        return copy_range(name, 0, name.len());
    }
    let mut out = copy_range(prefix, 0, prefix.len());
    out.push(47);
    push_all(&mut out, name);
    assert(prefix@.subrange(0, prefix@.len() as int) == prefix@);
    out
}

/// The steps that check out the tree payload `tree` under the directory
/// `prefix` (empty for the working directory itself): one per entry, in
/// stored order. Directories are created and their trees checked out in
/// turn; files are written, executable ones with the owner-executable bit;
/// symbolic links point at their blob's content. Fails as [`parse_tree`] does.
pub fn plan_checkout(tree: &[u8], prefix: &[u8]) -> (r: Result<Vec<CheckoutStep>, Error>)
    ensures
        match r {
            Ok(steps) => tree_entries_from(tree@, 0) matches Ok(es) && steps_view(steps@) == plan_of(es, prefix@),
            Err(e) => tree_entries_from(tree@, 0) == Err::<Seq<(EntryMode, Seq<u8>, Seq<u8>)>, Error>(e),
        },
{
    let es = match parse_tree(tree) {
        Ok(es) => es,
        Err(e) => return Err(e),
    };
    let mut steps: Vec<CheckoutStep> = Vec::new();
    let mut i: usize = 0;
    while i < es.len()
        invariant
            i <= es@.len(),
            steps_view(steps@) == plan_of(entries_view(es@), prefix@).subrange(0, i as int),
        decreases es.len() - i,
    {
        let e = &es[i];
        let step = CheckoutStep { action: action_for(e.mode), path: join(prefix, e.name.as_slice()), id: e.id };
        let ghost before = steps_view(steps@);
        steps.push(step);
        proof {
            assert(steps_view(steps@) == before.push((action_of(es@[i as int].mode), join_path(prefix@, es@[i as int].name@), es@[i as int].id.bytes@)));
            assert(plan_of(entries_view(es@), prefix@).subrange(0, i + 1) == plan_of(entries_view(es@), prefix@).subrange(0, i as int).push(plan_of(entries_view(es@), prefix@)[i as int]));
        }
        i = i + 1;
    }
    assert(plan_of(entries_view(es@), prefix@).subrange(0, es@.len() as int) == plan_of(entries_view(es@), prefix@));
    Ok(steps)
}

/// How a listing names the mode whose octal text is `t`.
pub open spec fn mode_label(t: Seq<u8>) -> Seq<char> {
    if t == seq![49u8, 48, 48, 54, 52, 52] {
        seq!['b', 'l', 'o', 'b']
    } else if t == executable_text() {
        seq!['b', 'l', 'o', 'b', ' ', 'e', 'j', 'e', 'c', 'u', 't', 'a', 'b', 'l', 'e']
    } else if t == symlink_text() {
        seq!['s', 'y', 'm', 'l', 'i', 'n', 'k']
    } else if t == padded_directory_text() {
        seq!['t', 'r', 'e', 'e']
    } else if t == submodule_text() {
        seq!['s', 'u', 'b', 'm', 'o', 'd', 'u', 'l', 'o']
    } else {
        seq!['d', 'e', 's', 'c', 'o', 'n', 'o', 'c', 'i', 'd', 'o']
    }
}

/// How a listing names the mode whose octal text is `modo`: `blob`,
/// `blob ejecutable`, `symlink`, `tree`, `submodulo`, or `desconocido` for
/// any other text.
pub fn tipo_modo(modo: &[u8]) -> (r: &'static str)
    ensures
        r@ == mode_label(modo@),
{
    let regular: [u8; 6] = [49, 48, 48, 54, 52, 52];
    let exec_text: [u8; 6] = [49, 48, 48, 55, 53, 53];
    let link_text: [u8; 6] = [49, 50, 48, 48, 48, 48];
    let dir_text: [u8; 6] = [48, 52, 48, 48, 48, 48];
    let sub_text: [u8; 6] = [49, 54, 48, 48, 48, 48];
    assert(regular@ == seq![49u8, 48, 48, 54, 52, 52]);
    assert(exec_text@ == executable_text());
    assert(link_text@ == symlink_text());
    assert(dir_text@ == padded_directory_text());
    assert(sub_text@ == submodule_text());
    if bytes_equal(modo, regular.as_slice()) {
        proof {
            reveal_strlit("blob");
        }
        "blob"
    } else if bytes_equal(modo, exec_text.as_slice()) {
        proof {
            reveal_strlit("blob ejecutable");
        }
        "blob ejecutable"
    } else if bytes_equal(modo, link_text.as_slice()) {
        proof {
            reveal_strlit("symlink");
        }
        "symlink"
    } else if bytes_equal(modo, dir_text.as_slice()) {
        proof {
            reveal_strlit("tree");
        }
        "tree"
    } else if bytes_equal(modo, sub_text.as_slice()) {
        proof {
            reveal_strlit("submodulo");
        }
        "submodulo"
    } else {
        proof {
            reveal_strlit("desconocido");
        }
        "desconocido"
    }
}

/// Whether `a` sorts before `b`, comparing raw bytes, a proper prefix first.
pub open spec fn name_lt(a: Seq<u8>, b: Seq<u8>) -> bool
    decreases a.len(),
{
    if a.len() == 0 {
        b.len() > 0
    } else if b.len() == 0 {
        false
    } else if a[0] != b[0] {
        a[0] < b[0]
    } else {
        name_lt(a.drop_first(), b.drop_first())
    }
}

/// The order on names is transitive.
pub proof fn lemma_name_lt_transitive(a: Seq<u8>, b: Seq<u8>, c: Seq<u8>)
    requires
        name_lt(a, b),
        name_lt(b, c),
    ensures
        name_lt(a, c),
    decreases a.len(),
{
    if a.len() > 0 && b.len() > 0 && c.len() > 0 && a[0] == b[0] && b[0] == c[0] {
        lemma_name_lt_transitive(a.drop_first(), b.drop_first(), c.drop_first());
    }
}

/// Of two different names, one sorts before the other, and never both.
pub proof fn lemma_name_lt_total(a: Seq<u8>, b: Seq<u8>)
    ensures
        a == b || name_lt(a, b) || name_lt(b, a),
        !(name_lt(a, b) && name_lt(b, a)),
        !name_lt(a, a),
    decreases a.len(),
{
    if a.len() > 0 && b.len() > 0 && a[0] == b[0] {
        lemma_name_lt_total(a.drop_first(), b.drop_first());
        if a.drop_first() == b.drop_first() {
            assert(a == seq![a[0]] + a.drop_first());
            assert(b == seq![b[0]] + b.drop_first());
        }
    }
    if a.len() > 0 {
        lemma_name_lt_total(a.drop_first(), a.drop_first());
    }
    if a.len() == 0 && b.len() == 0 {
        assert(a == b);
    }
}

/// Whether `a` sorts before `b`.
pub fn name_less(a: &[u8], b: &[u8]) -> (r: bool)
    ensures
        r == name_lt(a@, b@),
{
    let mut i: usize = 0;
    assert(a@.subrange(0, a@.len() as int) == a@);
    assert(b@.subrange(0, b@.len() as int) == b@);
    while i < a.len() && i < b.len()
        invariant
            i <= a@.len(),
            i <= b@.len(),
            name_lt(a@, b@) == name_lt(a@.subrange(i as int, a@.len() as int), b@.subrange(i as int, b@.len() as int)),
        decreases a.len() - i,
    {
        assert(a@.subrange(i as int, a@.len() as int).drop_first() == a@.subrange(i + 1, a@.len() as int));
        assert(b@.subrange(i as int, b@.len() as int).drop_first() == b@.subrange(i + 1, b@.len() as int));
        if a[i] != b[i] {
            return a[i] < b[i];
        }
        i = i + 1;
    }
    i < b.len()
}

/// Whether the entries are sorted by name.
pub open spec fn sorted_by_name(es: Seq<(EntryMode, Seq<u8>, Seq<u8>)>) -> bool {
    forall|i: int, j: int| 0 <= i < j < es.len() ==> !name_lt(#[trigger] es[j].1, #[trigger] es[i].1)
}

/// The same entries, sorted by the raw bytes of their names.
pub fn sort_entries(entries: Vec<TreeEntry>) -> (r: Vec<TreeEntry>)
    ensures
        sorted_by_name(entries_view(r@)),
        entries_view(r@).to_multiset() == entries_view(entries@).to_multiset(),
{
    let mut rest = entries;
    let mut out: Vec<TreeEntry> = Vec::new();
    let ghost all = entries_view(rest@).to_multiset();
    proof {
        broadcast use vstd::multiset::group_multiset_axioms, vstd::seq_lib::group_to_multiset_ensures, vstd::multiset::lemma_multiset_empty_len;
        assert(entries_view(out@) =~= Seq::<(EntryMode, Seq<u8>, Seq<u8>)>::empty());
        assert(entries_view(out@).to_multiset() =~= Multiset::empty());
        assert(Multiset::<(EntryMode, Seq<u8>, Seq<u8>)>::empty().add(all) =~= all);
    }
    while rest.len() > 0
        invariant
            sorted_by_name(entries_view(out@)),
            entries_view(out@).to_multiset().add(entries_view(rest@).to_multiset()) == all,
        decreases rest.len(),
    {
        let ghost rest_before = entries_view(rest@);
        let e = rest.pop().unwrap();
        let ghost ev = (e.mode, e.name@, e.id.bytes@);
        proof {
            assert(rest_before =~= entries_view(rest@).push(ev));
            to_multiset_build(entries_view(rest@), ev);
        }
        let mut j: usize = 0;
        while j < out.len()
            invariant
                j <= out@.len(),
                forall|k: int| 0 <= k < j ==> !name_lt(e.name@, #[trigger] out@[k].name@),
            ensures
                j <= out@.len(),
                forall|k: int| 0 <= k < j ==> !name_lt(e.name@, #[trigger] out@[k].name@),
                j < out@.len() ==> name_lt(e.name@, out@[j as int].name@),
            decreases out.len() - j,
        {
            if name_less(e.name.as_slice(), out[j].name.as_slice()) {
                break;
            }
            j = j + 1;
        }
        let ghost old_view = entries_view(out@);
        out.insert(j, e);
        proof {
            let nv = entries_view(out@);
            assert(nv =~= old_view.insert(j as int, ev));
            to_multiset_insert(old_view, j as int, ev);
            assert forall|a: int, b: int| 0 <= a < b < nv.len() implies !name_lt(#[trigger] nv[b].1, #[trigger] nv[a].1) by {
                if b == j {
                    assert(old_view[a].1 == out@[a].name@);
                } else if a == j {
                    let c = old_view[b - 1].1;
                    let first = old_view[j as int].1;
                    assert(name_lt(ev.1, first));
                    if b - 1 > j {
                        lemma_name_lt_total(first, c);
                        if name_lt(first, c) {
                            lemma_name_lt_transitive(ev.1, first, c);
                        }
                    }
                    lemma_name_lt_total(ev.1, c);
                } else {
                    let ia = if a < j { a } else { a - 1 };
                    let ib = if b < j { b } else { b - 1 };
                    assert(nv[a] == old_view[ia]);
                    assert(nv[b] == old_view[ib]);
                }
            }
        }
    }
    proof {
        broadcast use vstd::multiset::group_multiset_axioms, vstd::seq_lib::group_to_multiset_ensures, vstd::multiset::lemma_multiset_empty_len;
        assert(entries_view(rest@) =~= Seq::<(EntryMode, Seq<u8>, Seq<u8>)>::empty());
        assert(entries_view(rest@).to_multiset() =~= Multiset::empty());
        assert(entries_view(out@).to_multiset().add(Multiset::empty()) =~= entries_view(out@).to_multiset());
    }
    out
}

/// The octal text a tree stores for the mode `m`.
pub open spec fn octal_of(m: EntryMode) -> Seq<u8> {
    match m {
        EntryMode::RegularFile => seq![49u8, 48, 48, 54, 52, 52],
        EntryMode::ExecutableFile => executable_text(),
        EntryMode::Directory => directory_text(),
        EntryMode::Symlink => symlink_text(),
        EntryMode::Submodule => submodule_text(),
    }
}

impl EntryMode {
    /// The octal text a tree stores for this mode: `100644`, `100755`,
    /// `40000`, `120000` or `160000`.
    pub fn octal(&self) -> (r: Vec<u8>)
        ensures
            r@ == octal_of(*self),
            mode_of(r@) == Some(*self),
    {
        let r = match self {
            EntryMode::RegularFile => vec![49u8, 48, 48, 54, 52, 52],
            EntryMode::ExecutableFile => vec![49u8, 48, 48, 55, 53, 53],
            EntryMode::Directory => vec![52u8, 48, 48, 48, 48],
            EntryMode::Symlink => vec![49u8, 50, 48, 48, 48, 48],
            EntryMode::Submodule => vec![49u8, 54, 48, 48, 48, 48],
        };
        assert(r@ == octal_of(*self));
        r
    }
}

/// The stored form of entries: each `<mode> <name>\0` and its 20-byte identifier.
pub open spec fn serialize_tree(es: Seq<(EntryMode, Seq<u8>, Seq<u8>)>) -> Seq<u8>
    decreases es.len(),
{
    if es.len() == 0 {
        Seq::empty()
    } else {
        let e = es.last();
        serialize_tree(es.drop_last()) + octal_of(e.0) + seq![32u8] + e.1 + seq![0u8] + e.2
    }
}

/// The payload of a tree holding `entries` in the order given; sort them
/// first with [`sort_entries`].
pub fn tree_payload(entries: &Vec<TreeEntry>) -> (r: Vec<u8>)
    ensures
        r@ == serialize_tree(entries_view(entries@)),
{
    let mut out: Vec<u8> = Vec::new();
    let mut i: usize = 0;
    while i < entries.len()
        invariant
            i <= entries@.len(),
            out@ == serialize_tree(entries_view(entries@).subrange(0, i as int)),
        decreases entries.len() - i,
    {
        let e = &entries[i];
        let ghost before = out@;
        let mut mode = e.mode.octal();
        out.append(&mut mode);
        out.push(32);
        let mut name = copy_range(e.name.as_slice(), 0, e.name.len());
        out.append(&mut name);
        out.push(0);
        let mut id = copy_range(e.id.bytes.as_slice(), 0, 20);
        out.append(&mut id);
        proof {
            let v = entries_view(entries@);
            assert(v.subrange(0, i + 1).drop_last() == v.subrange(0, i as int));
            assert(v.subrange(0, i + 1).last() == (e.mode, e.name@, e.id.bytes@));
            assert(e.name@.subrange(0, e.name@.len() as int) == e.name@);
            assert(e.id.bytes@.subrange(0, 20) == e.id.bytes@);
        }
        i = i + 1;
    }
    assert(entries_view(entries@).subrange(0, entries@.len() as int) == entries_view(entries@));
    out
}

/// The stored form of one entry.
pub open spec fn entry_bytes(e: (EntryMode, Seq<u8>, Seq<u8>)) -> Seq<u8> {
    octal_of(e.0) + seq![32u8] + e.1 + seq![0u8] + e.2
}

proof fn lemma_serialize_front(es: Seq<(EntryMode, Seq<u8>, Seq<u8>)>)
    requires
        es.len() > 0,
    ensures
        serialize_tree(es) == entry_bytes(es[0]) + serialize_tree(es.drop_first()),
    decreases es.len(),
{
    if es.len() == 1 {
        assert(es.drop_last() =~= Seq::<(EntryMode, Seq<u8>, Seq<u8>)>::empty());
        assert(es.drop_first() =~= Seq::<(EntryMode, Seq<u8>, Seq<u8>)>::empty());
        assert(serialize_tree(es) =~= entry_bytes(es[0]));
    } else {
        lemma_serialize_front(es.drop_last());
        assert(es.drop_last().drop_first() =~= es.drop_first().drop_last());
        assert(es.drop_first().last() == es.last());
        assert(es.drop_last()[0] == es[0]);
    }
}

proof fn lemma_octal_round_trip(m: EntryMode)
    ensures
        mode_of(octal_of(m)) == Some(m),
        forall|i: int| 0 <= i < octal_of(m).len() ==> 48 <= #[trigger] octal_of(m)[i] <= 55,
        octal_of(m).len() >= 5,
{
}

/// Whether entries can be stored and parsed back: valid names without NUL
/// bytes, and 20-byte identifiers.
pub open spec fn storable(es: Seq<(EntryMode, Seq<u8>, Seq<u8>)>) -> bool {
    forall|i: int| #![trigger es[i]] 0 <= i < es.len() ==> valid_name(es[i].1) && es[i].2.len() == 20
        && forall|j: int| 0 <= j < es[i].1.len() ==> es[i].1[j] != 0
}

proof fn lemma_parse_serialized(prefix: Seq<u8>, es: Seq<(EntryMode, Seq<u8>, Seq<u8>)>)
    requires
        storable(es),
    ensures
        tree_entries_from(prefix + serialize_tree(es), prefix.len() as int) == Ok::<Seq<(EntryMode, Seq<u8>, Seq<u8>)>, Error>(es),
    decreases es.len(),
{
    let t = prefix + serialize_tree(es);
    let pos = prefix.len() as int;
    if es.len() == 0 {
        assert(t.len() == prefix.len());
        assert(es =~= Seq::<(EntryMode, Seq<u8>, Seq<u8>)>::empty());
    } else {
        let e = es[0];
        let rest = es.drop_first();
        lemma_serialize_front(es);
        lemma_octal_round_trip(e.0);
        let oct = octal_of(e.0);
        let eb = entry_bytes(e);
        assert(storable(rest)) by {
            assert forall|i: int| 0 <= i < rest.len() implies #[trigger] rest[i] == es[i + 1] by {}
        }
        assert(valid_name(e.1) && e.2.len() == 20);
        assert(forall|j: int| 0 <= j < e.1.len() ==> e.1[j] != 0);
        let nul = pos + oct.len() + 1 + e.1.len();
        let longer = prefix + eb;
        assert(t == longer + serialize_tree(rest));
        assert forall|j: int| pos <= j < nul implies #[trigger] t[j] != 0 by {
            assert(t[j] == eb[j - pos]);
            if j - pos < oct.len() {
                assert(eb[j - pos] == oct[j - pos]);
            } else if j - pos > oct.len() {
                assert(eb[j - pos] == e.1[j - pos - oct.len() - 1]);
            }
        }
        assert(t[nul] == eb[nul - pos]);
        lemma_find_at(t, 0, pos, nul);
        let text = t.subrange(pos, nul);
        assert(text =~= oct + seq![32u8] + e.1);
        assert forall|j: int| 0 <= j < oct.len() implies #[trigger] text[j] != 32 by {
            assert(text[j] == oct[j]);
        }
        lemma_find_at(text, 32, 0, oct.len() as int);
        assert(text.subrange(0, oct.len() as int) =~= oct);
        assert(text.subrange(oct.len() as int + 1, text.len() as int) =~= e.1);
        assert(t.subrange(nul + 1, nul + 21) =~= e.2);
        assert(nul + 21 == longer.len());
        lemma_parse_serialized(longer, rest);
        assert(seq![e] + rest =~= es);
    }
}

/// A stored tree parses back to the entries it was written from, in order.
pub proof fn lemma_tree_round_trip(es: Seq<(EntryMode, Seq<u8>, Seq<u8>)>)
    requires
        storable(es),
    ensures
        tree_entries_from(serialize_tree(es), 0) == Ok::<Seq<(EntryMode, Seq<u8>, Seq<u8>)>, Error>(es),
{
    lemma_parse_serialized(Seq::empty(), es);
    assert(Seq::<u8>::empty() + serialize_tree(es) =~= serialize_tree(es));
}

} // verus!

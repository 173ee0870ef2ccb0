//! Paths as bytes.

use vstd::prelude::*;

use crate::path::parts_view;
use crate::path::Component;
use crate::path::{PartView, PathView, SyncPath};

verus! {

/// The bytes of one component.
pub open spec fn part_bytes(p: PartView) -> Seq<u8> {
    match p {
        Component::Prefix(n) => n,
        Component::RootDir => seq![0x2fu8],
        Component::CurDir => seq![0x2eu8],
        Component::ParentDir => seq![0x2eu8, 0x2eu8],
        Component::Normal(n) => n,
    }
}

/// A separator belongs behind `p`, which ends neither in a prefix nor in the root.
pub open spec fn takes_separator(p: PathView) -> bool {
    p.len() > 0 && !(p.last() is Prefix) && !(p.last() is RootDir)
}

/// The bytes of a path, its components separated by `/`.
pub open spec fn path_bytes(p: PathView) -> Seq<u8>
    decreases p.len(),
{
    if p.len() == 0 {
        Seq::empty()
    } else {
        let head = p.drop_last();
        if takes_separator(head) {
            path_bytes(head) + seq![0x2fu8] + part_bytes(p.last())
        } else {
            path_bytes(head) + part_bytes(p.last())
        }
    }
}

fn append_name(bytes: &mut Vec<u8>, name: &Vec<u8>)
    ensures
        final(bytes)@ == old(bytes)@ + name@,
{
    let ghost start = bytes@;
    let mut i: usize = 0;
    assert(start + name@.take(0) =~= start);
    while i < name.len()
        invariant
            i <= name.len(),
            bytes@ == start + name@.take(i as int),
        decreases name.len() - i,
    {
        bytes.push(name[i]);
        assert(bytes@ =~= start + name@.take(i + 1));
        i += 1;
    }
    assert(name@.take(i as int) =~= name@);
}

/// Appends the bytes of one component.
fn append_part(bytes: &mut Vec<u8>, part: &Component<Vec<u8>>)
    ensures
        final(bytes)@ == old(bytes)@ + part_bytes(part@),
{
    let ghost start = bytes@;
    match part {
        Component::Prefix(n) | Component::Normal(n) => {
            append_name(bytes, n);
        },
        Component::RootDir => {
            bytes.push(0x2f);
        },
        Component::CurDir => {
            bytes.push(0x2e);
        },
        Component::ParentDir => {
            bytes.push(0x2e);
            bytes.push(0x2e);
        },
    }
    assert(bytes@ =~= start + part_bytes(part@));
}

impl SyncPath {
    /// This path as bytes, its components separated by `/`.
    pub fn to_bytes(&self) -> (r: Vec<u8>)
        ensures
            r@ == path_bytes(self@),
    {
        let parts = self.components();
        let mut bytes: Vec<u8> = Vec::new();
        let mut i: usize = 0;
        while i < parts.len()
            invariant
                parts_view(parts@) == self@,
                i <= parts.len(),
                bytes@ == path_bytes(self@.take(i as int)),
            decreases parts.len() - i,
        {
            let ghost head = self@.take(i as int);
            assert(self@.take(i + 1).drop_last() =~= head);
            assert(self@[i as int] == parts@[i as int]@);
            if i > 0 {
                assert(head.last() == parts@[i - 1]@);
                match &parts[i - 1] {
                    Component::Prefix(_) | Component::RootDir => {},
                    _ => {
                        bytes.push(0x2f);
                        assert(bytes@ =~= path_bytes(head) + seq![0x2fu8]);
                    },
                }
            }
            append_part(&mut bytes, &parts[i]);
            i += 1;
        }
        assert(self@.take(i as int) =~= self@);
        bytes
    }
}

/// The bytes of a path in two parts are those of the parts with one separator between them, but
/// none behind a root directory or a prefix. A name is its own bytes.
pub proof fn law_bytes_go_part_by_part(a: PathView, b: PathView, name: Seq<u8>)
    requires
        a.len() > 0,
        b.len() > 0,
    ensures
        a.last() is Normal || a.last() is ParentDir || a.last() is CurDir ==> path_bytes(a + b)
            == path_bytes(a).push(0x2f) + path_bytes(b),
        a.last() is RootDir || a.last() is Prefix ==> path_bytes(a + b) == path_bytes(a)
            + path_bytes(b),
        path_bytes(PathView::empty()) == Seq::<u8>::empty(),
        path_bytes(seq![Component::Normal(name)]) == name,
        path_bytes(seq![Component::Prefix(name)]) == name,
        path_bytes(seq![Component::RootDir]) == seq![0x2fu8],
        path_bytes(seq![Component::CurDir]) == seq![0x2eu8],
        path_bytes(seq![Component::ParentDir]) == seq![0x2eu8, 0x2eu8],
    decreases b.len(),
{
    reveal_with_fuel(path_bytes, 2);
    assert forall|part: PartView| #[trigger] path_bytes(seq![part]) == part_bytes(part) by {
        assert(seq![part].drop_last() =~= Seq::empty());
        assert(path_bytes(seq![part]) =~= part_bytes(part));
    }
    let (head, last) = ((a + b).drop_last(), (a + b).last());
    assert(last == b.last());
    let start = if takes_separator(a) {
        path_bytes(a).push(0x2f)
    } else {
        path_bytes(a)
    };
    if b.len() == 1 {
        assert(head =~= a);
        assert(b =~= seq![last]);
        assert(path_bytes(b) == part_bytes(last));
        assert(path_bytes(a + b) =~= start + path_bytes(b));
    } else {
        let rest = b.drop_last();
        assert(head =~= a + rest);
        law_bytes_go_part_by_part(a, rest, name);
        assert(head.last() == rest.last());
        assert(path_bytes(a + b) =~= start + path_bytes(b));
    }
}

} // verus!

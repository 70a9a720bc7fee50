//! Unix file paths: bytes, with `/` between the components.
use crate::text;
use vstd::prelude::*;

verus! {

/// The byte `/`.
pub const SLASH: u8 = 0x2f;

/// The byte `.`.
pub const DOT: u8 = 0x2e;

/// Whether a path starts at the root.
pub open spec fn is_absolute(path: Seq<u8>) -> bool {
    path.len() > 0 && path[0] == SLASH
}

/// `path` extended by `next`. An absolute `next` takes the place of `path`; otherwise a `/` goes
/// between the two, unless `path` is empty or ends in one.
pub open spec fn pushed(path: Seq<u8>, next: Seq<u8>) -> Seq<u8> {
    if is_absolute(next) {
        next
    } else if path.len() == 0 || path.last() == SLASH {
        path + next
    } else {
        path.push(SLASH) + next
    }
}

/// Whether a piece between two slashes adds nothing to a path.
pub open spec fn is_idle(piece: Seq<u8>) -> bool {
    piece.len() == 0 || piece == seq![DOT]
}

/// The last of `pieces` that adds something, unless it leads up.
pub open spec fn last_name(pieces: Seq<Seq<u8>>) -> Option<Seq<u8>>
    decreases pieces.len(),
{
    if pieces.len() == 0 {
        None
    } else if is_idle(pieces.last()) {
        last_name(pieces.drop_last())
    } else if pieces.last() == seq![DOT, DOT] {
        None
    } else {
        Some(pieces.last())
    }
}

/// The name of the file or directory that `path` leads to: its last component that is not `.`.
/// There is none where that component is `..`, or where the path has no component.
pub open spec fn name_of(path: Seq<u8>) -> Option<Seq<u8>> {
    last_name(text::split_on(path, SLASH))
}

/// What follows the last dot of a file name, unless that dot is at its start.
pub open spec fn suffix_of(name: Seq<u8>) -> Option<Seq<u8>> {
    match name.index_of_last(DOT) {
        Some(i) => if i > 0 {
            Some(name.skip(i + 1))
        } else {
            None
        },
        None => None,
    }
}

/// The extension of the file name of `path`.
pub open spec fn extension_of(path: Seq<u8>) -> Option<Seq<u8>> {
    match name_of(path) {
        Some(name) => suffix_of(name),
        None => None,
    }
}

/// Extends a path.
pub fn push(path: &mut Vec<u8>, next: &[u8])
    ensures
        final(path)@ == pushed(old(path)@, next@),
{
    if next.len() > 0 && next[0] == SLASH {
        path.clear();
    } else if path.len() > 0 && path[path.len() - 1] != SLASH {
        path.push(SLASH);
    }
    let mut next = vstd::slice::slice_to_vec(next);
    path.append(&mut next);
}

/// The path of `next` seen from the directory `dir`.
pub fn join(dir: &Vec<u8>, next: &Vec<u8>) -> (path: Vec<u8>)
    ensures
        path@ == pushed(dir@, next@),
{
    let mut path = vstd::slice::slice_to_vec(dir.as_slice());
    push(&mut path, next.as_slice());
    path
}

/// The name of the file or directory that a path leads to.
pub fn file_name(path: &Vec<u8>) -> (name: Option<Vec<u8>>)
    ensures
        match name {
            Some(n) => name_of(path@) == Some(n@),
            None => name_of(path@) is None,
        },
{
    let mut end: usize = path.len();
    assert(path@.take(end as int) == path@);
    loop
        invariant
            end <= path@.len(),
            name_of(path@) == name_of(path@.take(end as int)),
        decreases end,
    {
        let mut start: usize = end;
        while start > 0 && path[start - 1] != SLASH
            invariant
                start <= end <= path@.len(),
                forall|j: int| start <= j < end ==> #[trigger] path@[j] != SLASH,
            decreases start,
        {
            start = start - 1;
        }
        let ghost piece = path@.subrange(start as int, end as int);
        let ghost pieces = text::split_on(path@.take(end as int), SLASH);
        proof {
            if start == 0 {
                assert(path@.take(end as int) == piece);
                text::lemma_split_one(piece, SLASH);
                assert(pieces.drop_last() == Seq::<Seq<u8>>::empty());
            } else {
                let front = path@.take(start - 1);
                assert(path@.take(end as int) == front.push(SLASH) + piece);
                text::lemma_split_on_concat(front, SLASH, piece);
                text::lemma_split_one(piece, SLASH);
                assert(pieces.drop_last() == text::split_on(front, SLASH));
            }
        }
        let idle: bool = start == end || (end - start == 1 && path[start] == DOT);
        proof {
            if end - start == 1 {
                assert(piece == seq![path@[start as int]]);
            }
            assert(idle == is_idle(piece));
        }
        if idle {
            if start == 0 {
                proof {
                    reveal_with_fuel(last_name, 2);
                }
                return None;
            }
            end = start - 1;
        } else if end - start == 2 && path[start] == DOT && path[start + 1] == DOT {
            assert(piece == seq![DOT, DOT]);
            return None;
        } else {
            assert(piece != seq![DOT, DOT]) by {
                if piece == seq![DOT, DOT] {
                    assert(piece[0] == path@[start as int]);
                    assert(piece[1] == path@[start + 1]);
                }
            }
            return Some(
                vstd::slice::slice_to_vec(
                    vstd::slice::slice_subrange(path.as_slice(), start, end),
                ),
            );
        }
    }
}

/// Whether the file name of a path has the given extension.
pub fn has_extension(path: &Vec<u8>, extension: &[u8]) -> (b: bool)
    ensures
        b == (extension_of(path@) == Some(extension@)),
{
    match file_name(path) {
        None => false,
        Some(name) => {
            let len: usize = name.len();
            let mut dot: usize = len;
            while dot > 0 && name[dot - 1] != DOT
                invariant
                    len == name@.len(),
                    dot <= len,
                    forall|j: int| dot <= j < len ==> #[trigger] name@[j] != DOT,
                decreases dot,
            {
                dot = dot - 1;
            }
            proof {
                name@.index_of_last_ensures(DOT);
                if dot > 0 {
                    assert(name@[dot - 1] == DOT);
                    assert(name@.contains(DOT));
                }
            }
            if dot <= 1 {
                return false;
            }
            same_bytes(vstd::slice::slice_subrange(name.as_slice(), dot, len), extension)
        },
    }
}

fn same_bytes(a: &[u8], b: &[u8]) -> (same: bool)
    ensures
        same == (a@ == b@),
{
    if a.len() != b.len() {
        return false;
    }
    let mut i: usize = 0;
    while i < a.len()
        invariant
            a@.len() == b@.len(),
            i <= a@.len(),
            forall|j: int| 0 <= j < i ==> a@[j] == #[trigger] b@[j],
        decreases a.len() - i,
    {
        if a[i] != b[i] {
            return false;
        }
        i = i + 1;
    }
    assert(a@ == b@);
    true
}

proof fn lemma_last_name_concat(a: Seq<Seq<u8>>, b: Seq<Seq<u8>>)
    requires
        last_name(b) is Some,
    ensures
        last_name(a + b) == last_name(b),
    decreases b.len(),
{
    assert((a + b).last() == b.last());
    assert((a + b).drop_last() == a + b.drop_last());
    if is_idle(b.last()) {
        lemma_last_name_concat(a, b.drop_last());
    }
}

/// Where a path is seen from does not change the name of the file that it leads to, nor the
/// extension of that name.
pub proof fn law_name_is_kept(dir: Seq<u8>, path: Seq<u8>)
    requires
        name_of(path) is Some,
    ensures
        name_of(pushed(dir, path)) == name_of(path),
        extension_of(pushed(dir, path)) == extension_of(path),
{
    if !is_absolute(path) {
        if dir.len() == 0 {
            assert(dir + path == path);
        } else {
            let front = if dir.last() == SLASH {
                dir.drop_last()
            } else {
                dir
            };
            assert(pushed(dir, path) == front.push(SLASH) + path);
            text::lemma_split_on_concat(front, SLASH, path);
            lemma_last_name_concat(text::split_on(front, SLASH), text::split_on(path, SLASH));
        }
    }
}

}

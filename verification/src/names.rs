//! Choosing the files to work on by their names.

use vstd::prelude::*;

verus! {

/// The byte that separates a name from its extension.
pub const DOT: u8 = 0x2E;

/// The extension of the files that are worked on: `jpg`, in lower case.
pub open spec fn jpg() -> Seq<u8> {
    seq![0x6Au8, 0x70u8, 0x67u8]
}

/// Where the last dot of a name stands, if the name has a dot.
pub open spec fn last_dot(name: Seq<u8>) -> Option<int>
    decreases name.len(),
{
    if name.len() == 0 {
        None
    } else if name.last() == DOT {
        Some(name.len() - 1)
    } else {
        last_dot(name.drop_last())
    }
}

/// The extension of a file name: what follows its last dot. A name without a
/// dot has none, and neither has a name whose only dot is its first byte.
pub open spec fn extension(name: Seq<u8>) -> Option<Seq<u8>> {
    match last_dot(name) {
        Some(at) => if at > 0 {
            Some(name.subrange(at + 1, name.len() as int))
        } else {
            None
        },
        None => None,
    }
}

/// The name has the extension `jpg`.
pub open spec fn is_jpeg_name(name: Seq<u8>) -> bool {
    extension(name) == Some(jpg())
}

/// The last dot is a dot, and no dot follows it.
pub proof fn lemma_last_dot(name: Seq<u8>)
    ensures
        match last_dot(name) {
            Some(at) => 0 <= at < name.len() && name[at] == DOT && forall|i: int|
                at < i < name.len() ==> name[i] != DOT,
            None => forall|i: int| 0 <= i < name.len() ==> name[i] != DOT,
        },
    decreases name.len(),
{
    if name.len() > 0 && name.last() != DOT {
        let front = name.drop_last();
        lemma_last_dot(front);
        assert forall|i: int| 0 <= i < front.len() implies front[i] == name[i] by {}
        match last_dot(front) {
            Some(at) => {
                assert forall|i: int| at < i < name.len() implies name[i] != DOT by {
                    if i < front.len() {
                        assert(front[i] != DOT);
                    }
                }
            },
            None => {
                assert forall|i: int| 0 <= i < name.len() implies name[i] != DOT by {
                    if i < front.len() {
                        assert(front[i] != DOT);
                    }
                }
            },
        }
    }
}

/// A dot that no dot follows is the last dot.
pub proof fn lemma_last_dot_found(name: Seq<u8>, at: int)
    requires
        0 <= at < name.len(),
        name[at] == DOT,
        forall|i: int| at < i < name.len() ==> name[i] != DOT,
    ensures
        last_dot(name) == Some(at),
{
    lemma_last_dot(name);
}

/// Whether a file name has the extension `jpg`.
pub fn has_jpg_extension(name: &[u8]) -> (found: bool)
    ensures
        found == is_jpeg_name(name@),
{
    let len: usize = name.len();
    proof {
        lemma_last_dot(name@);
    }
    if len < 5 {
        proof {
            if let Some(at) = last_dot(name@) {
                if at > 0 {
                    assert(name@.subrange(at + 1, len as int).len() < 3);
                }
            }
        }
        return false;
    }
    let found = name[len - 4] == DOT && name[len - 3] == 0x6A && name[len - 2] == 0x70 && name[len
        - 1] == 0x67;
    proof {
        let tail = name@.subrange(len - 3, len as int);
        if found {
            lemma_last_dot_found(name@, len - 4);
            assert(tail =~= jpg());
        } else if let Some(at) = last_dot(name@) {
            if at > 0 && name@.subrange(at + 1, len as int) == jpg() {
                assert(jpg().len() == 3);
                assert(name@.subrange(at + 1, len as int).len() == len - at - 1);
                assert(at == len - 4);
                assert(tail =~= name@.subrange(at + 1, len as int));
                assert(tail[0] == 0x6A && tail[1] == 0x70 && tail[2] == 0x67);
            }
        }
    }
    found
}

/// The places, in rising order, of the names that have the extension `jpg`.
pub fn select_jpegs(names: &Vec<Vec<u8>>) -> (picked: Vec<usize>)
    ensures
        forall|k: int|
            0 <= k < picked@.len() ==> (#[trigger] picked@[k]) < names@.len() && is_jpeg_name(
                names@[picked@[k] as int]@,
            ),
        forall|k: int, l: int| 0 <= k < l < picked@.len() ==> picked@[k] < picked@[l],
        forall|i: int|
            0 <= i < names@.len() && is_jpeg_name((#[trigger] names@[i])@) ==> picked@.contains(
                i as usize,
            ),
        picked@.len() <= names@.len(),
{
    let mut picked: Vec<usize> = Vec::new();
    let mut at: usize = 0;
    while at < names.len()
        invariant
            at <= names@.len(),
            picked@.len() <= at,
            forall|k: int|
                0 <= k < picked@.len() ==> (#[trigger] picked@[k]) < at && is_jpeg_name(
                    names@[picked@[k] as int]@,
                ),
            forall|k: int, l: int| 0 <= k < l < picked@.len() ==> picked@[k] < picked@[l],
            forall|i: int|
                0 <= i < at && is_jpeg_name((#[trigger] names@[i])@) ==> picked@.contains(
                    i as usize,
                ),
        decreases names@.len() - at,
    {
        if has_jpg_extension(names[at].as_slice()) {
            let ghost before = picked@;
            picked.push(at);
            proof {
                assert forall|i: int|
                    0 <= i < at + 1 && is_jpeg_name((#[trigger] names@[i])@) implies picked@.contains(
                    i as usize,
                ) by {
                    if i < at {
                        let k = choose|k: int| 0 <= k < before.len() && before[k] == i as usize;
                        assert(picked@[k] == i as usize);
                    } else {
                        assert(picked@[before.len() as int] == at);
                    }
                }
            }
        }
        at = at + 1;
    }
    picked
}

} // verus!

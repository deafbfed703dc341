//! The closed set of object categories the store understands, and their
//! canonical lowercase names as used in the on-disk header.

use vstd::prelude::*;

verus! {

/// An object's category tag. Its only behaviour is its canonical name.
#[derive(Clone, Copy, Debug, PartialEq, Eq, Structural)]
pub enum Kind {
    Blob,
    Tree,
    Commit,
}

/// The canonical lowercase ASCII name of a kind: `blob`, `tree` or `commit`.
pub open spec fn spec_kind_name(k: Kind) -> Seq<u8> {
    match k {
        Kind::Blob => seq![0x62u8, 0x6cu8, 0x6fu8, 0x62u8],
        Kind::Tree => seq![0x74u8, 0x72u8, 0x65u8, 0x65u8],
        Kind::Commit => seq![0x63u8, 0x6fu8, 0x6du8, 0x6du8, 0x69u8, 0x74u8],
    }
}

/// Every byte of a kind name is a printable ASCII letter: in particular it is
/// neither the NUL header terminator, the space separator, nor a non-ASCII byte.
pub proof fn lemma_kind_name_bytes(k: Kind)
    ensures
        forall|i: int| 0 <= i < spec_kind_name(k).len()
            ==> 0x61 <= #[trigger] spec_kind_name(k)[i] < 0x80,
{
    match k {
        Kind::Blob => {
            assert(forall|i: int| 0 <= i < spec_kind_name(Kind::Blob).len()
                ==> 0x61 <= #[trigger] spec_kind_name(Kind::Blob)[i] < 0x80);
        },
        Kind::Tree => {
            assert(forall|i: int| 0 <= i < spec_kind_name(Kind::Tree).len()
                ==> 0x61 <= #[trigger] spec_kind_name(Kind::Tree)[i] < 0x80);
        },
        Kind::Commit => {
            assert(forall|i: int| 0 <= i < spec_kind_name(Kind::Commit).len()
                ==> 0x61 <= #[trigger] spec_kind_name(Kind::Commit)[i] < 0x80);
        },
    }
}

/// The kind, if any, whose canonical name is exactly `b`.
pub open spec fn spec_kind_of(b: Seq<u8>) -> Option<Kind> {
    if b == spec_kind_name(Kind::Blob) {
        Some(Kind::Blob)
    } else if b == spec_kind_name(Kind::Tree) {
        Some(Kind::Tree)
    } else if b == spec_kind_name(Kind::Commit) {
        Some(Kind::Commit)
    } else {
        None
    }
}

impl Kind {
    /// The canonical name of this kind as bytes.
    pub fn as_name(&self) -> (r: Vec<u8>)
        ensures
            r@ == spec_kind_name(*self),
    {
        let mut v: Vec<u8> = Vec::new();
        match self {
            Kind::Blob => {
                v.push(0x62);
                v.push(0x6c);
                v.push(0x6f);
                v.push(0x62);
            },
            Kind::Tree => {
                v.push(0x74);
                v.push(0x72);
                v.push(0x65);
                v.push(0x65);
            },
            Kind::Commit => {
                v.push(0x63);
                v.push(0x6f);
                v.push(0x6d);
                v.push(0x6d);
                v.push(0x69);
                v.push(0x74);
            },
        }
        proof {
            assert(v@ =~= spec_kind_name(*self));
        }
        v
    }

    /// Parses a kind from its canonical name; `None` exactly when `b` is no
    /// kind's name.
    pub fn from_name(b: &[u8]) -> (r: Option<Kind>)
        ensures
            r == spec_kind_of(b@),
    {
        let blob = Kind::Blob.as_name();
        let tree = Kind::Tree.as_name();
        let commit = Kind::Commit.as_name();
        if bytes_eq(b, blob.as_slice()) {
            Some(Kind::Blob)
        } else if bytes_eq(b, tree.as_slice()) {
            Some(Kind::Tree)
        } else if bytes_eq(b, commit.as_slice()) {
            Some(Kind::Commit)
        } else {
            None
        }
    }
}

/// Byte-for-byte equality of two slices.
pub fn bytes_eq(a: &[u8], b: &[u8]) -> (r: bool)
    ensures
        r == (a@ == b@),
{
    if a.len() != b.len() {
        proof {
            assert(a@.len() != b@.len());
        }
        return false;
    }
    let mut i: usize = 0;
    while i < a.len()
        invariant
            0 <= i <= a@.len(),
            a@.len() == b@.len(),
            forall|j: int| 0 <= j < i ==> a@[j] == b@[j],
        decreases a@.len() - i,
    {
        if a[i] != b[i] {
            return false;
        }
        i += 1;
    }
    proof {
        assert(a@ =~= b@);
    }
    true
}

} // verus!

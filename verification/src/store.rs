//! The store layout: records addressed by the lowercase hex rendering of
//! their digest, a two-level shard split of that name, and the placement
//! discipline — append-only by convergent content address, a rewrite of
//! existing content being a harmless no-op.

use vstd::prelude::*;
use vstd::slice::{slice_subrange, slice_to_vec};

use crate::codec::{decoded_view, spec_record, StoreError};
use crate::kind::Kind;
use crate::writer::{
    read_record, sha1_of, spec_read_bytes, write_to_sink, zlib_deflate, zlib_inflate,
};

verus! {

// ------------------------------------------------------------------
// Hex naming
// ------------------------------------------------------------------

/// The lowercase hex digit for a nibble.
pub open spec fn spec_hex_digit(d: u8) -> u8
    recommends
        d < 16,
{
    if d < 10 {
        (0x30 + d) as u8
    } else {
        (0x57 + d) as u8
    }
}

/// The lowercase hex rendering of a byte sequence, high nibble first.
pub open spec fn spec_hex(b: Seq<u8>) -> Seq<u8>
    decreases b.len(),
{
    if b.len() == 0 {
        Seq::<u8>::empty()
    } else {
        spec_hex(b.drop_last()) + seq![
            spec_hex_digit(b.last() / 16),
            spec_hex_digit(b.last() % 16),
        ]
    }
}

pub proof fn lemma_spec_hex_len(b: Seq<u8>)
    ensures
        spec_hex(b).len() == 2 * b.len(),
    decreases b.len(),
{
    if b.len() > 0 {
        lemma_spec_hex_len(b.drop_last());
    }
}

/// Relies on hex::encode: each byte becomes two lowercase hex digits, high
/// nibble first, in byte order.
#[verifier::external_body]
fn hex_bytes(b: &[u8; 20]) -> (r: Vec<u8>)
    ensures
        r@ == spec_hex(b@),
{
    hex::encode(b).into_bytes()
}

/// The two-level shard split of a digest's name: the first two hex
/// characters name the directory, the remaining thirty-eight the file.
pub fn shard_path(digest: &[u8; 20]) -> (r: (Vec<u8>, Vec<u8>))
    ensures
        r.0@ == spec_hex(digest@).take(2),
        r.1@ == spec_hex(digest@).skip(2),
        r.0@ + r.1@ == spec_hex(digest@),
{
    proof {
        lemma_spec_hex_len(digest@);
    }
    let h = hex_bytes(digest);
    let dir = slice_to_vec(slice_subrange(h.as_slice(), 0, 2));
    let file = slice_to_vec(slice_subrange(h.as_slice(), 2, 40));
    proof {
        assert(dir@ =~= spec_hex(digest@).take(2));
        assert(file@ =~= spec_hex(digest@).skip(2));
        assert(dir@ + file@ =~= spec_hex(digest@));
    }
    (dir, file)
}

// ------------------------------------------------------------------
// The store itself
// ------------------------------------------------------------------

struct StoreEntry {
    name: Vec<u8>,
    data: Vec<u8>,
}

/// A content-addressable store: immutable records held under their
/// digest-derived hex names. Abstractly, a map from name to record bytes.
pub struct Store {
    entries: Vec<StoreEntry>,
}

spec fn entries_map(s: Seq<StoreEntry>) -> Map<Seq<u8>, Seq<u8>>
    decreases s.len(),
{
    if s.len() == 0 {
        Map::<Seq<u8>, Seq<u8>>::empty()
    } else {
        entries_map(s.drop_last()).insert(s.last().name@, s.last().data@)
    }
}

spec fn distinct_names(s: Seq<StoreEntry>) -> bool {
    forall|i: int, j: int| #![trigger s[i], s[j]] 0 <= i < j < s.len() ==> s[i].name@ != s[j].name@
}

proof fn lemma_entries_map_push(s: Seq<StoreEntry>, e: StoreEntry)
    ensures
        entries_map(s.push(e)) == entries_map(s).insert(e.name@, e.data@),
{
    assert(s.push(e).drop_last() =~= s);
    assert(s.push(e).last() == e);
}

proof fn lemma_entries_map_contains(s: Seq<StoreEntry>, n: Seq<u8>)
    ensures
        entries_map(s).contains_key(n) <==> exists|i: int|
            0 <= i < s.len() && #[trigger] s[i].name@ == n,
    decreases s.len(),
{
    if s.len() > 0 {
        lemma_entries_map_contains(s.drop_last(), n);
        if s.last().name@ == n {
            assert(s[s.len() - 1].name@ == n);
        } else if entries_map(s).contains_key(n) {
            let i = choose|i: int| 0 <= i < s.drop_last().len() && #[trigger] s.drop_last()[
                i
            ].name@ == n;
            assert(s[i].name@ == n);
        } else {
            assert forall|i: int| 0 <= i < s.len() implies #[trigger] s[i].name@ != n by {
                if i < s.len() - 1 {
                    assert(s.drop_last()[i].name@ == s[i].name@);
                }
            };
        }
    }
}

proof fn lemma_entries_map_value(s: Seq<StoreEntry>, i: int)
    requires
        distinct_names(s),
        0 <= i < s.len(),
    ensures
        entries_map(s).contains_key(s[i].name@),
        entries_map(s)[s[i].name@] == s[i].data@,
    decreases s.len(),
{
    if i == s.len() - 1 {
    } else {
        assert(s.drop_last()[i] == s[i]);
        assert(distinct_names(s.drop_last())) by {
            assert(forall|x: int, y: int| #![trigger s.drop_last()[x], s.drop_last()[y]]
                0 <= x < y < s.drop_last().len()
                ==> s.drop_last()[x].name@ != s.drop_last()[y].name@);
        };
        lemma_entries_map_value(s.drop_last(), i);
        assert(s[i].name@ != s.last().name@);
    }
}

proof fn lemma_entries_map_remove(s: Seq<StoreEntry>, i: int)
    requires
        distinct_names(s),
        0 <= i < s.len(),
    ensures
        entries_map(s.remove(i)) == entries_map(s).remove(s[i].name@),
        distinct_names(s.remove(i)),
        forall|j: int| 0 <= j < s.remove(i).len() ==> #[trigger] s.remove(i)[j].name@ != s[
            i
        ].name@,
    decreases s.len(),
{
    let n = s[i].name@;
    assert(forall|j: int| 0 <= j < s.remove(i).len() ==> #[trigger] s.remove(i)[j].name@ != n);
    assert(distinct_names(s.remove(i)));
    if i == s.len() - 1 {
        assert(s.remove(i) =~= s.drop_last());
        lemma_entries_map_contains(s.drop_last(), n);
        assert(!entries_map(s.drop_last()).contains_key(n)) by {
            if entries_map(s.drop_last()).contains_key(n) {
                let j = choose|j: int| 0 <= j < s.drop_last().len() && #[trigger] s.drop_last()[
                    j
                ].name@ == n;
                assert(s[j].name@ == n);
            }
        };
        assert(entries_map(s).remove(n) =~= entries_map(s.drop_last()));
    } else {
        let l = s.last();
        assert(distinct_names(s.drop_last())) by {
            assert(forall|x: int, y: int| #![trigger s.drop_last()[x], s.drop_last()[y]]
                0 <= x < y < s.drop_last().len()
                ==> s.drop_last()[x].name@ != s.drop_last()[y].name@);
        };
        assert(s.drop_last()[i] == s[i]);
        lemma_entries_map_remove(s.drop_last(), i);
        assert(s.remove(i).drop_last() =~= s.drop_last().remove(i));
        assert(s.remove(i).last() == l);
        assert(entries_map(s.remove(i)) == entries_map(s.drop_last().remove(i)).insert(
            l.name@,
            l.data@,
        ));
        assert(l.name@ != n);
        assert(entries_map(s.drop_last()).remove(n).insert(l.name@, l.data@) =~= entries_map(
            s.drop_last(),
        ).insert(l.name@, l.data@).remove(n));
    }
}

proof fn lemma_entries_map_count(s: Seq<StoreEntry>)
    requires
        distinct_names(s),
    ensures
        entries_map(s).dom().finite(),
        entries_map(s).dom().len() == s.len(),
    decreases s.len(),
{
    if s.len() > 0 {
        assert(distinct_names(s.drop_last())) by {
            assert(forall|x: int, y: int| #![trigger s.drop_last()[x], s.drop_last()[y]]
                0 <= x < y < s.drop_last().len()
                ==> s.drop_last()[x].name@ != s.drop_last()[y].name@);
        };
        lemma_entries_map_count(s.drop_last());
        lemma_entries_map_contains(s.drop_last(), s.last().name@);
        assert(!entries_map(s.drop_last()).contains_key(s.last().name@)) by {
            if entries_map(s.drop_last()).contains_key(s.last().name@) {
                let j = choose|j: int| 0 <= j < s.drop_last().len() && #[trigger] s.drop_last()[
                    j
                ].name@ == s.last().name@;
                assert(s[j].name@ == s[s.len() - 1].name@);
            }
        };
    }
}

/// What reading a name out of a store in a given state yields: the record's
/// decompressed and decoded contents, `NotFound` for an absent name, and
/// `CorruptStream` where decompression fails.
pub open spec fn spec_read(m: Map<Seq<u8>, Seq<u8>>, name: Seq<u8>) -> Result<
    (Kind, u64, Seq<u8>),
    StoreError,
> {
    if !m.contains_key(name) {
        Err(StoreError::NotFound)
    } else {
        spec_read_bytes(m[name])
    }
}

impl View for Store {
    type V = Map<Seq<u8>, Seq<u8>>;

    /// The records held, by hex name.
    closed spec fn view(&self) -> Map<Seq<u8>, Seq<u8>> {
        entries_map(self.entries@)
    }
}

impl Store {
    /// One name names at most one record.
    pub closed spec fn wf(&self) -> bool {
        distinct_names(self.entries@)
    }

    /// An empty store.
    pub fn new() -> (r: Store)
        ensures
            r.wf(),
            r@ == Map::<Seq<u8>, Seq<u8>>::empty(),
    {
        Store { entries: Vec::new() }
    }

    fn find_idx(&self, name: &[u8]) -> (r: Option<usize>)
        ensures
            match r {
                Some(i) => i < self.entries@.len() && self.entries@[i as int].name@ == name@,
                None => forall|i: int|
                    0 <= i < self.entries@.len() ==> #[trigger] self.entries@[i].name@ != name@,
            },
    {
        let mut i: usize = 0;
        while i < self.entries.len()
            invariant
                0 <= i <= self.entries@.len(),
                forall|j: int| 0 <= j < i ==> #[trigger] self.entries@[j].name@ != name@,
            decreases self.entries@.len() - i,
        {
            if crate::kind::bytes_eq(self.entries[i].name.as_slice(), name) {
                return Some(i);
            }
            i += 1;
        }
        None
    }

    /// The number of records the store holds: one for each distinct name.
    pub fn record_count(&self) -> (r: usize)
        requires
            self.wf(),
        ensures
            r == self@.dom().len(),
    {
        proof {
            lemma_entries_map_count(self.entries@);
        }
        self.entries.len()
    }

    /// Streams the record into a fresh buffer, then places it under its
    /// digest-derived hex name. Writing content that already exists rewrites
    /// the same name with the same bytes: a harmless no-op. The declared
    /// `size` is recorded as given, not checked against the payload.
    pub fn write_to_store(&mut self, kind: Kind, size: u64, payload: &[u8]) -> (digest: [u8; 20])
        requires
            old(self).wf(),
        ensures
            final(self).wf(),
            digest@ == sha1_of(spec_record(kind, size, payload@)),
            final(self)@ == old(self)@.insert(
                spec_hex(sha1_of(spec_record(kind, size, payload@))),
                zlib_deflate(spec_record(kind, size, payload@)),
            ),
            zlib_inflate(zlib_deflate(spec_record(kind, size, payload@))) == Some(
                spec_record(kind, size, payload@),
            ),
    {
        let mut record: Vec<u8> = Vec::new();
        let digest = write_to_sink(kind, size, payload, &mut record);
        let name = hex_bytes(&digest);
        let entry = StoreEntry { name, data: record };
        let ghost pre = self.entries@;
        match self.find_idx(entry.name.as_slice()) {
            Some(i) => {
                proof {
                    lemma_entries_map_remove(pre, i as int);
                }
                self.entries.remove(i);
                proof {
                    lemma_entries_map_push(self.entries@, entry);
                    assert(entries_map(pre).remove(entry.name@).insert(entry.name@, entry.data@)
                        =~= entries_map(pre).insert(entry.name@, entry.data@));
                }
                self.entries.push(entry);
            },
            None => {
                proof {
                    lemma_entries_map_push(self.entries@, entry);
                }
                self.entries.push(entry);
            },
        }
        digest
    }

    /// Resolves a hex name, decompresses the record found there, and decodes
    /// it: the kind, the declared size, and the payload bounded to that
    /// size. `NotFound` exactly when no record has the name.
    pub fn read(&self, name: &[u8]) -> (r: Result<(Kind, u64, Vec<u8>), StoreError>)
        requires
            self.wf(),
        ensures
            decoded_view(r) == spec_read(self@, name@),
    {
        match self.find_idx(name) {
            None => {
                proof {
                    lemma_entries_map_contains(self.entries@, name@);
                }
                Err(StoreError::NotFound)
            },
            Some(i) => {
                proof {
                    lemma_entries_map_value(self.entries@, i as int);
                }
                read_record(self.entries[i].data.as_slice())
            },
        }
    }
}

// ------------------------------------------------------------------
// Laws of the storage path
// ------------------------------------------------------------------

/// Round-trip through storage: after a write of `(kind, size, payload)` with
/// a truthful size, reading the digest's hex name back out of the resulting
/// store state yields that same kind, size and payload, whatever the store
/// held before. The premise that decompression inverts this record's
/// compression is exactly what the write ensures about the bytes it placed.
pub proof fn lemma_store_round_trip(
    m: Map<Seq<u8>, Seq<u8>>,
    kind: Kind,
    size: u64,
    payload: Seq<u8>,
)
    requires
        payload.len() == size,
        zlib_inflate(zlib_deflate(spec_record(kind, size, payload))) == Some(
            spec_record(kind, size, payload),
        ),
    ensures
        spec_read(
            m.insert(
                spec_hex(sha1_of(spec_record(kind, size, payload))),
                zlib_deflate(spec_record(kind, size, payload)),
            ),
            spec_hex(sha1_of(spec_record(kind, size, payload))),
        ) == Ok::<(Kind, u64, Seq<u8>), StoreError>((kind, size, payload)),
{
    crate::codec::lemma_record_round_trip(kind, size, payload);
}

/// Idempotent placement: writing identical content twice leaves the store
/// exactly as one write does — the same single record under the derived
/// name — and both writes report the same digest, which is a function of
/// the content alone.
pub proof fn lemma_idempotent_placement(
    m: Map<Seq<u8>, Seq<u8>>,
    kind: Kind,
    size: u64,
    payload: Seq<u8>,
)
    ensures
        ({
            let name = spec_hex(sha1_of(spec_record(kind, size, payload)));
            let data = zlib_deflate(spec_record(kind, size, payload));
            m.insert(name, data).insert(name, data) == m.insert(name, data) && m.insert(
                name,
                data,
            )[name] == data
        }),
{
    let name = spec_hex(sha1_of(spec_record(kind, size, payload)));
    let data = zlib_deflate(spec_record(kind, size, payload));
    assert(m.insert(name, data).insert(name, data) =~= m.insert(name, data));
}

} // verus!

//! The record codec: renders and parses the `"<kind> <size>\0"` header that
//! prefixes every stored record, and decodes a full decompressed record into
//! its kind, declared size, and size-bounded payload.

use vstd::prelude::*;
use vstd::slice::slice_subrange;
use vstd::utf8::valid_utf8;

use crate::kind::{spec_kind_name, spec_kind_of, Kind};

verus! {

/// Why a record could not be read back.
#[derive(Clone, Copy, Debug, PartialEq, Eq, Structural)]
pub enum StoreError {
    /// The header is not `"<name> <digits>\0"`: no NUL terminator, no space
    /// separator, a size field that is not a decimal `u64`, or pre-NUL bytes
    /// that are not valid UTF-8.
    MalformedHeader,
    /// The header names a kind outside the closed set.
    UnknownKind,
    /// The record bytes are not a valid compressed stream.
    CorruptStream,
    /// No record exists under the requested name.
    NotFound,
}

// ------------------------------------------------------------------
// Decimal rendering and parsing of the size field
// ------------------------------------------------------------------

/// The shortest decimal rendering of `n`, as ASCII digit bytes.
pub open spec fn spec_dec(n: nat) -> Seq<u8>
    decreases n,
{
    if n < 10 {
        seq![(0x30 + n) as u8]
    } else {
        spec_dec(n / 10).push((0x30 + n % 10) as u8)
    }
}

/// Every byte of `s` is an ASCII decimal digit.
pub open spec fn all_digits(s: Seq<u8>) -> bool {
    forall|i: int| 0 <= i < s.len() ==> 0x30 <= #[trigger] s[i] <= 0x39
}

/// The numeric value of a digit string (most significant digit first).
pub open spec fn dec_val(s: Seq<u8>) -> int
    decreases s.len(),
{
    if s.len() == 0 {
        0
    } else {
        dec_val(s.drop_last()) * 10 + (s.last() - 0x30)
    }
}

/// The digits of a size field once an optional leading `+` sign is removed,
/// mirroring what `u64` accepts from a decimal string.
pub open spec fn digits_part(s: Seq<u8>) -> Seq<u8> {
    if s.len() > 0 && s[0] == 0x2b {
        s.drop_first()
    } else {
        s
    }
}

/// Whether `s` parses as a decimal `u64`: after the optional sign, at least
/// one digit, only digits, and a value that fits in 64 bits.
pub open spec fn size_field_ok(s: Seq<u8>) -> bool {
    &&& digits_part(s).len() > 0
    &&& all_digits(digits_part(s))
    &&& dec_val(digits_part(s)) <= u64::MAX
}

pub proof fn lemma_dec_val_push(s: Seq<u8>, d: u8)
    ensures
        dec_val(s.push(d)) == dec_val(s) * 10 + (d - 0x30),
{
    assert(s.push(d).drop_last() =~= s);
    assert(s.push(d).last() == d);
}

pub proof fn lemma_dec_val_nonneg(s: Seq<u8>)
    requires
        all_digits(s),
    ensures
        dec_val(s) >= 0,
    decreases s.len(),
{
    if s.len() > 0 {
        assert(all_digits(s.drop_last()));
        lemma_dec_val_nonneg(s.drop_last());
    }
}

/// A digit string is worth at least any of its prefixes.
pub proof fn lemma_dec_val_take_le(s: Seq<u8>, j: int)
    requires
        all_digits(s),
        0 <= j <= s.len(),
    ensures
        dec_val(s.take(j)) <= dec_val(s),
    decreases s.len() - j,
{
    if j < s.len() {
        assert(all_digits(s.take(j)));
        lemma_dec_val_nonneg(s.take(j));
        assert(s.take(j + 1).drop_last() =~= s.take(j));
        assert(s.take(j + 1).last() == s[j]);
        lemma_dec_val_take_le(s, j + 1);
    } else {
        assert(s.take(j) =~= s);
    }
}

/// The decimal rendering of a `u64` is a nonempty digit string that parses
/// back to the same value.
pub proof fn lemma_spec_dec_props(n: nat)
    ensures
        spec_dec(n).len() >= 1,
        all_digits(spec_dec(n)),
        dec_val(spec_dec(n)) == n,
    decreases n,
{
    if n < 10 {
        let s = spec_dec(n);
        assert(s.len() == 1);
        assert((0x30 + n) as u8 == 0x30 + n);
        assert(s.last() == (0x30 + n) as u8);
        assert(s.drop_last() =~= Seq::<u8>::empty());
        assert(dec_val(s.drop_last()) == 0);
        assert(dec_val(s) == dec_val(s.drop_last()) * 10 + (s.last() - 0x30));
    } else {
        lemma_spec_dec_props(n / 10);
        let d = (0x30 + n % 10) as u8;
        lemma_dec_val_push(spec_dec(n / 10), d);
        assert(dec_val(spec_dec(n)) == (n / 10) * 10 + n % 10);
        assert forall|i: int| 0 <= i < spec_dec(n).len() implies 0x30 <= #[trigger] spec_dec(
            n,
        )[i] <= 0x39 by {
            if i < spec_dec(n / 10).len() {
                assert(spec_dec(n)[i] == spec_dec(n / 10)[i]);
            } else {
                assert(spec_dec(n)[i] == d);
            }
        };
    }
}

/// Parses the size field of a header. Succeeds exactly when the field is a
/// decimal `u64` (optionally `+`-signed), and then returns its value.
pub fn parse_size(b: &[u8]) -> (r: Option<u64>)
    ensures
        match r {
            Some(v) => size_field_ok(b@) && v == dec_val(digits_part(b@)),
            None => !size_field_ok(b@),
        },
{
    let start: usize = if b.len() > 0 && b[0] == 0x2b {
        1
    } else {
        0
    };
    proof {
        assert(digits_part(b@) =~= b@.subrange(start as int, b@.len() as int));
    }
    if start == b.len() {
        return None;
    }
    let mut acc: u64 = 0;
    let mut i: usize = start;
    while i < b.len()
        invariant
            start <= i <= b@.len(),
            digits_part(b@) =~= b@.subrange(start as int, b@.len() as int),
            all_digits(b@.subrange(start as int, i as int)),
            acc == dec_val(b@.subrange(start as int, i as int)),
        decreases b@.len() - i,
    {
        let c = b[i];
        if c < 0x30 || c > 0x39 {
            proof {
                assert(digits_part(b@)[i - start] == b@[i as int]);
            }
            return None;
        }
        let d = (c - 0x30) as u64;
        proof {
            assert(b@.subrange(start as int, i + 1) =~= b@.subrange(start as int, i as int).push(
                b@[i as int],
            ));
            lemma_dec_val_push(b@.subrange(start as int, i as int), b@[i as int]);
        }
        let limit = (u64::MAX - d) / 10;
        if acc > limit {
            proof {
                let whole = digits_part(b@);
                let upto = i + 1 - start;
                assert(dec_val(whole.take(upto)) == acc * 10 + d) by {
                    assert(whole.take(upto) =~= b@.subrange(start as int, i + 1));
                };
                assert(acc * 10 + d > u64::MAX) by {
                    assert(acc >= limit + 1);
                    assert(acc * 10 >= (limit + 1) * 10);
                    assert(limit * 10 + 10 > u64::MAX - d);
                };
                if all_digits(whole) {
                    lemma_dec_val_take_le(whole, upto);
                }
            }
            return None;
        }
        proof {
            assert(acc * 10 + d <= u64::MAX) by {
                assert(acc <= limit);
                assert(acc * 10 <= limit * 10);
                assert(limit * 10 <= u64::MAX - d);
            };
        }
        acc = acc * 10 + d;
        i += 1;
    }
    proof {
        assert(b@.subrange(start as int, i as int) =~= digits_part(b@));
    }
    Some(acc)
}

// ------------------------------------------------------------------
// Header framing
// ------------------------------------------------------------------

/// The header bytes of a record: `"<kind-name> <decimal-size>"` followed by a
/// single NUL, always the first bytes of the decompressed record.
pub open spec fn spec_header(kind: Kind, size: u64) -> Seq<u8> {
    spec_kind_name(kind) + seq![0x20u8] + spec_dec(size as nat) + seq![0x00u8]
}

/// The full decompressed record: header, then payload.
pub open spec fn spec_record(kind: Kind, size: u64, payload: Seq<u8>) -> Seq<u8> {
    spec_header(kind, size) + payload
}

/// Renders the header verbatim, NUL terminator included.
pub fn encode_header(kind: Kind, size: u64) -> (r: Vec<u8>)
    ensures
        r@ == spec_header(kind, size),
{
    let mut v = kind.as_name();
    v.push(0x20);
    push_dec(&mut v, size);
    v.push(0x00);
    proof {
        assert(v@ =~= spec_header(kind, size));
    }
    v
}

/// Appends the decimal rendering of `n` to `out`.
pub fn push_dec(out: &mut Vec<u8>, n: u64)
    ensures
        final(out)@ == old(out)@ + spec_dec(n as nat),
    decreases n,
{
    if n < 10 {
        out.push(0x30 + (n as u8));
        proof {
            assert(out@ =~= old(out)@ + spec_dec(n as nat));
        }
    } else {
        push_dec(out, n / 10);
        out.push(0x30 + ((n % 10) as u8));
        proof {
            assert(out@ =~= old(out)@ + spec_dec(n as nat));
        }
    }
}

// ------------------------------------------------------------------
// Finding the delimiters
// ------------------------------------------------------------------

/// Index of the first occurrence of `x` in `b`, if any.
pub open spec fn spec_find(b: Seq<u8>, x: u8) -> Option<int>
    decreases b.len(),
{
    if b.len() == 0 {
        None
    } else if b[0] == x {
        Some(0)
    } else {
        match spec_find(b.drop_first(), x) {
            Some(i) => Some(i + 1),
            None => None,
        }
    }
}

/// What `spec_find` returns: the first index holding `x`, or nothing when no
/// index does.
pub proof fn lemma_find_char(b: Seq<u8>, x: u8)
    ensures
        match spec_find(b, x) {
            Some(i) => 0 <= i < b.len() && b[i] == x && forall|j: int| 0 <= j < i ==> b[j] != x,
            None => forall|j: int| 0 <= j < b.len() ==> b[j] != x,
        },
    decreases b.len(),
{
    if b.len() != 0 && b[0] != x {
        lemma_find_char(b.drop_first(), x);
        match spec_find(b.drop_first(), x) {
            Some(i) => {
                assert(b[i + 1] == x) by {
                    assert(b.drop_first()[i] == b[i + 1]);
                };
                assert forall|j: int| 0 <= j < i + 1 implies b[j] != x by {
                    if j > 0 {
                        assert(b.drop_first()[j - 1] == b[j]);
                    }
                };
            },
            None => {
                assert forall|j: int| 0 <= j < b.len() implies b[j] != x by {
                    if j > 0 {
                        assert(b.drop_first()[j - 1] == b[j]);
                    }
                };
            },
        }
    }
}

pub proof fn lemma_find_unique(b: Seq<u8>, x: u8, i: int)
    requires
        0 <= i < b.len(),
        b[i] == x,
        forall|j: int| 0 <= j < i ==> b[j] != x,
    ensures
        spec_find(b, x) == Some(i),
    decreases b.len(),
{
    if i > 0 {
        assert(b.drop_first()[i - 1] == b[i]);
        assert forall|j: int| 0 <= j < i - 1 implies b.drop_first()[j] != x by {
            assert(b.drop_first()[j] == b[j + 1]);
        };
        lemma_find_unique(b.drop_first(), x, i - 1);
    }
}

/// Bounded scan for a delimiter byte.
pub fn find_byte(b: &[u8], x: u8) -> (r: Option<usize>)
    ensures
        match r {
            Some(i) => spec_find(b@, x) == Some(i as int),
            None => spec_find(b@, x) is None,
        },
{
    let mut i: usize = 0;
    while i < b.len()
        invariant
            0 <= i <= b@.len(),
            forall|j: int| 0 <= j < i ==> b@[j] != x,
        decreases b@.len() - i,
    {
        if b[i] == x {
            proof {
                lemma_find_unique(b@, x, i as int);
            }
            return Some(i);
        }
        i += 1;
    }
    proof {
        lemma_find_char(b@, x);
    }
    None
}

// ------------------------------------------------------------------
// Decoding a record
// ------------------------------------------------------------------

/// Decoding of the header region of decompressed record bytes: the parsed
/// kind, the declared size, and the number of bytes the header occupies.
pub open spec fn spec_decode_header(b: Seq<u8>) -> Result<(Kind, u64, int), StoreError> {
    match spec_find(b, 0x00) {
        None => Err(StoreError::MalformedHeader),
        Some(n) => {
            let h = b.subrange(0, n);
            if !valid_utf8(h) {
                Err(StoreError::MalformedHeader)
            } else {
                match spec_find(h, 0x20) {
                    None => Err(StoreError::MalformedHeader),
                    Some(sp) => {
                        match spec_kind_of(h.subrange(0, sp)) {
                            None => Err(StoreError::UnknownKind),
                            Some(k) => {
                                let sb = h.subrange(sp + 1, n);
                                if size_field_ok(sb) {
                                    Ok((k, dec_val(digits_part(sb)) as u64, n + 1))
                                } else {
                                    Err(StoreError::MalformedHeader)
                                }
                            },
                        }
                    },
                }
            }
        },
    }
}

/// Full decoding of decompressed record bytes: the header's kind and size,
/// and the payload bounded to the declared size (reading past the declared
/// size is cut off; a short record yields the bytes that are there).
pub open spec fn spec_decode_record(b: Seq<u8>) -> Result<(Kind, u64, Seq<u8>), StoreError> {
    match spec_decode_header(b) {
        Err(e) => Err(e),
        Ok((k, size, hlen)) => {
            let avail = b.len() - hlen;
            let take_n = if size as int <= avail {
                size as int
            } else {
                avail
            };
            Ok((k, size, b.subrange(hlen, hlen + take_n)))
        },
    }
}

/// The mathematical value of an executable decode result.
pub open spec fn decoded_view(r: Result<(Kind, u64, Vec<u8>), StoreError>) -> Result<
    (Kind, u64, Seq<u8>),
    StoreError,
> {
    match r {
        Ok((k, s, p)) => Ok((k, s, p@)),
        Err(e) => Err(e),
    }
}

/// Parses a decompressed record: scans for the NUL that ends the header,
/// validates and splits the header text, and hands back the payload bounded
/// to the declared size.
pub fn decode_record(b: &[u8]) -> (r: Result<(Kind, u64, Vec<u8>), StoreError>)
    ensures
        decoded_view(r) == spec_decode_record(b@),
{
    proof {
        lemma_find_char(b@, 0x00);
    }
    let n = match find_byte(b, 0x00) {
        Some(n) => n,
        None => {
            return Err(StoreError::MalformedHeader);
        },
    };
    let h = slice_subrange(b, 0, n);
    proof {
        lemma_find_char(h@, 0x20);
    }
    if !utf8_ok(h) {
        return Err(StoreError::MalformedHeader);
    }
    let sp = match find_byte(h, 0x20) {
        Some(sp) => sp,
        None => {
            return Err(StoreError::MalformedHeader);
        },
    };
    let kb = slice_subrange(h, 0, sp);
    let kind = match Kind::from_name(kb) {
        Some(k) => k,
        None => {
            return Err(StoreError::UnknownKind);
        },
    };
    let sb = slice_subrange(h, sp + 1, n);
    let size = match parse_size(sb) {
        Some(v) => v,
        None => {
            return Err(StoreError::MalformedHeader);
        },
    };
    let blen = b.len();
    let hlen = n + 1;
    let avail = blen - hlen;
    let take_n: usize = if size <= avail as u64 {
        size as usize
    } else {
        avail
    };
    let mut payload: Vec<u8> = Vec::new();
    let mut i: usize = 0;
    while i < take_n
        invariant
            0 <= i <= take_n,
            blen == b@.len(),
            hlen + take_n <= b@.len(),
            payload@ =~= b@.subrange(hlen as int, hlen + i),
        decreases take_n - i,
    {
        payload.push(b[hlen + i]);
        proof {
            assert(payload@ =~= b@.subrange(hlen as int, hlen + i + 1));
        }
        i += 1;
    }
    Ok((kind, size, payload))
}

/// Decoding inverts encoding: a record framed from a kind, a size, and a
/// payload of exactly that size decodes back to the same kind, size and
/// payload, whatever bytes the payload holds (NULs included).
pub proof fn lemma_record_round_trip(kind: Kind, size: u64, payload: Seq<u8>)
    requires
        payload.len() == size,
    ensures
        spec_decode_record(spec_record(kind, size, payload)) == Ok::<
            (Kind, u64, Seq<u8>),
            StoreError,
        >((kind, size, payload)),
{
    let name = spec_kind_name(kind);
    let dec = spec_dec(size as nat);
    let pre = name + seq![0x20u8] + dec;
    let rec = spec_record(kind, size, payload);
    let hl = pre.len() as int;
    crate::kind::lemma_kind_name_bytes(kind);
    lemma_spec_dec_props(size as nat);

    // the first NUL ends the header
    assert(rec[hl] == 0x00);
    assert forall|j: int| 0 <= j < hl implies rec[j] != 0x00 by {
        if j < name.len() {
            assert(rec[j] == name[j]);
        } else if j == name.len() {
            assert(rec[j] == 0x20);
        } else {
            assert(rec[j] == dec[j - name.len() - 1]);
        }
    };
    lemma_find_unique(rec, 0x00, hl);

    let h = rec.subrange(0, hl);
    assert(h =~= pre);

    // the header text is plain ASCII, so it is valid UTF-8
    assert forall|j: int| 0 <= j < h.len() implies #[trigger] h[j] < 0x80 by {
        if j < name.len() {
            assert(h[j] == name[j]);
        } else if j == name.len() {
            assert(h[j] == 0x20);
        } else {
            assert(h[j] == dec[j - name.len() - 1]);
        }
    };
    lemma_ascii_valid_utf8(h);

    // the first space separates the kind name from the size field
    assert(h[name.len() as int] == 0x20);
    assert forall|j: int| 0 <= j < name.len() implies h[j] != 0x20 by {
        assert(h[j] == name[j]);
    };
    lemma_find_unique(h, 0x20, name.len() as int);

    assert(h.subrange(0, name.len() as int) =~= name);
    assert(spec_kind_of(name) == Some(kind)) by {
        assert(spec_kind_name(Kind::Blob)[0] == 0x62);
        assert(spec_kind_name(Kind::Tree)[0] == 0x74);
        assert(spec_kind_name(Kind::Commit).len() == 6);
    };

    let sb = h.subrange(name.len() as int + 1, hl);
    assert(sb =~= dec);
    assert(digits_part(sb) == sb) by {
        assert(0x30 <= sb[0] <= 0x39);
    };
    assert(size_field_ok(sb));
    assert(dec_val(digits_part(sb)) as u64 == size);

    // the payload is bounded to exactly the declared size
    let hlen = hl + 1;
    assert(rec.len() - hlen == payload.len());
    assert(rec.subrange(hlen, hlen + size as int) =~= payload);
}

/// A stream whose bytes hold no NUL at all cannot frame a header and is
/// rejected as malformed.
pub proof fn lemma_missing_nul_rejected(b: Seq<u8>)
    requires
        forall|i: int| 0 <= i < b.len() ==> #[trigger] b[i] != 0x00,
    ensures
        spec_decode_record(b) == Err::<(Kind, u64, Seq<u8>), StoreError>(
            StoreError::MalformedHeader,
        ),
{
    lemma_find_char(b, 0x00);
    if spec_find(b, 0x00) is Some {
        let i = spec_find(b, 0x00)->Some_0;
        assert(b[i] == 0x00);
        assert(false);
    }
}

/// Relies on core::str::from_utf8, which succeeds exactly on the byte
/// sequences that are valid UTF-8; vstd's `valid_utf8` models that set.
#[verifier::external_body]
fn utf8_ok(b: &[u8]) -> (r: bool)
    ensures
        r == valid_utf8(b@),
{
    core::str::from_utf8(b).is_ok()
}

/// A sequence of plain ASCII bytes is valid UTF-8.
pub proof fn lemma_ascii_valid_utf8(b: Seq<u8>)
    requires
        forall|i: int| 0 <= i < b.len() ==> #[trigger] b[i] < 0x80,
    ensures
        valid_utf8(b),
    decreases b.len(),
{
    if b.len() != 0 {
        let byte = b[0];
        assert(byte & 0x7F == byte) by (bit_vector)
            requires
                byte < 0x80,
        ;
        assert(vstd::utf8::valid_first_scalar(b));
        assert(vstd::utf8::length_of_first_scalar(b) == 1);
        assert(vstd::utf8::pop_first_scalar(b) =~= b.drop_first());
        lemma_ascii_valid_utf8(b.drop_first());
    }
}

} // verus!

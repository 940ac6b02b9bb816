//! The payload: a fingerprint, public parameters, a separator and a proof,
//! packed into one byte string and taken apart again.

use vstd::prelude::*;

verus! {

/// Length in bytes of a circuit fingerprint, the first segment of a payload.
pub const FINGERPRINT_LEN: usize = 32;

/// The byte that the separator repeats.
pub const SEPARATOR_BYTE: u8 = 0x40;

/// Length in bytes of the separator.
pub const SEPARATOR_LEN: usize = 3;

/// The separator that stands between the public parameters and the proof.
pub open spec fn separator() -> Seq<u8> {
    seq![SEPARATOR_BYTE, SEPARATOR_BYTE, SEPARATOR_BYTE]
}

/// Whether the three bytes of `s` that start at `i` are the separator.
pub open spec fn separator_at(s: Seq<u8>, i: int) -> bool {
    &&& 0 <= i
    &&& i + SEPARATOR_LEN <= s.len()
    &&& s[i] == SEPARATOR_BYTE
    &&& s[i + 1] == SEPARATOR_BYTE
    &&& s[i + 2] == SEPARATOR_BYTE
}

/// Whether the separator occurs anywhere in `s`.
pub open spec fn contains_separator(s: Seq<u8>) -> bool {
    exists|i: int| separator_at(s, i)
}

/// Whether `k` is where the payload `s` is split: the separator stands at
/// `k`, after the fingerprint, and nowhere between the fingerprint and `k`.
pub open spec fn is_split_point(s: Seq<u8>, k: int) -> bool {
    &&& FINGERPRINT_LEN <= k
    &&& separator_at(s, k)
    &&& forall|j: int| FINGERPRINT_LEN <= j < k ==> !separator_at(s, j)
}

/// Whether the payload `s` has a separator after its fingerprint.
pub open spec fn has_split_point(s: Seq<u8>) -> bool {
    exists|k: int| is_split_point(s, k)
}

/// The offset at which the payload `s` is split, where it has one.
pub open spec fn split_point(s: Seq<u8>) -> int {
    choose|k: int| is_split_point(s, k)
}

/// The three fields of a payload, as plain byte strings.
pub struct Fields {
    pub fingerprint: Seq<u8>,
    pub public_params: Seq<u8>,
    pub proof: Seq<u8>,
}

/// Why a byte string is no payload.
#[derive(Clone, Copy, Debug, PartialEq, Eq, Structural)]
pub enum DecodeError {
    /// It is shorter than a fingerprint.
    TooShort,
    /// No separator follows the fingerprint.
    SeparatorNotFound,
}

/// The payload that packs the three fields.
pub open spec fn encode_spec(fingerprint: Seq<u8>, public_params: Seq<u8>, proof: Seq<u8>) -> Seq<
    u8,
> {
    fingerprint + public_params + separator() + proof
}

/// What a byte string decodes to.
pub open spec fn decode_spec(payload: Seq<u8>) -> Result<Fields, DecodeError> {
    if payload.len() < FINGERPRINT_LEN {
        Err(DecodeError::TooShort)
    } else if !has_split_point(payload) {
        Err(DecodeError::SeparatorNotFound)
    } else {
        let k = split_point(payload);
        Ok(
            Fields {
                fingerprint: payload.subrange(0, FINGERPRINT_LEN as int),
                public_params: payload.subrange(FINGERPRINT_LEN as int, k),
                proof: payload.subrange(k + SEPARATOR_LEN, payload.len() as int),
            },
        )
    }
}

/// The three fields recovered from a payload.
#[derive(Clone, Debug, PartialEq, Eq)]
pub struct Decoded {
    pub fingerprint: [u8; 32],
    pub public_params: Vec<u8>,
    pub proof: Vec<u8>,
}

impl View for Decoded {
    type V = Fields;

    open spec fn view(&self) -> Fields {
        Fields {
            fingerprint: self.fingerprint@,
            public_params: self.public_params@,
            proof: self.proof@,
        }
    }
}

/// A payload has at most one split point.
pub proof fn lemma_split_point_unique(s: Seq<u8>, k: int)
    requires
        is_split_point(s, k),
    ensures
        has_split_point(s),
        split_point(s) == k,
{
    let c = split_point(s);
    assert(is_split_point(s, c));
    if c < k {
        assert(!separator_at(s, c));
    }
    if k < c {
        assert(!separator_at(s, k));
    }
}

/// Packs a fingerprint, public parameters and a proof into one payload.
pub fn encode(fingerprint: &[u8; 32], public_params: &[u8], proof: &[u8]) -> (payload: Vec<u8>)
    ensures
        payload@ == encode_spec(fingerprint@, public_params@, proof@),
        payload@.len() == FINGERPRINT_LEN + public_params@.len() + SEPARATOR_LEN + proof@.len(),
{
    let mut payload: Vec<u8> = Vec::new();
    payload.extend_from_slice(fingerprint.as_slice());
    payload.extend_from_slice(public_params);
    payload.push(SEPARATOR_BYTE);
    payload.push(SEPARATOR_BYTE);
    payload.push(SEPARATOR_BYTE);
    payload.extend_from_slice(proof);
    assert(payload@ =~= encode_spec(fingerprint@, public_params@, proof@));
    payload
}

/// Takes a payload apart at the first separator that follows its fingerprint.
pub fn decode(payload: &[u8]) -> (result: Result<Decoded, DecodeError>)
    ensures
        match result {
            Ok(fields) => decode_spec(payload@) == Ok::<Fields, DecodeError>(fields@),
            Err(e) => decode_spec(payload@) == Err::<Fields, DecodeError>(e),
        },
        payload@.len() < FINGERPRINT_LEN ==> result == Err::<Decoded, DecodeError>(
            DecodeError::TooShort,
        ),
{
    let len = payload.len();
    if len < FINGERPRINT_LEN {
        return Err(DecodeError::TooShort);
    }
    let mut k: usize = FINGERPRINT_LEN;
    while k <= len - SEPARATOR_LEN
        invariant
            len == payload@.len(),
            FINGERPRINT_LEN <= k,
            k <= len,
            forall|j: int| FINGERPRINT_LEN <= j < k ==> !separator_at(payload@, j),
        decreases len - k,
    {
        if payload[k] == SEPARATOR_BYTE && payload[k + 1] == SEPARATOR_BYTE && payload[k + 2]
            == SEPARATOR_BYTE {
            proof {
                lemma_split_point_unique(payload@, k as int);
            }
            let mut fingerprint = [0u8; 32];
            let mut i: usize = 0;
            while i < FINGERPRINT_LEN
                invariant
                    i <= FINGERPRINT_LEN,
                    FINGERPRINT_LEN <= payload@.len(),
                    forall|j: int| 0 <= j < i ==> fingerprint@[j] == payload@[j],
                decreases FINGERPRINT_LEN - i,
            {
                fingerprint[i] = payload[i];
                i += 1;
            }
            assert(fingerprint@ =~= payload@.subrange(0, FINGERPRINT_LEN as int));
            let public_params = vstd::slice::slice_to_vec(
                vstd::slice::slice_subrange(payload, FINGERPRINT_LEN, k),
            );
            let proof = vstd::slice::slice_to_vec(
                vstd::slice::slice_subrange(payload, k + SEPARATOR_LEN, len),
            );
            return Ok(Decoded { fingerprint, public_params, proof });
        }
        k += 1;
    }
    assert(!has_split_point(payload@)) by {
        assert forall|j: int| !is_split_point(payload@, j) by {
            if is_split_point(payload@, j) {
                assert(separator_at(payload@, j));
                assert(j < k);
            }
        }
    }
    Err(DecodeError::SeparatorNotFound)
}

/// Whether public parameters leave the separator that follows them as the
/// first one: they hold no separator themselves, and do not end in the
/// separator's byte, which would join the separator to form an earlier one.
pub open spec fn splits_cleanly(public_params: Seq<u8>) -> bool {
    &&& !contains_separator(public_params)
    &&& public_params.len() > 0 ==> public_params.last() != SEPARATOR_BYTE
}

/// Decoding what `encode` packed gives the three fields back exactly when the
/// public parameters split cleanly; the proof may hold any bytes.
pub proof fn lemma_decode_inverts_encode(
    fingerprint: Seq<u8>,
    public_params: Seq<u8>,
    proof: Seq<u8>,
)
    requires
        fingerprint.len() == FINGERPRINT_LEN,
    ensures
        splits_cleanly(public_params) <==> decode_spec(
            encode_spec(fingerprint, public_params, proof),
        ) == Ok::<Fields, DecodeError>(Fields { fingerprint, public_params, proof }),
        decode_spec(encode_spec(fingerprint, public_params, proof)) is Ok,
{
    let s = encode_spec(fingerprint, public_params, proof);
    let n = public_params.len() as int;
    let end = FINGERPRINT_LEN + n;
    assert(separator_at(s, end));
    if splits_cleanly(public_params) {
        assert forall|j: int| FINGERPRINT_LEN <= j < end implies !separator_at(s, j) by {
            if separator_at(s, j) {
                if j + SEPARATOR_LEN <= end {
                    assert(separator_at(public_params, j - FINGERPRINT_LEN));
                } else {
                    assert(s[end - 1] == public_params.last());
                }
            }
        }
        lemma_split_point_unique(s, end);
        assert(s.subrange(0, FINGERPRINT_LEN as int) =~= fingerprint);
        assert(s.subrange(FINGERPRINT_LEN as int, end) =~= public_params);
        assert(s.subrange(end + SEPARATOR_LEN, s.len() as int) =~= proof);
    } else {
        let early = if contains_separator(public_params) {
            FINGERPRINT_LEN + choose|i: int| separator_at(public_params, i)
        } else {
            end - 1
        };
        assert(FINGERPRINT_LEN <= early < end && separator_at(s, early));
        lemma_first_separator_exists(s, early);
        let k = split_point(s);
        assert(k <= early) by {
            if early < k {
                assert(!separator_at(s, early));
            }
        }
        assert(s.subrange(FINGERPRINT_LEN as int, k).len() < n);
    }
    lemma_first_separator_exists(s, end);
}

/// A payload with a separator somewhere after its fingerprint has a split
/// point, at or before that separator.
pub proof fn lemma_first_separator_exists(s: Seq<u8>, at: int)
    requires
        FINGERPRINT_LEN <= at,
        separator_at(s, at),
    ensures
        has_split_point(s),
        is_split_point(s, split_point(s)),
        split_point(s) <= at,
    decreases at,
{
    if exists|j: int| FINGERPRINT_LEN <= j < at && separator_at(s, j) {
        let j = choose|j: int| FINGERPRINT_LEN <= j < at && separator_at(s, j);
        lemma_first_separator_exists(s, j);
    } else {
        assert(is_split_point(s, at));
        lemma_split_point_unique(s, at);
    }
}

/// A fingerprint followed by bytes that hold no separator does not decode:
/// the separator is reported missing.
pub proof fn lemma_decode_needs_separator(fingerprint: Seq<u8>, rest: Seq<u8>)
    requires
        fingerprint.len() == FINGERPRINT_LEN,
        !contains_separator(rest),
    ensures
        decode_spec(fingerprint + rest) == Err::<Fields, DecodeError>(
            DecodeError::SeparatorNotFound,
        ),
{
    let s = fingerprint + rest;
    assert forall|k: int| !is_split_point(s, k) by {
        if is_split_point(s, k) {
            assert(separator_at(rest, k - FINGERPRINT_LEN));
        }
    }
}

/// A byte string shorter than a fingerprint does not decode: it is reported
/// as too short, whatever it holds.
pub proof fn lemma_decode_needs_fingerprint(payload: Seq<u8>)
    requires
        payload.len() < FINGERPRINT_LEN,
    ensures
        decode_spec(payload) == Err::<Fields, DecodeError>(DecodeError::TooShort),
{
}

/// A payload decodes exactly when it is long enough to hold a fingerprint
/// and a separator follows the fingerprint.
pub proof fn lemma_decode_succeeds_iff(payload: Seq<u8>)
    ensures
        decode_spec(payload) is Ok <==> payload.len() >= FINGERPRINT_LEN && exists|k: int|
            FINGERPRINT_LEN <= k && separator_at(payload, k),
{
    if payload.len() >= FINGERPRINT_LEN {
        if exists|k: int| FINGERPRINT_LEN <= k && separator_at(payload, k) {
            let k = choose|k: int| FINGERPRINT_LEN <= k && separator_at(payload, k);
            lemma_first_separator_exists(payload, k);
        }
        if has_split_point(payload) {
            let k = split_point(payload);
            assert(FINGERPRINT_LEN <= k && separator_at(payload, k));
        }
    }
}

} // verus!

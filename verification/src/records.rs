//! The record verifier: sorts retrieved records into those that carry the
//! local circuit's proof material, those of another circuit, and those whose
//! payload does not decode, and names the material that is left in store
//! once every match has been written in turn.

use crate::bytes::bytes_eq;
use crate::payload::{decode, decode_spec, DecodeError, FINGERPRINT_LEN};
use vstd::prelude::*;

verus! {

/// A retrieved record: an identifier, which is carried along unread, and the
/// payload that was attached to it.
#[derive(Clone, Debug, PartialEq, Eq)]
pub struct Record {
    pub id: [u8; 32],
    pub payload: Vec<u8>,
}

/// What became of one record.
#[derive(Clone, Debug, PartialEq, Eq)]
pub enum Outcome {
    /// The payload decodes and carries the local fingerprint.
    Matched { public_params: Vec<u8>, proof: Vec<u8> },
    /// The payload decodes and carries another fingerprint.
    Mismatched,
    /// The payload does not decode.
    Malformed(DecodeError),
}

/// An outcome over plain byte strings.
pub enum Verdict {
    Matched { public_params: Seq<u8>, proof: Seq<u8> },
    Mismatched,
    Malformed(DecodeError),
}

impl View for Outcome {
    type V = Verdict;

    open spec fn view(&self) -> Verdict {
        match *self {
            Outcome::Matched { public_params, proof } => Verdict::Matched {
                public_params: public_params@,
                proof: proof@,
            },
            Outcome::Mismatched => Verdict::Mismatched,
            Outcome::Malformed(e) => Verdict::Malformed(e),
        }
    }
}

/// The outcome of a payload under a local fingerprint: decoding comes first,
/// and the fingerprints are compared only where it succeeds.
pub open spec fn verdict_of(local: Seq<u8>, payload: Seq<u8>) -> Verdict {
    match decode_spec(payload) {
        Err(e) => Verdict::Malformed(e),
        Ok(fields) => if fields.fingerprint == local {
            Verdict::Matched { public_params: fields.public_params, proof: fields.proof }
        } else {
            Verdict::Mismatched
        },
    }
}

/// The outcomes of a list of payloads, one for each, in the order given.
pub open spec fn verdicts_of(local: Seq<u8>, payloads: Seq<Seq<u8>>) -> Seq<Verdict> {
    Seq::new(payloads.len(), |i: int| verdict_of(local, payloads[i]))
}

/// The payloads of a list of records.
pub open spec fn payloads_of(records: Seq<Record>) -> Seq<Seq<u8>> {
    Seq::new(records.len(), |i: int| records[i].payload@)
}

/// The outcomes of a list, as plain values.
pub open spec fn verdicts(outcomes: Seq<Outcome>) -> Seq<Verdict> {
    Seq::new(outcomes.len(), |i: int| outcomes[i]@)
}

/// The public parameters and the proof that are in store after each match
/// among `verdicts` was written in turn over the one before it: those of the
/// last match, and nothing where there is none.
pub open spec fn last_write(verdicts: Seq<Verdict>) -> Option<(Seq<u8>, Seq<u8>)>
    decreases verdicts.len(),
{
    if verdicts.len() == 0 {
        None
    } else {
        match verdicts.last() {
            Verdict::Matched { public_params, proof } => Some((public_params, proof)),
            _ => last_write(verdicts.drop_last()),
        }
    }
}

/// Decodes one payload and compares its fingerprint with the local one.
pub fn classify(local: &[u8; 32], payload: &[u8]) -> (outcome: Outcome)
    ensures
        outcome@ == verdict_of(local@, payload@),
{
    match decode(payload) {
        Err(e) => Outcome::Malformed(e),
        Ok(fields) => {
            if bytes_eq(fields.fingerprint.as_slice(), local.as_slice()) {
                Outcome::Matched { public_params: fields.public_params, proof: fields.proof }
            } else {
                Outcome::Mismatched
            }
        },
    }
}

/// Goes through the records in the order given and gives the outcome of
/// each. No outcome ends the scan: a record that does not decode, or that
/// belongs to another circuit, is passed over.
pub fn match_records(local: &[u8; 32], records: &Vec<Record>) -> (outcomes: Vec<Outcome>)
    ensures
        verdicts(outcomes@) == verdicts_of(local@, payloads_of(records@)),
        outcomes@.len() == records@.len(),
{
    let mut outcomes: Vec<Outcome> = Vec::new();
    let mut i: usize = 0;
    while i < records.len()
        invariant
            i <= records@.len(),
            outcomes@.len() == i,
            forall|j: int| 0 <= j < i ==> outcomes@[j]@ == verdict_of(local@, records@[j].payload@),
        decreases records@.len() - i,
    {
        let outcome = classify(local, records[i].payload.as_slice());
        outcomes.push(outcome);
        i += 1;
    }
    assert(verdicts(outcomes@) =~= verdicts_of(local@, payloads_of(records@)));
    outcomes
}

/// The proof material that is in store once every match among `outcomes` has
/// been written in turn: the last match wins.
pub fn last_match(outcomes: &Vec<Outcome>) -> (kept: Option<(Vec<u8>, Vec<u8>)>)
    ensures
        match kept {
            Some((public_params, proof)) => last_write(verdicts(outcomes@)) == Some(
                (public_params@, proof@),
            ),
            None => last_write(verdicts(outcomes@)) == None::<(Seq<u8>, Seq<u8>)>,
        },
{
    let mut i: usize = outcomes.len();
    assert(verdicts(outcomes@).take(i as int) =~= verdicts(outcomes@));
    while i > 0
        invariant
            i <= outcomes@.len(),
            last_write(verdicts(outcomes@)) == last_write(verdicts(outcomes@).take(i as int)),
        decreases i,
    {
        proof {
            let prefix = verdicts(outcomes@).take(i as int);
            assert(prefix.last() == outcomes@[i - 1]@);
            assert(prefix.drop_last() =~= verdicts(outcomes@).take(i - 1));
        }
        match &outcomes[i - 1] {
            Outcome::Matched { public_params, proof } => {
                let public_params = vstd::slice::slice_to_vec(public_params.as_slice());
                let proof = vstd::slice::slice_to_vec(proof.as_slice());
                return Some((public_params, proof));
            },
            _ => {},
        }
        i -= 1;
    }
    None
}

/// Where the last match among `verdicts` stands: no match comes after it.
pub open spec fn is_last_match(verdicts: Seq<Verdict>, k: int) -> bool {
    &&& 0 <= k < verdicts.len()
    &&& verdicts[k] is Matched
    &&& forall|j: int| k < j < verdicts.len() ==> !(verdicts[j] is Matched)
}

/// Last write wins: where `k` is the last match, what is left in store is
/// the material of that record, whatever the earlier records held.
pub proof fn lemma_last_write_is_last_match(verdicts: Seq<Verdict>, k: int)
    requires
        is_last_match(verdicts, k),
    ensures
        last_write(verdicts) == Some(
            (verdicts[k]->Matched_public_params, verdicts[k]->Matched_proof),
        ),
    decreases verdicts.len(),
{
    if k < verdicts.len() - 1 {
        assert(!(verdicts[verdicts.len() - 1] is Matched));
        lemma_last_write_is_last_match(verdicts.drop_last(), k);
    }
}

/// Nothing is left in store exactly when no record matched.
pub proof fn lemma_last_write_none_iff_no_match(verdicts: Seq<Verdict>)
    ensures
        last_write(verdicts) is None <==> forall|j: int|
            0 <= j < verdicts.len() ==> !(#[trigger] verdicts[j] is Matched),
    decreases verdicts.len(),
{
    if verdicts.len() > 0 {
        let init = verdicts.drop_last();
        lemma_last_write_none_iff_no_match(init);
        if !(verdicts.last() is Matched) {
            if last_write(verdicts) is None {
                assert forall|j: int| 0 <= j < verdicts.len() implies !(
                #[trigger] verdicts[j] is Matched) by {
                    if j < init.len() {
                        assert(init[j] == verdicts[j]);
                    }
                }
            } else {
                let j = choose|j: int| 0 <= j < init.len() && #[trigger] init[j] is Matched;
                assert(verdicts[j] is Matched);
            }
        } else {
            assert(verdicts[verdicts.len() - 1] is Matched);
        }
    }
}

/// A record is a match exactly when its payload decodes and begins with the
/// local fingerprint, a mismatch when it decodes and begins otherwise, and
/// malformed when it does not decode.
pub proof fn lemma_match_iff_same_fingerprint(local: Seq<u8>, payload: Seq<u8>)
    ensures
        verdict_of(local, payload) is Matched <==> decode_spec(payload) is Ok && payload.subrange(
            0,
            FINGERPRINT_LEN as int,
        ) == local,
        verdict_of(local, payload) is Mismatched <==> decode_spec(payload) is Ok
            && payload.subrange(0, FINGERPRINT_LEN as int) != local,
        verdict_of(local, payload) is Malformed <==> decode_spec(payload) is Err,
{
}

} // verus!

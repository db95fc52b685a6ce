use vstd::prelude::*;
use crate::errors::Error;
use crate::manifest::Algo;
use crate::paths::bytes_eq;

verus! {

/// The byte sequence held by an optional byte vector.
pub open spec fn opt_bytes(o: Option<Vec<u8>>) -> Option<Seq<u8>> {
    match o {
        Some(v) => Some(v@),
        None => None,
    }
}

/// Diff-side classification of one file that exists in both trees, as a
/// value: keep a zero-byte marker, ship a patch, ship the new bytes
/// verbatim, or reject the run because the codec's round-trip check came
/// back with wrong bytes.
pub enum Classification {
    Keep,
    Patch(Seq<u8>),
    AsIs,
    Invalid,
}

/// Executable counterpart of [`Classification`], carrying the bytes to ship.
pub enum ClassDecision {
    Keep,
    Patch(Vec<u8>),
    AsIs,
    Invalid,
}

impl ClassDecision {
    pub open spec fn view_class(self) -> Classification {
        match self {
            ClassDecision::Keep => Classification::Keep,
            ClassDecision::Patch(d) => Classification::Patch(d@),
            ClassDecision::AsIs => Classification::AsIs,
            ClassDecision::Invalid => Classification::Invalid,
        }
    }
}

/// How diff classifies a file present in both trees, given the old (source)
/// bytes, the new (target) bytes, the codec's encoding of new against old
/// (`None` when the codec failed), and the decoding of that encoding against
/// old (the round-trip check; meaningful only when the encoding exists).
///
/// Equal contents are kept as a zero-byte marker. A failed encode or a
/// failed round-trip decode falls back to shipping the new bytes verbatim.
/// A round-trip decode that yields wrong bytes is invalid: such a patch must
/// never be shipped.
pub open spec fn spec_classify(
    old_content: Seq<u8>,
    new_content: Seq<u8>,
    encoded: Option<Seq<u8>>,
    round_trip: Option<Seq<u8>>,
) -> Classification {
    if old_content == new_content {
        Classification::Keep
    } else {
        match encoded {
            None => Classification::AsIs,
            Some(delta) => match round_trip {
                None => Classification::AsIs,
                Some(rt) => if rt == new_content {
                    Classification::Patch(delta)
                } else {
                    Classification::Invalid
                },
            },
        }
    }
}

/// Classifies one file present in both trees from the codec's results.
/// `encoded` must be the codec's encoding of `new_content` against
/// `old_content` (or `None` on codec failure), and `round_trip` the codec's
/// decoding of that encoding against `old_content`; the caller runs the
/// codec and hands the results in.
pub fn classify_content(
    old_content: &Vec<u8>,
    new_content: &Vec<u8>,
    encoded: Option<Vec<u8>>,
    round_trip: Option<Vec<u8>>,
) -> (r: ClassDecision)
    ensures
        r.view_class() == spec_classify(old_content@, new_content@, opt_bytes(encoded), opt_bytes(round_trip)),
{
    if bytes_eq(old_content, new_content) {
        ClassDecision::Keep
    } else {
        match encoded {
            None => ClassDecision::AsIs,
            Some(delta) => match round_trip {
                None => ClassDecision::AsIs,
                Some(rt) => if bytes_eq(&rt, new_content) {
                    ClassDecision::Patch(delta)
                } else {
                    ClassDecision::Invalid
                },
            },
        }
    }
}

/// The bytes apply reconstructs for one change entry: for a patch entry the
/// codec's decoding of the shipped bytes against the source bytes (`None`
/// means the delta is corrupt), for a verbatim entry the shipped bytes
/// themselves.
pub open spec fn spec_reconstruct(
    algo: Algo,
    shipped: Seq<u8>,
    decoded: Option<Seq<u8>>,
) -> Option<Seq<u8>> {
    match algo {
        Algo::XDelta3 => decoded,
        Algo::AsIs => Some(shipped),
    }
}

/// Reconstructs one change entry on the apply side. `decoded` must be the
/// codec's decoding of `shipped` against the source bytes (the caller runs
/// the codec); it is ignored for a verbatim entry. A failed decode of a
/// patch entry is fatal: the delta is corrupt, and the error names the
/// source and delta paths of the offending file.
pub fn reconstruct_content(
    algo: Algo,
    shipped: Vec<u8>,
    decoded: Option<Vec<u8>>,
    source_path: &Vec<u8>,
    delta_path: &Vec<u8>,
) -> (r: Result<Vec<u8>, Error>)
    ensures
        match spec_reconstruct(algo, shipped@, opt_bytes(decoded)) {
            Some(c) => r matches Ok(v) && v@ == c,
            None => r matches Err(e) && (e matches Error::XDelta3FailedDeflation(sp, dp)
                && sp@ == source_path@ && dp@ == delta_path@),
        },
{
    match algo {
        Algo::XDelta3 => match decoded {
            Some(c) => Ok(c),
            None => Err(Error::XDelta3FailedDeflation(source_path.clone(), delta_path.clone())),
        },
        Algo::AsIs => Ok(shipped),
    }
}

/// Content round-trip law: whatever diff ships for a file present in both
/// trees, apply reconstructs the file's new bytes, provided the codec
/// decodes the shipped patch at apply time to the same bytes as the
/// diff-side round-trip check did on the same inputs (the codec decodes as
/// a function of its two inputs). A kept file is restored by copying the
/// source bytes, which classification guarantees equal the new bytes; an
/// invalid classification ships nothing.
pub proof fn lemma_content_round_trip(
    old_content: Seq<u8>,
    new_content: Seq<u8>,
    encoded: Option<Seq<u8>>,
    round_trip: Option<Seq<u8>>,
    apply_decoded: Option<Seq<u8>>,
)
    requires
        (spec_classify(old_content, new_content, encoded, round_trip) matches Classification::Patch(
            d,
        ) ==> apply_decoded == round_trip),
    ensures
        match spec_classify(old_content, new_content, encoded, round_trip) {
            Classification::Keep => old_content == new_content,
            Classification::Patch(d) => spec_reconstruct(Algo::XDelta3, d, apply_decoded)
                == Some(new_content),
            Classification::AsIs => spec_reconstruct(Algo::AsIs, new_content, apply_decoded)
                == Some(new_content),
            Classification::Invalid => true,
        },
{
}

} // verus!

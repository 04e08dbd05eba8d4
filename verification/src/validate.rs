//! The validation hand-off: the flattened text is given to the WGSL
//! front end and validator of the `naga` crate, and their verdict is turned
//! into the library's own result shape, with the collaborator's rendered
//! diagnostic kept intact.
use crate::model::expand_file;
use crate::model::Expansion;
use crate::resolve::load;
use crate::resolve::lists_set;
use crate::resolve::Outcome;
use crate::resolve::Request;
use crate::resolve::ResolveError;
use crate::tree::SourceTree;
use vstd::prelude::*;

verus! {

/// Whether the collaborator accepts the text: naga's WGSL front end parses
/// it and naga's validator, run with every validation flag and every
/// capability enabled, finds the module valid.  Both decide on the text
/// alone, so acceptance is a function of the bytes.
pub uninterp spec fn wgsl_accepts(src: Seq<u8>) -> bool;

/// A rejection from the validation collaborator, carrying its rendered
/// diagnostic text.
pub enum ValidationFault {
    /// The text does not parse as WGSL.
    Parse { diagnostic: String },
    /// The text parsed, but the module failed semantic validation.
    Semantic { diagnostic: String },
}

/// Relies on `naga::front::wgsl::parse_str` and on
/// `naga::valid::Validator::new(ValidationFlags::all(), Capabilities::all())
/// .validate`: together they accept or reject on the text alone, which is
/// what `wgsl_accepts` names.  Diagnostics are rendered by naga's own
/// `emit_to_string_with_path`, anchored to the display path.
#[verifier::external_body]
fn check_with_naga(src: &Vec<u8>, display: &Vec<u8>) -> (r: Result<(), ValidationFault>)
    ensures
        r.is_ok() == wgsl_accepts(src@),
{
    let text = String::from_utf8_lossy(src).into_owned();
    let path = String::from_utf8_lossy(display).into_owned();
    let module = match naga::front::wgsl::parse_str(&text) {
        Ok(m) => m,
        Err(e) => return Err(ValidationFault::Parse { diagnostic: e.emit_to_string_with_path(&text, &path) }),
    };
    let flags = naga::valid::ValidationFlags::all();
    let mut validator = naga::valid::Validator::new(flags, naga::valid::Capabilities::all());
    match validator.validate(&module) {
        Ok(_) => Ok(()),
        Err(e) => Err(ValidationFault::Semantic { diagnostic: e.emit_to_string_with_path(&text, &path) }),
    }
}

/// Hands the flattened text to the collaborator: `Ok` exactly when it
/// accepts the text.  The fault, if any, carries the collaborator's own
/// diagnostic, anchored to `path` rather than to any intermediate file.
pub fn validate(path: &Vec<u8>, wgsl: &Vec<u8>) -> (r: Result<(), ValidationFault>)
    ensures
        r.is_ok() == wgsl_accepts(wgsl@),
{
    check_with_naga(wgsl, path)
}

/// The artifact a successful build hands to the pipeline: a display label
/// equal to the root file's canonical path, the flattened validated text,
/// and the indices of every contributing file, each exactly once, in
/// strictly ascending order.
pub struct ShaderArtifact {
    pub label: Vec<u8>,
    pub source: Vec<u8>,
    pub deps: Vec<usize>,
}

/// What a full build of one root file ends in.
pub enum BuildOutcome {
    /// Resolution and validation both succeeded.
    Built(ShaderArtifact),
    /// Resolution failed; validation was never attempted.
    ResolveFailed(ResolveError),
    /// The flattened text was rejected by the collaborator.
    ValidationFailed(ValidationFault),
    /// The tree lacks an answer; record it and run again.
    Blocked(Request),
}

/// The two-step pipeline: resolve the root file against the tree, and only
/// if resolution fully succeeds, validate the flattened text.  An artifact
/// is produced exactly when expansion finishes and the collaborator accepts
/// its text.
pub fn build_shader(t: &SourceTree, root: usize) -> (r: BuildOutcome)
    requires
        t.wf(),
        (root as int) < t.files@.len(),
    ensures
        match expand_file(*t, root as int, Set::empty()) {
            Expansion::Done { text, deps } => {
                if wgsl_accepts(text) {
                    r matches BuildOutcome::Built(a) && a.label@ == t.files@[root as int].path@
                        && a.source@ == text && lists_set(a.deps@, deps)
                } else {
                    r matches BuildOutcome::ValidationFailed(_)
                }
            },
            Expansion::Fail { err } => r matches BuildOutcome::ResolveFailed(e) && e@ == err,
            Expansion::Need { req } => r matches BuildOutcome::Blocked(q) && q@ == req,
        },
{
    match load(t, root) {
        Outcome::Failed(e) => BuildOutcome::ResolveFailed(e),
        Outcome::Blocked(q) => BuildOutcome::Blocked(q),
        Outcome::Resolved(b) => {
            let label = crate::bytes::sub_vec(&t.files[root].path, 0, t.files[root].path.len());
            proof {
                assert(label@ =~= t.files@[root as int].path@);
            }
            match validate(&label, &b.text) {
                Ok(()) => BuildOutcome::Built(
                    ShaderArtifact { label, source: b.text, deps: b.deps },
                ),
                Err(f) => BuildOutcome::ValidationFailed(f),
            }
        },
    }
}

} // verus!

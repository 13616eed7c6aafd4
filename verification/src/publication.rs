//! The signed publication contract of a web container.
//!
//! A state is two framed sections, metadata and web content, each behind its
//! length as a big-endian 64-bit number. The metadata holds a version and a
//! signature over the version and the content. A state is replaced only by
//! one of a strictly greater version.

use vstd::prelude::*;
use vstd::slice::slice_to_vec;
use vstd::string::StringExecFns;

use crate::bytes::{be_bytes_u32, be_u64, push_be_u32, push_bytes, read_be_u64};
use crate::identity::{
    ed25519_accepts_strict, ed25519_key_valid, ed25519_parse_key, ed25519_verify_strict,
};
use crate::text::{decimal, decimal_digits};
use crate::types::ContractError;

verus! {

/// The largest metadata section that validation admits, in bytes.
pub const MAX_METADATA_SIZE: u64 = 1024;

/// The largest web section that validation admits, in bytes: 100 MiB.
pub const MAX_WEB_SIZE: u64 = 104857600;

/// The metadata of a web container: the version and the signature over the
/// version and the web content.
#[derive(Clone, Debug, PartialEq, Eq)]
pub struct WebContainerMetadata {
    pub version: u32,
    pub signature: [u8; 64],
}

/// Where the sections of a state lie.
pub struct Frames {
    /// The first byte of the metadata section.
    pub metadata_start: usize,
    /// The byte after the metadata section.
    pub metadata_end: usize,
    /// The first byte of the web section.
    pub web_start: usize,
    /// The byte after the web section.
    pub web_end: usize,
}

/// The length that the state announces for its metadata section.
pub open spec fn announced_metadata_size(state: Seq<u8>) -> u64
    recommends
        state.len() >= 8,
{
    be_u64(state.subrange(0, 8))
}

/// Whether the state holds a whole metadata section: its length and as many
/// bytes as that.
pub open spec fn metadata_framed(state: Seq<u8>) -> bool {
    state.len() >= 8 && 8 + announced_metadata_size(state) <= state.len()
}

/// The length that the state announces for its web section.
pub open spec fn announced_web_size(state: Seq<u8>) -> u64
    recommends
        metadata_framed(state),
        state.len() >= 16 + announced_metadata_size(state),
{
    let at = 8 + announced_metadata_size(state);
    be_u64(state.subrange(at, at + 8))
}

/// Whether the state holds a whole web section behind its metadata.
pub open spec fn web_framed(state: Seq<u8>) -> bool {
    &&& metadata_framed(state)
    &&& state.len() >= 16 + announced_metadata_size(state)
    &&& 16 + announced_metadata_size(state) + announced_web_size(state) <= state.len()
}

/// The web section of a state that holds one.
pub open spec fn web_bytes(state: Seq<u8>) -> Seq<u8> {
    let at = 16 + announced_metadata_size(state);
    state.subrange(at, at + announced_web_size(state))
}

/// The message that a publisher signs: the version as four big-endian bytes,
/// then the web content.
pub open spec fn signed_message(version: u32, web: Seq<u8>) -> Seq<u8> {
    be_bytes_u32(version) + web
}

/// Builds the message that a publisher signs.
pub fn signing_message(version: u32, web: &[u8]) -> (message: Vec<u8>)
    ensures
        message@ == signed_message(version, web@),
{
    let mut message: Vec<u8> = Vec::new();
    push_be_u32(&mut message, version);
    push_bytes(&mut message, web);
    assert(message@ =~= signed_message(version, web@));
    message
}

fn other(text: &str) -> (e: ContractError)
    ensures
        e is Other,
{
    ContractError::Other(String::from_str(text))
}

/// Takes the verification key from the parameters: their first 32 bytes, which
/// must be a point of the curve. What follows the key is not read.
pub fn verifying_key_of(parameters: &[u8]) -> (result: Result<[u8; 32], ContractError>)
    ensures
        result is Ok <==> parameters@.len() >= 32 && ed25519_key_valid(
            parameters@.subrange(0, 32),
        ),
        result is Ok ==> result->Ok_0@ == parameters@.subrange(0, 32),
        result is Err ==> result->Err_0 is Other,
{
    if parameters.len() < 32 {
        return Err(other("Parameters must be at least 32 bytes (Ed25519 public key)"));
    }
    let mut key: [u8; 32] = [0u8; 32];
    let mut i: usize = 0;
    while i < 32
        invariant
            i <= 32,
            parameters@.len() >= 32,
            forall|j: int| 0 <= j < i ==> key@[j] == parameters@[j],
        decreases 32 - i,
    {
        key[i] = parameters[i];
        i += 1;
    }
    assert(key@ =~= parameters@.subrange(0, 32));
    if !ed25519_parse_key(&key) {
        return Err(other("Invalid public key"));
    }
    Ok(key)
}

/// Finds the metadata section of a state. With a limit, a section that
/// announces more bytes than the limit is refused before it is looked for.
pub fn metadata_section(state: &[u8], limit: Option<u64>) -> (result: Result<
    (usize, usize),
    ContractError,
>)
    ensures
        result is Ok <==> metadata_framed(state@) && (limit is Some ==> announced_metadata_size(
            state@,
        ) <= limit->0),
        result is Ok ==> ({
            let (start, end) = result->Ok_0;
            start == 8 && end == 8 + announced_metadata_size(state@)
        }),
        result is Err ==> result->Err_0 is Other,
{
    let len: usize = state.len();
    if len < 8 {
        return Err(other("Failed to read metadata size"));
    }
    let size: u64 = read_be_u64(state, 0);
    match limit {
        Some(max) => {
            if size > max {
                return Err(other("Metadata size exceeds maximum allowed size"));
            }
        },
        None => {},
    }
    if size > (len - 8) as u64 {
        return Err(other("Failed to read metadata"));
    }
    Ok((8, 8 + size as usize))
}

/// Finds both sections of a state under the limits of validation.
pub fn frames_of(state: &[u8]) -> (result: Result<Frames, ContractError>)
    ensures
        result is Ok <==> web_framed(state@) && announced_metadata_size(state@)
            <= MAX_METADATA_SIZE && announced_web_size(state@) <= MAX_WEB_SIZE,
        result is Ok ==> ({
            let f = result->Ok_0;
            &&& f.metadata_start == 8
            &&& f.metadata_end == 8 + announced_metadata_size(state@)
            &&& f.web_start == 16 + announced_metadata_size(state@)
            &&& f.web_end == f.web_start + announced_web_size(state@)
            &&& f.web_end <= state@.len()
        }),
        result is Err ==> result->Err_0 is Other,
{
    let len: usize = state.len();
    let (metadata_start, metadata_end) = match metadata_section(state, Some(MAX_METADATA_SIZE)) {
        Ok(range) => range,
        Err(e) => {
            return Err(e);
        },
    };
    if len - metadata_end < 8 {
        return Err(other("Failed to read web size"));
    }
    let size: u64 = read_be_u64(state, metadata_end);
    if size > MAX_WEB_SIZE {
        return Err(other("Web size exceeds maximum allowed size"));
    }
    let web_start: usize = metadata_end + 8;
    if size > (len - web_start) as u64 {
        return Err(other("Failed to read web bytes"));
    }
    Ok(Frames { metadata_start, metadata_end, web_start, web_end: web_start + size as usize })
}

/// Whether a state with the given decoded metadata is a valid publication
/// under the parameters: the key is a point of the curve, both sections are
/// framed within their limits, the version is not 0, and the signature
/// verifies strictly over the version and the web content.
pub open spec fn publication_valid(
    parameters: Seq<u8>,
    state: Seq<u8>,
    version: u32,
    signature: Seq<u8>,
) -> bool {
    &&& parameters.len() >= 32
    &&& ed25519_key_valid(parameters.subrange(0, 32))
    &&& web_framed(state)
    &&& announced_metadata_size(state) <= MAX_METADATA_SIZE
    &&& announced_web_size(state) <= MAX_WEB_SIZE
    &&& version != 0
    &&& ed25519_accepts_strict(
        parameters.subrange(0, 32),
        signed_message(version, web_bytes(state)),
        signature,
    )
}

/// Whether validation ends with `InvalidState`: key and metadata section are
/// in order and the version is 0.
pub open spec fn publication_unversioned(parameters: Seq<u8>, state: Seq<u8>, version: u32) -> bool {
    &&& parameters.len() >= 32
    &&& ed25519_key_valid(parameters.subrange(0, 32))
    &&& metadata_framed(state)
    &&& announced_metadata_size(state) <= MAX_METADATA_SIZE
    &&& version == 0
}

/// Validates a publication. `metadata` is what the metadata section of
/// `state` decodes to. A version of 0 gives `InvalidState`, every other
/// failure gives `Other`.
pub fn validate_state(parameters: &[u8], state: &[u8], metadata: &WebContainerMetadata) -> (result:
    Result<(), ContractError>)
    ensures
        result is Ok <==> publication_valid(
            parameters@,
            state@,
            metadata.version,
            metadata.signature@,
        ),
        result is Err ==> (result->Err_0 == ContractError::InvalidState
            <==> publication_unversioned(parameters@, state@, metadata.version)),
        result is Err ==> result->Err_0 == ContractError::InvalidState || result->Err_0 is Other,
{
    let key = match verifying_key_of(parameters) {
        Ok(key) => key,
        Err(e) => {
            return Err(e);
        },
    };
    match metadata_section(state, Some(MAX_METADATA_SIZE)) {
        Ok(_) => {},
        Err(e) => {
            return Err(e);
        },
    }
    if metadata.version == 0 {
        return Err(ContractError::InvalidState);
    }
    let frames = match frames_of(state) {
        Ok(frames) => frames,
        Err(e) => {
            return Err(e);
        },
    };
    let web = vstd::slice::slice_subrange(state, frames.web_start, frames.web_end);
    let message = signing_message(metadata.version, web);
    if !ed25519_verify_strict(&key, message.as_slice(), &metadata.signature) {
        return Err(other("Signature verification failed"));
    }
    Ok(())
}

/// The first update of a call to the publication contract, decoded.
#[derive(Clone, Debug, PartialEq, Eq)]
pub enum PublicationUpdate {
    /// A whole new state, with the version that its metadata holds.
    State { state: Vec<u8>, version: u32 },
    /// An update of any other kind.
    Unrelated,
}

/// The reason given where a state is refused for its version.
pub open spec fn version_reason(new_version: u32, current_version: u32) -> Seq<char> {
    "New state version "@ + decimal_digits(new_version as nat)
        + " must be higher than current version "@ + decimal_digits(current_version as nat)
}

/// Replaces the state of a publication: the first update must be a whole
/// state of a strictly greater version than the current one, which is 0 where
/// nothing has been published. The new state is returned as it came.
pub fn update_state(current_version: u32, update: Option<&PublicationUpdate>) -> (result: Result<
    Vec<u8>,
    ContractError,
>)
    ensures
        match update {
            Some(PublicationUpdate::State { state, version }) => if *version > current_version {
                result is Ok && result->Ok_0@ == state@
            } else {
                result is Err && result->Err_0 is InvalidUpdateWithInfo
                    && result->Err_0->reason@ == version_reason(*version, current_version)
            },
            _ => result is Err && result->Err_0 == ContractError::InvalidUpdate,
        },
{
    match update {
        Some(PublicationUpdate::State { state, version }) => {
            if *version <= current_version {
                let mut reason = String::from_str("New state version ");
                reason.append(decimal(*version as u64).as_str());
                reason.append(" must be higher than current version ");
                reason.append(decimal(current_version as u64).as_str());
                return Err(ContractError::InvalidUpdateWithInfo { reason });
            }
            Ok(slice_to_vec(state.as_slice()))
        },
        _ => Err(ContractError::InvalidUpdate),
    }
}

/// What a publication is summarised by: its version, or nothing where no
/// state has been published.
pub fn summarize_state(state: &[u8], version: u32) -> (summary: Option<u32>)
    ensures
        summary == (if state@.len() == 0 {
            None
        } else {
            Some(version)
        }),
{
    if state.len() == 0 {
        None
    } else {
        Some(version)
    }
}

/// What a peer whose summary holds `summary_version` lacks: the whole state
/// where it is of a greater version, else nothing.
pub fn get_state_delta(state: &[u8], version: u32, summary_version: u32) -> (delta: Vec<u8>)
    ensures
        delta@ == (if state@.len() > 0 && version > summary_version {
            state@
        } else {
            Seq::<u8>::empty()
        }),
{
    if state.len() > 0 && version > summary_version {
        slice_to_vec(state)
    } else {
        Vec::new()
    }
}

} // verus!

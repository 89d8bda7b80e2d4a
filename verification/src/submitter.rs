//! What the on-chain submitter is built from: the operator's signing key,
//! the RPC endpoint and the settlement contract, checked from the
//! configuration. Connecting and signing happen outside the library.
use vstd::prelude::*;
use crate::config::PipelineConfig;
use crate::pipeline_error::PipelineError;

verus! {

/// What `str::parse::<PrivateKeySigner>` (alloy-signer-local) gives for a
/// string: the signing key's 32 bytes, or the text of the parse error.
pub uninterp spec fn signer_key(s: Seq<char>) -> Result<[u8; 32], Seq<char>>;

/// What `str::parse::<Url>` (the `url` crate, through reqwest) reports for
/// a string: `None` when it is a URL, else the text of the parse error.
pub uninterp spec fn rpc_url_error(s: Seq<char>) -> Option<Seq<char>>;

/// A key parse result with the error taken as its text.
pub open spec fn key_result_view(r: Result<[u8; 32], String>) -> Result<[u8; 32], Seq<char>> {
    match r {
        Ok(k) => Ok(k),
        Err(e) => Err(e@),
    }
}

/// `str::parse::<alloy::signers::local::PrivateKeySigner>`, the key taken
/// as its 32 bytes (`to_bytes`) and an error as its text.
#[verifier::external_body]
fn parse_signer_key(s: &str) -> (r: Result<[u8; 32], String>)
    ensures
        key_result_view(r) == signer_key(s@),
{
    match s.parse::<alloy::signers::local::PrivateKeySigner>() {
        Ok(k) => Ok(k.to_bytes().0),
        Err(e) => Err(e.to_string()),
    }
}

/// `str::parse::<Url>`, kept only as whether it succeeds and, if not, the
/// text of the error.
#[verifier::external_body]
fn check_rpc_url(s: &str) -> (r: Option<String>)
    ensures
        r is None <==> rpc_url_error(s@) is None,
        r matches Some(e) ==> rpc_url_error(s@) == Some(e@),
{
    match s.parse::<alloy::transports::http::reqwest::Url>() {
        Ok(_) => None,
        Err(e) => Some(e.to_string()),
    }
}

/// What the submitter is built from.
pub struct SubmitterSettings {
    /// The operator's signing key.
    pub signing_key: [u8; 32],
    /// The HTTP RPC endpoint, a valid URL.
    pub rpc_url: String,
    /// The settlement contract's address.
    pub contract: [u8; 20],
}

/// Checks the configuration the submitter is built from: first the
/// operator's private key, then the RPC endpoint. Either refusal is an
/// `InvalidConfig` error that carries the parser's message.
pub fn submitter_settings(config: &PipelineConfig) -> (r: Result<SubmitterSettings, PipelineError>)
    ensures
        signer_key(config.chain.operator_private_key@) is Err ==> (r matches Err(
            PipelineError::InvalidConfig(s),
        ) && s@ == "invalid private key: "@ + signer_key(config.chain.operator_private_key@)->Err_0),
        signer_key(config.chain.operator_private_key@) is Ok && rpc_url_error(config.chain.rpc_http@)
            is Some ==> (r matches Err(PipelineError::InvalidConfig(s)) && s@ == "invalid RPC URL: "@
            + rpc_url_error(config.chain.rpc_http@)->Some_0),
        signer_key(config.chain.operator_private_key@) is Ok && rpc_url_error(config.chain.rpc_http@)
            is None ==> (r matches Ok(st) && st.signing_key == signer_key(
            config.chain.operator_private_key@,
        )->Ok_0 && st.rpc_url@ == config.chain.rpc_http@ && st.contract
            == config.chain.settlement_address),
{
    let key = match parse_signer_key(config.chain.operator_private_key.as_str()) {
        Ok(k) => k,
        Err(e) => {
            let mut msg = String::from_str("invalid private key: ");
            msg.append(e.as_str());
            return Err(PipelineError::InvalidConfig(msg));
        },
    };
    match check_rpc_url(config.chain.rpc_http.as_str()) {
        Some(e) => {
            let mut msg = String::from_str("invalid RPC URL: ");
            msg.append(e.as_str());
            Err(PipelineError::InvalidConfig(msg))
        },
        None => Ok(
            SubmitterSettings {
                signing_key: key,
                rpc_url: config.chain.rpc_http.clone(),
                contract: config.chain.settlement_address,
            },
        ),
    }
}

} // verus!

//! The error of a synchronisation run and the class it falls under.

use ethers::abi::Error as EthAbiError;
use ethers::contract::AbiError;
use ethers::providers::ProviderError;
use ethers::types::H160;
use tokio::task::JoinError;
use uniswap_v3_math::error::UniswapV3MathError;
use vstd::prelude::*;
use vstd::std_specs::convert::FromSpecImpl;

verus! {

/// `ethers::providers::ProviderError`, carried through as an opaque value.
#[verifier::external_type_specification]
#[verifier::external_body]
pub struct ExProviderError(ProviderError);

/// `ethers::contract::AbiError`, carried through as an opaque value.
#[verifier::external_type_specification]
#[verifier::external_body]
pub struct ExAbiError(AbiError);

/// `ethers::abi::Error`, carried through as an opaque value.
#[verifier::external_type_specification]
#[verifier::external_body]
pub struct ExEthAbiError(EthAbiError);

/// `tokio::task::JoinError`, carried through as an opaque value.
#[verifier::external_type_specification]
#[verifier::external_body]
pub struct ExJoinError(JoinError);

/// `uniswap_v3_math::error::UniswapV3MathError`, carried through as an opaque value.
#[verifier::external_type_specification]
#[verifier::external_body]
pub struct ExUniswapV3MathError(UniswapV3MathError);

/// `ethers::types::H160`, carried through as an opaque value.
#[verifier::external_type_specification]
#[verifier::external_body]
pub struct ExH160(H160);

/// How a failure bears on the call it happened in.
#[derive(Clone, Copy, Debug, PartialEq, Eq, Structural)]
pub enum ErrorClass {
    /// The endpoint or the transport failed: fatal to the enclosing call.
    Infrastructure,
    /// One log or one pool could not be decoded or refreshed.
    Item,
    /// A worker ended without reporting: fatal to the enclosing call.
    Fault,
}

/// The failure of a contract call: the error as the client gave it, which the engine
/// carries and never looks inside, and whether it was the transport that failed
/// rather than the contract.
#[derive(Debug)]
pub struct ContractFailure<C> {
    pub error: C,
    pub transport_failed: bool,
}

/// Everything a synchronisation run can fail with.
///
/// `C` is the error that the client gives for a contract call.
#[derive(Debug)]
pub enum CFFMError<C> {
    ProviderError(ProviderError),
    ContractError(ContractFailure<C>),
    ABICodecError(AbiError),
    EthABIError(EthAbiError),
    JoinError(JoinError),
    UniswapV3MathError(UniswapV3MathError),
    PairDoesNotExistInDexes(H160, H160),
}

impl<C> CFFMError<C> {
    /// The class of each error: a provider error is of the infrastructure, and so is
    /// a contract call in which the transport failed; a join error is a fault; all
    /// else touches one log or one pool.
    pub open spec fn class_of(self) -> ErrorClass {
        match self {
            CFFMError::ProviderError(_) => ErrorClass::Infrastructure,
            CFFMError::ContractError(failure) => if failure.transport_failed {
                ErrorClass::Infrastructure
            } else {
                ErrorClass::Item
            },
            CFFMError::JoinError(_) => ErrorClass::Fault,
            _ => ErrorClass::Item,
        }
    }

    /// Whether the endpoint or the transport failed.
    pub open spec fn infrastructure(self) -> bool {
        self.class_of() == ErrorClass::Infrastructure
    }

    /// Whether the failure ends the enclosing call: every class but `Item` does.
    pub open spec fn fatal(self) -> bool {
        self.class_of() != ErrorClass::Item
    }

    /// The text that describes each variant.
    pub open spec fn text(self) -> Seq<char> {
        match self {
            CFFMError::ProviderError(_) => "Provider error"@,
            CFFMError::ContractError(_) => "Contract error"@,
            CFFMError::ABICodecError(_) => "ABI Codec error"@,
            CFFMError::EthABIError(_) => "Eth ABI error"@,
            CFFMError::JoinError(_) => "Join error"@,
            CFFMError::UniswapV3MathError(_) => "Uniswap V3 math error"@,
            CFFMError::PairDoesNotExistInDexes(_, _) =>
                "Pair for token_a/token_b does not exist in provided dexes"@,
        }
    }

    pub fn class(&self) -> (c: ErrorClass)
        ensures
            c == self.class_of(),
    {
        match self {
            CFFMError::ProviderError(_) => ErrorClass::Infrastructure,
            CFFMError::ContractError(failure) => {
                if failure.transport_failed {
                    ErrorClass::Infrastructure
                } else {
                    ErrorClass::Item
                }
            },
            CFFMError::JoinError(_) => ErrorClass::Fault,
            _ => ErrorClass::Item,
        }
    }

    pub fn is_infrastructure(&self) -> (b: bool)
        ensures
            b == self.infrastructure(),
    {
        match self.class() {
            ErrorClass::Infrastructure => true,
            _ => false,
        }
    }

    pub fn is_fatal(&self) -> (b: bool)
        ensures
            b == self.fatal(),
    {
        match self.class() {
            ErrorClass::Item => false,
            _ => true,
        }
    }

    pub fn message(&self) -> (s: String)
        ensures
            s@ == self.text(),
    {
        match self {
            CFFMError::ProviderError(_) => "Provider error".to_owned(),
            CFFMError::ContractError(_) => "Contract error".to_owned(),
            CFFMError::ABICodecError(_) => "ABI Codec error".to_owned(),
            CFFMError::EthABIError(_) => "Eth ABI error".to_owned(),
            CFFMError::JoinError(_) => "Join error".to_owned(),
            CFFMError::UniswapV3MathError(_) => "Uniswap V3 math error".to_owned(),
            CFFMError::PairDoesNotExistInDexes(_, _) =>
                "Pair for token_a/token_b does not exist in provided dexes".to_owned(),
        }
    }
}

impl<C> From<ProviderError> for CFFMError<C> {
    fn from(e: ProviderError) -> (r: Self) {
        CFFMError::ProviderError(e)
    }
}

impl<C> FromSpecImpl<ProviderError> for CFFMError<C> {
    open spec fn obeys_from_spec() -> bool {
        true
    }

    open spec fn from_spec(e: ProviderError) -> Self {
        CFFMError::ProviderError(e)
    }
}

impl<C> From<JoinError> for CFFMError<C> {
    fn from(e: JoinError) -> (r: Self) {
        CFFMError::JoinError(e)
    }
}

impl<C> FromSpecImpl<JoinError> for CFFMError<C> {
    open spec fn obeys_from_spec() -> bool {
        true
    }

    open spec fn from_spec(e: JoinError) -> Self {
        CFFMError::JoinError(e)
    }
}

impl<C> From<AbiError> for CFFMError<C> {
    fn from(e: AbiError) -> (r: Self) {
        CFFMError::ABICodecError(e)
    }
}

impl<C> FromSpecImpl<AbiError> for CFFMError<C> {
    open spec fn obeys_from_spec() -> bool {
        true
    }

    open spec fn from_spec(e: AbiError) -> Self {
        CFFMError::ABICodecError(e)
    }
}

impl<C> From<EthAbiError> for CFFMError<C> {
    fn from(e: EthAbiError) -> (r: Self) {
        CFFMError::EthABIError(e)
    }
}

impl<C> FromSpecImpl<EthAbiError> for CFFMError<C> {
    open spec fn obeys_from_spec() -> bool {
        true
    }

    open spec fn from_spec(e: EthAbiError) -> Self {
        CFFMError::EthABIError(e)
    }
}

impl<C> From<UniswapV3MathError> for CFFMError<C> {
    fn from(e: UniswapV3MathError) -> (r: Self) {
        CFFMError::UniswapV3MathError(e)
    }
}

impl<C> FromSpecImpl<UniswapV3MathError> for CFFMError<C> {
    open spec fn obeys_from_spec() -> bool {
        true
    }

    open spec fn from_spec(e: UniswapV3MathError) -> Self {
        CFFMError::UniswapV3MathError(e)
    }
}

} // verus!

use cfmms::error::{CFFMError, ContractFailure, ErrorClass};
use ethers::contract::AbiError;
use ethers::providers::ProviderError;
use ethers::types::H160;
use tokio::task::JoinError;
use uniswap_v3_math::error::UniswapV3MathError;

type Failure = CFFMError<String>;

fn panicked_worker() -> JoinError {
    let runtime = tokio::runtime::Builder::new_current_thread().build().unwrap();
    runtime.block_on(async {
        let handle = tokio::spawn(std::future::pending::<()>());
        handle.abort();
        handle.await.unwrap_err()
    })
}

fn one_of_each() -> Vec<Failure> {
    vec![
        CFFMError::ProviderError(ProviderError::UnsupportedRPC),
        CFFMError::ContractError(ContractFailure {
            error: String::from("execution reverted"),
            transport_failed: false,
        }),
        CFFMError::ABICodecError(AbiError::WrongSelector),
        CFFMError::EthABIError(ethers::abi::Error::InvalidData),
        CFFMError::JoinError(panicked_worker()),
        CFFMError::UniswapV3MathError(UniswapV3MathError::DenominatorIsZero),
        CFFMError::PairDoesNotExistInDexes(H160::zero(), H160::repeat_byte(7)),
    ]
}

#[test]
fn each_variant_has_its_class() {
    let classes: Vec<ErrorClass> = one_of_each().iter().map(|e| e.class()).collect();
    assert_eq!(
        classes,
        vec![
            ErrorClass::Infrastructure,
            ErrorClass::Item,
            ErrorClass::Item,
            ErrorClass::Item,
            ErrorClass::Fault,
            ErrorClass::Item,
            ErrorClass::Item,
        ]
    );
}

#[test]
fn endpoint_failures_and_faults_are_fatal() {
    let fatal: Vec<bool> = one_of_each().iter().map(|e| e.is_fatal()).collect();
    assert_eq!(fatal, vec![true, false, false, false, true, false, false]);
}

#[test]
fn a_contract_call_lost_in_transport_is_of_the_infrastructure() {
    let lost: Failure = CFFMError::ContractError(ContractFailure {
        error: String::from("connection reset"),
        transport_failed: true,
    });
    assert_eq!(lost.class(), ErrorClass::Infrastructure);
    assert!(lost.is_infrastructure());
    assert!(lost.is_fatal());
    assert_eq!(lost.message(), "Contract error");
}

#[test]
fn only_endpoint_and_transport_failures_are_of_the_infrastructure() {
    let infrastructure: Vec<bool> = one_of_each().iter().map(|e| e.is_infrastructure()).collect();
    assert_eq!(infrastructure, vec![true, false, false, false, false, false, false]);
}

#[test]
fn each_variant_has_its_text() {
    let texts: Vec<String> = one_of_each().iter().map(|e| e.message()).collect();
    assert_eq!(
        texts,
        vec![
            "Provider error",
            "Contract error",
            "ABI Codec error",
            "Eth ABI error",
            "Join error",
            "Uniswap V3 math error",
            "Pair for token_a/token_b does not exist in provided dexes",
        ]
    );
}

#[test]
fn outside_errors_convert_to_their_variant() {
    let e: Failure = ProviderError::UnsupportedNodeClient.into();
    match e {
        CFFMError::ProviderError(inner) => assert_eq!(inner.to_string(), "unsupported node client"),
        other => panic!("{:?}", other),
    }
    let e: Failure = AbiError::WrongSelector.into();
    assert!(matches!(e, CFFMError::ABICodecError(AbiError::WrongSelector)));
    let e: Failure = ethers::abi::Error::InvalidName(String::from("f")).into();
    match e {
        CFFMError::EthABIError(ethers::abi::Error::InvalidName(name)) => assert_eq!(name, "f"),
        other => panic!("{:?}", other),
    }
    let e: Failure = panicked_worker().into();
    match e {
        CFFMError::JoinError(inner) => assert!(inner.is_cancelled()),
        other => panic!("{:?}", other),
    }
    let e: Failure = UniswapV3MathError::LiquidityAdd.into();
    assert!(matches!(e, CFFMError::UniswapV3MathError(UniswapV3MathError::LiquidityAdd)));
}

#[test]
fn the_missing_pair_keeps_its_two_tokens() {
    let e: Failure = CFFMError::PairDoesNotExistInDexes(H160::zero(), H160::repeat_byte(7));
    match e {
        CFFMError::PairDoesNotExistInDexes(a, b) => {
            assert_eq!(a, H160::zero());
            assert_eq!(b, H160::repeat_byte(7));
        }
        other => panic!("{:?}", other),
    }
}

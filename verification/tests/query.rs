use cfmms::dex::{Dex, PoolVariant};
use cfmms::error::CFFMError;
use cfmms::query::{crawl_plan, log_queries, window_query};
use cfmms::window::BlockWindow;
use ethers::providers::ProviderError;
use ethers::types::{BlockNumber, Filter, FilterBlockOption, ValueOrArray, H160, H256, U64};

fn expected(address: [u8; 20], topic: [u8; 32], from: u64, to: u64) -> Filter {
    Filter::new()
        .topic0(ValueOrArray::Value(H256(topic)))
        .address(H160(address))
        .from_block(BlockNumber::Number(U64([from])))
        .to_block(BlockNumber::Number(U64([to])))
}

#[test]
fn a_window_query_asks_for_the_topic_at_the_address_in_the_window() {
    let filter = window_query([0xab; 20], [0xcd; 32], BlockWindow { from_block: 7, to_block: 100_007 });
    assert_eq!(
        filter.block_option,
        FilterBlockOption::Range {
            from_block: Some(BlockNumber::Number(U64::from(7u64))),
            to_block: Some(BlockNumber::Number(U64::from(100_007u64))),
        }
    );
    assert_eq!(filter.address, Some(ValueOrArray::Value(H160([0xab; 20]))));
    assert_eq!(filter.topics[0], Some(ValueOrArray::Value(Some(H256([0xcd; 32])))));
    assert_eq!(filter.topics[1], None);
    assert_eq!(filter.topics[2], None);
    assert_eq!(filter.topics[3], None);
    assert_ne!(filter, Filter::new());
}

#[test]
fn a_crawl_sends_one_query_for_each_window() {
    let dex = Dex::new([0x5c; 20], PoolVariant::UniswapV2, 0, [0x0d; 32]);
    let queries = log_queries(&dex, 250_000);
    assert_eq!(
        queries,
        vec![
            expected([0x5c; 20], [0x0d; 32], 0, 100_000),
            expected([0x5c; 20], [0x0d; 32], 100_000, 200_000),
            expected([0x5c; 20], [0x0d; 32], 200_000, 300_000),
        ]
    );
}

#[test]
fn a_crawl_of_a_single_block_sends_one_query() {
    let dex = Dex::new([1; 20], PoolVariant::UniswapV3, 12_369_621, [2; 32]);
    assert_eq!(
        log_queries(&dex, 12_369_621),
        vec![expected([1; 20], [2; 32], 12_369_621, 12_469_621)]
    );
    assert_eq!(log_queries(&dex, 12_369_620), vec![]);
}

#[test]
fn every_exchange_is_crawled_up_to_the_same_block() {
    let dexes = vec![
        Dex::new([1; 20], PoolVariant::UniswapV2, 0, [2; 32]),
        Dex::new([3; 20], PoolVariant::UniswapV3, 150_000, [4; 32]),
        Dex::new([5; 20], PoolVariant::UniswapV2, 250_001, [6; 32]),
    ];
    let plan: Result<_, CFFMError<String>> = crawl_plan(&dexes, Ok(250_000));
    let plan = plan.unwrap();
    assert_eq!(plan.len(), 3);
    assert_eq!(
        plan[0],
        vec![
            expected([1; 20], [2; 32], 0, 100_000),
            expected([1; 20], [2; 32], 100_000, 200_000),
            expected([1; 20], [2; 32], 200_000, 300_000),
        ]
    );
    assert_eq!(
        plan[1],
        vec![
            expected([3; 20], [4; 32], 150_000, 250_000),
            expected([3; 20], [4; 32], 250_000, 350_000),
        ]
    );
    assert_eq!(plan[2], vec![]);
}

#[test]
fn a_failed_opening_height_query_fails_the_run_before_any_query() {
    let dexes = vec![Dex::new([1; 20], PoolVariant::UniswapV2, 0, [2; 32])];
    let plan: Result<_, CFFMError<String>> =
        crawl_plan(&dexes, Err(ProviderError::CustomError(String::from("no route"))));
    match plan {
        Err(CFFMError::ProviderError(e)) => assert_eq!(e.to_string(), "custom error: no route"),
        _ => panic!("the run fails with the provider error"),
    }
}

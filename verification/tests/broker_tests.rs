use fq_data_broker::bars::{clamp_duration, convert_durations, FetchDuration, HashedBarSize, IBApiBar};
use fq_data_broker::broker::{BrokerStep, DataBroker};
use fq_data_broker::range_store::RangeDataStore;

fn bar(date: i64, price: f64) -> IBApiBar {
    let bits = price.to_bits();
    IBApiBar::new(date, bits, bits, bits, bits, 1000u64, 10, bits)
}

#[test]
fn first_retrieve_scans_then_fetches_once_and_persists() {
    let ticker = "AAPL".to_string();
    let mut broker = DataBroker::new("@test_data".to_string(), vec![]);
    assert_eq!(broker.get_num_tickers(), 0);

    // fresh root: the ticker directory must be scanned first
    match broker.retrieve_step(&ticker, HashedBarSize::Day, 100, 200) {
        BrokerStep::ScanTicker => {},
        _ => panic!("expected a scan"),
    }
    broker.apply_scan(&ticker, &vec![]).unwrap();
    assert_eq!(broker.get_num_tickers(), 1);

    // nothing on disk: exactly one remote fetch resolves the request
    match broker.retrieve_step(&ticker, HashedBarSize::Day, 100, 200) {
        BrokerStep::Fetch => {},
        _ => panic!("expected a fetch"),
    }
    let bars = vec![bar(100, 1.5), bar(150, 2.5), bar(200, 3.5)];
    let doc = broker.apply_fetch(&ticker, HashedBarSize::Day, bars.clone()).unwrap();

    // the persisted document is the canonical form of the fetched data
    let text = String::from_utf8(doc.clone()).unwrap();
    assert!(text.starts_with("{\"entries\":[{\"start\":100,\"end\":200,\"data\":[{\"date\":100,"));
    assert!(text.ends_with("]}]}"));

    // and it loads back to an equal store
    let restored = RangeDataStore::load(&doc, "@test_data/AAPL".to_string(), "day.json".to_string())
        .unwrap();
    assert_eq!(restored.len(), 1);
    assert_eq!(restored.total_len(), 3);

    // the same request is now answered from memory: no further fetch
    match broker.retrieve_step(&ticker, HashedBarSize::Day, 100, 200) {
        BrokerStep::Ready(pts) => assert_eq!(pts, bars),
        _ => panic!("expected a cached answer"),
    }
    assert_eq!(broker.window_points(&ticker, HashedBarSize::Day, 100, 200), bars);
    assert_eq!(broker.window_points(&ticker, HashedBarSize::Day, 140, 160), vec![bar(150, 2.5)]);
    assert_eq!(broker.has_range(ticker, HashedBarSize::Day, 100, 200), Ok(true));
}

#[test]
fn known_file_is_loaded_not_fetched() {
    let ticker = "MSFT".to_string();
    // build a document as an earlier run would have persisted it
    let mut store = RangeDataStore::new("@test_data/MSFT".to_string(), "min.json".to_string());
    store.add_range(vec![bar(10, 1.0), bar(20, 2.0)]).unwrap();
    let doc = store.save();

    let mut broker = DataBroker::new("@test_data".to_string(), vec![ticker.clone()]);
    match broker.retrieve_step(&ticker, HashedBarSize::Min, 10, 20) {
        BrokerStep::ScanTicker => {},
        _ => panic!("expected a scan"),
    }
    broker.apply_scan(&ticker, &vec!["min.json".to_string()]).unwrap();

    // the artifact is known but unread: it must be loaded, not fetched
    match broker.retrieve_step(&ticker, HashedBarSize::Min, 10, 20) {
        BrokerStep::LoadStore => {},
        _ => panic!("expected a load"),
    }
    broker.apply_load(&ticker, HashedBarSize::Min, &doc).unwrap();
    match broker.retrieve_step(&ticker, HashedBarSize::Min, 10, 20) {
        BrokerStep::Ready(pts) => assert_eq!(pts, vec![bar(10, 1.0), bar(20, 2.0)]),
        _ => panic!("expected a cached answer"),
    }
}

#[test]
fn corrupt_document_is_reported_not_replaced() {
    let ticker = "TSLA".to_string();
    let mut broker = DataBroker::new("@test_data".to_string(), vec![ticker.clone()]);
    broker.apply_scan(&ticker, &vec!["day.json".to_string()]).unwrap();
    let garbage: Vec<u8> = b"{\"entries\":[garbage".to_vec();
    let r = broker.apply_load(&ticker, HashedBarSize::Day, &garbage);
    assert_eq!(r, Err(fq_data_broker::DataError::Parse));
    // the slot is still waiting for a good load
    match broker.retrieve_step(&ticker, HashedBarSize::Day, 0, 1) {
        BrokerStep::LoadStore => {},
        _ => panic!("the corrupt file must not realize the store"),
    }
}

#[test]
fn scan_rejects_stray_files() {
    let ticker = "NVDA".to_string();
    let mut broker = DataBroker::new("@test_data".to_string(), vec![]);
    let r = broker.apply_scan(&ticker, &vec!["day.json".to_string(), "notes.txt".to_string()]);
    assert_eq!(r, Err(fq_data_broker::DataError::Parse));
    assert_eq!(broker.get_num_tickers(), 0);
}

#[test]
fn save_load_round_trip_preserves_contents() {
    let mut store = RangeDataStore::new("@data".to_string(), "sec.json".to_string());
    store.add_range(vec![bar(-5, 0.25), bar(3, 1.0)]).unwrap();
    store.add_range(vec![bar(100, 9.75)]).unwrap();
    assert_eq!(store.len(), 2);
    assert_eq!(store.total_len(), 3);
    let doc = store.save();
    let restored =
        RangeDataStore::load(&doc, "@data".to_string(), "sec.json".to_string()).unwrap();
    assert_eq!(restored.len(), 2);
    assert_eq!(restored.total_len(), 3);
    // the restored store serializes to the identical document
    assert_eq!(restored.save(), doc);
}

#[test]
fn empty_store_round_trips() {
    let store: RangeDataStore<i64, IBApiBar> =
        RangeDataStore::new("@data".to_string(), "day.json".to_string());
    let doc = store.save();
    assert_eq!(String::from_utf8(doc.clone()).unwrap(), "{\"entries\":[]}");
    let restored =
        RangeDataStore::load(&doc, "@data".to_string(), "day.json".to_string()).unwrap();
    assert_eq!(restored.len(), 0);
}

#[test]
fn timeframe_filenames_round_trip() {
    let all = vec![
        HashedBarSize::Sec,
        HashedBarSize::Sec5,
        HashedBarSize::Sec15,
        HashedBarSize::Sec30,
        HashedBarSize::Min,
        HashedBarSize::Min2,
        HashedBarSize::Min3,
        HashedBarSize::Min5,
        HashedBarSize::Min15,
        HashedBarSize::Min20,
        HashedBarSize::Min30,
        HashedBarSize::Hour,
        HashedBarSize::Hour2,
        HashedBarSize::Hour3,
        HashedBarSize::Hour4,
        HashedBarSize::Hour8,
        HashedBarSize::Day,
        HashedBarSize::Week,
        HashedBarSize::Month,
    ];
    for tf in all {
        let name = tf.to_location();
        assert_eq!(HashedBarSize::from_filename(&name), Ok(tf));
    }
    assert_eq!(HashedBarSize::to_location(&HashedBarSize::Day), "day.json".to_string());
    assert_eq!(
        HashedBarSize::from_filename(&"hello.json".to_string()),
        Err(fq_data_broker::DataError::Parse)
    );
}

#[test]
fn duration_conversion() {
    assert_eq!(clamp_duration(60), FetchDuration::Seconds(60));
    assert_eq!(clamp_duration(200000), FetchDuration::Days(2));
    assert_eq!(convert_durations(3600, HashedBarSize::Min15), FetchDuration::Seconds(3600));
    assert_eq!(convert_durations(200000, HashedBarSize::Hour), FetchDuration::Days(2));
    assert_eq!(convert_durations(86400 * 10, HashedBarSize::Day), FetchDuration::Days(10));
    assert_eq!(convert_durations(86400 * 366 + 86400, HashedBarSize::Day), FetchDuration::Years(1));
    assert_eq!(convert_durations(604800 * 3, HashedBarSize::Week), FetchDuration::Weeks(3));
    assert_eq!(convert_durations(2592000 * 2, HashedBarSize::Month), FetchDuration::Months(2));
}

#[test]
fn bar_accessors() {
    let b = bar(42, 1.25);
    assert_eq!(b.date(), 42);
    assert_eq!(b.open(), 1.25f64.to_bits());
    assert_eq!(b.high(), 1.25f64.to_bits());
    assert_eq!(b.low(), 1.25f64.to_bits());
    assert_eq!(b.close(), 1.25f64.to_bits());
    assert_eq!(f64::from_bits(b.close()), 1.25);
    assert_eq!(b.volume(), 1000);
    assert_eq!(b.count(), 10);
    assert_eq!(b.wap(), 1.25f64.to_bits());
}

#[test]
fn broker_insert_is_inert() {
    let mut broker = DataBroker::new("@test_data".to_string(), vec![]);
    assert_eq!(broker.insert(HashedBarSize::Day, 0, 10, bar(5, 1.0)), Ok(()));
    assert_eq!(broker.get_num_tickers(), 0);
}

#[test]
fn rescan_cannot_demote_a_realized_ticker() {
    let ticker = "IBM".to_string();
    let mut broker = DataBroker::new("@test_data".to_string(), vec![]);
    broker.apply_scan(&ticker, &vec![]).unwrap();
    broker
        .apply_fetch(&ticker, HashedBarSize::Day, vec![bar(1, 1.0), bar(2, 2.0)])
        .unwrap();
    // the ticker is realized with cached data; a second scan must not
    // throw that away
    let r = broker.apply_scan(&ticker, &vec![]);
    assert_eq!(r, Err(fq_data_broker::DataError::Config));
    match broker.retrieve_step(&ticker, HashedBarSize::Day, 1, 2) {
        BrokerStep::Ready(pts) => assert_eq!(pts, vec![bar(1, 1.0), bar(2, 2.0)]),
        _ => panic!("the cached data must survive the rejected rescan"),
    }
}

#[test]
fn new_broker_registers_exactly_the_distinct_names() {
    let broker = DataBroker::new(
        "@test_data".to_string(),
        vec!["AAPL".to_string(), "MSFT".to_string(), "AAPL".to_string()],
    );
    assert_eq!(broker.get_num_tickers(), 2);
    let broker = DataBroker::new("@test_data".to_string(), vec!["AAPL".to_string()]);
    assert_eq!(broker.get_num_tickers(), 1);
}

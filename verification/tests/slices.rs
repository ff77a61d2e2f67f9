use hypercube::catalog::{SliceCatalog, SliceCatalogEntry};
use hypercube::epoch::{begin_write, end_write, ReadAction, StableRead, READ_ATTEMPTS};
use hypercube::header::{
    encode_header, read_header, validate_f64_header, validate_file_len, write_header,
    SliceHeaderInfo, ValueType, HEADER_SIZE, OFF_HEARTBEAT_NS, OFF_UPDATED_NS, OFF_WRITER_EPOCH,
};
use hypercube::layout::{canonical_json, LayoutRegistry, LayoutSymbol};
use hypercube::names::{
    default_instrument_id, format_ns_since_epoch, normalize_asset_class, normalize_symbol,
    validate_slice_name,
};
use hypercube::number::{Arithmetic, Double};
use hypercube::records::{
    QuoteV1, SliceRecord, TaqV1, TradeV1, RECORD_FLAG_TRADE_BUY, RECORD_FLAG_TRADE_SELL,
    RECORD_FLAG_VALID, TAQ_FLAG_HAS_QUOTE, TAQ_FLAG_QUOTE_AFTER_TRADE, TAQ_FLAG_QUOTE_STALE,
};
use hypercube::slice::{
    plan_slice, F64SliceReader, F64SliceWriter, Store, StoreRole, StructSliceReader,
    StructSliceWriter,
};
use hypercube::slice_error::SliceError;
use hypercube::vector::{dot, sum, sum_abs, top_abs};
use xxhash_rust::xxh64::xxh64;

struct Native;

fn d(x: f64) -> Double {
    Double::from_bits(x.to_bits())
}

fn f(x: Double) -> f64 {
    f64::from_bits(x.to_bits())
}

impl Arithmetic for Native {
    fn plus(&self, x: Double, y: Double) -> Double {
        d(f(x) + f(y))
    }

    fn minus(&self, x: Double, y: Double) -> Double {
        d(f(x) - f(y))
    }

    fn times(&self, x: Double, y: Double) -> Double {
        d(f(x) * f(y))
    }

    fn over(&self, x: Double, y: Double) -> Double {
        d(f(x) / f(y))
    }

    fn root(&self, x: Double) -> Double {
        d(f(x).sqrt())
    }

    fn exponential(&self, x: Double) -> Double {
        d(f(x).exp())
    }

    fn logarithm(&self, x: Double) -> Double {
        d(f(x).ln())
    }

    fn sine(&self, x: Double) -> Double {
        d(f(x).sin())
    }

    fn cosine(&self, x: Double) -> Double {
        d(f(x).cos())
    }

    fn nearest(&self, n: u64) -> Double {
        d(n as f64)
    }
}
fn texts(keys: &[&str]) -> Vec<String> {
    keys.iter().map(|key| key.to_string()).collect()
}

/// A slice file in memory.
struct Image {
    bytes: Vec<u8>,
}

impl Image {
    fn create(layout: &LayoutRegistry, value_type: ValueType, now: u64) -> Image {
        let new = plan_slice(layout, value_type, layout.active_len(), now, now, now).unwrap();
        let mut bytes = new.image.clone();
        bytes.resize(new.file_len as usize, 0);
        Image { bytes }
    }

    fn load(&self, offset: usize) -> u64 {
        let mut word = [0u8; 8];
        word.copy_from_slice(&self.bytes[offset..offset + 8]);
        u64::from_le_bytes(word)
    }

    fn perform(&mut self, stores: &[Store]) {
        for store in stores {
            self.bytes[store.offset..store.offset + 8].copy_from_slice(&store.word.to_le_bytes());
        }
    }

    fn guarded(&self, counter: usize, offset: usize, words: usize) -> Vec<u64> {
        let mut read = StableRead::new();
        let mut copied = Vec::new();
        loop {
            match read.observe(vec![self.load(counter)]) {
                ReadAction::Copy => {
                    copied = (0..words).map(|i| self.load(offset + 8 * i)).collect();
                }
                ReadAction::Accept => return copied,
                ReadAction::Pause => {}
                ReadAction::GiveUp => panic!("unstable"),
            }
        }
    }

    fn write(&mut self, writer: &mut F64SliceWriter, slot: usize, value: f64, now: u64) {
        let epoch = self.load(OFF_WRITER_EPOCH);
        let stores = writer.write_slot(epoch, slot, d(value), now).unwrap();
        self.perform(&stores);
    }

    fn value_at(&self, reader: &F64SliceReader, slot: usize) -> Result<f64, SliceError> {
        let offset = reader.value_at(slot)?;
        Ok(f64::from_bits(self.guarded(OFF_WRITER_EPOCH, offset, 1)[0]))
    }

    fn snapshot(&self, reader: &F64SliceReader) -> Vec<Double> {
        self.guarded(OFF_WRITER_EPOCH, HEADER_SIZE, reader.active_len())
            .into_iter()
            .map(Double::from_bits)
            .collect()
    }

    fn publish<T: SliceRecord>(
        &mut self,
        writer: &mut StructSliceWriter<T>,
        slot: usize,
        value: T,
        now: u64,
    ) {
        let counter = writer.counter_at(slot).unwrap();
        let stores = writer
            .write_slot(self.load(counter), slot, value, now)
            .unwrap();
        self.perform(&stores);
    }

    fn record_at<T: SliceRecord>(&self, reader: &StructSliceReader<T>, slot: usize) -> T {
        let counter = reader.value_at(slot).unwrap();
        let words = T::value_type().slot_size() as usize / 8 - 1;
        T::from_words(&self.guarded(counter, counter + 8, words)).unwrap()
    }
}

#[test]
fn layout_hash_and_symbol_lookup_work() {
    let symbols = vec!["AAPL".to_string(), "MSFT".to_string(), "NVDA".to_string()];
    let layout = LayoutRegistry::from_symbols("eq-us-test-v1", "eq", 8, &symbols).expect("layout");
    layout.validate().expect("valid layout");
    assert_eq!(layout.active_len(), 3);
    assert_eq!(layout.slot_for_symbol("msft").unwrap(), Some(1));
    assert_eq!(layout.symbol_for_slot(2), Some("NVDA"));
    assert_eq!(layout.entity_for_slot(2), Some("NVDA"));
    assert_eq!(layout.slot_for_entity("msft").unwrap(), Some(1));
    assert_eq!(layout.layout_hash().unwrap(), layout.layout_hash().unwrap());
}

#[test]
fn asset_class_defaults_are_not_equity_only() {
    let crypto = LayoutRegistry::from_symbols(
        "crypto-live-v1",
        "crypto",
        4,
        &vec!["BTC-USD".to_string(), "ETH/USD".to_string()],
    )
    .expect("crypto layout");
    assert_eq!(crypto.asset_class, "crypto");
    assert_eq!(crypto.symbols[0].instrument_id, "crypto:BTC-USD");
    assert_eq!(crypto.symbols[1].instrument_id, "crypto:ETH/USD");

    let option = LayoutRegistry::from_symbols(
        "option-live-v1",
        "options",
        4,
        &vec!["AAPL260117C00250000".to_string()],
    )
    .expect("option layout");
    assert_eq!(option.asset_class, "option");
    assert_eq!(
        option.symbols[0].instrument_id,
        "option:us:AAPL260117C00250000"
    );

    assert_eq!(
        default_instrument_id("future", "ESM6", Some("future:cme:")).unwrap(),
        "future:cme:ESM6"
    );
}

#[test]
fn f64_slice_create_write_read_and_dot() {
    let symbols = vec!["AAPL".to_string(), "MSFT".to_string(), "NVDA".to_string()];
    let layout = LayoutRegistry::from_symbols("eq-us-test-v1", "eq", 8, &symbols).expect("layout");
    let mut left = Image::create(&layout, ValueType::F64, 1);
    let mut right = Image::create(&layout, ValueType::F64, 1);
    let mut left_writer = F64SliceWriter::open(&left.bytes).unwrap();
    let mut right_writer = F64SliceWriter::open(&right.bytes).unwrap();
    left.write(&mut left_writer, 0, 1.0, 2);
    left.write(&mut left_writer, 1, 2.0, 3);
    left.write(&mut left_writer, 2, 3.0, 4);
    right.write(&mut right_writer, 0, 10.0, 2);
    right.write(&mut right_writer, 1, 20.0, 3);
    right.write(&mut right_writer, 2, 30.0, 4);

    let left_reader = F64SliceReader::open(&left.bytes).unwrap();
    let right_reader = F64SliceReader::open(&right.bytes).unwrap();
    left_reader.ensure_layout(&layout).unwrap();
    right_reader.ensure_layout(&layout).unwrap();
    assert_eq!(left.value_at(&left_reader, 1).unwrap(), 2.0);
    let product = left_reader.dot(
        &right_reader,
        &Native,
        &left.snapshot(&left_reader),
        &right.snapshot(&right_reader),
    );
    assert_eq!(product.map(f), Ok(140.0));
    assert_eq!(
        dot(&Native, &[d(1.0), d(-2.0)], &[d(3.0), d(4.0)]).map(f),
        Ok(-5.0)
    );
}

#[test]
fn top_abs_is_bounded_and_deterministic() {
    let values: Vec<Double> = [f64::NAN, -4.0, 0.0, 4.0, 3.0, f64::INFINITY, -2.0]
        .iter()
        .map(|value| d(*value))
        .collect();
    let top = |limit: usize| -> Vec<(usize, f64)> {
        top_abs(&values, limit)
            .into_iter()
            .map(|(slot, value)| (slot, f(value)))
            .collect()
    };
    assert_eq!(top(0), vec![]);
    assert_eq!(top(2), vec![(1, -4.0), (3, 4.0)]);
    assert_eq!(
        top(usize::MAX),
        vec![(1, -4.0), (3, 4.0), (4, 3.0), (6, -2.0)]
    );
}

#[test]
fn writer_heartbeat_does_not_change_updated_timestamp() {
    let symbols = vec!["AAPL".to_string()];
    let layout = LayoutRegistry::from_symbols("eq-us-test-v1", "eq", 2, &symbols).expect("layout");
    let mut image = Image::create(&layout, ValueType::F64, 1);
    let mut writer = F64SliceWriter::open(&image.bytes).unwrap();
    image.write(&mut writer, 0, 1.0, 5);
    let before = writer.header(
        image.load(OFF_WRITER_EPOCH),
        image.load(OFF_HEARTBEAT_NS),
        image.load(OFF_UPDATED_NS),
    );
    let beat = writer.heartbeat(9);
    image.perform(&[beat]);
    let reader = F64SliceReader::open(&image.bytes).unwrap();
    let after = reader.header(
        image.load(OFF_WRITER_EPOCH),
        image.load(OFF_HEARTBEAT_NS),
        image.load(OFF_UPDATED_NS),
    );

    assert!(after.heartbeat_ns > before.heartbeat_ns);
    assert_eq!(after.updated_ns, before.updated_ns);
}

#[test]
fn catalog_upsert_and_filter_work() {
    let mut catalog = SliceCatalog::default();
    catalog
        .upsert(SliceCatalogEntry {
            name: "crypto.latest.mid_px".to_string(),
            asset_class: "crypto".to_string(),
            layout_id: "crypto-live-v1".to_string(),
            layout_hash: 42,
            value_type: ValueType::F64,
            path: "/tmp/crypto.latest.mid_px.slice".to_string(),
            role: "latest".to_string(),
            description: None,
        })
        .unwrap();
    catalog
        .upsert(SliceCatalogEntry {
            name: "eq.latest.mid_px".to_string(),
            asset_class: "eq".to_string(),
            layout_id: "eq-live-v1".to_string(),
            layout_hash: 84,
            value_type: ValueType::F64,
            path: "/tmp/eq.latest.mid_px.slice".to_string(),
            role: "latest".to_string(),
            description: Some("equity midpoint".to_string()),
        })
        .unwrap();
    catalog.validate().unwrap();
    assert!(catalog.find("crypto.latest.mid_px").is_some());
    let crypto = catalog.by_asset_class("crypto").unwrap();
    assert_eq!(crypto.len(), 1);
    assert_eq!(crypto[0].name, "crypto.latest.mid_px");
}

#[test]
fn quote_trade_and_taq_struct_slices_work() {
    let layout = LayoutRegistry::from_symbols(
        "eq-live-v1",
        "eq",
        4,
        &vec!["AAPL".to_string(), "MSFT".to_string()],
    )
    .unwrap();

    let quote = QuoteV1::new(
        &Native,
        1_000,
        1_100,
        d(100.0),
        d(200.0),
        d(100.2),
        d(300.0),
    );
    let trade = TradeV1::new(1_500, 1_550, 1_600, d(100.1), d(25.0), Some("buy"));

    let mut quotes = Image::create(&layout, ValueType::QuoteV1, 1);
    let mut trades = Image::create(&layout, ValueType::TradeV1, 1);
    let mut quote_writer = StructSliceWriter::<QuoteV1>::open(&quotes.bytes).unwrap();
    let mut trade_writer = StructSliceWriter::<TradeV1>::open(&trades.bytes).unwrap();
    quotes.publish(&mut quote_writer, 0, quote, 2);
    trades.publish(&mut trade_writer, 0, trade, 2);

    let quote_reader = StructSliceReader::<QuoteV1>::open(&quotes.bytes).unwrap();
    let trade_reader = StructSliceReader::<TradeV1>::open(&trades.bytes).unwrap();
    quote_reader.ensure_layout(&layout).unwrap();
    let read_quote = quotes.record_at(&quote_reader, 0);
    let read_trade = trades.record_at(&trade_reader, 0);
    assert_eq!(read_quote.bid_px, d(100.0));
    assert_eq!(read_trade.signed_qty, d(25.0));
    assert_eq!(read_quote, quote);
    assert_eq!(read_trade, trade);

    let live = |image: &Image| {
        quote_reader.header(image.load(OFF_HEARTBEAT_NS), image.load(OFF_UPDATED_NS))
    };
    let heartbeat_before = live(&quotes).heartbeat_ns;
    let beat = quote_writer.heartbeat(3);
    quotes.perform(&[beat]);
    assert!(live(&quotes).heartbeat_ns > heartbeat_before);

    let taq = TaqV1::from_trade_and_quote(read_trade, Some(read_quote), 1_000);
    assert!(taq.flags & TAQ_FLAG_HAS_QUOTE != 0);
    assert_eq!(taq.quote_age_ns, 500);
    assert!(!taq.quote_is_stale());

    let stale = TaqV1::from_trade_and_quote(read_trade, Some(read_quote), 100);
    assert!(stale.flags & TAQ_FLAG_QUOTE_STALE != 0);
}

#[test]
fn layout_mismatch_blocks_dot() {
    let layout_a = LayoutRegistry::from_symbols(
        "layout-a",
        "eq",
        4,
        &vec!["AAPL".to_string(), "MSFT".to_string()],
    )
    .unwrap();
    let layout_b = LayoutRegistry::from_symbols(
        "layout-b",
        "eq",
        4,
        &vec!["MSFT".to_string(), "AAPL".to_string()],
    )
    .unwrap();
    let a_image = Image::create(&layout_a, ValueType::F64, 1);
    let b_image = Image::create(&layout_b, ValueType::F64, 1);
    let a = F64SliceReader::open(&a_image.bytes).unwrap();
    let b = F64SliceReader::open(&b_image.bytes).unwrap();
    assert!(a
        .dot(&b, &Native, &a_image.snapshot(&a), &b_image.snapshot(&b))
        .is_err());
    assert!(a.ensure_compatible(&b).is_err());
}

#[test]
fn names_are_normalized() {
    assert_eq!(normalize_symbol(" btc-usd ").unwrap(), "BTC-USD");
    assert_eq!(normalize_symbol("  "), Err(SliceError::EmptySymbol));
    assert!(matches!(
        normalize_symbol("a b"),
        Err(SliceError::UnsupportedSymbol(_))
    ));
    for (given, expected) in [
        ("Equities", "eq"),
        ("stock", "eq"),
        ("crypto", "crypto"),
        ("OPTIONS", "option"),
        ("futures", "future"),
        ("forex", "fx"),
        ("sensor", "sensor"),
    ] {
        assert_eq!(normalize_asset_class(given).unwrap(), expected, "{given}");
    }
    assert_eq!(normalize_asset_class(" "), Err(SliceError::EmptyAssetClass));
    assert!(matches!(
        normalize_asset_class("a b"),
        Err(SliceError::UnsupportedAssetClass(_))
    ));
    assert!(validate_slice_name("eq/latest:mid_px-1.0").is_ok());
    assert_eq!(validate_slice_name(""), Err(SliceError::PaddedSliceName));
    assert_eq!(validate_slice_name(" a"), Err(SliceError::PaddedSliceName));
    assert_eq!(
        validate_slice_name("a b"),
        Err(SliceError::UnsupportedSliceName("a b".to_string()))
    );
    assert_eq!(
        default_instrument_id("eq", "aapl", Some("  ")),
        Err(SliceError::EmptyPrefix)
    );
    assert_eq!(format_ns_since_epoch(0), "0");
    assert_eq!(format_ns_since_epoch(1_500_000_007), "1.500000007s");
}

#[test]
fn normal_forms_stay_as_they_are() {
    for raw in ["  aapl", "Eth/Usd", "x"] {
        let once = normalize_symbol(raw).unwrap();
        assert_eq!(normalize_symbol(&once).unwrap(), once);
    }
    for raw in ["stocks", "Index", "weather"] {
        let once = normalize_asset_class(raw).unwrap();
        assert_eq!(normalize_asset_class(&once).unwrap(), once);
    }
}

#[test]
fn invalid_layouts_are_rejected() {
    let keys = texts(&["A", "B"]);
    assert_eq!(
        LayoutRegistry::from_entities("id", "demo", 1, &keys).unwrap_err(),
        SliceError::SymbolCount {
            count: 2,
            capacity: 1
        }
    );
    assert_eq!(
        LayoutRegistry::from_entities(" ", "demo", 2, &keys).unwrap_err(),
        SliceError::EmptyLayoutId
    );
    assert_eq!(
        LayoutRegistry::from_entities("id", "demo", 2, &texts(&["a", "A"])).unwrap_err(),
        SliceError::DuplicateSymbol("A".to_string())
    );
    let good = || LayoutRegistry::from_entities("id", "demo", 4, &texts(&["A", "B"])).unwrap();
    let refused = |change: fn(&mut LayoutRegistry)| -> SliceError {
        let mut layout = good();
        change(&mut layout);
        layout.validate().unwrap_err()
    };
    assert_eq!(
        refused(|layout| layout.symbols[1].slot_id = 9),
        SliceError::SlotOutsideLayout {
            slot_id: 9,
            symbol: "B".to_string(),
            capacity: 4
        }
    );
    assert_eq!(
        refused(|layout| layout.symbols[1].slot_id = 0),
        SliceError::DuplicateSlot(0)
    );
    assert_eq!(
        refused(|layout| layout.symbols[1].symbol = "b".to_string()),
        SliceError::SymbolNotNormalized {
            given: "b".to_string(),
            normalized: "B".to_string()
        }
    );
    assert_eq!(
        refused(|layout| layout.symbols[1].instrument_id = " ".to_string()),
        SliceError::EmptyInstrument("B".to_string())
    );
    assert_eq!(
        refused(|layout| {
            layout.symbols[1].instrument_id = layout.symbols[0].instrument_id.clone()
        }),
        SliceError::DuplicateInstrument("demo:A".to_string())
    );
    assert_eq!(
        refused(|layout| layout.asset_class = "Demo".to_string()),
        SliceError::AssetClassNotNormalized {
            given: "Demo".to_string(),
            normalized: "demo".to_string()
        }
    );
}

#[test]
fn the_hash_of_a_layout_is_that_of_its_canonical_json() {
    let layout = LayoutRegistry::new(
        "example \"v1\"",
        "example",
        2,
        vec![LayoutSymbol {
            slot_id: 0,
            symbol: "A".to_string(),
            instrument_id: "example:A".to_string(),
            enabled: true,
        }],
    );
    let json = "{\"layout_id\":\"example \\\"v1\\\"\",\"asset_class\":\"example\",\"capacity\":2,\"symbols\":[{\"slot_id\":0,\"symbol\":\"A\",\"instrument_id\":\"example:A\",\"enabled\":true}]}";
    assert_eq!(canonical_json(&layout), json.as_bytes());
    assert_eq!(layout.layout_hash().unwrap(), xxh64(json.as_bytes(), 0));
}

#[test]
fn disabled_rows_are_not_found() {
    let mut layout =
        LayoutRegistry::from_entities("id", "demo", 4, &texts(&["A", "B", "C"])).unwrap();
    layout.symbols[2].enabled = false;
    layout.validate().unwrap();
    assert_eq!(layout.active_len(), 2);
    assert_eq!(layout.slot_for_entity("c").unwrap(), None);
    assert_eq!(layout.entity_for_slot(2), Some("C"));
    assert_eq!(layout.entity_for_slot(3), None);
    assert_eq!(layout.slot_for_entity(" "), Err(SliceError::EmptySymbol));
    let map = layout.slot_map();
    assert_eq!(map.len(), 2);
    assert_eq!(map.get("B"), Some(&1));
    assert_eq!(map.get("C"), None);
}

fn entry(name: &str) -> SliceCatalogEntry {
    SliceCatalogEntry {
        name: name.to_string(),
        asset_class: "eq".to_string(),
        layout_id: "id".to_string(),
        layout_hash: 1,
        value_type: ValueType::F64,
        path: "p".to_string(),
        role: "latest".to_string(),
        description: None,
    }
}

#[test]
fn invalid_catalog_entries_are_rejected() {
    let refused = |change: fn(&mut SliceCatalogEntry)| -> SliceError {
        let mut bad = entry("name");
        change(&mut bad);
        let mut catalog = SliceCatalog::default();
        let error = catalog.upsert(bad).unwrap_err();
        assert_eq!(catalog, SliceCatalog::default());
        error
    };
    assert_eq!(
        refused(|entry| entry.name = " n".to_string()),
        SliceError::PaddedSliceName
    );
    assert_eq!(
        refused(|entry| entry.asset_class = "EQ".to_string()),
        SliceError::EntryNotNormalized {
            given: "EQ".to_string(),
            normalized: "eq".to_string()
        }
    );
    assert_eq!(
        refused(|entry| entry.layout_id = " ".to_string()),
        SliceError::EntryWithoutLayout("name".to_string())
    );
    assert_eq!(
        refused(|entry| entry.layout_hash = 0),
        SliceError::EntryWithoutHash("name".to_string())
    );
    assert_eq!(
        refused(|entry| entry.path = " ".to_string()),
        SliceError::EntryWithoutPath("name".to_string())
    );
    assert_eq!(
        refused(|entry| entry.role = " ".to_string()),
        SliceError::EntryWithoutRole("name".to_string())
    );
    let newer = SliceCatalog {
        version: 2,
        entries: vec![],
    };
    assert_eq!(newer.validate().unwrap_err(), SliceError::CatalogVersion(2));
    let doubled = SliceCatalog {
        version: 1,
        entries: vec![entry("name"), entry("name")],
    };
    assert_eq!(
        doubled.clone().validate().unwrap_err(),
        SliceError::DuplicateEntry("name".to_string())
    );
}

#[test]
fn default_identifiers_are_told_apart() {
    let id = |namespace: &str, symbol: &str| {
        default_instrument_id(namespace, symbol, None).unwrap()
    };
    assert_eq!(id("stocks", " abc "), id("eq", "ABC"));
    assert_eq!(id("eq", "ABC"), "eq:us:ABC");
    assert_eq!(id("demo", "US:ABC"), "demo:US:ABC");
    assert_ne!(id("eq", "ABC"), id("eq", "ABD"));
    assert_ne!(id("eq", "ABC"), id("demo", "ABC"));
}

#[test]
fn a_valid_entry_keeps_a_catalog_valid() {
    let mut catalog = SliceCatalog {
        version: 1,
        entries: vec![entry("c"), entry("a")],
    };
    catalog.validate().unwrap();
    catalog.upsert(entry("b")).unwrap();
    catalog.upsert(entry("c")).unwrap();
    catalog.validate().unwrap();
    let names: Vec<&str> = catalog.entries.iter().map(|e| e.name.as_str()).collect();
    assert_eq!(names, vec!["a", "b", "c"]);
}

#[test]
fn a_slot_left_out_is_smaller_or_later() {
    let values = [d(2.0), d(-3.0), d(3.0), d(-2.0), d(1.0)];
    let top: Vec<usize> = top_abs(&values, 3).into_iter().map(|item| item.0).collect();
    assert_eq!(top, vec![1, 2, 0]);
}

#[test]
fn slice_errors_are_put_in_words() {
    let keys = texts(&["A", "B"]);
    let words = |error: SliceError| error.message();
    assert_eq!(
        words(LayoutRegistry::from_entities("id", "demo", 1, &keys).unwrap_err()),
        "symbol count 2 exceeds layout capacity 1"
    );
    assert_eq!(
        words(normalize_symbol("a\tb").unwrap_err()),
        "symbol contains unsupported whitespace/control characters: \"a\\tb\""
    );
    assert_eq!(
        words(SliceError::LayoutHashMismatch {
            slice: 0,
            layout: 0xabc0_0000_0000_0001
        }),
        "layout hash mismatch: slice=0x0 layout=0xabc0000000000001"
    );
    assert_eq!(
        words(SliceError::WrongValueType {
            expected: ValueType::F64,
            actual: ValueType::TaqV1
        }),
        "expected f64 slice, got TaqV1"
    );
    assert_eq!(
        words(SliceError::WrongValueType {
            expected: ValueType::QuoteV1,
            actual: ValueType::F64
        }),
        "expected QuoteV1 slice, got F64"
    );
    assert_eq!(
        words(SliceError::WrongSlotSize {
            value_type: ValueType::TaqV1,
            actual: 9
        }),
        "invalid TaqV1 slot size 9; expected 136"
    );
    assert_eq!(
        words(SliceError::SlotOutsideLayout {
            slot_id: 9,
            symbol: "B".to_string(),
            capacity: 4
        }),
        "slot_id 9 for B exceeds capacity 4"
    );
    assert_eq!(
        words(SliceError::Unstable),
        "could not read a stable slice snapshot after 1000 attempts"
    );
}

#[test]
fn upserts_replace_by_name_and_keep_names_in_order() {
    let mut catalog = SliceCatalog::default();
    for name in ["c", "a", "b"] {
        catalog.upsert(entry(name)).unwrap();
    }
    let mut changed = entry("a");
    changed.layout_hash = 77;
    catalog.upsert(changed).unwrap();
    let names: Vec<&str> = catalog.entries.iter().map(|e| e.name.as_str()).collect();
    assert_eq!(names, vec!["a", "b", "c"]);
    assert_eq!(catalog.find("a").unwrap().layout_hash, 77);
    assert!(catalog.find("d").is_none());
    catalog.entries.push(entry("a"));
    assert!(catalog.validate().is_err());

    let mut unordered = SliceCatalog {
        version: 1,
        entries: vec![entry("b"), entry("a")],
    };
    let mut newer = entry("b");
    newer.role = "new".to_string();
    unordered.upsert(newer.clone()).unwrap();
    assert_eq!(unordered.entries, vec![entry("a"), newer]);
}

#[test]
fn headers_round_trip_and_are_checked() {
    let layout = LayoutRegistry::from_entities("id", "demo", 3, &texts(&["A", "B"])).unwrap();
    let new = plan_slice(&layout, ValueType::TaqV1, 2, 7, 8, 9).unwrap();
    let header = new.header;
    assert_eq!(new.file_len, 256 + 3 * 136);
    assert_eq!(header.writer_epoch, 2);
    assert_eq!(header.payload_len().unwrap(), 3 * 136);
    let bytes = encode_header(&header);
    assert_eq!(&bytes[..8], b"HCUBSLCE");
    assert_eq!(read_header(&bytes).unwrap(), header);
    assert_eq!(
        header.schema_hash,
        xxh64(b"hypercube.slice.value.taq.v1", 0)
    );
    assert_eq!(
        read_header(&bytes[..255]).unwrap_err(),
        SliceError::TooSmall(255)
    );
    let broken = |offset: usize, value: u8| -> SliceError {
        let mut changed = bytes.clone();
        changed[offset] = value;
        read_header(&changed).unwrap_err()
    };
    assert_eq!(broken(0, 0), SliceError::InvalidMagic);
    assert_eq!(broken(8, 2), SliceError::UnsupportedVersion(2));
    assert_eq!(broken(12, 1), SliceError::HeaderLength(257));
    assert_eq!(broken(16, 99), SliceError::UnsupportedValueType(99));
    assert_eq!(
        broken(32, 4),
        SliceError::ActiveBeyondCapacity {
            active_len: 4,
            capacity: 3
        }
    );
    assert_eq!(
        validate_f64_header(&header).unwrap_err(),
        SliceError::WrongValueType {
            expected: ValueType::F64,
            actual: ValueType::TaqV1
        }
    );
    assert!(matches!(
        validate_file_len(10, &header),
        Err(SliceError::FileLength {
            actual: 10,
            expected: 664
        })
    ));
    let wide = SliceHeaderInfo {
        capacity: u64::MAX,
        ..header
    };
    assert_eq!(wide.file_len().unwrap_err(), SliceError::FileOverflow);
    assert_eq!(wide.payload_len().unwrap_err(), SliceError::PayloadOverflow);
    let mut short = vec![0u8; 10];
    assert_eq!(
        write_header(&mut short, &header).unwrap_err(),
        SliceError::TargetTooSmall
    );
    let mut target = vec![1u8; 260];
    write_header(&mut target, &header).unwrap();
    assert_eq!(&target[..256], &bytes[..]);
    assert_eq!(&target[256..], &[1, 1, 1, 1]);
    assert_eq!(
        plan_slice(&layout, ValueType::F64, 4, 0, 0, 0).unwrap_err(),
        SliceError::ActiveBeyondLayout {
            active_len: 4,
            capacity: 3
        }
    );
}

#[test]
fn a_slice_of_another_schema_or_size_is_not_opened() {
    let layout = LayoutRegistry::from_entities("id", "demo", 2, &texts(&["A"])).unwrap();
    let image = Image::create(&layout, ValueType::F64, 1);
    assert!(StructSliceReader::<TradeV1>::open(&image.bytes).is_err());
    assert!(F64SliceReader::open(&image.bytes[..270]).is_err());
    let reader = F64SliceReader::open(&image.bytes).unwrap();
    assert_eq!(
        reader.value_at(2).unwrap_err(),
        SliceError::SlotBeyondCapacity {
            slot_id: 2,
            capacity: 2
        }
    );
    let other = LayoutRegistry::from_entities("id", "demo", 3, &texts(&["A"])).unwrap();
    assert!(matches!(
        reader.ensure_layout(&other),
        Err(SliceError::LayoutHashMismatch { .. })
    ));
}

#[test]
fn headers_of_another_size_schema_or_capacity_are_refused() {
    let layout = LayoutRegistry::from_entities("id", "demo", 2, &texts(&["A"])).unwrap();
    let header = plan_slice(&layout, ValueType::F64, 1, 0, 0, 0).unwrap().header;
    assert_eq!(
        validate_f64_header(&SliceHeaderInfo {
            slot_size: 16,
            ..header
        })
        .unwrap_err(),
        SliceError::WrongSlotSize {
            value_type: ValueType::F64,
            actual: 16
        }
    );
    assert_eq!(
        validate_f64_header(&SliceHeaderInfo {
            schema_hash: 1,
            ..header
        })
        .unwrap_err(),
        SliceError::SchemaHashMismatch {
            slice: 1,
            expected: header.schema_hash
        }
    );
    let opened = |capacity: u64, active_len: u64| {
        let changed = SliceHeaderInfo {
            capacity,
            active_len,
            ..header
        };
        let mut bytes = vec![0u8; 256 + capacity as usize * 8];
        write_header(&mut bytes, &changed).unwrap();
        F64SliceReader::open(&bytes).unwrap()
    };
    assert_eq!(
        opened(3, 1).ensure_layout(&layout).unwrap_err(),
        SliceError::CapacityMismatch {
            slice: 3,
            layout: 2
        }
    );
    assert!(opened(2, 1).ensure_layout(&layout.clone()).is_ok());
    assert_eq!(
        opened(2, 1).ensure_compatible(&opened(2, 2)).unwrap_err(),
        SliceError::VectorLengths { lhs: 1, rhs: 2 }
    );
}

#[test]
fn a_publication_is_bracketed_by_its_counter() {
    let layout = LayoutRegistry::from_entities("id", "demo", 3, &texts(&["A", "B"])).unwrap();
    let mut image = Image::create(&layout, ValueType::F64, 1);
    let mut writer = F64SliceWriter::open(&image.bytes).unwrap();
    let stores = writer.update_vector(2, &vec![d(1.0), d(2.0)], 50);
    let words: Vec<(usize, u64, StoreRole)> = stores
        .iter()
        .map(|store| (store.offset, store.word, store.role))
        .collect();
    assert_eq!(
        words,
        vec![
            (64, 3, StoreRole::Guard),
            (256, 1.0f64.to_bits(), StoreRole::Data),
            (264, 2.0f64.to_bits(), StoreRole::Data),
            (72, 50, StoreRole::Clock),
            (88, 50, StoreRole::Clock),
            (64, 4, StoreRole::Guard),
        ]
    );
    let reader = F64SliceReader::open(&image.bytes).unwrap();
    for cut in 1..stores.len() {
        let mut torn = Image {
            bytes: image.bytes.clone(),
        };
        torn.perform(&stores[..cut]);
        let mut read = StableRead::new();
        assert_eq!(
            read.observe(vec![torn.load(OFF_WRITER_EPOCH)]),
            ReadAction::Pause
        );
    }
    image.perform(&stores);
    assert_eq!(image.snapshot(&reader), vec![d(1.0), d(2.0)]);
    assert_eq!(writer.header(4, 50, 50).writer_epoch, 4);
    assert!(writer.write_slot(4, 3, d(1.0), 60).is_err());
}

#[test]
fn counters_move_from_even_to_odd_to_even() {
    assert_eq!(begin_write(4), 5);
    assert_eq!(begin_write(5), 5);
    assert_eq!(end_write(5), 6);
    assert_eq!(end_write(6), 8);
    assert_eq!(begin_write(u64::MAX - 1), u64::MAX);
    assert_eq!(end_write(u64::MAX), u64::MAX);
}

#[test]
fn a_disturbed_read_is_retried_and_given_up() {
    let mut read = StableRead::new();
    assert_eq!(read.observe(vec![2, 4]), ReadAction::Copy);
    assert_eq!(read.observe(vec![2, 6]), ReadAction::Pause);
    assert_eq!(read.observe(vec![2, 6]), ReadAction::Copy);
    assert_eq!(read.observe(vec![2, 6]), ReadAction::Accept);
    let mut stuck = StableRead::new();
    for _ in 1..READ_ATTEMPTS {
        assert_eq!(stuck.observe(vec![3]), ReadAction::Pause);
    }
    assert_eq!(stuck.observe(vec![3]), ReadAction::GiveUp);
}

#[test]
fn quotes_derive_midpoint_and_spread() {
    let quote = QuoteV1::new(&Native, 1, 2, d(99.0), d(1.0), d(101.0), d(2.0));
    assert_eq!(f(quote.mid_px), 100.0);
    assert_eq!(f(quote.spread_bps), 200.0);
    assert!(quote.is_valid());
    for (bid, ask) in [(0.0, 1.0), (-1.0, 1.0), (f64::NAN, 1.0), (1.0, f64::INFINITY)] {
        let odd = QuoteV1::new(&Native, 1, 2, d(bid), d(1.0), d(ask), d(2.0));
        assert!(odd.mid_px.is_nan());
        assert!(odd.spread_bps.is_nan());
    }
    assert!(!QuoteV1::default().is_valid());
}

#[test]
fn trades_are_classified_by_side() {
    let trade = |side: Option<&str>| TradeV1::new(1, 2, 3, d(10.0), d(-4.0), side);
    for side in ["buy", " B ", "bid", "ask_lift", "LIFT"] {
        let bought = trade(Some(side));
        assert_eq!(f(bought.signed_qty), 4.0, "{side}");
        assert_eq!(bought.flags, RECORD_FLAG_VALID | RECORD_FLAG_TRADE_BUY);
    }
    for side in ["sell", "s", "Ask", "bid_hit", "hit"] {
        let sold = trade(Some(side));
        assert_eq!(f(sold.signed_qty), -4.0, "{side}");
        assert_eq!(sold.flags, RECORD_FLAG_VALID | RECORD_FLAG_TRADE_SELL);
    }
    for side in [None, Some(""), Some("other")] {
        let open = trade(side);
        assert_eq!(f(open.signed_qty), 0.0);
        assert_eq!(open.flags, RECORD_FLAG_VALID);
    }
    assert!(trade(None).is_valid());
    assert!(!TradeV1::default().is_valid());
}

#[test]
fn joins_keep_sides_and_flag_quote_quality() {
    let sold = TradeV1::new(1_000, 2, 3, d(10.0), d(4.0), Some("sell"));
    let later = QuoteV1::new(&Native, 1_001, 2, d(9.0), d(1.0), d(11.0), d(2.0));
    let taq = TaqV1::from_trade_and_quote(sold, Some(later), 0);
    assert!(taq.has_quote() && taq.quote_is_after_trade() && !taq.quote_is_stale());
    assert_eq!(taq.quote_age_ns, -1);
    assert!(taq.flags & RECORD_FLAG_TRADE_SELL != 0);
    assert!(taq.flags & TAQ_FLAG_QUOTE_AFTER_TRADE != 0);
    let without = TaqV1::from_trade_and_quote(sold, None, 10);
    assert!(!without.has_quote() && without.mid_px.is_nan() && without.spread_bps.is_nan());
    assert_eq!(without.quote_age_ns, i64::MAX);
    let invalid = TaqV1::from_trade_and_quote(sold, Some(QuoteV1::default()), 10);
    assert_eq!(invalid.to_words(), without.to_words());
    assert_ne!(invalid, without);
    let early = TradeV1::new(i64::MAX, 2, 3, d(10.0), d(4.0), None);
    let old = QuoteV1::new(&Native, i64::MIN, 2, d(9.0), d(1.0), d(11.0), d(2.0));
    let far = TaqV1::from_trade_and_quote(early, Some(old), 5);
    assert_eq!(far.quote_age_ns, i64::MAX);
    assert!(far.quote_is_stale());
    assert_eq!(TaqV1::default().flags, 0);
}

#[test]
fn records_come_back_from_their_words() {
    let quote = QuoteV1::new(&Native, -5, 2, d(99.0), d(1.0), d(101.0), d(2.0));
    let trade = TradeV1::new(i64::MIN, -2, 3, d(10.0), d(4.0), Some("buy"));
    let taq = TaqV1::from_trade_and_quote(trade, Some(quote), 5);
    assert_eq!(QuoteV1::from_words(&quote.to_words()), Ok(quote));
    assert_eq!(TradeV1::from_words(&trade.to_words()), Ok(trade));
    assert_eq!(TaqV1::from_words(&taq.to_words()), Ok(taq));
    assert_eq!(quote.to_words()[0], (-5i64) as u64);
    assert_eq!(
        TaqV1::from_words(&vec![0; 3]),
        Err(SliceError::RecordLength {
            expected: 16,
            actual: 3
        })
    );
}

#[test]
fn reductions_have_exact_values() {
    assert_eq!(f(sum(&Native, &[d(1.5), d(-0.5)])), 1.0);
    assert_eq!(f(sum_abs(&Native, &[d(1.5), d(-0.5)])), 2.0);
    assert_eq!(
        dot(&Native, &[d(1.0)], &[]),
        Err(SliceError::DotLength { lhs: 1, rhs: 0 })
    );
    let empty: Vec<f64> = vec![];
    assert_eq!(f(sum(&Native, &[])), empty.iter().sum::<f64>());
}

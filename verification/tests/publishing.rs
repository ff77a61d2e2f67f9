use hypercube::cube::{CellValue, ExecutionMode, NodeStatus, Snapshot};
use hypercube::header::{ValueType, OFF_WRITER_EPOCH};
use hypercube::number::Double;
use hypercube::publisher::{
    safe_filename, PublishDurability, PublishError, SlicePublisher,
};
use hypercube::slice::{plan_slice, F64SliceReader, F64SliceWriter};
use hypercube::slice_error::SliceError;

fn d(x: f64) -> Double {
    Double::from_bits(x.to_bits())
}

fn texts(keys: &[&str]) -> Vec<String> {
    keys.iter().map(|key| key.to_string()).collect()
}

fn cell(node: &str, key: &str, value: f64) -> CellValue {
    CellValue {
        node: node.to_owned(),
        key: key.to_owned(),
        value: d(value),
        observed_at_ms: 10,
    }
}

fn snapshot(values: Vec<CellValue>) -> Snapshot {
    Snapshot {
        generation: 1,
        observed_at_ms: 10,
        mode: ExecutionMode::Live,
        entity_count: 2,
        values,
        statuses: vec![NodeStatus {
            node: "signal".to_owned(),
            values: 2,
            missing: 0,
            compute_micros: 1,
        }],
    }
}

#[test]
fn publishes_aligned_node_vectors() {
    let entities = vec!["A".to_owned(), "B".to_owned()];
    let nodes = vec!["signal".to_owned()];
    let mut publisher = SlicePublisher::create("demo-v1", &entities, &nodes).unwrap();
    let layout = publisher.layout();
    let new = plan_slice(layout, ValueType::F64, layout.active_len(), 1, 1, 1).unwrap();
    let mut file = new.image.clone();
    file.resize(new.file_len as usize, 0);
    publisher
        .project(&snapshot(vec![
            cell("signal", "A", 1.5),
            cell("signal", "B", -0.5),
        ]))
        .unwrap();
    assert_eq!(publisher.file_name_at(0), "signal.slice");

    let mut writer = F64SliceWriter::open(&file).unwrap();
    for store in writer.update_vector(2, publisher.buffer_at(0), 20) {
        file[store.offset..store.offset + 8].copy_from_slice(&store.word.to_le_bytes());
    }
    let reader = F64SliceReader::open(&file).unwrap();
    let word = |offset: usize| {
        let mut bytes = [0u8; 8];
        bytes.copy_from_slice(&file[offset..offset + 8]);
        u64::from_le_bytes(bytes)
    };
    let read: Vec<f64> = (0..reader.active_len())
        .map(|slot| f64::from_bits(word(reader.value_at(slot).unwrap())))
        .collect();
    assert_eq!(read, vec![1.5, -0.5]);
    assert_eq!(word(OFF_WRITER_EPOCH), 4);
}

#[test]
fn nodes_are_published_in_dictionary_order_and_missing_values_are_absent() {
    let mut publisher =
        SlicePublisher::create("demo", &texts(&["a", "B", "c"]), &texts(&["z", "x"])).unwrap();
    assert_eq!(publisher.node_count(), 2);
    assert_eq!(publisher.node_at(0), "x");
    assert_eq!(publisher.node_at(1), "z");
    publisher
        .project(&snapshot(vec![
            cell("z", "B", 2.0),
            cell("x", " A ", 1.0),
            cell("x", "a", 3.0),
        ]))
        .unwrap();
    assert_eq!(publisher.buffer_at(0)[0], d(3.0));
    assert!(publisher.buffer_at(0)[1].is_nan());
    assert_eq!(publisher.buffer_at(1)[1], d(2.0));
    publisher.project(&snapshot(vec![])).unwrap();
    assert!(publisher.buffer_at(1)[1].is_nan());
    let entry = publisher.entry_at(1, 9, "/tmp/z.slice");
    assert_eq!(entry.name, "z");
    assert_eq!(entry.asset_class, "synthetic");
    assert_eq!(entry.layout_hash, 9);
    assert_eq!(entry.role, "node_output");
    assert_eq!(
        entry.description.as_deref(),
        Some("Hypercube output for node z")
    );
}

#[test]
fn publishers_and_projections_are_refused() {
    let make = |entities: &[&str], nodes: &[&str]| {
        SlicePublisher::create("demo", &texts(entities), &texts(nodes)).unwrap_err()
    };
    assert_eq!(
        make(&["A", "a"], &["n"]),
        PublishError::Slice(SliceError::DuplicateSymbol("A".to_owned()))
    );
    assert_eq!(
        make(&["A"], &["n", "n"]),
        PublishError::DuplicateNode("n".to_owned())
    );
    assert_eq!(
        make(&["A"], &["n n"]),
        PublishError::Slice(SliceError::UnsupportedSliceName("n n".to_owned()))
    );
    let mut publisher = SlicePublisher::create("demo", &texts(&["A"]), &texts(&["n"])).unwrap();
    let mut refuse = |node: &str, key: &str| {
        publisher
            .project(&snapshot(vec![cell(node, key, 1.0)]))
            .unwrap_err()
    };
    assert_eq!(
        refuse("n", "B"),
        PublishError::UnknownEntity("B".to_owned())
    );
    assert_eq!(
        refuse("m", "A"),
        PublishError::UnconfiguredNode("m".to_owned())
    );
    assert_eq!(
        refuse("n", " "),
        PublishError::Slice(SliceError::EmptySymbol)
    );
}

#[test]
fn file_names_are_safe() {
    assert_eq!(safe_filename("a/b:c-1_x.y"), "a_b_c-1_x.y");
    assert_eq!(PublishDurability::default(), PublishDurability::Durable);
}

#[test]
fn publishing_errors_are_put_in_words() {
    let keys = texts(&["A", "B"]);
    let refused = |nodes: &[&str]| {
        SlicePublisher::create("demo-v1", &keys, &texts(nodes))
            .unwrap_err()
            .message()
    };
    assert_eq!(refused(&["signal", "signal"]), "duplicate slice node signal");
    assert_eq!(refused(&[" "]), "slice name cannot be empty or padded");
    let mut publisher = SlicePublisher::create("demo-v1", &keys, &texts(&["signal"])).unwrap();
    let mut projected = |cells: Vec<CellValue>| {
        publisher.project(&snapshot(cells)).unwrap_err().message()
    };
    assert_eq!(
        projected(vec![cell("signal", "C", 1.0)]),
        "snapshot contains unknown entity C"
    );
    assert_eq!(
        projected(vec![cell("other", "A", 1.0)]),
        "snapshot contains unconfigured slice node other"
    );
    assert_eq!(
        PublishError::OutsideLayout("A".to_string()).message(),
        "snapshot entity A resolves outside the active layout"
    );
    assert_eq!(
        PublishError::TooManyEntities(9).message(),
        "too many entities for a layout"
    );
}

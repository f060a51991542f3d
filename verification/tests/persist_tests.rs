use netweevil::graph::{EdgeId, NodeId, RoutingEdge};
use netweevil::sectioned::{
    decode_u32s, decode_u64s, encode_u32s, encode_u64s, nodes_from_columns, routing_columns,
    routing_edges_from_columns, unsupported_format_error, SectionError, SectionReader, SectionWriter, CURRENT_MAGIC,
    NO_TEMPORAL_RULE,
};

fn routing_edge(edge_id: u32, temporal_rule_id: Option<u32>) -> RoutingEdge {
    RoutingEdge {
        edge_id: EdgeId(edge_id),
        from: NodeId(0),
        to: NodeId(1),
        source_way_id: 42,
        length_m: 100,
        ascent_m: 0,
        descent_m: 0,
        feature_row: u32::MAX,
        source_direction: -1,
        temporal_rule_id,
        flags: 3,
    }
}

#[test]
fn sections_read_back_what_was_written() {
    let mut writer = SectionWriter::new();
    writer.write_section(b"topology");
    writer.write_section(&[]);
    writer.write_section(&[1, 2, 3]);
    let bytes = writer.finish();
    assert_eq!(&bytes[..8], b"NWSECB05");
    assert_eq!(bytes.len(), 8 + (8 + 8) + 8 + (8 + 3));

    let mut reader = SectionReader::new(&bytes).expect("current magic");
    assert_eq!(reader.next_section(), Ok(&b"topology"[..]));
    assert_eq!(reader.next_section(), Ok(&[][..]));
    assert_eq!(reader.next_section(), Ok(&[1_u8, 2, 3][..]));
    assert_eq!(reader.next_section(), Err(SectionError::MissingSectionLength));
}

#[test]
fn rejects_an_unrecognized_magic() {
    let mut bytes = b"INVALID!".to_vec();
    bytes.extend_from_slice(&0_u64.to_le_bytes());
    assert!(matches!(SectionReader::new(&bytes), Err(SectionError::UnsupportedFormat)));
    assert!(matches!(SectionReader::new(&CURRENT_MAGIC[..4]), Err(SectionError::UnsupportedFormat)));
    let message = unsupported_format_error("topology.bin");
    assert!(message.contains("re-import the dataset"), "{message}");
    assert_eq!(
        message,
        "bundle topology.bin uses an unsupported format; re-import the dataset and recompile profiles"
    );
}

#[test]
fn rejects_a_section_that_runs_past_the_end() {
    let mut bytes = CURRENT_MAGIC.to_vec();
    bytes.extend_from_slice(&10_u64.to_le_bytes());
    bytes.extend_from_slice(&[0_u8; 4]);
    let mut reader = SectionReader::new(&bytes).expect("current magic");
    assert_eq!(reader.next_section(), Err(SectionError::SectionPastEnd));
    // The failed read leaves the reader where it was.
    assert_eq!(reader.offset, 8);

    let mut short = CURRENT_MAGIC.to_vec();
    short.extend_from_slice(&[1, 0, 0]);
    let mut reader = SectionReader::new(&short).expect("current magic");
    assert_eq!(reader.next_section(), Err(SectionError::MissingSectionLength));
}

#[test]
fn raw_arrays_round_trip_little_endian() {
    let words = encode_u32s(&[1, 0x0102_0304, u32::MAX]);
    assert_eq!(&words[..8], &[1, 0, 0, 0, 4, 3, 2, 1]);
    assert_eq!(decode_u32s(&words), Ok(vec![1, 0x0102_0304, u32::MAX]));
    let longs = encode_u64s(&[7, u64::MAX]);
    assert_eq!(longs.len(), 16);
    assert_eq!(decode_u64s(&longs), Ok(vec![7, u64::MAX]));
    assert_eq!(decode_u32s(&[1, 2, 3]), Err(SectionError::RaggedRawSection));
    assert_eq!(decode_u64s(&[0; 12]), Err(SectionError::RaggedRawSection));
    assert_eq!(decode_u32s(&[]), Ok(vec![]));
}

#[test]
fn routing_edges_round_trip_through_columns() {
    let edges = vec![routing_edge(0, None), routing_edge(1, Some(7))];
    let columns = routing_columns(&edges);
    assert_eq!(columns.edge_ids, vec![0, 1]);
    assert_eq!(columns.temporal_rule_ids, vec![NO_TEMPORAL_RULE, 7]);
    assert_eq!(columns.source_directions, vec![-1, -1]);
    let back = routing_edges_from_columns(&columns).expect("consistent columns");
    assert_eq!(back.len(), 2);
    assert_eq!(back[0].temporal_rule_id, None);
    assert_eq!(back[1].temporal_rule_id, Some(7));
    assert_eq!(back[1].edge_id, EdgeId(1));
    assert_eq!(back[1].flags, 3);
    assert_eq!(back[0].source_way_id, 42);

    let mut ragged = routing_columns(&edges);
    ragged.lengths.pop();
    assert!(matches!(routing_edges_from_columns(&ragged), Err(SectionError::InconsistentLengths)));
}

#[test]
fn nodes_are_reassembled_from_columns() {
    let lons = vec![114.1_f64.to_bits(), 114.2_f64.to_bits()];
    let lats = vec![22.3_f64.to_bits(), 22.4_f64.to_bits()];
    let zs = vec![0.0_f64.to_bits(), f64::NAN.to_bits()];
    let nodes = nodes_from_columns(&vec![0, 1], &lons, &lats, &zs).expect("consistent columns");
    assert_eq!(nodes.len(), 2);
    assert_eq!(nodes[1].node_id, NodeId(1));
    assert_eq!(f64::from_bits(nodes[1].lat), 22.4);
    assert!(f64::from_bits(nodes[1].z).is_nan());
    assert!(matches!(
        nodes_from_columns(&vec![0], &lons, &lats, &zs),
        Err(SectionError::InconsistentLengths)
    ));
}

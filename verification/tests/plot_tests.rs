use spartan_plot::commitments::Commitments;
use spartan_plot::engine::{PlotEngine, ReadRequest, ReadResponse, WriteRequest, WriteResponse};
use spartan_plot::errors::PlotError;
use spartan_plot::piece_file::PieceFile;
use spartan_plot::plot::{BatchOutcome, Plot};
use spartan_plot::tagger::TableTagFunction;

const PIECE_SIZE: usize = 8;

fn piece(byte: u8) -> Vec<u8> {
    vec![byte; PIECE_SIZE]
}

fn empty_plot() -> Plot {
    Plot::open_or_create(PIECE_SIZE, Vec::new(), Commitments::new(), None)
}

const SALT: u64 = 0x0101_0101_0101_0101;

/// The tag table of the concrete scenarios: `tag(0x00..) = 5` and
/// `tag(0x11..) = 0x20` under the test salt.
fn scenario_tagger() -> TableTagFunction {
    let mut tagger = TableTagFunction::new(0xdead);
    tagger.add_row(piece(0x00), SALT, 0x0000_0000_0000_0005);
    tagger.add_row(piece(0x11), SALT, 0x0000_0000_0000_0020);
    tagger
}

#[test]
fn open_write_read() {
    let mut plot = empty_plot();
    assert!(plot.is_empty());
    let res = plot.write_many(vec![piece(0x00), piece(0x11)], 0);
    assert!(res.is_ok());
    assert!(!plot.is_empty());
    assert_eq!(plot.read(1), Ok(piece(0x11)));
    assert_eq!(plot.read(0), Ok(piece(0x00)));
}

#[test]
fn empty_write_extends_nothing() {
    let mut plot = empty_plot();
    assert_eq!(plot.write_many(Vec::new(), 5), Ok(()));
    assert!(plot.is_empty());
}

#[test]
fn read_past_end_fails() {
    let mut plot = empty_plot();
    plot.write_many(vec![piece(0x00)], 0).unwrap();
    assert_eq!(plot.read(1), Err(PlotError::Io));
    assert_eq!(plot.read_pieces(0, 2), Err(PlotError::Io));
}

#[test]
fn write_with_hole_zero_fills() {
    let mut plot = empty_plot();
    plot.write_many(vec![piece(0x55)], 2).unwrap();
    assert_eq!(plot.read(0), Ok(vec![0u8; PIECE_SIZE]));
    assert_eq!(plot.read(1), Ok(vec![0u8; PIECE_SIZE]));
    assert_eq!(plot.read(2), Ok(piece(0x55)));
}

#[test]
fn wrong_piece_length_is_io_error() {
    let mut plot = empty_plot();
    assert_eq!(plot.write_many(vec![vec![0u8; PIECE_SIZE - 1]], 0), Err(PlotError::Io));
    assert!(plot.is_empty());
}

#[test]
fn read_pieces_returns_contiguous_block() {
    let mut plot = empty_plot();
    plot.write_many(vec![piece(0x01), piece(0x02)], 0).unwrap();
    let mut expected = piece(0x01);
    expected.extend(piece(0x02));
    assert_eq!(plot.read_pieces(0, 2), Ok(expected));
}

#[test]
fn create_commitment_then_exact_lookup() {
    let mut plot = empty_plot();
    plot.write_many(vec![piece(0x00), piece(0x11)], 0).unwrap();
    let tagger = scenario_tagger();
    assert_eq!(plot.create_commitment(SALT, &tagger), Ok(()));
    assert_eq!(
        plot.find_by_range(0x0000_0000_0000_0020, 0, SALT),
        Ok(Some((0x0000_0000_0000_0020, 1)))
    );
    assert_eq!(
        plot.find_by_range(0x0000_0000_0000_0005, 0, SALT),
        Ok(Some((0x0000_0000_0000_0005, 0)))
    );
}

#[test]
fn find_in_window_returns_first_ascending() {
    let mut plot = empty_plot();
    plot.write_many(vec![piece(0x00), piece(0x11)], 0).unwrap();
    let tagger = scenario_tagger();
    plot.create_commitment(SALT, &tagger).unwrap();
    // Window of width 64 centred on zero: both tags lie in it; the scan
    // yields the smaller tag first.
    assert_eq!(plot.find_by_range(0, 64, SALT), Ok(Some((0x0000_0000_0000_0005, 0))));
}

#[test]
fn find_wrap_around() {
    let mut plot = empty_plot();
    plot.write_many(vec![piece(0x22)], 0).unwrap();
    let mut tagger = TableTagFunction::new(0);
    tagger.add_row(piece(0x22), SALT, 0xFFFF_FFFF_FFFF_FFF0);
    plot.create_commitment(SALT, &tagger).unwrap();
    // The stored tag sits 0x15 below the wrap point, the target 5 above
    // it: a half-range of 0x18 reaches back across the wrap.
    assert_eq!(
        plot.find_by_range(0x0000_0000_0000_0005, 0x30, SALT),
        Ok(Some((0xFFFF_FFFF_FFFF_FFF0, 0)))
    );
    // A half-range of 0x10 stops 5 short of the stored tag.
    assert_eq!(plot.find_by_range(0x0000_0000_0000_0005, 0x20, SALT), Ok(None));
    // Wrap the other way: a target just below the wrap point sees small
    // tags through it.
    let mut plot2 = empty_plot();
    plot2.write_many(vec![piece(0x00)], 0).unwrap();
    let tagger2 = scenario_tagger();
    plot2.create_commitment(SALT, &tagger2).unwrap();
    assert_eq!(
        plot2.find_by_range(0xFFFF_FFFF_FFFF_FFF6, 0x20, SALT),
        Ok(Some((0x0000_0000_0000_0005, 0)))
    );
}

#[test]
fn wrapped_window_scans_low_half_first() {
    let mut plot = empty_plot();
    plot.write_many(vec![piece(0x33), piece(0x44)], 0).unwrap();
    let mut tagger = TableTagFunction::new(0);
    tagger.add_row(piece(0x33), SALT, 0x0000_0000_0000_0003);
    tagger.add_row(piece(0x44), SALT, 0xFFFF_FFFF_FFFF_FFF0);
    plot.create_commitment(SALT, &tagger).unwrap();
    // Both tags lie in the wrapped window; the scan serves `[0, upper]`
    // before `[lower, 2^64 - 1]`, so the small tag comes back.
    assert_eq!(plot.find_by_range(0, 0x30, SALT), Ok(Some((0x0000_0000_0000_0003, 0))));
}

#[test]
fn finalize_without_index_reports_kv_error() {
    let mut plot = empty_plot();
    plot.write_many(vec![piece(0x00)], 0).unwrap();
    assert!(!plot.begin_commitment(SALT));
    // No batch has run, so there is no index directory to finish.
    assert_eq!(plot.finalize_commitment(SALT), Err(PlotError::Kv));
}

#[test]
fn find_unknown_salt_is_none() {
    let plot = empty_plot();
    assert_eq!(plot.find_by_range(0, u64::MAX, 7), Ok(None));
}

#[test]
fn create_commitment_on_empty_plot() {
    let mut plot = empty_plot();
    let tagger = TableTagFunction::new(0);
    assert_eq!(plot.create_commitment(SALT, &tagger), Ok(()));
    assert_eq!(plot.find_by_range(0, u64::MAX, SALT), Ok(None));
}

#[test]
fn create_commitment_twice_is_idempotent() {
    let mut plot = empty_plot();
    plot.write_many(vec![piece(0x00)], 0).unwrap();
    let tagger = scenario_tagger();
    assert_eq!(plot.create_commitment(SALT, &tagger), Ok(()));
    assert_eq!(plot.create_commitment(SALT, &tagger), Ok(()));
    assert_eq!(
        plot.find_by_range(0x0000_0000_0000_0005, 0, SALT),
        Ok(Some((0x0000_0000_0000_0005, 0)))
    );
}

#[test]
fn remove_commitment_clears_salt() {
    let mut plot = empty_plot();
    plot.write_many(vec![piece(0x00), piece(0x11)], 0).unwrap();
    let tagger = scenario_tagger();
    plot.create_commitment(SALT, &tagger).unwrap();
    assert_eq!(plot.remove_commitment(SALT), Ok(()));
    assert_eq!(plot.find_by_range(0x0000_0000_0000_0005, 0, SALT), Ok(None));
    assert_eq!(plot.engine.commitments.dirs.len(), 0);
}

#[test]
fn abort_mid_commitment() {
    let mut plot = empty_plot();
    plot.write_many(vec![piece(0x00), piece(0x11)], 0).unwrap();
    let tagger = scenario_tagger();
    // The driver starts; a removal request arrives before its next
    // batch boundary and marks the build aborted.
    assert!(!plot.begin_commitment(SALT));
    assert_eq!(plot.remove_commitment(SALT), Ok(()));
    // The boundary check sees the abort and writes nothing.
    assert_eq!(plot.commitment_batch(SALT, 0, &tagger), BatchOutcome::AbortObserved);
    // The driver cleans up: an aborted error, and the salt is gone.
    assert_eq!(plot.finalize_commitment(SALT), Err(PlotError::Aborted));
    assert_eq!(plot.find_by_range(0, u64::MAX, SALT), Ok(None));
    assert_eq!(plot.engine.commitments.dirs.len(), 0);
    assert_eq!(plot.statuses.entries.len(), 0);
}

#[test]
fn retain_commitments_keeps_only_listed() {
    let salt_b: u64 = 0x0202_0202_0202_0202;
    let mut plot = empty_plot();
    plot.write_many(vec![piece(0x00)], 0).unwrap();
    let mut tagger = TableTagFunction::new(0);
    tagger.add_row(piece(0x00), SALT, 5);
    tagger.add_row(piece(0x00), salt_b, 9);
    plot.create_commitment(SALT, &tagger).unwrap();
    plot.create_commitment(salt_b, &tagger).unwrap();
    assert_eq!(plot.retain_commitments(vec![SALT]), Ok(()));
    assert_eq!(plot.find_by_range(5, 0, SALT), Ok(Some((5, 0))));
    assert_eq!(plot.find_by_range(9, 0, salt_b), Ok(None));
}

#[test]
fn last_root_block_round_trip() {
    let mut plot = empty_plot();
    assert_eq!(plot.get_last_root_block(), None);
    plot.set_last_root_block(vec![1, 2, 3]);
    assert_eq!(plot.get_last_root_block(), Some(vec![1, 2, 3]));
}

#[test]
fn open_with_existing_commitments() {
    let mut commitments = Commitments::new();
    let mut index = spartan_plot::tag_index::TagIndex::new();
    index.put(5, 0);
    commitments.install(SALT, index);
    let plot = Plot::open_or_create(PIECE_SIZE, piece(0x00), commitments, None);
    assert_eq!(plot.find_by_range(5, 0, SALT), Ok(Some((5, 0))));
}

#[test]
fn open_truncates_partial_piece() {
    let plot = Plot::open_or_create(PIECE_SIZE, vec![0u8; PIECE_SIZE + 3], Commitments::new(), None);
    assert_eq!(plot.engine.file.piece_count, 1);
}

/// Read-priority under a synthetic read flood: each scheduler iteration
/// drains every queued read yet still serves one queued write, so a
/// writer makes progress at one write per iteration.
#[test]
fn read_priority_serves_one_write_per_iteration() {
    let file = PieceFile::open(PIECE_SIZE, Vec::new());
    let mut engine = PlotEngine::new(file, Commitments::new());
    let mut writes = vec![
        WriteRequest::WritePieces { first: 0, pieces: vec![piece(0xAA)] },
        WriteRequest::WritePieces { first: 1, pieces: vec![piece(0xBB)] },
    ];
    let mut reads = vec![
        ReadRequest::ReadPiece { index: 0 },
        ReadRequest::ReadPiece { index: 1 },
        ReadRequest::ReadPiece { index: 2 },
    ];
    let (read_responses, write_response) = engine.run_iteration(&mut reads, &mut writes);
    assert_eq!(read_responses.len(), 3);
    assert!(matches!(write_response, Some(WriteResponse::Written(Ok(())))));
    assert_eq!(reads.len(), 0);
    assert_eq!(writes.len(), 1);
    // The flood continues; the second write is served on the next pass.
    let mut reads = vec![ReadRequest::ReadPiece { index: 0 }, ReadRequest::ReadPiece { index: 1 }];
    let (read_responses, write_response) = engine.run_iteration(&mut reads, &mut writes);
    assert_eq!(read_responses.len(), 2);
    assert!(matches!(write_response, Some(WriteResponse::Written(Ok(())))));
    assert_eq!(writes.len(), 0);
    match &read_responses[0] {
        ReadResponse::Piece(Ok(bytes)) => assert_eq!(bytes, &piece(0xAA)),
        _ => panic!("unexpected response"),
    }
}

#[test]
fn node_sync_status_toggles() {
    let node = spartan_plot::node::Node::new();
    let mut handler = node.sync_status_handler();
    assert!(!handler.status());
    handler.toggle_on();
    assert!(handler.status());
    handler.toggle_off();
    assert!(!handler.status());
}

use zsqlite::domain::{Count, PackId, PageNumber, PageSize, TransactionId};
use zsqlite::error::StoreError;
use zsqlite::format::FRAME_HEADER_SIZE;
use zsqlite::frame::{FrameEncoder, PageVersion};
use zsqlite::maintenance_read::{plan, Span, GAP_BYTES, SINGLE_FRAME_BYTES, WINDOW_BYTES};
use zsqlite::order::OrderedMap;
use zsqlite::placement::PackRange;
use zsqlite::segment::HEADER_SIZE;
use zsqlite::view::FrameLocation;

fn frame(pack: u8, start: u64, length: u64) -> Span {
    Span { pack: PackId::from_bytes([pack; 32]), start, end: start.checked_add(length).unwrap() }
}

#[test]
fn adjacent_records_share_a_window_in_pack_order() {
    let windows =
        plan(vec![frame(2, 32, 2048), frame(1, 2080, 2048), frame(1, 32, 2048)]).unwrap();
    assert_eq!(windows.len(), 2);
    assert_eq!(windows[0].span, frame(1, 32, 4096));
    assert_eq!(windows[0].frame_bytes, 4096);
    assert_eq!(windows[1].span, frame(2, 32, 2048));
}

#[test]
fn sparse_ranges_limit_both_gap_and_amplification() {
    let adjacent = frame(1, 32, 1024);
    // Exactly four times the complete source records is acceptable.
    let near = frame(1, 32 + 7 * 1024, 1024);
    let windows = plan(vec![adjacent, near]).unwrap();
    assert_eq!(windows.len(), 1);
    assert_eq!(windows[0].span.end - windows[0].span.start, 8 * 1024);
    assert_eq!(plan(vec![adjacent, frame(1, near.start + 1, 1024)]).unwrap().len(), 2);

    // Large useful records still cannot bridge a gap over 64 KiB.
    let large = frame(1, 32, 1024 * 1024);
    assert_eq!(
        plan(vec![large, frame(1, large.end + GAP_BYTES, 1024 * 1024)]).unwrap().len(),
        1
    );
    assert_eq!(
        plan(vec![large, frame(1, large.end + GAP_BYTES + 1, 1024 * 1024)]).unwrap().len(),
        2
    );
}

#[test]
fn windows_are_bounded_and_oversized_frames_stay_separate() {
    let first = frame(1, 32, WINDOW_BYTES / 2);
    let second = frame(1, first.end, WINDOW_BYTES / 2);
    let third = frame(1, second.end, 1024);
    let windows = plan(vec![first, second, third]).unwrap();
    assert_eq!(windows.len(), 2);
    assert_eq!(windows[0].span.end - windows[0].span.start, WINDOW_BYTES);

    let large = frame(1, 32, SINGLE_FRAME_BYTES);
    assert_eq!(plan(vec![large, frame(1, large.end, 1024)]).unwrap().len(), 2);
    assert!(plan(vec![frame(1, 32, SINGLE_FRAME_BYTES + 1)]).is_err());
    assert!(plan(vec![frame(1, 32, 0)]).is_err());
}

#[test]
fn duplicate_frames_do_not_relax_amplification_limit() {
    let first = frame(1, 32, 1024);
    let distant = frame(1, first.end + GAP_BYTES, 1024);
    let mut frames = vec![first; 64];
    frames.push(distant);
    let windows = plan(frames).unwrap();
    assert_eq!(windows.len(), 2);
    assert_eq!(windows[0].frame_bytes, 1024);
    assert!(plan(vec![first, frame(1, first.start + 1, 1024)]).is_err());
}

#[test]
fn source_span_includes_metadata_and_rejects_invalid_offsets() {
    let bytes = vec![7; 512];
    let version = PageVersion::verified(
        PageNumber::new(1).unwrap(),
        TransactionId::new(1).unwrap(),
        &bytes,
    );
    let (metadata, _) = FrameEncoder::new(1, &OrderedMap::new())
        .build(PageSize::new(512).unwrap(), vec![(version, bytes)])
        .unwrap()
        .into_parts();
    let prefix = 36 + metadata.encoded_len() as u64 + FRAME_HEADER_SIZE as u64;
    let payload_bytes = metadata.payload_bytes();
    let start = HEADER_SIZE as u64;
    let at = |offset: u64, length: u64| {
        FrameLocation::new(
            PackId::from_bytes([1; 32]),
            PackRange::new(Count::new(offset), Count::new(length)).unwrap(),
            metadata.duplicate(),
        )
    };
    assert_eq!(
        Span::frame(&at(start + prefix, payload_bytes.get())).unwrap(),
        frame(1, start, prefix + payload_bytes.get())
    );
    assert!(Span::frame(&at(prefix - 1, payload_bytes.get())).is_err());
    assert!(Span::frame(&at(start + prefix - 1, payload_bytes.get())).is_err());
    assert!(Span::frame(&at(start + prefix, payload_bytes.get() + 1)).is_err());
}

#[test]
fn overlapping_frames_name_the_second_one() {
    assert_eq!(
        plan(vec![frame(1, 32, 100), frame(1, 64, 100)]),
        Err(StoreError::Corrupt(64))
    );
    assert_eq!(plan(vec![frame(1, 32, 0)]), Err(StoreError::Range));
}

#[test]
fn a_plan_needs_sound_frames() {
    // Frames that share no byte can be planned for, in any order and twice.
    assert!(plan(vec![frame(1, 96, 64), frame(1, 32, 64), frame(1, 96, 64)]).is_ok());
    assert!(plan(vec![frame(1, 32, 64), frame(2, 64, 64)]).is_ok());
    assert!(plan(Vec::new()).unwrap().is_empty());
    assert!(plan(vec![frame(1, 32, 0)]).is_err());
    assert!(plan(vec![frame(1, 32, SINGLE_FRAME_BYTES)]).is_ok());
    assert!(plan(vec![frame(1, 32, SINGLE_FRAME_BYTES + 1)]).is_err());
    assert!(plan(vec![frame(1, 32, 64), frame(1, 95, 64)]).is_err());
}

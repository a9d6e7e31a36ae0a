use ndarray_layout::{ArrayLayout, BroadcastArg, Endian, IndexArg, SliceArg, TileArg, TileOrder};

#[test]
fn test() {
    let layout = ArrayLayout::<1>::new(&[2, 3, 4], &[12, 4, 1], 0);
    let layout = layout.index(1, 2);
    assert_eq!(layout.shape(), &[2, 4]);
    assert_eq!(layout.strides(), &[12, 1]);
    assert_eq!(layout.offset(), 8);

    let layout = ArrayLayout::<4>::new(&[2, 3, 4], &[12, -4, 1], 20);
    let layout = layout.index(1, 2);
    assert_eq!(layout.shape(), &[2, 4]);
    assert_eq!(layout.strides(), &[12, 1]);
    assert_eq!(layout.offset(), 12);
}

#[test]
fn test_new_reads_back() {
    let layout = ArrayLayout::<4>::new(&[2, 3, 4], &[12, -4, 1], 20);
    assert_eq!(layout.ndim(), 3);
    assert_eq!(layout.offset(), 20);
    assert_eq!(layout.shape(), &[2, 3, 4]);
    assert_eq!(layout.strides(), &[12, -4, 1]);
}

#[test]
fn test_representation_independence() {
    // The same logical layout below and above the inline capacity.
    let small = ArrayLayout::<2>::new(&[2, 3, 4], &[12, 4, 1], 5);
    let large = ArrayLayout::<8>::new(&[2, 3, 4], &[12, 4, 1], 5);
    assert_eq!(small.offset(), large.offset());
    assert_eq!(small.shape(), large.shape());
    assert_eq!(small.strides(), large.strides());
    assert_eq!(small.ndim(), large.ndim());
}

#[test]
fn test_clone_and_eq_ignore_representation() {
    let heap = ArrayLayout::<2>::new(&[2, 3, 4], &[12, 4, 1], 0);
    let copy = heap.clone();
    assert!(heap == copy);
    let other = ArrayLayout::<2>::new(&[2, 3, 4], &[12, 4, 1], 1);
    assert!(heap != other);
    let shorter = ArrayLayout::<2>::new(&[2, 3], &[12, 4], 0);
    assert!(heap != shorter);
}

#[test]
fn test_new_contiguous_little_endian() {
    let layout = ArrayLayout::<4>::new_contiguous(&[2, 3, 4], Endian::LittleEndian, 4);
    assert_eq!(layout.offset(), 0);
    assert_eq!(layout.shape(), &[2, 3, 4]);
    assert_eq!(layout.strides(), &[4, 8, 24]);
}

#[test]
fn test_new_contiguous_big_endian() {
    let layout = ArrayLayout::<4>::new_contiguous(&[2, 3, 4], Endian::BigEndian, 4);
    assert_eq!(layout.offset(), 0);
    assert_eq!(layout.shape(), &[2, 3, 4]);
    assert_eq!(layout.strides(), &[48, 16, 4]);
}

#[test]
fn test_index_many_two_axes() {
    let layout = ArrayLayout::<4>::new(&[2, 3, 4], &[12, 4, 1], 0);
    let args = [
        IndexArg { axis: 0, index: 1 },
        IndexArg { axis: 2, index: 3 },
    ];
    let layout = layout.index_many(&args);
    assert_eq!(layout.shape(), &[3]);
    assert_eq!(layout.strides(), &[4]);
    assert_eq!(layout.offset(), 15);
}

#[test]
fn test_slice_scenario() {
    let layout = ArrayLayout::<4>::new(&[2, 3, 4], &[12, 4, 1], 0);
    let layout = layout.slice(1, 2, -1, 2);
    assert_eq!(layout.shape(), &[2, 2, 4]);
    assert_eq!(layout.strides(), &[12, -4, 1]);
    assert_eq!(layout.offset(), 8);
}

#[test]
fn test_slice_identity_crop() {
    let layout = ArrayLayout::<4>::new(&[2, 3, 4], &[12, 4, 1], 0);
    let same = layout.slice(1, 0, 1, 3);
    assert!(layout == same);
}

#[test]
fn test_slice_forward_step() {
    // axis 2 of extent 4, keep every second index from 1: indices 1 and 3.
    let layout = ArrayLayout::<4>::new(&[2, 3, 4], &[12, 4, 1], 0);
    let layout = layout.slice(2, 1, 2, 4);
    assert_eq!(layout.shape(), &[2, 3, 2]);
    assert_eq!(layout.strides(), &[12, 4, 2]);
    assert_eq!(layout.offset(), 1);
}

#[test]
fn test_slice_many_two_axes() {
    let layout = ArrayLayout::<4>::new(&[2, 3, 4], &[12, 4, 1], 0);
    let args = [
        SliceArg { axis: 0, start: 1, step: 1, len: 1 },
        SliceArg { axis: 2, start: 0, step: 2, len: 2 },
    ];
    let layout = layout.slice_many(&args);
    assert_eq!(layout.shape(), &[1, 3, 2]);
    assert_eq!(layout.strides(), &[12, 4, 2]);
    assert_eq!(layout.offset(), 12);
}

#[test]
fn test_split_uneven() {
    let layout = ArrayLayout::<4>::new(&[2, 3, 4], &[12, 4, 1], 0);
    let mut splits = layout.split(2, &[1, 3]).unwrap();

    let first = splits.next().unwrap();
    assert_eq!(first.shape(), &[2, 3, 1]);
    assert_eq!(first.strides(), &[12, 4, 1]);
    assert_eq!(first.offset(), 0);

    let second = splits.next().unwrap();
    assert_eq!(second.shape(), &[2, 3, 3]);
    assert_eq!(second.strides(), &[12, 4, 1]);
    assert_eq!(second.offset(), 1);

    assert!(splits.next().is_none());
}

#[test]
fn test_split_size_mismatch() {
    // Partition sizes that do not cover the axis are reported, not clamped.
    let layout = ArrayLayout::<4>::new(&[2, 3, 4], &[12, 4, 1], 0);
    assert!(layout.split(2, &[1, 2]).is_none());
    assert!(layout.split(2, &[5]).is_none());
}

#[test]
fn test_broadcast_scenario() {
    let layout = ArrayLayout::<4>::new(&[1, 5, 2], &[10, 2, 1], 0);
    let layout = layout.broadcast(0, 10);
    assert_eq!(layout.shape(), &[10, 5, 2]);
    assert_eq!(layout.strides(), &[0, 2, 1]);
    assert_eq!(layout.offset(), 0);
}

#[test]
fn test_broadcast_many_repeats_axis() {
    // A zero-stride axis may be broadcast again.
    let layout = ArrayLayout::<4>::new(&[1, 5], &[5, 1], 0);
    let args = [
        BroadcastArg { axis: 0, times: 4 },
        BroadcastArg { axis: 0, times: 7 },
    ];
    let layout = layout.broadcast_many(&args);
    assert_eq!(layout.shape(), &[7, 5]);
    assert_eq!(layout.strides(), &[0, 1]);
}

#[test]
fn test_merge_scenario() {
    let layout = ArrayLayout::<4>::new(&[2, 3, 4], &[12, 4, 1], 0);
    let layout = layout.merge(0..3).unwrap();
    assert_eq!(layout.shape(), &[24]);
    assert_eq!(layout.strides(), &[1]);
    assert_eq!(layout.offset(), 0);
}

#[test]
fn test_merge_incompatible_run() {
    // Strides 7 and 2 cannot chain: 7 != 2 * 3.
    let layout = ArrayLayout::<4>::new(&[2, 3], &[7, 2], 0);
    assert!(layout.merge(0..2).is_none());
}

#[test]
fn test_merge_rejects_gapped_run_with_unit_stride() {
    // Strides 1 and 4 on extents 2 and 2 do not chain (4 != 1 * 2): the run
    // reaches cells {0, 1, 4, 5}, which no single axis can describe.
    let layout = ArrayLayout::<4>::new(&[2, 2], &[1, 4], 0);
    assert!(layout.merge(0..2).is_none());
}

#[test]
fn test_merge_rejects_unchained_run_with_empty_axis() {
    // An axis of extent zero is not degenerate: the strides 0 and 7 still do
    // not chain (7 != 0 * 5), so the run must report failure.
    let layout = ArrayLayout::<4>::new(&[5, 0], &[0, 7], 0);
    assert!(layout.merge(0..2).is_none());
}

#[test]
fn test_merge_accepts_degenerate_extent() {
    // An axis of extent 1 is always compatible, whatever its stride.
    let layout = ArrayLayout::<4>::new(&[2, 1], &[2, 5], 0);
    let merged = layout.merge(0..2).unwrap();
    assert_eq!(merged.shape(), &[2]);
    assert_eq!(merged.strides(), &[2]);
    assert_eq!(merged.offset(), 0);
}

#[test]
fn test_merge_many_two_runs() {
    let layout = ArrayLayout::<8>::new(&[2, 3, 5, 7], &[105, 35, 7, 1], 0);
    let ranges = [0..2, 2..4];
    let layout = layout.merge_many(&ranges).unwrap();
    assert_eq!(layout.shape(), &[6, 35]);
    assert_eq!(layout.strides(), &[35, 1]);
    assert_eq!(layout.offset(), 0);
}

#[test]
fn test_tile_be_scenario() {
    let layout = ArrayLayout::<4>::new(&[2, 3, 6], &[18, 6, 1], 0);
    let layout = layout.tile_be(2, &[2, 3]);
    assert_eq!(layout.shape(), &[2, 3, 2, 3]);
    assert_eq!(layout.strides(), &[18, 6, 3, 1]);
    assert_eq!(layout.offset(), 0);
}

#[test]
fn test_tile_le_strides_grow() {
    let layout = ArrayLayout::<4>::new(&[2, 3, 6], &[18, 6, 1], 0);
    let layout = layout.tile_le(2, &[2, 3]);
    assert_eq!(layout.shape(), &[2, 3, 2, 3]);
    assert_eq!(layout.strides(), &[18, 6, 1, 2]);
    assert_eq!(layout.offset(), 0);
}

#[test]
fn test_tile_many_two_axes() {
    let layout = ArrayLayout::<8>::new(&[4, 5, 6], &[30, 6, 1], 0);
    let args = [
        TileArg { axis: 0, order: TileOrder::BigEndian, tiles: &[2, 2] },
        TileArg { axis: 2, order: TileOrder::LittleEndian, tiles: &[2, 3] },
    ];
    let layout = layout.tile_many(&args);
    assert_eq!(layout.shape(), &[2, 2, 5, 2, 3]);
    assert_eq!(layout.strides(), &[60, 30, 6, 1, 2]);
    assert_eq!(layout.offset(), 0);
}

#[test]
fn test_tile_then_merge_restores_axis() {
    let layout = ArrayLayout::<4>::new(&[2, 3, 6], &[18, 6, 1], 0);
    let tiled = layout.tile_be(2, &[2, 3]);
    let merged = tiled.merge(2..4).unwrap();
    assert!(merged == layout);

    let tiled = layout.tile_le(2, &[2, 3]);
    let merged = tiled.merge(2..4).unwrap();
    assert!(merged == layout);
}

#[test]
fn test_transpose_swaps_leading_axes() {
    let layout = ArrayLayout::<4>::new(&[2, 3, 4], &[12, 4, 1], 0);
    let layout = layout.transpose(&[1, 0]);
    assert_eq!(layout.shape(), &[3, 2, 4]);
    assert_eq!(layout.strides(), &[4, 12, 1]);
    assert_eq!(layout.offset(), 0);
}

#[test]
fn test_transpose_partial_keeps_unnamed_axis() {
    // Only axes 0 and 2 are named: they trade places, axis 1 stays.
    let layout = ArrayLayout::<4>::new(&[2, 3, 4], &[12, 4, 1], 0);
    let layout = layout.transpose(&[2, 0]);
    assert_eq!(layout.shape(), &[4, 3, 2]);
    assert_eq!(layout.strides(), &[1, 4, 12]);
    assert_eq!(layout.offset(), 0);
}

#[test]
fn test_transpose_round_trip() {
    let layout = ArrayLayout::<4>::new(&[2, 3, 4], &[12, 4, 1], 7);
    let back = layout.transpose(&[2, 0, 1]).transpose(&[1, 2, 0]);
    assert!(back == layout);
}

#[test]
fn test_data_range_mixed_strides() {
    let layout = ArrayLayout::<4>::new(&[2, 3, 4], &[12, -4, 1], 20);
    let range = layout.data_range();
    assert_eq!(*range.start(), 12);
    assert_eq!(*range.end(), 35);
}

#[test]
fn test_data_range_ignores_zero_strides() {
    let layout = ArrayLayout::<4>::new(&[1, 5, 2], &[10, 2, 1], 0);
    let layout = layout.broadcast(0, 10);
    let range = layout.data_range();
    assert_eq!(*range.start(), 0);
    assert_eq!(*range.end(), 9);
}

#[test]
fn test_empty_argument_lists_change_nothing() {
    let layout = ArrayLayout::<4>::new(&[2, 3], &[3, 1], 0);
    assert!(layout.index_many(&[]) == layout);
    assert!(layout.slice_many(&[]) == layout);
    assert!(layout.broadcast_many(&[]) == layout);
    assert!(layout.tile_many(&[]) == layout);
    assert!(layout.merge_many(&[]).unwrap() == layout);
    assert!(layout.transpose(&[]) == layout);
}

#[test]
fn test_rank_zero_layout() {
    let layout = ArrayLayout::<2>::new(&[], &[], 5);
    assert_eq!(layout.ndim(), 0);
    assert_eq!(layout.shape(), &[] as &[usize]);
    assert_eq!(layout.strides(), &[] as &[isize]);
    let range = layout.data_range();
    assert_eq!(*range.start(), 5);
    assert_eq!(*range.end(), 5);
}

#[test]
fn test_split_with_empty_part() {
    let layout = ArrayLayout::<4>::new(&[2, 3, 4], &[12, 4, 1], 0);
    let mut splits = layout.split(2, &[0, 4]).unwrap();

    let first = splits.next().unwrap();
    assert_eq!(first.shape(), &[2, 3, 0]);
    assert_eq!(first.offset(), 0);

    let second = splits.next().unwrap();
    assert_eq!(second.shape(), &[2, 3, 4]);
    assert_eq!(second.offset(), 0);

    assert!(splits.next().is_none());
}

#[test]
fn test_index_offset_formula() {
    let layout = ArrayLayout::<4>::new(&[2, 3, 4], &[12, 4, 1], 5);
    for i in 0..3 {
        let indexed = layout.index(1, i);
        assert_eq!(indexed.offset(), layout.offset() + (i as isize) * layout.strides()[1]);
    }
}

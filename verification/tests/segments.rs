use uscope::segment::find_segment_for_time;
use uscope::types::SegmentIndexEntry;

#[test]
fn binary_search_segments() {
    let table = vec![
        SegmentIndexEntry { offset: 0, time_start_ps: 0, time_end_ps: 1000 },
        SegmentIndexEntry { offset: 100, time_start_ps: 1000, time_end_ps: 2000 },
        SegmentIndexEntry { offset: 200, time_start_ps: 2000, time_end_ps: 3000 },
    ];

    assert_eq!(find_segment_for_time(&table, 0), Some(0));
    assert_eq!(find_segment_for_time(&table, 500), Some(0));
    assert_eq!(find_segment_for_time(&table, 1000), Some(1));
    assert_eq!(find_segment_for_time(&table, 1500), Some(1));
    assert_eq!(find_segment_for_time(&table, 2500), Some(2));
    assert_eq!(find_segment_for_time(&table, 5000), Some(2));
}

#[test]
fn binary_search_empty() {
    assert_eq!(find_segment_for_time(&[], 100), None);
}

use std::collections::VecDeque;

use termplay::moov::{STCOBox, STSCBox, STSZBox};
use termplay::sample_map::{
    format_sample_data, parse_stco, parse_stsc, parse_stsz, ChunkData, SampleData,
};

#[test]
fn test_sample_data_creation() {
    let sample = SampleData {
        size: 1024,
        is_video: true,
    };

    assert_eq!(sample.size, 1024);
    assert!(sample.is_video);
}

#[test]
fn test_chunk_data_creation() {
    let chunk = ChunkData {
        is_video: false,
        offset: 2048,
        sample_sizes: vec![512, 1024, 768],
    };

    assert!(!chunk.is_video);
    assert_eq!(chunk.offset, 2048);
    assert_eq!(chunk.sample_sizes.len(), 3);
    assert_eq!(chunk.sample_sizes[0], 512);
}

#[test]
fn test_parse_stco() {
    let stco_box = STCOBox {
        size: 24,
        data: vec![
            0x00, 0x00, 0x00, 0x00, // version + flags
            0x00, 0x00, 0x00, 0x02, // entry count = 2
            0x00, 0x00, 0x10, 0x00, // offset 1 = 4096
            0x00, 0x00, 0x20, 0x00, // offset 2 = 8192
        ],
    };

    let offsets = parse_stco(&stco_box);
    assert_eq!(offsets.len(), 2);
    assert_eq!(offsets[0], 4096);
    assert_eq!(offsets[1], 8192);
}

#[test]
fn test_parse_stsc() {
    let stsc_box = STSCBox {
        size: 28,
        data: vec![
            0x00, 0x00, 0x00, 0x00, // version + flags
            0x00, 0x00, 0x00, 0x01, // entry count = 1
            0x00, 0x00, 0x00, 0x01, // first chunk = 1
            0x00, 0x00, 0x00, 0x02, // samples per chunk = 2
            0x00, 0x00, 0x00, 0x01, // sample description index = 1
        ],
    };

    let chunk_offsets = vec![4096, 8192];
    let result = parse_stsc(&stsc_box, chunk_offsets);

    assert_eq!(result.len(), 2);
    assert_eq!(result[0], (4096, 2));
    assert_eq!(result[1], (8192, 2));
}

#[test]
fn test_parse_stsz_with_general_size() {
    let stsz_box = STSZBox {
        size: 20,
        data: vec![
            0x00, 0x00, 0x00, 0x00, // version + flags
            0x00, 0x00, 0x04, 0x00, // general size = 1024
            0x00, 0x00, 0x00, 0x02, // sample count = 2
        ],
    };

    let chunk_offsets = vec![(4096, 2)];
    let result = parse_stsz(&stsz_box, chunk_offsets, true);

    assert_eq!(result.len(), 1);
    let chunk = &result[0];
    assert!(chunk.is_video);
    assert_eq!(chunk.offset, 4096);
    assert_eq!(chunk.sample_sizes.len(), 2);
    assert_eq!(chunk.sample_sizes[0], 1024);
    assert_eq!(chunk.sample_sizes[1], 1024);
}

#[test]
fn test_parse_stsz_with_individual_sizes() {
    let stsz_box = STSZBox {
        size: 28,
        data: vec![
            0x00, 0x00, 0x00, 0x00, // version + flags
            0x00, 0x00, 0x00, 0x00, // general size = 0 (use individual sizes)
            0x00, 0x00, 0x00, 0x02, // sample count = 2
            0x00, 0x00, 0x02, 0x00, // sample 1 size = 512
            0x00, 0x00, 0x04, 0x00, // sample 2 size = 1024
        ],
    };

    let chunk_offsets = vec![(4096, 2)];
    let result = parse_stsz(&stsz_box, chunk_offsets, false);

    assert_eq!(result.len(), 1);
    let chunk = &result[0];
    assert!(!chunk.is_video);
    assert_eq!(chunk.offset, 4096);
    assert_eq!(chunk.sample_sizes.len(), 2);
    assert_eq!(chunk.sample_sizes[0], 512);
    assert_eq!(chunk.sample_sizes[1], 1024);
}

#[test]
fn test_format_sample_data() {
    let mut chunk_data = VecDeque::new();

    chunk_data.push_back(ChunkData {
        is_video: false,
        offset: 8192,
        sample_sizes: vec![256, 512],
    });

    chunk_data.push_back(ChunkData {
        is_video: true,
        offset: 4096,
        sample_sizes: vec![1024],
    });

    let sample_data = format_sample_data(chunk_data);

    assert_eq!(sample_data.len(), 3);

    assert!(sample_data[0].is_video);
    assert_eq!(sample_data[0].size, 1024);

    assert!(!sample_data[1].is_video);
    assert_eq!(sample_data[1].size, 256);
    assert!(!sample_data[2].is_video);
    assert_eq!(sample_data[2].size, 512);
}

fn words(ws: &[u32]) -> Vec<u8> {
    ws.iter().flat_map(|w| w.to_be_bytes()).collect()
}

#[test]
fn stsc_entries_cover_chunk_ranges() {
    // chunks 1-2 hold three samples, chunks 3 on hold one
    let stsc = STSCBox { size: 0, data: words(&[0, 2, 1, 3, 1, 3, 1, 1]) };
    let result = parse_stsc(&stsc, vec![10, 20, 30, 40]);
    assert_eq!(result, vec![(10, 3), (20, 3), (30, 1), (40, 1)]);
}

#[test]
fn stsc_picks_largest_first_chunk_not_above() {
    let stsc = STSCBox { size: 0, data: words(&[0, 3, 1, 5, 1, 4, 2, 1, 2, 7, 1]) };
    let result = parse_stsc(&stsc, vec![1, 2, 3, 4]);
    assert_eq!(result, vec![(1, 5), (2, 7), (3, 7), (4, 2)]);
}

#[test]
fn stsz_table_is_shared_across_chunks() {
    let stsz = STSZBox { size: 0, data: words(&[0, 0, 3, 10, 20, 30]) };
    let result = parse_stsz(&stsz, vec![(100, 1), (200, 2)], true);
    assert_eq!(result.len(), 2);
    assert_eq!(result[0].sample_sizes, vec![10]);
    assert_eq!(result[1].sample_sizes, vec![20, 30]);
    assert_eq!(result[1].offset, 200);
}

#[test]
fn chunks_at_equal_offsets_keep_their_order() {
    let mut chunk_data = VecDeque::new();
    chunk_data.push_back(ChunkData { is_video: true, offset: 50, sample_sizes: vec![1] });
    chunk_data.push_back(ChunkData { is_video: false, offset: 50, sample_sizes: vec![2] });
    chunk_data.push_back(ChunkData { is_video: true, offset: 10, sample_sizes: vec![3, 4] });
    let samples = format_sample_data(chunk_data);
    let sizes: Vec<u32> = samples.iter().map(|s| s.size).collect();
    assert_eq!(sizes, vec![3, 4, 1, 2]);
    assert!(!samples[3].is_video);
}

#[test]
fn empty_chunk_list_gives_empty_map() {
    let samples = format_sample_data(VecDeque::new());
    assert!(samples.is_empty());
}

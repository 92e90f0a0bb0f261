use rcsfs::conversion::{
    merge_chunk_stats, partition_body, process_chunk, split_header, truncate_line, ChunkOutput,
    ConversionStats, CsfRecord, RecordAssembler,
};

const HEADER: &str = "  Header line 1\nHeader line 2\nHeader line 3\nHeader line 4\nHeader line 5\n";
const OCCUPATION: &str = "5s ( 2)  4d-( 4)  4d ( 6)  5p-( 2)  5p ( 4)  6s ( 2)";
const INTERMEDIATE: &str = "3/2               2";
const FINAL: &str = "4-";

fn minimal_csf() -> String {
    let mut content = String::from(HEADER);
    for _ in 0..2 {
        content.push_str(OCCUPATION);
        content.push('\n');
        content.push_str(INTERMEDIATE);
        content.push('\n');
        content.push_str(FINAL);
        content.push('\n');
    }
    content
}

fn long_line_csf(line_length: usize) -> String {
    let mut content = String::from(HEADER);
    let long_string = "x".repeat(line_length);
    for _ in 0..3 {
        content.push_str(&format!("  {}  \n", long_string));
        content.push_str("                  3/2               2\n");
        content.push_str("                                          4-\n");
    }
    content
}

fn large_csf(csf_count: usize) -> String {
    let mut content = String::from(HEADER);
    for _ in 0..csf_count {
        content.push_str("  5s ( 2)  4d-( 4)  4d ( 6)  5p-( 2)  5p ( 4)  6s ( 2)\n");
        content.push_str("                  3/2               2\n");
        content.push_str("                                          4-\n");
    }
    content
}

fn rows(records: &[CsfRecord]) -> Vec<(String, String, String)> {
    records
        .iter()
        .map(|r| (r.occupation.clone(), r.intermediate.clone(), r.final_coupling.clone()))
        .collect()
}

/// Line by line, as a sequential conversion reads a file.
fn sequential(content: &str, max_line_len: usize) -> (Vec<String>, Vec<CsfRecord>, ConversionStats) {
    let mut assembler = RecordAssembler::new(max_line_len);
    let mut records = Vec::new();
    for line in content.lines() {
        if let Some(record) = assembler.push_line(line) {
            records.push(record);
        }
    }
    (assembler.header_lines().clone(), records, assembler.stats())
}

/// Chunk by chunk, the chunks handled out of order and put back by index.
fn chunked(
    content: &str,
    max_line_len: usize,
    chunk_size: usize,
    worker_count: usize,
) -> (Vec<String>, Vec<CsfRecord>, ConversionStats) {
    let lines: Vec<String> = content.lines().map(|l| l.to_string()).collect();
    let (header, body) = split_header(&lines);
    let chunks = partition_body(&body, chunk_size);
    let mut slots: Vec<Option<ChunkOutput>> = (0..chunks.len()).map(|_| None).collect();
    for worker in (0..worker_count).rev() {
        for (i, chunk) in chunks.iter().enumerate().rev() {
            if i % worker_count == worker {
                slots[i] = Some(process_chunk(chunk, max_line_len));
            }
        }
    }
    let outputs: Vec<ChunkOutput> = slots.into_iter().map(|s| s.unwrap()).collect();
    let stats = merge_chunk_stats(&outputs).unwrap();
    let records = outputs.into_iter().flat_map(|o| o.records).collect();
    (header, records, stats)
}

#[test]
fn test_parquet_io_basic() {
    let (_, _, stats) = sequential(&minimal_csf(), 256);
    assert_eq!(stats.csf_count, 2, "Should process 2 CSFs");
    assert_eq!(stats.total_lines, 6, "Should have 6 total lines (2 CSFs * 3 lines)");
}

#[test]
fn test_line_truncation() {
    let (_, records, stats) = sequential(&long_line_csf(500), 256);
    assert!(stats.truncated_count > 0, "Should truncate some lines");
    assert!(stats.truncated_count <= 9, "Should truncate at most 9 lines (3 per CSF)");
    assert_eq!(stats.truncated_count, 3);
    assert_eq!(records[0].occupation.chars().count(), 256);
}

#[test]
fn test_parallel_processing_basic() {
    let (_, _, stats) = chunked(&minimal_csf(), 256, 1000, 2);
    assert_eq!(stats.csf_count, 2, "Should process 2 CSFs");
}

#[test]
fn test_parallel_processing_single_worker() {
    let (_, records, stats) = chunked(&minimal_csf(), 256, 1000, 1);
    assert_eq!(stats.csf_count, 2);
    assert_eq!(records.len(), 2);
}

#[test]
fn test_parallel_processing_many_workers() {
    let (_, records, stats) = chunked(&minimal_csf(), 256, 1000, 8);
    assert_eq!(stats.csf_count, 2);
    assert_eq!(records.len(), 2);
}

#[test]
fn test_empty_csf() {
    let (header, records, stats) = sequential(HEADER, 256);
    assert_eq!(stats.csf_count, 0, "Should have 0 CSFs");
    assert_eq!(stats.total_lines, 0);
    assert!(records.is_empty());
    assert_eq!(header.len(), 5);
    assert_eq!(header[0], "  Header line 1");
}

#[test]
fn test_incomplete_csf() {
    let content = format!("{}{}\n{}\n", HEADER, OCCUPATION, INTERMEDIATE);
    let (_, records, stats) = sequential(&content, 256);
    assert_eq!(stats.csf_count, 0, "Should skip incomplete CSF");
    assert_eq!(stats.total_lines, 2);
    assert!(records.is_empty());
}

#[test]
fn test_very_small_max_line_len() {
    let (_, records, stats) = sequential(&minimal_csf(), 10);
    assert!(stats.truncated_count > 0, "Should truncate lines");
    assert_eq!(stats.truncated_count, 4);
    assert_eq!(records[0].occupation, "5s ( 2)  4");
}

#[test]
fn test_large_file_sequential() {
    let (_, _, stats) = sequential(&large_csf(1000), 256);
    assert_eq!(stats.csf_count, 1000, "Should process all 1000 CSFs");
}

#[test]
fn test_large_file_parallel() {
    let (_, _, stats) = chunked(&large_csf(1000), 256, 5000, 4);
    assert_eq!(stats.csf_count, 1000, "Should process all 1000 CSFs");
}

#[test]
fn test_large_file_integrity() {
    let content = large_csf(100);
    let (_, _, stats_seq) = sequential(&content, 256);
    let (_, _, stats_par) = chunked(&content, 256, 5000, 4);
    assert_eq!(stats_seq.csf_count, stats_par.csf_count, "CSF count should match");
    assert_eq!(stats_seq.total_lines, stats_par.total_lines, "Total lines should match");
    assert_eq!(stats_seq.truncated_count, stats_par.truncated_count, "Truncated count should match");
}

#[test]
fn sequential_and_chunked_agree_for_every_chunk_size_and_worker_count() {
    let mut content = String::from(HEADER);
    for i in 0..7 {
        content.push_str(&format!("occupation {} {}\n", i, "y".repeat(i * 3)));
        content.push_str(&format!("intermediate {}\n", i));
        content.push_str(&format!("final {}\n", i));
    }
    content.push_str("dangling one\ndangling two\n");
    let (header, records, stats) = sequential(&content, 16);
    assert_eq!(stats, ConversionStats { csf_count: 7, total_lines: 23, truncated_count: 5 });
    for chunk_size in [0, 1, 2, 3, 6, 7, 8, 30000] {
        for workers in [1, 2, 4, 8] {
            let (h, r, s) = chunked(&content, 16, chunk_size, workers);
            assert_eq!(h, header);
            assert_eq!(s, stats);
            assert_eq!(rows(&r), rows(&records));
        }
    }
}

#[test]
fn oversized_line_counts_once() {
    let mut content = String::from(HEADER);
    content.push_str(&"z".repeat(500));
    content.push('\n');
    content.push_str("short\nshort\n");
    let (_, records, stats) = sequential(&content, 256);
    assert_eq!(stats.truncated_count, 1);
    assert_eq!(stats.csf_count, 1);
    assert_eq!(records[0].occupation, "z".repeat(256));
}

#[test]
fn header_only_file_shorter_than_five_lines() {
    let (header, records, stats) = sequential("a\nb\n", 256);
    assert_eq!(header, vec!["a".to_string(), "b".to_string()]);
    assert!(records.is_empty());
    assert_eq!(stats, ConversionStats { csf_count: 0, total_lines: 0, truncated_count: 0 });
}

#[test]
fn partition_cuts_whole_records() {
    let body: Vec<String> = (0..10).map(|i| i.to_string()).collect();
    let chunks = partition_body(&body, 2);
    let sizes: Vec<usize> = chunks.iter().map(|c| c.len()).collect();
    assert_eq!(sizes, vec![6, 4]);
    assert_eq!(chunks[1][0], "6");
    assert!(partition_body(&[], 3).is_empty());
}

#[test]
fn truncate_counts_characters() {
    assert_eq!(truncate_line("αβγδ", 2), ("αβ".to_string(), true));
    assert_eq!(truncate_line("abc", 3), ("abc".to_string(), false));
}

#[test]
fn merge_reports_overflow() {
    let big = ConversionStats { csf_count: usize::MAX, total_lines: 1, truncated_count: 0 };
    let outputs = vec![
        ChunkOutput { records: Vec::new(), stats: big },
        ChunkOutput { records: Vec::new(), stats: big },
    ];
    assert_eq!(merge_chunk_stats(&outputs), None);
}

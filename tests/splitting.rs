use external_sorting::{parse_chunk, random_block, ProcessHugeFile, DEFAULT_CAPACITY, DEFAULT_CEILING};

fn config(capacity: usize, ceiling: usize) -> ProcessHugeFile {
    ProcessHugeFile {
        source: String::from("./huge.txt"),
        chunks_folder: String::from("chunks"),
        capacity,
        ceiling,
    }
}

/// Drives the splitter's decisions over an in-memory source whose reads fill
/// the buffer as far as the source allows.
fn split(p: &ProcessHugeFile, source: &[u8]) -> Vec<Vec<u8>> {
    let mut chunks = Vec::new();
    let mut pos = 0;
    for idx in 0..p.ceiling {
        let n = p.capacity.min(source.len() - pos);
        chunks.push(source[pos..pos + n].to_vec());
        pos += n;
        if p.is_final_read(idx, n) {
            break;
        }
    }
    chunks
}

#[test]
fn defaults() {
    let p = ProcessHugeFile::new(String::from("./huge.txt"));
    assert_eq!(p.source, "./huge.txt");
    assert_eq!(p.chunks_folder, "chunks");
    assert_eq!(p.capacity, 65535);
    assert_eq!(p.ceiling, 65535);
    assert_eq!(DEFAULT_CAPACITY, 65535);
    assert_eq!(DEFAULT_CEILING, 65535);
}

#[test]
fn chunk_paths() {
    let p = ProcessHugeFile::new(String::from("./huge.txt"));
    assert_eq!(p.get_path_to_chunk_by_idx(0), "chunks/chunk_0.txt");
    assert_eq!(p.get_path_to_chunk_by_idx(12), "chunks/chunk_12.txt");
    let q = config(4, 3);
    let q = ProcessHugeFile { chunks_folder: String::from("out/parts"), ..q };
    assert_eq!(q.get_path_to_chunk_by_idx(65534), "out/parts/chunk_65534.txt");
}

#[test]
fn final_read_decisions() {
    let p = config(4, 3);
    assert!(!p.is_final_read(0, 4));
    assert!(p.is_final_read(0, 3));
    assert!(p.is_final_read(1, 0));
    assert!(!p.is_final_read(1, 4));
    assert!(p.is_final_read(2, 4));
}

#[test]
fn concatenation_reproduces_source() {
    let p = config(4, 100);
    for size in [0usize, 1, 3, 4, 5, 8, 13, 40] {
        let source: Vec<u8> = (0..size).map(|i| b'0' + (i % 10) as u8).collect();
        let chunks = split(&p, &source);
        assert_eq!(chunks.concat(), source);
        assert!(chunks.iter().all(|c| c.len() <= 4));
    }
}

#[test]
fn chunk_counts() {
    let p = config(4, 5);
    // not a multiple of the capacity: ceil(S / C) chunks
    assert_eq!(split(&p, &[b'1'; 9]).len(), 3);
    assert_eq!(split(&p, &[b'1'; 1]).len(), 1);
    // a multiple of the capacity: one more, empty, chunk after the last full one
    let exact = split(&p, &[b'1'; 8]);
    assert_eq!(exact.len(), 3);
    assert!(exact[2].is_empty());
    // filling the ceiling: exactly the ceiling, the rest dropped
    let full = split(&p, &[b'1'; 20]);
    assert_eq!(full.len(), 5);
    let over = split(&p, &[b'2'; 31]);
    assert_eq!(over.len(), 5);
    assert_eq!(over.concat(), vec![b'2'; 20]);
}

#[test]
fn empty_source_gives_one_empty_chunk() {
    let chunks = split(&config(4, 5), b"");
    assert_eq!(chunks, vec![Vec::<u8>::new()]);
}

#[test]
fn one_small_source_one_sorted_chunk() {
    let p = config(8, 65535);
    let chunks = split(&p, b"5 3 1");
    assert_eq!(chunks.len(), 1);
    assert_eq!(p.sort_chunk(&chunks[0]), Ok(b"1 3 5".to_vec()));
}

#[test]
fn source_of_two_capacities_sorted_per_chunk() {
    let p = config(6, 10);
    let chunks = split(&p, b"9 7 5 8 6 4 ");
    assert_eq!(chunks.len(), 3);
    assert_eq!(p.sort_chunk(&chunks[0]), Ok(b"5 7 9".to_vec()));
    assert_eq!(p.sort_chunk(&chunks[1]), Ok(b"4 6 8".to_vec()));
    assert!(chunks[2].is_empty());
}

#[test]
fn no_order_across_chunks() {
    let p = config(6, 10);
    let chunks = split(&p, b"9 7 5 1 2 3");
    let first = parse_chunk(&p.sort_chunk(&chunks[0]).unwrap()).unwrap();
    let second = parse_chunk(&p.sort_chunk(&chunks[1]).unwrap()).unwrap();
    assert_eq!(first, vec![5, 7, 9]);
    assert_eq!(second, vec![1, 2, 3]);
    assert!(first.iter().max() > second.iter().min());
}

#[test]
fn random_block_is_sortable_text() {
    let block = random_block(50);
    let values = parse_chunk(&block).unwrap();
    assert_eq!(values.len(), 50);
    assert!(values.iter().all(|v| (i16::MIN as i64..=i16::MAX as i64).contains(v)));
    assert!(random_block(0).is_empty());
}

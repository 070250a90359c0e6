use iter_chunks::Chunks;
use iter_chunks::IterChunks;
use iter_chunks::Source;
use iter_chunks::chunking::ChunkCollector;
use iter_chunks::model::chunk_vec;
use iter_chunks::sources::ChainSource;
use iter_chunks::sources::CycleSource;
use iter_chunks::sources::GapSource;
use iter_chunks::sources::VecSource;

#[test]
fn chunks_of_two() {
    let expected = vec![vec![1, 1], vec![2, 2], vec![3]];
    assert_eq!(chunk_vec(vec![1, 1, 2, 2, 3], 2), expected);

    let mut collected: Vec<Vec<i32>> = Vec::new();
    let mut chunks = VecSource::new(vec![1, 1, 2, 2, 3]).chunks(2);
    while let Some(chunk) = chunks.next() {
        collected.push(chunk.collect(&mut chunks));
    }
    assert_eq!(collected, expected);
}

#[test]
fn empty_input_no_chunks() {
    let empty: Vec<i32> = vec![];
    assert_eq!(chunk_vec(empty, 3), Vec::<Vec<i32>>::new());

    let empty: Vec<i32> = vec![];
    let mut chunks = VecSource::new(empty).chunks(3);
    assert!(chunks.next().is_none());
    assert!(chunks.next().is_none());
}

#[test]
fn one_full_chunk_then_none() {
    let mut chunks = VecSource::new(vec![1, 2, 3]).chunks(3);
    let chunk = chunks.next().unwrap();
    assert_eq!(chunk.collect(&mut chunks), vec![1, 2, 3]);
    assert!(chunks.next().is_none());
    assert!(chunks.next().is_none());
}

#[test]
fn chunk_vec_matches_model() {
    assert_eq!(chunk_vec(vec![1, 2, 3, 4, 5, 6], 3), vec![vec![1, 2, 3], vec![4, 5, 6]]);
    assert_eq!(chunk_vec(vec![7], 1), vec![vec![7]]);
    let nine: Vec<i32> = (1..=9).collect();
    assert_eq!(chunk_vec(nine, 4), vec![vec![1, 2, 3, 4], vec![5, 6, 7, 8], vec![9]]);
}

#[test]
fn drop_mid_chunk_skips_prepulled() {
    // Read a single item of the first chunk, then drop the chunk: the item
    // it held pre-pulled is spent, and the next chunk goes on from where
    // the source cursor sits.
    let mut chunks = VecSource::new(vec![1, 2, 3, 4, 5]).chunks(2);
    let mut chunk1 = chunks.next().unwrap();
    assert_eq!(chunk1.next(&mut chunks), Some(1));
    drop(chunk1);
    let chunk2 = chunks.next().unwrap();
    assert_eq!(chunk2.collect(&mut chunks), vec![2, 3]);
}

#[test]
fn drop_unread_chunk_skips_prepulled() {
    // Drop the first chunk without reading anything: its pre-pulled item is
    // skipped for good, neither buffered nor replayed.
    let mut chunks = VecSource::new(vec![1, 2, 3, 4, 5]).chunks(2);
    let chunk1 = chunks.next().unwrap();
    drop(chunk1);
    let chunk2 = chunks.next().unwrap();
    assert_eq!(chunk2.collect(&mut chunks), vec![2, 3]);
}

#[test]
fn exhausted_chunk_stays_exhausted() {
    let mut chunks = VecSource::new(vec![1, 2]).chunks(5);
    let mut chunk = chunks.next().unwrap();
    assert_eq!(chunk.next(&mut chunks), Some(1));
    assert_eq!(chunk.next(&mut chunks), Some(2));
    assert_eq!(chunk.next(&mut chunks), None);
    assert_eq!(chunk.next(&mut chunks), None);
    assert_eq!(chunk.next(&mut chunks), None);
}

#[test]
fn failed_pull_spends_quota_for_good() {
    // The quota is reserved before each pull: when the pull comes back
    // empty, the chunk ends for good, even though this source would yield
    // items again right after.
    let mut chunks = GapSource::new(3).chunks(4);
    let mut chunk = chunks.next().unwrap();
    assert_eq!(chunk.next(&mut chunks), Some(1));
    assert_eq!(chunk.next(&mut chunks), Some(2));
    assert_eq!(chunk.next(&mut chunks), None);
    assert_eq!(chunk.next(&mut chunks), None);
    assert_eq!(chunk.size_hint(&chunks), (0, None));
}

#[test]
fn resumable_cycle_alternates() {
    // A source cycling through two items and an exhaustion signal, chunked
    // by 4: a two-item chunk, one "no chunk", and again, forever.
    let mut chunks = CycleSource::new(vec![1, 2]).chunks(4);
    for _ in 0..3 {
        let chunk = chunks.next().unwrap();
        assert_eq!(chunk.collect(&mut chunks), vec![1, 2]);
        assert!(chunks.next().is_none());
    }
}

#[test]
fn size_hint_conservative_at_every_step() {
    // Record the hint before every pull of one chunk, then hold each hint
    // against the count of items the chunk actually yielded after it.
    let mut chunks = ChainSource::new(vec![1, 2], vec![3, 4, 5]).chunks(4);
    let mut chunk = chunks.next().unwrap();
    let mut hints: Vec<(usize, Option<usize>)> = Vec::new();
    loop {
        hints.push(chunk.size_hint(&chunks));
        match chunk.next(&mut chunks) {
            Some(_) => {}
            None => break,
        }
    }
    let yielded = hints.len() - 1;
    for (i, (lower, upper)) in hints.iter().enumerate() {
        let actual = yielded - i;
        assert!(*lower <= actual);
        if let Some(u) = upper {
            assert!(actual <= *u);
        }
    }
}

#[test]
fn for_each_collects_all_chunks() {
    let mut chunks = VecSource::new(vec![1, 2, 3, 4, 5]).chunks(2);
    let mut collector = ChunkCollector::new();
    chunks.for_each(&mut collector);
    assert_eq!(collector.seen, vec![vec![1, 2], vec![3, 4], vec![5]]);
}

#[test]
fn for_each_resumes_after_gap() {
    // One "no chunk" per exhaustion event: each `for_each` round ends
    // there, and the next round goes on with fresh items.
    let mut chunks: Chunks<GapSource> = GapSource::new(3).chunks(4);
    let mut collector = ChunkCollector::new();
    chunks.for_each(&mut collector);
    assert_eq!(collector.seen, vec![vec![1, 2]]);
    chunks.for_each(&mut collector);
    assert_eq!(collector.seen, vec![vec![1, 2], vec![4, 5]]);
}

#[test]
fn gap_at_every_count_means_no_items() {
    let mut chunks = GapSource::new(1).chunks(2);
    assert!(chunks.next().is_none());
    assert!(chunks.next().is_none());
}

#[test]
fn chain_source_yields_head_then_tail() {
    let mut src = ChainSource::new(vec![1], vec![2, 3]);
    assert_eq!(src.pull(), Some(1));
    assert_eq!(src.pull(), Some(2));
    assert_eq!(src.pull(), Some(3));
    assert_eq!(src.pull(), None);
    assert_eq!(src.pull(), None);
}

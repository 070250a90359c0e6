use iter_chunks::IterChunks;
use iter_chunks::Source;
use iter_chunks::sources::ChainSource;
use iter_chunks::sources::GapSource;
use iter_chunks::sources::VecSource;

fn assert_send<T: Send>(_: &T) {}

fn assert_sync<T: Sync>(_: &T) {}

#[test]
fn test_impls() {
    let chunks = VecSource::new(vec![0i32]).chunks(1);

    assert_sync(&chunks);
    assert_send(&chunks);
}

#[test]
fn test_chunks() {
    let arr = vec![0, 0, 0, 1, 1, 1, 2, 2, 2, 3, 3];
    let mut i = 0;
    let mut chunks = VecSource::new(arr).chunks(3);

    while let Some(mut chunk) = chunks.next() {
        while let Some(v) = chunk.next(&mut chunks) {
            assert_eq!(v, i);
        }
        i += 1;
    }
    assert_eq!(i, 4);
}

#[test]
fn test_chunk_resumable() {
    let inner = GapSource::new(3);
    let mut chunks = inner.chunks(4);
    while let Some(chunk) = chunks.next() {
        assert_eq!(chunk.collect(&mut chunks), vec![1, 2]);
    }
    while let Some(chunk) = chunks.next() {
        assert_eq!(chunk.collect(&mut chunks), vec![4, 5]);
    }
    while let Some(chunk) = chunks.next() {
        assert_eq!(chunk.collect(&mut chunks), vec![7, 8]);
    }

    let inner = GapSource::new(6);
    let mut chunks = inner.chunks(4);

    assert_eq!(chunks.next().unwrap().collect(&mut chunks), vec![1, 2, 3, 4]);
    assert_eq!(chunks.next().unwrap().collect(&mut chunks), vec![5]);
    assert!(chunks.next().is_none());

    assert_eq!(chunks.next().unwrap().collect(&mut chunks), vec![7, 8, 9, 10]);
    assert_eq!(chunks.next().unwrap().collect(&mut chunks), vec![11]);
    assert!(chunks.next().is_none());
}

#[test]
fn test_chunks_count() {
    let arr: Vec<bool> = vec![];
    let mut i = 0;
    let mut chunks = VecSource::new(arr).chunks(3);

    while let Some(mut chunk) = chunks.next() {
        while let Some(_) = chunk.next(&mut chunks) {}
        i += 1;
    }
    assert_eq!(i, 0);

    let arr: Vec<bool> = vec![false; 3];
    let mut i = 0;
    let mut chunks = VecSource::new(arr).chunks(3);

    while let Some(mut chunk) = chunks.next() {
        while let Some(_) = chunk.next(&mut chunks) {}
        i += 1;
    }
    assert_eq!(i, 1);
}

#[test]
fn test_size_hint() {
    let iter = ChainSource::new(vec![1, 2, 3, 4], vec![5, 6, 7]);
    let (lower, upper) = iter.size_hint();
    assert_eq!(lower, 4);
    assert_eq!(upper, Some(7));
    let mut chunks = iter.chunks(3);

    let mut chunk1 = chunks.next().unwrap();

    assert_eq!(chunk1.size_hint(&chunks), (3, Some(3)));
    chunk1.next(&mut chunks).unwrap();
    assert_eq!(chunk1.size_hint(&chunks), (2, Some(2)));

    while let Some(_) = chunk1.next(&mut chunks) {}

    let mut chunk2 = chunks.next().unwrap();
    assert_eq!(chunk2.size_hint(&chunks), (1, Some(3)));
    while let Some(_) = chunk2.next(&mut chunks) {}

    let mut chunk3 = chunks.next().unwrap();
    assert_eq!(chunk3.size_hint(&chunks), (1, Some(1)));
    chunk3.next(&mut chunks).unwrap();
    assert_eq!(chunk3.size_hint(&chunks), (0, Some(0)));
}

use pcp_search::chunk_vec::{Chunk, ChunkVec, ChunkWriter, CHUNK_MB, CHUNK_SIZE};
use pcp_search::stats::Counters;

#[test]
fn a_chunk_holds_64_mib() {
    assert_eq!(CHUNK_MB, 64);
    assert_eq!(CHUNK_SIZE, 64 * 1024 * 1024);
    assert_eq!(Chunk::<u64>::cap(), CHUNK_SIZE / 8);
    assert_eq!(Chunk::<[u8; 3]>::cap(), CHUNK_SIZE / 3);
    assert_eq!(Chunk::<()>::cap(), 0);
}

#[test]
fn the_pool_allocates_only_when_empty() {
    let mut counters = Counters::new();
    let mut pool: ChunkVec<u64> = ChunkVec::new();
    assert_eq!(pool.len(), 0);
    let a = pool.get(&mut counters);
    let b = pool.get_with(7, &mut counters);
    assert_eq!(counters.chunk_alloc, 2);
    assert_eq!(a.len(), 0);
    assert_eq!(b.as_slice(), &[7]);
    pool.offer(b);
    assert_eq!(pool.len(), 1);
    let c = pool.get(&mut counters);
    assert_eq!(c.len(), 0);
    assert_eq!(counters.chunk_alloc, 2);
    assert_eq!(pool.len(), 0);
    assert!(pool.take().is_none());
    pool.offer(a);
    pool.offer(c);
    assert_eq!(counters.chunk_alloc - counters.chunk_dealloc, pool.len());
    pool.release(&mut counters);
    assert_eq!(pool.len(), 0);
    assert_eq!(counters.chunk_alloc, counters.chunk_dealloc);
}

#[test]
fn a_writer_hands_back_what_does_not_fit() {
    let mut counters = Counters::new();
    let mut pool: ChunkVec<[u64; 1024]> = ChunkVec::new();
    let cap = Chunk::<[u64; 1024]>::cap();
    assert_eq!(cap, 8192);
    let mut writer = pool.get(&mut counters).writer();
    for i in 0..cap {
        assert!(writer.push([i as u64; 1024]).is_ok());
    }
    assert_eq!(writer.push([9; 1024]), Err([9; 1024]));
    let chunk = Chunk::from(writer);
    assert_eq!(chunk.len(), cap);
    assert_eq!(chunk.as_slice()[5][0], 5);
    let mut chunk = chunk;
    chunk.clear();
    assert_eq!(chunk.len(), 0);
    let mut again: ChunkWriter<[u64; 1024]> = chunk.writer();
    assert!(again.push([1; 1024]).is_ok());
    Chunk::from(again).free(&mut counters);
    assert_eq!(counters.chunk_dealloc, 1);
}

#[test]
fn pools_can_be_joined() {
    let mut counters = Counters::new();
    let mut a: ChunkVec<u8> = ChunkVec::new();
    let mut b: ChunkVec<u8> = ChunkVec::new();
    let x = a.get(&mut counters);
    let y = b.get_with(1, &mut counters);
    a.offer(x);
    b.offer(y);
    a.absorb(&mut b);
    assert_eq!(a.len(), 2);
    assert_eq!(b.len(), 0);
    assert_eq!(a.take().unwrap().len(), 0);
    let records = Chunk::from_vec(vec![3u8, 4]).into_vec();
    assert_eq!(records, vec![3, 4]);
}

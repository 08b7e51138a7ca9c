use corrupting_copy::CorruptingCopy;
use corrupting_copy::CorruptionMode;
use corrupting_copy::MemSink;
use corrupting_copy::MemSource;
use corrupting_copy::StreamError;

const MIB: u64 = 1048576;

/// Run one whole copy over an in-memory stream and return the outcome and
/// the bytes the sink accepted.
fn run_copy(
    data: Vec<u8>,
    chunk: usize,
    interrupts: u64,
    fail_at_end: bool,
    capacity: usize,
) -> (Result<u64, StreamError>, Vec<u8>) {
    let mut cc = CorruptingCopy::new();
    let mut src = MemSource {
        data,
        cursor: 0,
        chunk,
        pending_interrupts: interrupts,
        fail_at_end,
    };
    let mut sink = MemSink::new(capacity);
    let res = cc.copy(&mut src, &mut sink);
    (res, sink.data)
}

/// The output the algorithm owes for `input` streamed from position 0 in
/// full 64 KiB chunks: intensity is fixed per chunk at the chunk's starting
/// position, and every period-th absolute position gets its two low bits
/// flipped.
fn expected_output(input: &[u8]) -> Vec<u8> {
    let mut out = input.to_vec();
    let len = out.len() as u64;
    let mut chunk_start: u64 = 0;
    while chunk_start < len {
        let chunk_end = (chunk_start + 65536).min(len);
        let intensity = chunk_start / MIB;
        if intensity > 0 {
            let period = 10_000_000 / intensity;
            let mut p = chunk_start.div_ceil(period) * period;
            while p < chunk_end {
                if p >= chunk_start {
                    out[p as usize] ^= 0x3;
                }
                p += period;
            }
        }
        chunk_start = chunk_end;
    }
    out
}

#[test]
fn new_starts_at_origin_in_bitflip_mode() {
    let cc = CorruptingCopy::new();
    assert_eq!(cc.pos, 0);
    assert_eq!(cc.mode, CorruptionMode::BitFlip);
}

#[test]
fn empty_input_gives_empty_output_and_zero_count() {
    let (res, out) = run_copy(Vec::new(), 0, 0, false, usize::MAX);
    assert_eq!(res, Ok(0));
    assert!(out.is_empty());
}

#[test]
fn below_one_mebibyte_everything_passes_unchanged() {
    let data: Vec<u8> = (0..100_000u32).map(|i| (i % 251) as u8).collect();
    let (res, out) = run_copy(data.clone(), 0, 0, false, usize::MAX);
    assert_eq!(res, Ok(100_000));
    assert_eq!(out, data);
}

#[test]
fn large_zero_stream_matches_the_position_rule() {
    let total = (MIB + 20_000_000) as usize;
    let data = vec![0u8; total];
    let (res, out) = run_copy(data, 0, 0, false, usize::MAX);
    assert_eq!(res, Ok(total as u64));
    assert_eq!(out.len(), total);
    // The first mebibyte is untouched.
    for p in 0..MIB as usize {
        assert_eq!(out[p], 0, "corrupted below 1 MiB at {}", p);
    }
    // Past it, exactly the positions the rule names carry the mask.
    let expect = expected_output(&vec![0u8; total]);
    let mut corrupted = 0u64;
    for p in 0..total {
        assert_eq!(out[p], expect[p], "mismatch at {}", p);
        if out[p] != 0 {
            assert_eq!(out[p], 0x03);
            corrupted += 1;
        }
    }
    assert!(corrupted > 0);
}

#[test]
fn first_corrupted_position_of_a_zero_stream() {
    // With 64 KiB chunks from position 0, the earliest position past 1 MiB
    // that falls on its chunk's period is 3,333,333: its chunk starts at
    // 3,276,800, in the third whole mebibyte, so the period is
    // 10,000,000 / 3 = 3,333,333.
    let total = 3_400_000usize;
    let (res, out) = run_copy(vec![0u8; total], 0, 0, false, usize::MAX);
    assert_eq!(res, Ok(total as u64));
    for p in 0..total {
        if p == 3_333_333 {
            assert_eq!(out[p], 0x03);
        } else {
            assert_eq!(out[p], 0x00, "unexpected corruption at {}", p);
        }
    }
}

#[test]
fn same_input_and_chunking_give_identical_output() {
    let data: Vec<u8> = (0..4_000_000u32).map(|i| (i % 241) as u8).collect();
    let (res1, out1) = run_copy(data.clone(), 0, 0, false, usize::MAX);
    let (res2, out2) = run_copy(data, 0, 0, false, usize::MAX);
    assert_eq!(res1, Ok(4_000_000));
    assert_eq!(res1, res2);
    assert_eq!(out1, out2);
}

#[test]
fn an_interrupted_source_yields_the_same_output() {
    let data: Vec<u8> = (0..2_000_000u32).map(|i| (i % 239) as u8).collect();
    let (res_plain, out_plain) = run_copy(data.clone(), 0, 0, false, usize::MAX);
    let (res_once, out_once) = run_copy(data.clone(), 0, 1, false, usize::MAX);
    let (res_thrice, out_thrice) = run_copy(data, 0, 3, false, usize::MAX);
    assert_eq!(res_plain, Ok(2_000_000));
    assert_eq!(res_once, res_plain);
    assert_eq!(res_thrice, res_plain);
    assert_eq!(out_once, out_plain);
    assert_eq!(out_thrice, out_plain);
}

#[test]
fn two_passes_restore_the_original_bytes() {
    let data: Vec<u8> = (0..4_300_000u32).map(|i| (i % 253) as u8).collect();
    let (res1, once) = run_copy(data.clone(), 0, 0, false, usize::MAX);
    assert_eq!(res1, Ok(4_300_000));
    assert_ne!(once, data, "the first pass corrupted nothing");
    let (res2, twice) = run_copy(once, 0, 0, false, usize::MAX);
    assert_eq!(res2, Ok(4_300_000));
    assert_eq!(twice, data);
}

#[test]
fn read_failure_is_propagated_after_the_prefix_was_written() {
    let data: Vec<u8> = (0..50_000u32).map(|i| (i % 199) as u8).collect();
    let (res, out) = run_copy(data.clone(), 0, 0, true, usize::MAX);
    assert_eq!(res, Err(StreamError::ReadFailed));
    assert_eq!(out, data);
}

#[test]
fn write_failure_is_propagated_and_the_sink_keeps_earlier_chunks() {
    let data: Vec<u8> = (0..50_000u32).map(|i| (i % 197) as u8).collect();
    let (res, out) = run_copy(data.clone(), 8192, 0, false, 10_000);
    assert_eq!(res, Err(StreamError::WriteFailed));
    assert_eq!(out, data[..8192].to_vec());
}

#[test]
fn corrupt_buf_flips_exactly_the_periodic_position() {
    // Chunk start 9,961,472 lies in the ninth whole mebibyte: intensity 9,
    // period 1,111,111.  The lone multiple of the period in the chunk is
    // 9,999,999, at offset 38,527.
    let cc = CorruptingCopy { pos: 9_961_472, mode: CorruptionMode::BitFlip };
    let mut buf = vec![0xABu8; 65536];
    cc.corrupt_buf(&mut buf);
    for (i, b) in buf.iter().enumerate() {
        if i == 38_527 {
            assert_eq!(*b, 0xAB ^ 0x03);
        } else {
            assert_eq!(*b, 0xAB, "unexpected flip at offset {}", i);
        }
    }
}

#[test]
fn corrupt_buf_is_inert_below_the_first_mebibyte() {
    let cc = CorruptingCopy { pos: 1_048_575, mode: CorruptionMode::BitFlip };
    let mut buf = vec![0x5Au8; 65536];
    cc.corrupt_buf(&mut buf);
    assert!(buf.iter().all(|b| *b == 0x5A));
}

#[test]
fn process_chunk_corrupts_and_advances_position() {
    let mut cc = CorruptingCopy::new();
    let mut first = vec![0u8; 9_961_472];
    cc.process_chunk(&mut first);
    assert_eq!(cc.pos, 9_961_472);
    assert!(first.iter().all(|b| *b == 0), "one whole chunk keeps intensity 0");
    let mut second = vec![0u8; 65536];
    cc.process_chunk(&mut second);
    assert_eq!(cc.pos, 9_961_472 + 65536);
    // Same chunk as in the corrupt_buf test: one flip, at offset 38,527.
    for (i, b) in second.iter().enumerate() {
        if i == 38_527 {
            assert_eq!(*b, 0x03);
        } else {
            assert_eq!(*b, 0x00, "unexpected flip at offset {}", i);
        }
    }
}

#[test]
fn corruption_grows_denser_with_position() {
    let flips_at = |pos: u64| -> usize {
        let cc = CorruptingCopy { pos, mode: CorruptionMode::BitFlip };
        let mut buf = vec![0u8; 65536];
        cc.corrupt_buf(&mut buf);
        buf.iter().filter(|b| **b != 0).count()
    };
    let early = flips_at(100 * MIB);
    let late = flips_at(10_000 * MIB);
    assert!(early <= late);
    assert!(late >= 60);
}

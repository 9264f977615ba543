use fusedav_rs::blockfile::error::BlockFileError;
use fusedav_rs::blockfile::BlockFile;
use rand::seq::SliceRandom;
use rand::Rng;

fn header_size(blocks: usize) -> usize {
    20 + 9 * blocks
}

#[test]
fn block_file_test() {
    let charlist = (b'a'..b'z' + 1).collect::<Vec<u8>>();
    let mut rng = rand::thread_rng();
    let file_size = 600;
    for _ in 0..1 {
        for s in 3..33 {
            let mut file = BlockFile::create(file_size, 16).unwrap();

            let mut text: Vec<u8> = Vec::new();
            for _ in 0..file_size {
                let a = rng.gen_range(0..charlist.len());
                text.push(charlist[a]);
                if text.len() == file_size as usize {
                    break;
                }
            }

            let mut a: Vec<usize> = (0..text.len()).collect();
            a.shuffle(&mut rng);
            let mut total_write_size = 0;
            for i in a {
                if i * s >= text.len() {
                    continue;
                }

                let end = (i * s + s).min(text.len());
                let buf = &text[i * s..end];
                total_write_size += file.write(buf, i as u64 * s as u64).unwrap();
                if total_write_size == text.len() {
                    break;
                }
            }
            let image = file.into_image();

            let mut file = BlockFile::open(image.clone(), false).unwrap();
            let mut a: Vec<usize> = (0..text.len()).collect();
            a.shuffle(&mut rng);
            for i in a {
                if i + 1 >= text.len() {
                    continue;
                }
                let end = rng.gen_range(i + 1..text.len());

                let mut buf: Vec<u8> = (i..end).map(|_| 0).collect();

                file.read(&mut buf, i as u64).unwrap();
                let buf2: Vec<u8> = buf.into_iter().filter(|x| *x != 0).collect();
                assert_eq!(
                    String::from_utf8_lossy(&text[i..end]),
                    String::from_utf8_lossy(&buf2)
                );
            }
            drop(file);

            let mut file = BlockFile::open(image, false).unwrap();
            let mut a: Vec<u8> = (0..file_size).map(|_| 0).collect();
            file.read(&mut a, 0).unwrap();
            assert_eq!(String::from_utf8_lossy(&a), String::from_utf8_lossy(&text));
        }
    }
}

#[test]
fn strided_writes_in_random_order_round_trip() {
    let mut rng = rand::thread_rng();
    let text: Vec<u8> = (0..600u32).map(|i| b'a' + (i % 26) as u8).collect();
    let mut file = BlockFile::create(600, 16).unwrap();
    assert_eq!(file.block_count(), 38);

    let mut order: Vec<usize> = (0..120).collect();
    order.shuffle(&mut rng);
    let mut first_touch: Vec<usize> = Vec::new();
    for i in order {
        for block in (5 * i) / 16..=(5 * i + 4) / 16 {
            if !first_touch.contains(&block) {
                first_touch.push(block);
            }
        }
        assert_eq!(file.write(&text[5 * i..5 * i + 5], 5 * i as u64), Ok(5));
    }

    let mut file = file.reopen(false);
    let mut buf = vec![0u8; 600];
    assert_eq!(file.read(&mut buf, 0), Ok(600));
    assert_eq!(buf, text);

    assert_eq!(first_touch.len(), 38);
    let mut slots: Vec<u32> = Vec::new();
    for (slot, block) in first_touch.iter().enumerate() {
        let info = file.block_info(*block).unwrap();
        assert!(info.used);
        assert_eq!(info.block_index, slot as u32);
        slots.push(info.block_index);
    }
    slots.sort();
    assert_eq!(slots, (0..38).collect::<Vec<u32>>());
}

#[test]
fn random_writes_read_back_as_a_plain_array_would() {
    let mut rng = rand::thread_rng();
    for _ in 0..50 {
        let block_size: u32 = rng.gen_range(1..40);
        let file_size: u64 = rng.gen_range(0..400);
        let mut file = BlockFile::create(file_size, block_size).unwrap();
        let blocks = file.block_count() as u64;
        assert_eq!(blocks, (file_size + block_size as u64 - 1) / block_size as u64);
        let reach = blocks * block_size as u64;
        let mut shadow: Vec<Option<u8>> = vec![None; reach as usize];
        let mut touched: Vec<u64> = Vec::new();

        for _ in 0..30 {
            let offset = rng.gen_range(0..reach + 10);
            let len = rng.gen_range(0..60usize);
            let data: Vec<u8> = (0..len).map(|_| rng.gen_range(1..=255)).collect();
            let fits = len == 0 || offset + len as u64 <= reach;
            let result = file.write(&data, offset);
            if fits {
                assert_eq!(result, Ok(len));
            } else {
                assert_eq!(result, Err(BlockFileError::InvalidPosition));
            }
            for (k, byte) in data.iter().enumerate() {
                let at = offset + k as u64;
                if at < reach {
                    shadow[at as usize] = Some(*byte);
                    let block = at / block_size as u64;
                    if !touched.contains(&block) {
                        touched.push(block);
                    }
                }
            }
            if rng.gen_range(0..4) == 0 {
                file = file.reopen(true);
            }
        }

        // The slots are handed out in the order of the first writes.
        for block in 0..blocks {
            let info = file.block_info(block as usize).unwrap();
            match touched.iter().position(|b| *b == block) {
                Some(slot) => assert_eq!((info.used, info.block_index), (true, slot as u32)),
                None => assert!(!info.used),
            }
        }

        for _ in 0..30 {
            let offset = rng.gen_range(0..file_size + 5);
            let len = rng.gen_range(0..80usize);
            let mut buf = vec![0u8; len];
            let result = file.read(&mut buf, offset);
            if offset > file_size {
                assert_eq!(result, Err(BlockFileError::InvalidPosition));
                assert_eq!(file.is_data_ready(offset, len as u64), Ok(true));
                continue;
            }
            let wanted = (len as u64).min(file_size - offset);
            let hole = (offset..offset + wanted)
                .find(|at| !touched.contains(&(at / block_size as u64)));
            let ready = file.is_data_ready(offset, len as u64);
            if wanted > 0 {
                assert_eq!(ready, Ok(hole.is_none()));
            } else {
                assert_eq!(ready, Ok(true));
            }
            match result {
                Ok(n) => {
                    assert!(n as u64 <= wanted);
                    assert!(hole.is_none());
                    for k in 0..n {
                        // A byte of a written block that was never written itself reads as zero.
                        let expected = shadow[offset as usize + k].unwrap_or(0);
                        assert_eq!(buf[k], expected);
                    }
                    assert!(buf[n..].iter().all(|b| *b == 0));
                }
                Err(e) => {
                    assert_eq!(e, BlockFileError::BlockNotAllocated);
                    assert!(hole.is_some());
                }
            }
        }
    }
}

#[test]
fn write_close_reopen_read() {
    let mut file = BlockFile::create(100, 16).unwrap();
    let data = vec![b'A'; 16];
    assert_eq!(file.write(&data, 0), Ok(16));
    let image = file.into_image();

    let mut file = BlockFile::open(image, false).unwrap();
    let mut buf = vec![0u8; 8];
    assert_eq!(file.read(&mut buf, 4), Ok(8));
    assert_eq!(buf, b"AAAAAAAA".to_vec());
    assert_eq!(file.is_data_ready(0, 16), Ok(true));
    assert_eq!(file.is_data_ready(16, 1), Ok(false));
}

#[test]
fn block_ranges_are_aligned() {
    let file = BlockFile::create(50, 16).unwrap();
    assert_eq!(file.calc_block_range_from(10, 20), (0, 32));
    assert_eq!(file.calc_block_range_from(32, 0), (32, 48));
    assert_eq!(file.calc_block_range_from(0, 50), (0, 64));
    assert_eq!(file.checked_block_range_from(10, 20), Some((0, 32)));
    assert_eq!(file.checked_block_range_from(u64::MAX, 1), None);
    assert_eq!(file.checked_block_range_from(u64::MAX - 3, 2), None);
}

#[test]
fn open_rejects_a_foreign_signature() {
    let mut image = BlockFile::create(100, 16).unwrap().into_image();
    image[0] = b'X';
    assert!(matches!(BlockFile::open(image, false), Err(BlockFileError::InvalidFormat)));
    assert!(matches!(BlockFile::open(Vec::new(), false), Err(BlockFileError::InvalidFormat)));
    assert!(matches!(
        BlockFile::open(b"FDr".to_vec(), true),
        Err(BlockFileError::InvalidFormat)
    ));
}

#[test]
fn a_fresh_file_has_the_documented_layout() {
    let file = BlockFile::create(600, 16).unwrap();
    assert_eq!(file.file_size(), 600);
    assert_eq!(file.block_size(), 16);
    assert_eq!(file.block_count(), 38);
    assert!(file.writable());
    let image = file.into_image();
    assert_eq!(image.len(), header_size(38));
    assert_eq!(&image[0..4], b"FDrs");
    assert_eq!(&image[4..12], &600u64.to_be_bytes());
    assert_eq!(&image[12..16], &16u32.to_be_bytes());
    assert_eq!(&image[16..20], &38u32.to_be_bytes());
    assert!(image[20..].iter().all(|b| *b == 0));
}

#[test]
fn the_block_count_rounds_up() {
    assert_eq!(BlockFile::create(0, 16).unwrap().block_count(), 0);
    assert_eq!(BlockFile::create(1, 16).unwrap().block_count(), 1);
    assert_eq!(BlockFile::create(16, 16).unwrap().block_count(), 1);
    assert_eq!(BlockFile::create(17, 16).unwrap().block_count(), 2);
    assert_eq!(BlockFile::create(100, 16).unwrap().block_count(), 7);
}

#[test]
fn create_refuses_more_blocks_than_the_header_can_count() {
    assert!(matches!(BlockFile::create(u64::MAX, 1), Err(BlockFileError::FileTooLarge)));
    assert!(matches!(
        BlockFile::create(0x1_0000_0000, 1),
        Err(BlockFileError::FileTooLarge)
    ));
}

#[test]
fn slots_are_handed_out_in_write_order() {
    let mut file = BlockFile::create(64, 16).unwrap();
    assert_eq!(file.write(b"cc", 40), Ok(2));
    assert_eq!(file.write(b"aaaa", 0), Ok(4));
    assert_eq!(file.write(b"dd", 60), Ok(2));

    let third = file.block_info(2).unwrap();
    assert_eq!((third.used, third.block_index, third.usage), (true, 0, 2));
    let first = file.block_info(0).unwrap();
    assert_eq!((first.used, first.block_index, first.usage), (true, 1, 4));
    let fourth = file.block_info(3).unwrap();
    assert_eq!((fourth.used, fourth.block_index, fourth.usage), (true, 2, 2));
    let second = file.block_info(1).unwrap();
    assert_eq!((second.used, second.block_index, second.usage), (false, 0, 0));
    assert!(file.block_info(4).is_none());

    let h = header_size(4);
    let image = file.into_image();
    // Logical byte 40 is byte 8 of block 2, which has slot 0.
    assert_eq!(&image[h + 8..h + 10], b"cc");
    // Block 0 has slot 1.
    assert_eq!(&image[h + 16..h + 20], b"aaaa");
    // Logical byte 60 is byte 12 of block 3, which has slot 2.
    assert_eq!(&image[h + 2 * 16 + 12..h + 2 * 16 + 14], b"dd");
    assert_eq!(image.len(), h + 2 * 16 + 14);
    // The entry of block 2 in the table: used, slot 0, usage 2.
    assert_eq!(&image[20 + 18..20 + 27], &[1, 0, 0, 0, 0, 0, 0, 0, 2]);
}

#[test]
fn a_write_across_blocks_is_cut_at_the_boundaries() {
    let mut file = BlockFile::create(100, 16).unwrap();
    let data: Vec<u8> = (1..=40).collect();
    assert_eq!(file.write(&data, 10), Ok(40));
    for (block, usage) in [(0, 6), (1, 16), (2, 16), (3, 2)] {
        let info = file.block_info(block).unwrap();
        assert_eq!((info.used, info.block_index, info.usage), (true, block as u32, usage));
    }
    let mut buf = vec![0u8; 40];
    assert_eq!(file.read(&mut buf, 10), Ok(40));
    assert_eq!(buf, data);
}

#[test]
fn usage_counts_every_byte_ever_written() {
    let mut file = BlockFile::create(32, 16).unwrap();
    assert_eq!(file.write(b"abcd", 0), Ok(4));
    assert_eq!(file.write(b"abcd", 0), Ok(4));
    assert_eq!(file.block_info(0).unwrap().usage, 8);
    assert_eq!(file.block_info(0).unwrap().block_index, 0);
}

#[test]
fn a_write_past_the_table_fails_and_keeps_what_fits() {
    let mut file = BlockFile::create(20, 16).unwrap();
    let data = vec![7u8; 20];
    assert_eq!(file.write(&data, 16), Err(BlockFileError::InvalidPosition));
    assert!(file.block_info(1).unwrap().used);
    let mut buf = vec![0u8; 4];
    assert_eq!(file.read(&mut buf, 16), Ok(4));
    assert_eq!(buf, vec![7u8; 4]);
    assert_eq!(file.write(&data, 32), Err(BlockFileError::InvalidPosition));
    assert_eq!(file.write(&[], 1000), Ok(0));
}

#[test]
fn a_file_opened_for_reading_refuses_writes() {
    let image = BlockFile::create(100, 16).unwrap().into_image();
    let mut file = BlockFile::open(image.clone(), false).unwrap();
    assert!(!file.writable());
    assert_eq!(file.write(b"x", 0), Err(BlockFileError::ReadOnly));
    assert_eq!(file.write(b"", 0), Ok(0));
    assert_eq!(file.into_image(), image);
}

#[test]
fn reading_a_hole_fails() {
    let mut file = BlockFile::create(100, 16).unwrap();
    assert_eq!(file.write(&[1u8; 16], 16), Ok(16));
    let mut buf = vec![0u8; 8];
    assert_eq!(file.read(&mut buf, 0), Err(BlockFileError::BlockNotAllocated));
    assert_eq!(buf, vec![0u8; 8]);
    let mut buf = vec![0u8; 32];
    assert_eq!(file.read(&mut buf, 16), Err(BlockFileError::BlockNotAllocated));
    assert_eq!(&buf[..16], &[1u8; 16]);
    assert_eq!(&buf[16..], &[0u8; 16]);
}

#[test]
fn reads_are_cut_at_the_logical_size() {
    let mut file = BlockFile::create(20, 16).unwrap();
    assert_eq!(file.write(&[9u8; 20], 0), Ok(20));
    let mut buf = vec![0u8; 50];
    assert_eq!(file.read(&mut buf, 10), Ok(10));
    assert_eq!(&buf[..10], &[9u8; 10]);
    assert_eq!(&buf[10..], &[0u8; 40]);
    let mut buf = vec![0u8; 4];
    assert_eq!(file.read(&mut buf, 20), Ok(0));
    assert_eq!(file.read(&mut buf, 21), Err(BlockFileError::InvalidPosition));
}

#[test]
fn a_read_ends_where_the_data_of_a_block_ends() {
    let mut file = BlockFile::create(100, 16).unwrap();
    assert_eq!(file.write(b"hello", 0), Ok(5));
    // A read that stays inside the block gets what was written.
    let mut buf = vec![0u8; 16];
    assert_eq!(file.read(&mut buf, 0), Ok(5));
    assert_eq!(&buf[..5], b"hello");
    assert_eq!(&buf[5..], &[0u8; 11]);
    let mut buf = vec![0u8; 3];
    assert_eq!(file.read(&mut buf, 1), Ok(3));
    assert_eq!(buf, b"ell".to_vec());
}

#[test]
fn a_read_over_a_hole_fails_behind_a_block_that_ends_early() {
    let mut file = BlockFile::create(100, 16).unwrap();
    assert_eq!(file.write(b"hello", 0), Ok(5));
    let mut buf = vec![0u8; 32];
    assert_eq!(file.read(&mut buf, 0), Err(BlockFileError::BlockNotAllocated));
    assert_eq!(&buf[..5], b"hello");
    assert_eq!(&buf[5..], &[0u8; 27]);
    let mut buf = vec![0u8; 17];
    assert_eq!(file.read(&mut buf, 0), Err(BlockFileError::BlockNotAllocated));

    // With the blocks behind it written, the read gets what there is: the data ends
    // in the slot of block 1, which was handed out last.
    assert_eq!(file.write(b"x", 40), Ok(1));
    assert_eq!(file.write(b"y", 16), Ok(1));
    let mut buf = vec![0u8; 48];
    assert_eq!(file.read(&mut buf, 0), Ok(17));
    assert_eq!(&buf[..5], b"hello");
    assert_eq!(&buf[5..16], &[0u8; 11]);
    assert_eq!(buf[16], b'y');
    let mut buf = vec![0u8; 49];
    assert_eq!(file.read(&mut buf, 0), Err(BlockFileError::BlockNotAllocated));

    // A file whose table ends before its logical size.
    let mut image = file.into_image();
    image[4..12].copy_from_slice(&1000u64.to_be_bytes());
    let mut file = BlockFile::open(image, false).unwrap();
    let mut buf = vec![0u8; 16];
    assert_eq!(file.read(&mut buf, 96), Err(BlockFileError::BlockNotAllocated));
    let mut buf = vec![0u8; 4];
    assert_eq!(file.read(&mut buf, 48), Err(BlockFileError::BlockNotAllocated));
    assert_eq!(file.read(&mut buf, 112), Err(BlockFileError::InvalidPosition));
    let mut buf = vec![0u8; 80];
    assert_eq!(file.read(&mut buf, 32), Err(BlockFileError::BlockNotAllocated));
}

#[test]
fn a_write_that_fails_at_once_leaves_the_file() {
    let mut file = BlockFile::create(100, 16).unwrap();
    assert_eq!(file.write(b"hello", 20), Ok(5));
    let image = file.as_bytes().to_vec();
    assert_eq!(file.write(b"x", 112), Err(BlockFileError::InvalidPosition));
    assert_eq!(file.write(&[1u8; 40], 5000), Err(BlockFileError::InvalidPosition));
    assert_eq!(file.write(b"", 5), Ok(0));
    assert_eq!(file.as_bytes(), &image[..]);
    assert_eq!(file.block_info(1).unwrap().block_index, 0);
    assert_eq!(file.write(b"y", 0), Ok(1));
    assert_eq!(file.block_info(0).unwrap().block_index, 1);
}

#[test]
fn readiness_is_a_matter_of_whole_blocks() {
    let mut file = BlockFile::create(100, 16).unwrap();
    assert_eq!(file.write(b"x", 20), Ok(1));
    assert_eq!(file.is_data_ready(16, 16), Ok(true));
    assert_eq!(file.is_data_ready(31, 1), Ok(true));
    assert_eq!(file.is_data_ready(31, 2), Ok(false));
    assert_eq!(file.is_data_ready(15, 2), Ok(false));
    // A range without bytes meets no block.
    assert_eq!(file.is_data_ready(16, 0), Ok(true));
    assert_eq!(file.is_data_ready(0, 0), Ok(true));
    assert_eq!(file.is_data_ready(100, 5), Ok(true));
    assert_eq!(file.is_data_ready(101, 0), Ok(true));
    assert_eq!(file.is_data_ready(u64::MAX, u64::MAX), Ok(true));
    // The same probe gives the same answer.
    assert_eq!(file.is_data_ready(16, 16), Ok(true));
    assert_eq!(file.is_data_ready(31, 2), Ok(false));
}

#[test]
fn readiness_is_cut_at_the_logical_size() {
    let mut file = BlockFile::create(20, 16).unwrap();
    assert_eq!(file.write(&[1u8; 4], 16), Ok(4));
    assert_eq!(file.is_data_ready(16, 1000), Ok(true));
    let mut file = BlockFile::create(32, 16).unwrap();
    assert_eq!(file.is_data_ready(32, 1), Ok(true));
    assert_eq!(file.is_data_ready(31, 1), Ok(false));
    assert_eq!(file.write(&[1u8; 32], 0), Ok(32));
    assert_eq!(file.is_data_ready(32, 1), Ok(true));
    assert_eq!(file.is_data_ready(31, 100), Ok(true));
}

#[test]
fn readiness_cannot_be_told_of_a_block_without_an_entry() {
    // A file that says it is longer than its table reaches.
    let mut image = BlockFile::create(32, 16).unwrap().into_image();
    image[4..12].copy_from_slice(&1000u64.to_be_bytes());
    let mut file = BlockFile::open(image, false).unwrap();
    assert_eq!(file.is_data_ready(100, 1), Err(BlockFileError::InvalidPosition));
    assert_eq!(file.is_data_ready(16, 17), Err(BlockFileError::InvalidPosition));
    assert_eq!(file.is_data_ready(16, 16), Ok(false));
    assert_eq!(file.is_data_ready(1000, 1), Ok(true));
}

#[test]
fn a_fresh_table_consists_of_zeros() {
    for (size, block) in [(0u64, 16u32), (1, 1), (32, 16), (600, 16), (1000, 7)] {
        let file = BlockFile::create(size, block).unwrap();
        let count = file.block_count();
        let image = file.into_image();
        let mut expected = b"FDrs".to_vec();
        expected.extend_from_slice(&size.to_be_bytes());
        expected.extend_from_slice(&block.to_be_bytes());
        expected.extend_from_slice(&(count as u32).to_be_bytes());
        expected.extend(std::iter::repeat(0u8).take(9 * count));
        assert_eq!(image, expected);
    }
}

#[test]
fn open_reports_a_cut_header() {
    let image = BlockFile::create(100, 16).unwrap().into_image();
    assert!(matches!(
        BlockFile::open(image[..19].to_vec(), false),
        Err(BlockFileError::UnexpectedEof)
    ));
    assert!(matches!(
        BlockFile::open(image[..image.len() - 1].to_vec(), false),
        Err(BlockFileError::UnexpectedEof)
    ));
}

#[test]
fn open_refuses_a_block_size_of_zero() {
    let mut image = BlockFile::create(100, 16).unwrap().into_image();
    image[15] = 0;
    assert!(matches!(BlockFile::open(image, false), Err(BlockFileError::InvalidFormat)));
}

#[test]
fn open_finds_the_next_free_slot() {
    let mut file = BlockFile::create(64, 16).unwrap();
    assert_eq!(file.write(b"a", 48), Ok(1));
    assert_eq!(file.write(b"b", 16), Ok(1));
    let mut file = BlockFile::open(file.into_image(), true).unwrap();
    assert_eq!(file.write(b"c", 0), Ok(1));
    assert_eq!(file.block_info(0).unwrap().block_index, 2);
}

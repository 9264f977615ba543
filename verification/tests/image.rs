use fusedav_rs::blockfile::codec::{decode_u32, encode_u32};
use fusedav_rs::blockfile::error::BlockFileError;
use fusedav_rs::blockfile::image::Image;
use fusedav_rs::blockfile::{BlockFile, BlockFileHeader, BlockInfo};

#[test]
fn integers_are_big_endian() {
    assert_eq!(encode_u32(0x0102_0304), [1, 2, 3, 4]);
    assert_eq!(encode_u32(0), [0, 0, 0, 0]);
    assert_eq!(encode_u32(u32::MAX), [255, 255, 255, 255]);
    assert_eq!(decode_u32(1, 2, 3, 4), 0x0102_0304);
    assert_eq!(decode_u32(255, 255, 255, 255), u32::MAX);
    for x in [0u32, 1, 255, 256, 65535, 65536, 16777215, 16777216, 0xdead_beef, u32::MAX] {
        let b = encode_u32(x);
        assert_eq!(b, x.to_be_bytes());
        assert_eq!(decode_u32(b[0], b[1], b[2], b[3]), x);
    }
}

#[test]
fn an_image_reads_what_is_there() {
    let image = Image::from_bytes(vec![1, 2, 3, 4, 5]);
    assert_eq!(image.len(), 5);
    let mut buf = vec![9u8; 6];
    assert_eq!(image.read(1, &mut buf, 2, 5), 3);
    assert_eq!(buf, vec![9, 9, 2, 3, 4, 9]);
    let mut buf = vec![9u8; 6];
    assert_eq!(image.read(3, &mut buf, 0, 6), 2);
    assert_eq!(buf, vec![4, 5, 9, 9, 9, 9]);
    assert_eq!(image.read(5, &mut buf, 0, 6), 0);
    assert_eq!(image.read(u64::MAX, &mut buf, 0, 6), 0);
    assert_eq!(image.read(0, &mut buf, 3, 3), 0);
    assert_eq!(buf, vec![4, 5, 9, 9, 9, 9]);
    assert_eq!(image.as_slice(), &[1, 2, 3, 4, 5]);
    assert_eq!(image.into_bytes(), vec![1, 2, 3, 4, 5]);
}

#[test]
fn an_image_grows_with_zeros() {
    let mut image = Image::new();
    assert_eq!(image.len(), 0);
    assert_eq!(image.write(3, &[7, 8, 9], 1, 3), Ok(2));
    assert_eq!(image.as_slice(), &[0, 0, 0, 8, 9]);
    assert_eq!(image.write(1, &[1, 1], 0, 2), Ok(2));
    assert_eq!(image.as_slice(), &[0, 1, 1, 8, 9]);
    assert_eq!(image.write(4, &[5, 6], 0, 2), Ok(2));
    assert_eq!(image.as_slice(), &[0, 1, 1, 8, 5, 6]);
    // An empty write changes nothing, wherever it goes.
    assert_eq!(image.write(100, &[5, 6], 1, 1), Ok(0));
    assert_eq!(image.len(), 6);
    assert_eq!(image.write(u64::MAX, &[5], 0, 1), Err(BlockFileError::FileTooLarge));
    assert_eq!(image.len(), 6);
}

#[test]
fn an_image_holds_big_endian_integers() {
    let mut image = Image::new();
    assert_eq!(image.write_u8(0, 0xab), Ok(()));
    assert_eq!(image.write_u32(1, 0x0102_0304), Ok(()));
    assert_eq!(image.write_u64(5, 0x1112_1314_1516_1718), Ok(()));
    assert_eq!(
        image.as_slice(),
        &[0xab, 1, 2, 3, 4, 0x11, 0x12, 0x13, 0x14, 0x15, 0x16, 0x17, 0x18]
    );
    assert_eq!(image.read_u8(0), Ok(0xab));
    assert_eq!(image.read_u32(1), Ok(0x0102_0304));
    assert_eq!(image.read_u64(5), Ok(0x1112_1314_1516_1718));
    assert_eq!(image.read_u32(9), Ok(0x1516_1718));
    assert_eq!(image.read_u8(13), Err(BlockFileError::UnexpectedEof));
    assert_eq!(image.read_u32(10), Err(BlockFileError::UnexpectedEof));
    assert_eq!(image.read_u64(6), Err(BlockFileError::UnexpectedEof));
    assert_eq!(image.read_u64(u64::MAX), Err(BlockFileError::UnexpectedEof));
    assert_eq!(image.write_u8(u64::MAX, 1), Err(BlockFileError::FileTooLarge));
    assert_eq!(image.write_u32(u64::MAX - 2, 1), Err(BlockFileError::FileTooLarge));
    assert_eq!(image.write_u64(u64::MAX - 6, 1), Err(BlockFileError::FileTooLarge));
    assert_eq!(image.len(), 13);
}

#[test]
fn the_header_fields_lie_where_the_format_says() {
    assert_eq!(BlockFileHeader::signatire_pose(), 0);
    assert_eq!(BlockFileHeader::file_size_pos(), 4);
    assert_eq!(BlockFileHeader::block_size_pose(), 12);
    assert_eq!(BlockFileHeader::block_info_list_len_start_pos(), 16);
    assert_eq!(BlockFileHeader::first_block_info_start_pos(), 20);
    assert_eq!(BlockInfo::size(), 9);
    assert_eq!(BlockFileHeader::new(600, 16).get_header_size(), 20 + 9 * 38);
    assert_eq!(BlockFileHeader::new(0, 16).get_header_size(), 20);
}

#[test]
fn a_header_hands_out_slots_in_the_order_of_first_writes() {
    let mut header = BlockFileHeader::new(64, 16);
    {
        let info = header.get_mut_or_allocate_block(40).unwrap();
        assert_eq!((info.block_info_index, info.used, info.block_index, info.usage), (2, true, 0, 0));
        info.usage = 5;
    }
    {
        let info = header.get_mut_or_allocate_block(47).unwrap();
        assert_eq!((info.block_info_index, info.used, info.block_index, info.usage), (2, true, 0, 5));
    }
    {
        let info = header.get_mut_or_allocate_block(0).unwrap();
        assert_eq!((info.block_info_index, info.used, info.block_index, info.usage), (0, true, 1, 0));
    }
    assert!(matches!(
        header.get_mut_or_allocate_block(64),
        Err(BlockFileError::InvalidPosition)
    ));
    {
        let info = header.get_mut_block_info(16).unwrap();
        assert_eq!((info.block_info_index, info.used), (1, false));
    }
    assert!(matches!(header.get_mut_block_info(64), Err(BlockFileError::InvalidPosition)));
}

#[test]
fn entries_are_found_by_position() {
    let entry = |index: u32, used: bool, slot: u32| BlockInfo {
        block_info_index: index,
        used,
        block_index: slot,
        usage: 0,
    };
    let mut list = vec![entry(0, true, 4), entry(1, false, 9), entry(2, true, 7)];
    assert_eq!(BlockFileHeader::find_last_block_index(&list), Some(7));
    assert_eq!(BlockFileHeader::find_last_block_index(&list[..2]), Some(4));
    assert_eq!(BlockFileHeader::find_last_block_index(&list[1..2]), None);
    assert_eq!(BlockFileHeader::find_last_block_index(&[]), None);

    assert_eq!(
        BlockFileHeader::get_mut_block_info_from(&mut list, 10, 25).unwrap().block_index,
        7
    );
    assert_eq!(
        BlockFileHeader::get_mut_block_info_from(&mut list, 10, 9).unwrap().block_index,
        4
    );
    BlockFileHeader::get_mut_block_info_from(&mut list, 10, 10).unwrap().used = true;
    assert!(list[1].used);
    assert!(matches!(
        BlockFileHeader::get_mut_block_info_from(&mut list, 10, 30),
        Err(BlockFileError::InvalidPosition)
    ));
}

#[test]
fn an_entry_is_stored_in_nine_bytes() {
    let mut image = Image::from_bytes(vec![0xee; 40]);
    let info = BlockInfo { block_info_index: 1, used: true, block_index: 0x0a0b_0c0d, usage: 258 };
    assert_eq!(info.write(&mut image), Ok(()));
    assert_eq!(&image.as_slice()[29..38], &[1, 0x0a, 0x0b, 0x0c, 0x0d, 0, 0, 1, 2]);
    assert_eq!(image.as_slice()[28], 0xee);
    assert_eq!(image.as_slice()[38], 0xee);

    let read = BlockInfo::from(&image, 1).unwrap();
    assert_eq!(
        (read.block_info_index, read.used, read.block_index, read.usage),
        (1, true, 0x0a0b_0c0d, 258)
    );
    // Any flag but 1 means that the block has no slot.
    let other = BlockInfo::from(&image, 0).unwrap();
    assert_eq!((other.block_info_index, other.used), (0, false));
    assert!(matches!(BlockInfo::from(&image, 3), Err(BlockFileError::UnexpectedEof)));

    let mut stale = BlockInfo { block_info_index: 1, used: false, block_index: 0, usage: 0 };
    assert_eq!(stale.reload(&image), Ok(()));
    assert_eq!((stale.used, stale.block_index, stale.usage), (true, 0x0a0b_0c0d, 258));
    let mut far = BlockInfo { block_info_index: 9, used: true, block_index: 3, usage: 4 };
    assert_eq!(far.reload(&image), Err(BlockFileError::UnexpectedEof));
    assert_eq!((far.used, far.block_index, far.usage), (true, 3, 4));
}

#[test]
fn the_usage_counter_stops_at_its_largest_value() {
    let mut file = BlockFile::create(32, 16).unwrap();
    file.write(b"ab", 0).unwrap();
    let mut image = file.into_image();
    // The usage of block 0 lies in the last four bytes of its entry.
    image[25..29].copy_from_slice(&(u32::MAX - 3).to_be_bytes());
    let mut file = BlockFile::open(image, true).unwrap();
    assert_eq!(file.block_info(0).unwrap().usage, u32::MAX - 3);
    file.write(b"ab", 0).unwrap();
    assert_eq!(file.block_info(0).unwrap().usage, u32::MAX - 1);
    file.write(b"abcdef", 0).unwrap();
    assert_eq!(file.block_info(0).unwrap().usage, u32::MAX);
    file.write(b"a", 0).unwrap();
    assert_eq!(file.block_info(0).unwrap().usage, u32::MAX);
}

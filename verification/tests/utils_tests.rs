use tiny_bitcask::block::{block_crc, decode_at, Block};
use tiny_bitcask::errors::BitCaskError;
use tiny_bitcask::utils::{
    format_dat_file_name, format_idx_file_name, get_dat_files, get_file_id_from_path,
    get_file_name, get_file_name_without_extension, get_hint_from_dat_path, get_next_id,
};

#[test]
fn test_crc32() {
    let block = Block {
        crc: 0,
        tstamp: 123456,
        ksz: 5,
        value_sz: 5,
        key: b"hello".to_vec(),
        value: b"world".to_vec(),
    };
    let crc1 = {
        let serialize_data = block.serialize();
        let mut hasher = crc32fast::Hasher::new();
        hasher.update(&serialize_data[4..]);
        hasher.finalize()
    };
    let crc2 = block_crc(&block);
    assert_eq!(crc1, crc2);
}

#[test]
fn test_list_file() {
    let names = vec![
        b"/Users/arthur/CLionProjects/lets-ddia".to_vec(),
        b"000000002.dat".to_vec(),
        b"000000001.dat".to_vec(),
        b"000000001.idx".to_vec(),
        b"notes.txt".to_vec(),
    ];
    let files = get_dat_files(&names);
    for file in files {
        println!("{:?}", String::from_utf8(file).unwrap());
    }
}

#[test]
fn test_fid() {
    let fid = b"000001234.dat".to_vec();
    let id = get_file_id_from_path(&fid).unwrap();
    assert_eq!(id, 1234);
}

#[test]
fn dat_files_are_filtered_and_sorted() {
    let names = vec![
        b"000000010.dat".to_vec(),
        b"000000002.dat".to_vec(),
        b"000000002.idx".to_vec(),
        b"tmp".to_vec(),
        b"x.dat".to_vec(),
    ];
    let files = get_dat_files(&names);
    assert_eq!(files, vec![b"000000002.dat".to_vec(), b"000000010.dat".to_vec()]);
}

#[test]
fn formatting_pads_to_nine() {
    assert_eq!(format_dat_file_name(1234), b"000001234.dat".to_vec());
    assert_eq!(format_idx_file_name(7), b"000000007.idx".to_vec());
    assert_eq!(format_dat_file_name(4000000000), b"4000000000.dat".to_vec());
}

#[test]
fn next_id_is_one_past_last() {
    let none: Vec<Vec<u8>> = Vec::new();
    assert_eq!(get_next_id(&none), 0);
    let some = vec![b"000000001.dat".to_vec(), b"000000005.dat".to_vec()];
    assert_eq!(get_next_id(&some), 6);
}

#[test]
fn parse_errors_by_kind() {
    assert_eq!(
        get_file_id_from_path(&b"abc.dat".to_vec()).unwrap_err(),
        BitCaskError::ParseError
    );
    assert_eq!(get_file_id_from_path(&Vec::new()).unwrap_err(), BitCaskError::IoError);
    assert_eq!(
        get_file_id_from_path(&b"99999999999.dat".to_vec()).unwrap_err(),
        BitCaskError::ParseError
    );
}

#[test]
fn stem_and_hint_names() {
    assert_eq!(
        get_file_name_without_extension(&b"000000001.dat".to_vec()).unwrap(),
        b"000000001".to_vec()
    );
    assert_eq!(get_file_name(&b"a/b/c.dat".to_vec()).unwrap(), b"c.dat".to_vec());
    assert_eq!(
        get_hint_from_dat_path(&b"000000001.dat".to_vec()),
        b"000000001.idx".to_vec()
    );
}

#[test]
fn record_round_trip() {
    let block = Block::new(42, b"key".to_vec(), b"value".to_vec());
    let bytes = block.serialize();
    let (back, sz) = decode_at(&bytes, 0).unwrap();
    assert_eq!(sz, bytes.len());
    assert_eq!(back.tstamp, 42);
    assert_eq!(back.key, b"key".to_vec());
    assert_eq!(back.value, b"value".to_vec());
    assert_eq!(back.crc, block.crc);
}

#[test]
fn corrupt_crc_ends_scan() {
    let block = Block::new(42, b"key".to_vec(), b"value".to_vec());
    let mut bytes = block.serialize();
    bytes[0] = bytes[0].wrapping_add(1);
    assert!(decode_at(&bytes, 0).is_none());
}

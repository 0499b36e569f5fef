use matdb::names::{decode_segment_path, get_segment_path, segment_file_name};
use matdb::storage::{
    check_for_prefix, read_expected_tag, read_tag, skip_to_next_tag, write_tag, Tag,
};
use matdb::Error;

#[test]
fn decode() {
    let (txn_id, seg_num, committed) =
        decode_segment_path("/a long path/of.some.kind/000A0000.0001").unwrap();
    assert_eq!(txn_id, 655360);
    assert_eq!(seg_num, 1);
    assert!(committed);

    let (txn_id, seg_num, committed) = decode_segment_path("10000000.FFFE.tmp").unwrap();
    assert_eq!(txn_id, 268435456);
    assert_eq!(seg_num, 65534);
    assert!(!committed);

    assert!(decode_segment_path("bogusfilename").is_none());
}

#[test]
fn names_are_padded_lower_case_hexadecimal() {
    assert_eq!(segment_file_name((0xAB, 0xC), true), "000000ab.0000000c");
    assert_eq!(segment_file_name((0xAB, 0xC), false), "000000ab.0000000c.tmp");
    assert_eq!(segment_file_name((u32::MAX, u16::MAX), true), "ffffffff.0000ffff");
    assert_eq!(segment_file_name((0, 0), false), "00000000.00000000.tmp");
    assert_eq!(get_segment_path("some/db", (1, 2), true), "some/db/00000001.00000002");
    assert_eq!(get_segment_path("db", (0x99, 0), false), "db/00000099.00000000.tmp");
}

#[test]
fn names_are_read_back() {
    for id in [(0u32, 0u16), (1, 2), (0x99, 0), (0xDEADBEEF, 0xCAFE), (u32::MAX, u16::MAX)] {
        for visible in [true, false] {
            let path = get_segment_path("/var/data/db.d", id, visible);
            assert_eq!(decode_segment_path(&path), Some((id.0, id.1, visible)));
        }
    }
}

#[test]
fn names_that_are_refused() {
    // No second number.
    assert_eq!(decode_segment_path("00000001"), None);
    // Not hexadecimal.
    assert_eq!(decode_segment_path("0000000g.00000001"), None);
    assert_eq!(decode_segment_path("schema.json"), None);
    // Numbers that do not fit.
    assert_eq!(decode_segment_path("100000000.0001"), None);
    assert_eq!(decode_segment_path("00000001.10000"), None);
    // Empty numbers.
    assert_eq!(decode_segment_path(".0001"), None);
    assert_eq!(decode_segment_path("0001."), None);
    assert_eq!(decode_segment_path("+.1"), None);
    // A tail that is not "tmp".
    assert_eq!(decode_segment_path("00000001.00000002.bak"), None);
    assert_eq!(decode_segment_path("00000001.00000002."), None);
    assert_eq!(decode_segment_path("00000001.00000002.tmpx"), None);
    // A directory is no file name.
    assert_eq!(decode_segment_path("00000001.00000002/"), None);
}

#[test]
fn names_that_are_read_leniently() {
    assert_eq!(decode_segment_path("+a.+B"), Some((10, 11, true)));
    assert_eq!(decode_segment_path("0000000000001.2.tmp"), Some((1, 2, false)));
    assert_eq!(decode_segment_path("1.2.tmp.old"), Some((1, 2, false)));
    assert_eq!(decode_segment_path("FFFFFFFF.ffff"), Some((u32::MAX, u16::MAX, true)));
}

#[test]
fn tags_are_six_bytes() {
    let mut out = Vec::new();
    write_tag(&mut out, Tag::Block);
    write_tag(&mut out, Tag::Segment);
    write_tag(&mut out, Tag::End);
    assert_eq!(out, b"MD:BLKMD:SEGMD:END".to_vec());
    assert_eq!(read_tag(&out, 0), Ok((Tag::Block, 6)));
    assert_eq!(read_tag(&out, 6), Ok((Tag::Segment, 12)));
    assert_eq!(read_tag(&out, 12), Ok((Tag::End, 18)));
    assert_eq!(read_tag(&out, 13), Err(Error::IoError));
    assert_eq!(read_tag(&out, 1), Err(Error::DataError));
    assert_eq!(read_tag(b"MD:XYZ", 0), Err(Error::DataError));
    assert_eq!(read_expected_tag(&out, 6, Tag::Segment), Ok(12));
    assert_eq!(read_expected_tag(&out, 6, Tag::End), Err(Error::DataError));
    assert_eq!(read_expected_tag(&out, 16, Tag::End), Err(Error::IoError));
}

#[test]
fn the_next_tag_is_here_or_one_byte_on() {
    assert_eq!(check_for_prefix(b"MD:END", 0), Ok(true));
    assert_eq!(check_for_prefix(b"xMD:END", 0), Ok(false));
    assert_eq!(check_for_prefix(b"MD", 0), Err(Error::IoError));
    assert_eq!(check_for_prefix(b"MD:", 1), Err(Error::IoError));

    assert_eq!(skip_to_next_tag(b"MD:END", 0), Ok(0));
    assert_eq!(skip_to_next_tag(b"xMD:END", 0), Ok(1));
    assert_eq!(skip_to_next_tag(b"..xMD:END", 2), Ok(3));
    assert_eq!(skip_to_next_tag(b"xxMD:END", 0), Err(Error::IoError));
    assert_eq!(skip_to_next_tag(b"xMD", 0), Err(Error::IoError));
    assert_eq!(skip_to_next_tag(b"MD", 0), Err(Error::IoError));
}

use btree::bytes::{read_be, trimmed_length, write_be};
use btree::error::Error;
use btree::node_type::Offset;
use btree::page::Page;
use btree::page_layout::PAGE_SIZE;
use btree::pager::Pager;
use btree::text::{read_text, text_of_field};
use btree::wal::Wal;

#[test]
fn numbers_are_spelled_most_significant_byte_first() {
    assert_eq!(write_be(0), [0u8; 8]);
    assert_eq!(write_be(4096), [0, 0, 0, 0, 0, 0, 0x10, 0]);
    assert_eq!(write_be(u64::MAX), [0xff; 8]);
    assert_eq!(
        write_be(0x0102_0304_0506_0708),
        [1, 2, 3, 4, 5, 6, 7, 8]
    );
    let bytes = [9u8, 1, 2, 3, 4, 5, 6, 7, 8, 9];
    assert_eq!(read_be(&bytes, 1), 0x0102_0304_0506_0708);
    assert_eq!(read_be(&bytes, 0), 0x0901_0203_0405_0607);
    assert_eq!(read_be(&write_be(1 << 63), 0), 1 << 63);
}

#[test]
fn trailing_zero_bytes_do_not_count() {
    assert_eq!(trimmed_length(&[]), 0);
    assert_eq!(trimmed_length(&[0, 0, 0]), 0);
    assert_eq!(trimmed_length(&[1, 0, 2, 0, 0]), 3);
    assert_eq!(trimmed_length(&[0, 0, 7]), 3);
}

#[test]
fn text_is_read_without_its_padding() {
    assert_eq!(text_of_field(b"hello\0\0\0\0\0"), Some("hello".to_string()));
    assert_eq!(text_of_field(b"\0\0\0\0\0\0\0\0\0\0"), Some(String::new()));
    assert_eq!(text_of_field(b"0123456789"), Some("0123456789".to_string()));
    assert_eq!(text_of_field(&[0xe2, 0x82, 0xac, 0, 0]), Some("€".to_string()));
    assert_eq!(text_of_field(&[0xe2, 0x82, 0, 0, 0]), None);
    assert_eq!(text_of_field(&[0x80]), None);
    let mut raw = [0u8; PAGE_SIZE];
    raw[100] = b'x';
    raw[101] = b'y';
    let page = Page::new(raw);
    assert_eq!(read_text(&page, 100), Some("xy".to_string()));
    assert_eq!(read_text(&page, 101), Some("y".to_string()));
    assert_eq!(read_text(&page, 92), Some("\0\0\0\0\0\0\0\0xy".to_string()));
}

#[test]
fn pager_appends_reads_and_overwrites() {
    let mut pager = Pager::new(Vec::new());
    assert_eq!(pager.len(), 0);
    assert!(matches!(
        pager.get_page(&Offset(0)),
        Err(Error::UnexpectedError)
    ));
    let first = pager.write_page(Page::new([1u8; PAGE_SIZE])).unwrap();
    let second = pager.write_page(Page::new([2u8; PAGE_SIZE])).unwrap();
    assert_eq!(first, Offset(0));
    assert_eq!(second, Offset(PAGE_SIZE));
    assert_eq!(pager.len(), 2 * PAGE_SIZE);
    assert_eq!(pager.get_page(&Offset(0)).unwrap().get_data(), [1u8; PAGE_SIZE]);
    assert_eq!(
        pager.get_page(&Offset(PAGE_SIZE)).unwrap().get_data(),
        [2u8; PAGE_SIZE]
    );
    // a page may start anywhere within the image
    let across = pager.get_page(&Offset(PAGE_SIZE - 1)).unwrap().get_data();
    assert_eq!(across[0], 1);
    assert_eq!(across[1], 2);
    assert!(matches!(
        pager.get_page(&Offset(PAGE_SIZE + 1)),
        Err(Error::UnexpectedError)
    ));
    pager
        .write_page_at_offset(Page::new([3u8; PAGE_SIZE]), &Offset(0))
        .unwrap();
    assert_eq!(pager.len(), 2 * PAGE_SIZE);
    assert_eq!(pager.get_page(&Offset(0)).unwrap().get_data(), [3u8; PAGE_SIZE]);
    assert_eq!(
        pager.get_page(&Offset(PAGE_SIZE)).unwrap().get_data(),
        [2u8; PAGE_SIZE]
    );
    // the next new page still goes to the end
    assert_eq!(
        pager.write_page(Page::new([4u8; PAGE_SIZE])).unwrap(),
        Offset(2 * PAGE_SIZE)
    );
}

#[test]
fn pager_fills_a_gap_with_zero_bytes() {
    let mut pager = Pager::new(vec![7u8; 10]);
    pager
        .write_page_at_offset(Page::new([5u8; PAGE_SIZE]), &Offset(20))
        .unwrap();
    let image = pager.get_image();
    assert_eq!(image.len(), 20 + PAGE_SIZE);
    assert_eq!(&image[..10], &[7u8; 10][..]);
    assert_eq!(&image[10..20], &[0u8; 10][..]);
    assert!(image[20..].iter().all(|b| *b == 5));
    assert!(matches!(
        pager.write_page_at_offset(Page::new([5u8; PAGE_SIZE]), &Offset(usize::MAX - 10)),
        Err(Error::UnexpectedError)
    ));
    assert_eq!(pager.len(), 20 + PAGE_SIZE);
}

#[test]
fn root_log_hands_out_its_last_record() {
    let mut wal = Wal::new(Vec::new());
    assert!(matches!(wal.get_root(), Err(Error::UnexpectedError)));
    wal.set_root(Offset(0)).unwrap();
    assert_eq!(wal.get_root().unwrap(), Offset(0));
    wal.set_root(Offset(3 * PAGE_SIZE)).unwrap();
    wal.set_root(Offset(PAGE_SIZE)).unwrap();
    assert_eq!(wal.get_root().unwrap(), Offset(PAGE_SIZE));
    assert_eq!(
        wal.get_log(),
        &vec![
            0u8, 0, 0, 0, 0, 0, 0, 0, //
            0, 0, 0, 0, 0, 0, 0x30, 0, //
            0, 0, 0, 0, 0, 0, 0x10, 0,
        ]
    );
    let short = Wal::new(vec![1, 2, 3]);
    assert!(matches!(short.get_root(), Err(Error::UnexpectedError)));
    let torn = Wal::new(vec![9, 0, 0, 0, 0, 0, 0, 0x20, 0]);
    assert_eq!(torn.get_root().unwrap(), Offset(0x2000));
}

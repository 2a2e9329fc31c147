use tokimo_kvdb::node::{read_header, write_header};
use tokimo_kvdb::pager::{Page, Pager};
use tokimo_kvdb::{
    FileOp, MetaData, NodeHeader, NodeType, DB_VERSION, INVALID_PAGE_ID, MAGIC, META_PAGE_ID, PAGE_SIZE,
    ROOT_PAGE_ID,
};

fn carry_out(file: &mut Vec<u8>, ops: Vec<FileOp>) -> usize {
    let mut syncs = 0;
    for op in ops {
        match op {
            FileOp::Write { offset, data } => {
                let end = offset as usize + data.len();
                if file.len() < end {
                    file.resize(end, 0);
                }
                file[offset as usize..end].copy_from_slice(&data);
            }
            FileOp::SetLen { len } => file.resize(len as usize, 0),
            FileOp::Sync => syncs += 1,
        }
    }
    syncs
}

#[test]
fn test_pager_init_new_db() {
    let mut pager = Pager::new(Vec::new()).unwrap();
    let meta = pager.read_metadata().unwrap();
    assert!(meta.is_valid());
    assert_eq!({ meta.root_page }, ROOT_PAGE_ID);
    assert_eq!({ meta.freelist_page }, INVALID_PAGE_ID);
}

#[test]
fn test_pager_allocate_and_free() {
    let mut pager = Pager::new(Vec::new()).unwrap();
    let p1 = pager.allocate_page().unwrap();
    let p2 = pager.allocate_page().unwrap();
    assert_ne!(p1, p2);

    pager.free_page(p1).unwrap();
    let p3 = pager.allocate_page().unwrap();
    assert_eq!(p3, p1); // reused from freelist
}

#[test]
fn test_pager_flush_and_reload() {
    let mut file = Vec::new();
    {
        let mut pager = Pager::new(file.clone()).unwrap();
        let page_id = pager.allocate_page().unwrap();
        let page = pager.get_page_mut(page_id).unwrap();
        page.data[100] = 42;
        page.mark_dirty();
        pager.flush().unwrap();
        carry_out(&mut file, pager.take_pending());
        assert_eq!(&file, pager.contents());
    }

    {
        let mut pager = Pager::new(file).unwrap();
        // page 2 is the first user page (0=meta, 1=root)
        let page = pager.get_page(2).unwrap();
        assert_eq!(page.data[100], 42);
    }
}

#[test]
fn a_new_file_holds_metadata_and_an_empty_root() {
    let mut file = Vec::new();
    let mut pager = Pager::new(Vec::new()).unwrap();
    assert_eq!(carry_out(&mut file, pager.take_pending()), 1);
    assert_eq!(file.len(), 2 * PAGE_SIZE);
    assert_eq!(&file[0..8], b"BDOMIKOT");
    assert_eq!(&file[8..16], &[1, 0, 0, 0, 0, 16, 0, 0]);
    assert_eq!(&file[16..24], &1u64.to_le_bytes());
    assert_eq!(&file[24..32], &u64::MAX.to_le_bytes());
    assert_eq!(&file[32..40], &1u64.to_le_bytes());
    assert_eq!(&file[40..48], &0u64.to_le_bytes());
    assert_eq!(&file[PAGE_SIZE..PAGE_SIZE + 5], &[1, 0, 0, 0, 0]);
    assert!(file[48..PAGE_SIZE].iter().all(|b| *b == 0));
    assert!(file[PAGE_SIZE + 5..].iter().all(|b| *b == 0));
}

#[test]
fn only_changed_pages_are_written() {
    let mut pager = Pager::new(Vec::new()).unwrap();
    pager.take_pending();
    pager.flush().unwrap();
    assert_eq!(pager.take_pending().len(), 1);
    pager.get_page(1).unwrap();
    pager.flush_nosync().unwrap();
    assert_eq!(pager.take_pending().len(), 0);
    pager.get_page_mut(1).unwrap().clear();
    pager.flush_nosync().unwrap();
    let ops = pager.take_pending();
    assert_eq!(ops.len(), 1);
    assert!(matches!(&ops[0], FileOp::Write { offset: 4096, data } if data.len() == PAGE_SIZE));
    pager.sync().unwrap();
    assert!(matches!(pager.take_pending()[0], FileOp::Sync));
}

#[test]
fn changes_can_be_forgotten() {
    let mut pager = Pager::new(Vec::new()).unwrap();
    let id = pager.allocate_page().unwrap();
    pager.get_page_mut(id).unwrap().data[0] = 9;
    pager.revert();
    assert_eq!(pager.next_number(), 2);
    assert_eq!(pager.get_page(id).unwrap().data[0], 0);
    assert_eq!(pager.read_metadata().unwrap().last_page_id, 1);
}

#[test]
fn pages_behind_the_end_are_empty() {
    let mut file = vec![0u8; PAGE_SIZE + 10];
    file[PAGE_SIZE] = 5;
    let mut pager = Pager::new(file).unwrap();
    // The metadata are not valid: the length of the file tells the next number.
    assert_eq!(pager.next_number(), 1);
    let page = pager.get_page(1).unwrap();
    assert_eq!(page.data[0], 5);
    assert!(page.data[1..].iter().all(|b| *b == 0));
    assert!(pager.get_page(77).unwrap().data.iter().all(|b| *b == 0));
}

#[test]
fn freed_pages_form_a_list() {
    let mut pager = Pager::new(Vec::new()).unwrap();
    let a = pager.allocate_page().unwrap();
    let b = pager.allocate_page().unwrap();
    assert_eq!(pager.count_freelist_pages().unwrap(), 0);
    pager.free_page(a).unwrap();
    pager.free_page(b).unwrap();
    assert_eq!(pager.count_freelist_pages().unwrap(), 2);
    assert_eq!(pager.read_metadata().unwrap().freelist_page, b);
    assert_eq!(&pager.get_page(b).unwrap().data[0..8], &a.to_le_bytes());
    assert_eq!(&pager.get_page(a).unwrap().data[0..8], &INVALID_PAGE_ID.to_le_bytes());
    assert_eq!(pager.allocate_page().unwrap(), b);
    assert_eq!(pager.allocate_page().unwrap(), a);
    assert_eq!(pager.allocate_page().unwrap(), 4);
    assert!(pager.get_page(a).unwrap().data.iter().all(|x| *x == 0));
}

#[test]
fn metadata_are_written_and_read() {
    let mut pager = Pager::new(Vec::new()).unwrap();
    let mut m = pager.read_metadata().unwrap();
    m.root_page = 0x0102030405060708;
    m.wal_offset = 77;
    pager.write_metadata(&m).unwrap();
    let n = pager.read_metadata().unwrap();
    assert_eq!({ n.root_page }, 0x0102030405060708);
    assert_eq!({ n.wal_offset }, 77);
    assert_eq!(pager.get_page(META_PAGE_ID).unwrap().data[16..24], [8, 7, 6, 5, 4, 3, 2, 1]);
    let bytes = m.as_bytes();
    assert_eq!(bytes.len(), 48);
    assert_eq!({ MetaData::from_bytes(&bytes).root_page }, 0x0102030405060708);
}

#[test]
fn metadata_of_another_version_are_not_valid() {
    let mut m = MetaData::new();
    assert_eq!({ m.magic }, MAGIC);
    assert_eq!({ m.version }, DB_VERSION);
    assert!(m.is_valid());
    m.version = 2;
    assert!(!m.is_valid());
    let mut m = MetaData::new();
    m.magic = 1;
    assert!(!m.is_valid());
}

#[test]
fn node_headers_are_written_and_read() {
    let mut pager = Pager::new(Vec::new()).unwrap();
    let mut h = NodeHeader::new(NodeType::Internal);
    h.num_keys = 0x0304;
    pager.write_node_header(1, &h).unwrap();
    assert_eq!(pager.get_page(1).unwrap().data[0..5], [2, 4, 3, 0, 0]);
    let back = NodeHeader::from_bytes(&h.as_bytes());
    assert_eq!(back.node_type, NodeType::Internal);
    assert_eq!({ back.num_keys }, 0x0304);
    let mut page = Page::new(9);
    assert!(!page.is_dirty);
    write_header(&mut page, &h);
    assert!(page.is_dirty);
    assert_eq!({ read_header(&page).num_keys }, 0x0304);
    page.clear();
    assert_eq!(page.id, 9);
    assert!(page.data.iter().all(|b| *b == 0));
}

#[test]
fn the_pager_tells_the_page_size_and_the_next_number() {
    let mut pager = Pager::new(Vec::new()).unwrap();
    assert_eq!((pager.page_size, pager.next_page_id), (PAGE_SIZE, 2));
    let p = pager.allocate_page().unwrap();
    assert_eq!((p, pager.page_size, pager.next_page_id), (2, PAGE_SIZE, 3));
    pager.free_page(p).unwrap();
    assert_eq!(pager.allocate_page().unwrap(), 2);
    assert_eq!((pager.page_size, pager.next_page_id), (PAGE_SIZE, 3));
    pager.flush().unwrap();
    let again = Pager::new(pager.contents().clone()).unwrap();
    assert_eq!((again.page_size, again.next_page_id), (PAGE_SIZE, 3));
}

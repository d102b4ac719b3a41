use uihlog::sorted_file_list::SortedFileList;

#[test]
fn extract_id() {
    let path = br"c:\test\1.uihlog".to_vec();
    assert_eq!(SortedFileList::extract_id(&path), Some(1));

    let path = br"c:\test\1.svc.uihlog".to_vec();
    assert_eq!(SortedFileList::extract_id(&path), Some(1));
}

#[test]
fn sorted_file_list_it_works() {
    let files = vec![br"c:\2.uihlog".to_vec(), br"c:\1.uihlog".to_vec()];
    let mut sfl = SortedFileList::do_new(files);
    assert!(sfl.count() == 2);
    assert!(sfl.next().unwrap() == br"c:\1.uihlog".to_vec());
    assert!(sfl.next().unwrap() == br"c:\2.uihlog".to_vec());
    assert!(sfl.next().is_none());

    let files = vec![br"c:\10.uihlog".to_vec(), br"c:\2.uihlog".to_vec()];
    let mut sfl = SortedFileList::do_new(files);
    assert!(sfl.count() == 2);
    assert!(sfl.next().unwrap() == br"c:\2.uihlog".to_vec());
    assert!(sfl.next().unwrap() == br"c:\10.uihlog".to_vec());
    assert!(sfl.next().is_none());

    let files: Vec<Vec<u8>> = Vec::new();
    let mut sfl = SortedFileList::do_new(files);
    assert!(sfl.count() == 0);
    assert!(sfl.next().is_none());

    let files = vec![br"c:\thumbs.db".to_vec(), br"c:\invalid.uihlog".to_vec()];
    let mut sfl = SortedFileList::do_new(files);
    assert!(sfl.count() == 0);
    assert!(sfl.next().is_none());
}

#[test]
fn numeric_order_beats_name_order() {
    // id 2 precedes id 10 although "10" sorts before "2" as text
    let files = vec![
        br"logs/10.uihlog".to_vec(),
        br"logs/9.uihlog".to_vec(),
        br"logs/2.uihlog".to_vec(),
    ];
    let mut sfl = SortedFileList::new(files);
    assert!(sfl.count() == 3);
    assert!(sfl.next().unwrap() == br"logs/2.uihlog".to_vec());
    assert!(sfl.next().unwrap() == br"logs/9.uihlog".to_vec());
    assert!(sfl.next().unwrap() == br"logs/10.uihlog".to_vec());
}

#[test]
fn unparseable_stem_is_excluded() {
    let files = vec![
        br"logs/7.uihlog".to_vec(),
        br"logs/abc.uihlog".to_vec(),
        br"logs/7b.uihlog".to_vec(),
        br"logs/.uihlog".to_vec(),
    ];
    let mut sfl = SortedFileList::new(files);
    assert!(sfl.count() == 1);
    assert!(sfl.next().unwrap() == br"logs/7.uihlog".to_vec());
    assert!(sfl.next().is_none());
}

#[test]
fn extract_id_edge_cases() {
    assert_eq!(SortedFileList::extract_id(&br"a/b/12.uihlog".to_vec()), Some(12));
    assert_eq!(SortedFileList::extract_id(&br"a/b/-3.uihlog".to_vec()), Some(-3));
    assert_eq!(SortedFileList::extract_id(&br"a/b/nonsense.uihlog".to_vec()), None);
    assert_eq!(SortedFileList::extract_id(&br"a/b/99999999999.uihlog".to_vec()), None);
    assert_eq!(SortedFileList::extract_id(&b"5.uihlog".to_vec()), Some(5));
}

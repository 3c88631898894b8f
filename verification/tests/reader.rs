use lc_client::reader::{write_place, Place, cross_chapter, folio_texts, open_is_current, believed_block, resume, Resumption, Plates, PLATE_CACHE};

#[test]
fn a_block_that_no_longer_holds_the_place_is_not_believed() {
    // A heading of twenty characters, a plate of none, and a paragraph after it.
    let blocks = vec![(0u64, 20u64), (20, 0), (20, 300)];
    assert_eq!(believed_block(&blocks, Some(blocks.len() + 5), 0), None);
    assert_eq!(believed_block(&blocks, Some(2), 5), None, "the paragraph does not hold character 5");
    assert_eq!(believed_block(&blocks, Some(2), 20), Some(2));
    assert_eq!(believed_block(&blocks, Some(1), 20), Some(1), "the plate and the paragraph share it");
    assert_eq!(believed_block(&blocks, None, 20), None);
}

#[test]
fn turning_back_into_a_chapter_resumes_at_its_end() {
    let blocks = vec![(0u64, 20u64), (20, 0), (20, 300)];
    assert_eq!(resume(&blocks, Some(1), usize::MAX), Resumption::End(3));
    assert_eq!(resume(&blocks, None, usize::MAX), Resumption::End(3));
    assert_eq!(resume(&blocks, Some(1), 20), Resumption::Block(1), "a page after the plate stays past it");
    assert_eq!(resume(&blocks, Some(0), 120), Resumption::Offset);
    assert_eq!(resume(&blocks, None, 120), Resumption::Offset);
}

#[test]
fn plates_are_kept_a_dozen_at_a_time_and_forgotten_with_their_book() {
    let mut plates: Plates<u32> = Plates::new();
    plates.open(&Some("huck.epub".to_string()));
    for k in 0..PLATE_CACHE + 2 {
        let path = format!("p{k}.jpg");
        assert!(plates.held(&path).is_none());
        plates.keep(path.clone(), if k == 1 { None } else { Some(k as u32) });
        assert_eq!(plates.held(&path), Some(&if k == 1 { None } else { Some(k as u32) }));
    }
    assert!(plates.held("p0.jpg").is_none(), "the oldest was given up");
    assert!(plates.held("p1.jpg").is_none());
    assert_eq!(plates.held("p2.jpg"), Some(&Some(2)));
    plates.open(&Some("huck.epub".to_string()));
    assert_eq!(plates.held("p2.jpg"), Some(&Some(2)), "the same book keeps its plates");
    plates.open(&Some("tom.epub".to_string()));
    assert!(plates.held("p2.jpg").is_none());
}

#[test]
fn a_turn_off_a_chapter_goes_to_the_next_or_the_one_before() {
    assert_eq!(cross_chapter(true, 0, 3), Some((1, 0)));
    assert_eq!(cross_chapter(true, 2, 3), None);
    assert_eq!(cross_chapter(false, 2, 3), Some((1, usize::MAX)));
    assert_eq!(cross_chapter(false, 0, 3), None);
    assert_eq!(cross_chapter(true, 0, 0), None);
}

#[test]
fn a_turn_waits_for_the_chapter_it_asked_for() {
    assert!(open_is_current(1, 1, 3));
    assert!(!open_is_current(0, 1, 3));
    // A place past the end reads as the last chapter.
    assert!(open_is_current(2, 9, 3));
    assert!(open_is_current(0, 4, 0));
}

#[test]
fn the_foot_of_a_page_says_where_it_is() {
    assert_eq!(folio_texts(0, 12, 3, 20), ("chapter 1 of 12".to_string(), "page 3 of 20".to_string()));
    assert_eq!(folio_texts(0, 0, 0, 0), ("chapter 1 of 1".to_string(), "page 0 of 1".to_string()));
}

#[test]
fn a_place_is_written_only_when_the_reader_moves() {
    let opened = Place { spine: 2, offset: 40, block: None, asked: false };
    // A resize reflows the page to start elsewhere; the place stays.
    assert_eq!(write_place(opened, 0, None, 31, 3), opened);
    // A turn writes the page shown down.
    let turned = write_place(opened, 1, None, 120, 5);
    assert_eq!(turned, Place { spine: 2, offset: 120, block: Some(5), asked: true });
    // Once moved, the page shown is kept.
    assert_eq!(write_place(turned, 0, None, 118, 5), Place { spine: 2, offset: 118, block: Some(5), asked: true });
    // Off the end of the chapter, the head of the next.
    let crossed = cross_chapter(true, 2, 4);
    assert_eq!(write_place(turned, 1, crossed, 900, 9), Place { spine: 3, offset: 0, block: None, asked: true });
}

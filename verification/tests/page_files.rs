use ppt_maker::page_files::{
    is_page_file, is_pdf_picture, listed_page_number, md_page_number, page_file_name, page_order, picture_candidates, picture_page,
    renumber_after_delete, scan_file_names,
};
use ppt_maker::project_pages::{is_page_content, outline_is_blank, plan_pages, NO_VALID_PAGES};

fn names(v: &[&str]) -> Vec<String> {
    v.iter().map(|s| s.to_string()).collect()
}

#[test]
fn page_files_use_two_digit_numbers() {
    assert_eq!(page_file_name(7, "md"), "page-07.md");
    assert_eq!(page_file_name(0, "png"), "page-00.png");
    assert_eq!(page_file_name(12, "png"), "page-12.png");
    assert_eq!(page_file_name(123, "webp"), "page-123.webp");
    assert_eq!(picture_candidates(3), names(&["page-03.png", "page-03.jpg", "page-03.webp"]));
}

#[test]
fn page_numbers_are_read_back_from_markdown_names() {
    assert_eq!(md_page_number("page-03.md"), Some(3));
    assert_eq!(md_page_number("page-3.md"), Some(3));
    assert_eq!(md_page_number("page-page-4.md.md"), Some(4));
    assert_eq!(md_page_number("page-+5.md"), Some(5));
    assert_eq!(md_page_number("page-00.md"), Some(0));
    assert_eq!(md_page_number("page-.md"), None);
    assert_eq!(md_page_number("page-03.png"), None);
    assert_eq!(md_page_number("outline.md"), None);
    assert_eq!(md_page_number("page-x.md"), None);
    assert_eq!(md_page_number("page-4294967296.md"), None);
    assert_eq!(listed_page_number("page-00.md"), None);
    assert_eq!(listed_page_number("page-10.md"), Some(10));
}

#[test]
fn page_pictures_need_one_dot_and_a_known_extension() {
    assert_eq!(picture_page("page-02.PNG"), Some((2, "png".to_string())));
    assert_eq!(picture_page("page-10.jpeg"), Some((10, "jpeg".to_string())));
    assert_eq!(picture_page("page-1.webp"), Some((1, "webp".to_string())));
    assert_eq!(picture_page("page-1.gif"), None);
    assert_eq!(picture_page("page-1.old.png"), None);
    assert_eq!(picture_page("page-1"), None);
    assert_eq!(picture_page("cover-1.png"), None);
    assert_eq!(picture_page("page-a.png"), None);
}

#[test]
fn project_files_are_counted_by_name() {
    let files = names(&[
        "builder.db",
        "outline.md",
        "page-01.md",
        "page-02.md",
        "page-01.png",
        "page-02.jpg",
        "page-03.gif",
        "notes.md",
        "project.json",
    ]);
    assert_eq!(scan_file_names(&files), (true, true, 2, 2));
    assert_eq!(scan_file_names(&names(&["page-01.webp"])), (false, false, 0, 1));
    assert_eq!(scan_file_names(&[]), (false, false, 0, 0));
    assert!(is_page_file("page-01.md"));
    assert!(is_page_file("page-01.webp"));
    assert!(!is_page_file("page-01.gif"));
    assert!(!is_page_file("outline.md"));
}

#[test]
fn pages_are_ordered_by_number_keeping_ties() {
    assert_eq!(page_order(&[3, 1, 2, 1]), vec![1, 3, 2, 0]);
    assert_eq!(page_order(&[]), Vec::<usize>::new());
}

#[test]
fn deleting_a_page_renumbers_the_rest() {
    let files = names(&["page-04.md", "page-01.md", "page-02.png", "page-02.md", "outline.md", "page-03.md"]);
    assert_eq!(renumber_after_delete(&files, 2), vec![(1, 1, 1), (5, 3, 2), (0, 4, 3)]);
    assert_eq!(renumber_after_delete(&files, 9), vec![(1, 1, 1), (3, 2, 2), (5, 3, 3), (0, 4, 4)]);
    let with_zero = names(&["page-00.md", "page-05.md"]);
    assert_eq!(renumber_after_delete(&with_zero, 5), vec![(0, 0, 1)]);
}

#[test]
fn renaming_in_order_never_overwrites_a_waiting_page() {
    let files = names(&["page-05.md", "page-02.md", "page-01.md", "page-04.md", "page-03.md"]);
    let r = renumber_after_delete(&files, 2);
    assert_eq!(r.iter().map(|e| (e.1, e.2)).collect::<Vec<_>>(), vec![(1, 1), (3, 2), (4, 3), (5, 4)]);
    for k in 0..r.len() {
        assert!(r[k].2 <= r[k].1);
        for j in k + 1..r.len() {
            assert_ne!(r[j].1, r[k].2);
        }
    }
}

#[test]
fn outlines_split_into_numbered_pages() {
    let outline = "# 封面\n主题：测试\n\n---\n## 第2页 市场\n- 要点\n---\n只有一行\n---\n  \n## 第3页 结语\n谢谢\n";
    let pages = plan_pages(outline).unwrap();
    assert_eq!(pages.len(), 3);
    assert_eq!(pages.iter().map(|p| p.page_num).collect::<Vec<_>>(), vec![1, 2, 3]);
    assert_eq!(pages[0].content, "# 封面\n主题：测试");
    assert_eq!(pages[1].content, "## 第2页 市场\n- 要点");
    assert_eq!(pages[2].content, "## 第3页 结语\n谢谢");
    assert_eq!(pages[1].title, "市场");
    assert_eq!(pages[0].title, "封面");
    assert_eq!(plan_pages("一行\n---\n两行\n\n").unwrap_err(), NO_VALID_PAGES);
    assert!(outline_is_blank(" \n\t"));
    assert!(!outline_is_blank(" a "));
    assert!(is_page_content("a\n\nb"));
    assert!(!is_page_content("a\n \n"));
}

#[test]
fn project_names_start_with_the_topic() {
    assert_eq!(ppt_maker::project_pages::project_name_prefix("a b/c\\d"), "a-b-c-d");
    assert_eq!(ppt_maker::project_pages::project_name_prefix("一二三四五六七八九十一二三四五六七八九十多余"), "一二三四五六七八九十一二三四五六七八九十");
    assert_eq!(ppt_maker::project_pages::project_name_prefix(""), "");
}

#[test]
fn pdf_takes_png_and_jpg_page_pictures() {
    assert!(is_pdf_picture("page-01.png"));
    assert!(is_pdf_picture("page-7.jpg"));
    assert!(!is_pdf_picture("page-01.webp"));
    assert!(!is_pdf_picture("page-01.PNG"));
    assert!(!is_pdf_picture("cover.png"));
}

use pdf_to_image::args::OutputFormat;
use pdf_to_image::naming::page_file_name;

#[test]
fn first_pages_are_zero_padded() {
    assert_eq!(page_file_name("artwork", 0, &OutputFormat::Jpg), "artwork-p001.jpg");
    assert_eq!(page_file_name("artwork", 1, &OutputFormat::Jpg), "artwork-p002.jpg");
    assert_eq!(page_file_name("artwork", 2, &OutputFormat::Jpg), "artwork-p003.jpg");
}

#[test]
fn page_numbers_of_two_and_three_digits() {
    assert_eq!(page_file_name("book", 9, &OutputFormat::Png), "book-p010.png");
    assert_eq!(page_file_name("book", 51, &OutputFormat::Png), "book-p052.png");
    assert_eq!(page_file_name("book", 98, &OutputFormat::Tiff), "book-p099.tiff");
    assert_eq!(page_file_name("book", 99, &OutputFormat::Tiff), "book-p100.tiff");
    assert_eq!(page_file_name("book", 998, &OutputFormat::WebP), "book-p999.webp");
}

#[test]
fn page_numbers_past_three_digits_are_not_cut() {
    assert_eq!(page_file_name("big", 999, &OutputFormat::Jpg), "big-p1000.jpg");
    assert_eq!(page_file_name("big", 12344, &OutputFormat::Jpg), "big-p12345.jpg");
    assert_eq!(
        page_file_name("big", u32::MAX, &OutputFormat::Jpg),
        "big-p4294967296.jpg"
    );
}

#[test]
fn stem_is_kept_as_is() {
    assert_eq!(page_file_name("", 0, &OutputFormat::Png), "-p001.png");
    assert_eq!(
        page_file_name("pdf_test_data_print_v2", 0, &OutputFormat::Jpg),
        "pdf_test_data_print_v2-p001.jpg"
    );
    assert_eq!(page_file_name("été", 4, &OutputFormat::Png), "été-p005.png");
}

#[test]
fn distinct_pages_get_distinct_names() {
    let mut names: Vec<String> = (0..1200u32)
        .map(|i| page_file_name("doc", i, &OutputFormat::Jpg))
        .collect();
    names.sort();
    names.dedup();
    assert_eq!(names.len(), 1200);
}

#[test]
fn names_sort_in_page_order_up_to_999() {
    let names: Vec<String> = (0..999u32)
        .map(|i| page_file_name("doc", i, &OutputFormat::Png))
        .collect();
    let mut sorted = names.clone();
    sorted.sort();
    assert_eq!(names, sorted);
}

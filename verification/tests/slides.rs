//! Break slides: files, scans and the rotation.

use nixcon_quiz::slides::{
    fnv1a, kind, load, next, output, pages_in, pdf_pages, render_args, report, run_error, Kind,
    Library, Loaded, Meta, Slide, Stamp,
};
use std::sync::Arc;

fn slide(file: &str, page: u32) -> Arc<Slide> {
    Arc::new(Slide {
        name: format!("{file}-{page}"),
        alt: String::new(),
        order: (file.to_string(), page),
        content_type: "image/png",
        body: Vec::new(),
    })
}

#[test]
fn rotation_continues_in_order_when_slides_come_and_go() {
    let a = slide("a.png", 1);
    let b2 = slide("b.pdf", 2);
    let b10 = slide("b.pdf", 10);
    let c = slide("c.png", 1);
    let name = |s: Option<Arc<Slide>>| s.map(|s| s.name.clone());

    assert_eq!(
        name(next(&[a.clone(), c.clone()], None)),
        Some("a.png-1".into())
    );
    // Page 10 comes after page 2, not before it.
    let all = [a.clone(), b2.clone(), b10.clone(), c.clone()];
    assert_eq!(name(next(&all, Some(&b2))), Some("b.pdf-10".into()));
    assert_eq!(name(next(&all, Some(&c))), Some("a.png-1".into()), "wraps");
    // The current slide was removed: carry on with the one after it.
    assert_eq!(
        name(next(&[a.clone(), c.clone()], Some(&b2))),
        Some("c.png-1".into())
    );
    assert_eq!(name(next(&[], Some(&a))), None);
}

#[test]
fn every_slide_has_its_turn() {
    let all = [slide("a", 1), slide("a", 2), slide("b", 1)];
    let mut shown = None;
    let mut names = Vec::new();
    for _ in 0..4 {
        shown = next(&all, shown.as_deref());
        names.push(shown.as_ref().unwrap().name.clone());
    }
    assert_eq!(names, ["a-1", "a-2", "b-1", "a-1"]);
}

fn kind_name(name: &str) -> Option<&'static str> {
    match kind(&name.as_bytes().to_vec()) {
        Some(Kind::Pdf) => Some("pdf"),
        Some(Kind::Image(t)) => Some(t),
        None => None,
    }
}

#[test]
fn the_extension_decides_the_kind() {
    assert_eq!(kind_name("talk.PDF"), Some("pdf"));
    assert_eq!(kind_name("a.b.png"), Some("image/png"));
    assert_eq!(kind_name("a.jpg"), Some("image/jpeg"));
    assert_eq!(kind_name("a.JpEg"), Some("image/jpeg"));
    assert_eq!(kind_name("a.webp"), Some("image/webp"));
    assert_eq!(kind_name("a.gif"), None);
    assert_eq!(kind_name("png"), None);
    assert_eq!(kind_name(".png"), None, "a dotfile has no extension");
    assert_eq!(kind_name("a."), None);
}

#[test]
fn hashes_are_fnv1a() {
    assert_eq!(fnv1a(b""), 0xcbf29ce484222325);
    assert_eq!(fnv1a(b"abc"), 0xe71fa2190541574b);
}

#[test]
fn an_image_is_one_slide() {
    let slides = load(
        &b"1 logo.PNG".to_vec(),
        Kind::Image("image/png"),
        vec![Ok(b"abc".to_vec())],
    )
    .unwrap();
    assert_eq!(slides.len(), 1);
    let s = &slides[0];
    assert_eq!(s.name, "e71fa2190541574b.png");
    assert_eq!(s.alt, "1 logo");
    assert_eq!(s.order, ("1 logo.PNG".to_string(), 1));
    assert_eq!(s.content_type, "image/png");
    assert_eq!(s.body, b"abc");
}

#[test]
fn names_that_are_not_text_are_made_readable() {
    let slides = load(
        &vec![b'a', 0xff, b'.', b'j', b'p', b'g'],
        Kind::Image("image/jpeg"),
        vec![Ok(Vec::new())],
    )
    .unwrap();
    assert_eq!(slides[0].alt, "a\u{fffd}");
    assert_eq!(slides[0].order.0, "a\u{fffd}.jpg");
}

#[test]
fn every_page_of_a_pdf_is_a_slide() {
    let name = b"talk.pdf".to_vec();
    let slides = load(&name, Kind::Pdf, vec![Ok(b"".to_vec()), Ok(b"abc".to_vec())]).unwrap();
    let pages: Vec<_> = slides
        .iter()
        .map(|s| (s.name.as_str(), s.order.1, s.content_type))
        .collect();
    assert_eq!(
        pages,
        [
            ("cbf29ce484222325.png", 1, "image/png"),
            ("e71fa2190541574b.png", 2, "image/png"),
        ]
    );
    let failed = load(
        &name,
        Kind::Pdf,
        vec![
            Ok(Vec::new()),
            Err("first".to_string()),
            Err("second".to_string()),
        ],
    );
    assert_eq!(failed.err(), Some("first".to_string()));
}

#[test]
fn pages_are_counted_from_what_pdfinfo_prints() {
    assert_eq!(
        pdf_pages(&b"Title: Pages: 7\nPages:          12\r\nPages: 3\n".to_vec()),
        Ok(12)
    );
    assert_eq!(pages_in("Pages: +4"), Ok(4));
    let none = Err("pdfinfo reports no page count".to_string());
    assert_eq!(pages_in(""), none);
    assert_eq!(pages_in("pages: 3"), none);
    assert_eq!(pages_in("Pages: many\nPages: 3"), none);
    assert_eq!(pages_in("Pages: 4294967296"), none);
    assert_eq!(pages_in("Pages:4294967295"), Ok(4294967295));
}

#[test]
fn programs_that_fail_are_reported() {
    assert_eq!(
        output("pdfinfo", "exit status: 0", true, b"ok".to_vec(), &b"warning".to_vec()),
        Ok(b"ok".to_vec())
    );
    assert_eq!(
        output("pdfinfo", "exit status: 1", false, b"".to_vec(), &b" broken \n".to_vec()),
        Err("pdfinfo failed (exit status: 1): broken".to_string())
    );
    assert_eq!(
        run_error("pdftoppm", "not found"),
        "running pdftoppm: not found"
    );
    assert_eq!(report("dir/a.pdf", "broken"), "slides: dir/a.pdf: broken");
    assert_eq!(
        render_args(12),
        ["-png", "-scale-to", "1920", "-singlefile", "-f", "12", "-l", "12"]
    );
}

fn stamp(size: u64) -> Stamp {
    Stamp {
        modified: Some(5),
        size,
    }
}

fn file(size: u64) -> Option<Meta> {
    Some(Meta {
        is_file: true,
        stamp: stamp(size),
    })
}

fn entry(
    name: &str,
    meta: Option<Meta>,
    slides: Option<Result<Vec<Arc<Slide>>, String>>,
) -> Loaded {
    Loaded {
        name: name.as_bytes().to_vec(),
        path: format!("dir/{name}"),
        meta,
        slides,
    }
}

fn names(list: &[&str]) -> Result<Vec<Vec<u8>>, String> {
    Ok(list.iter().map(|n| n.as_bytes().to_vec()).collect())
}

fn shown(slides: &[Arc<Slide>]) -> Vec<&str> {
    slides.iter().map(|s| s.name.as_str()).collect()
}

#[test]
fn scans_look_at_slides_in_order() {
    let mut library = Library::new("dir".to_string());
    let (look_at, said) = library.begin(names(&["b.png", ".a.png.x7", "notes.txt", "a.pdf"]));
    assert_eq!(look_at, [b"a.pdf".to_vec(), b"b.png".to_vec()]);
    assert_eq!(said, None);
}

#[test]
fn unchanged_files_are_not_loaded_again() {
    let mut library = Library::new("dir".to_string());
    let a = b"a.pdf".to_vec();
    let b = b"b.png".to_vec();
    assert!(library.must_load(&a, file(1)));
    let (first, said) = library.scan(vec![
        entry("b.png", file(2), Some(Ok(vec![slide("b.png", 1)]))),
        entry(
            "a.pdf",
            file(1),
            Some(Ok(vec![slide("a.pdf", 10), slide("a.pdf", 2)])),
        ),
    ]);
    assert_eq!(shown(&first), ["a.pdf-2", "a.pdf-10", "b.png-1"]);
    assert!(said.is_empty());
    assert!(library.is_current(&a, stamp(1)));
    assert!(!library.must_load(&a, file(1)));
    assert!(library.must_load(&a, file(3)));
    assert!(!library.is_current(
        &a,
        Stamp {
            modified: None,
            size: 1
        }
    ));

    let (second, _) = library.scan(vec![entry("a.pdf", file(1), None)]);
    assert_eq!(shown(&second), ["a.pdf-2", "a.pdf-10"]);
    assert!(!library.is_current(&b, stamp(2)), "it was removed");
}

#[test]
fn files_that_fail_are_reported_once_and_have_no_slides() {
    let mut library = Library::new("dir".to_string());
    let a = b"a.pdf".to_vec();
    let (slides, said) =
        library.scan(vec![entry("a.pdf", file(1), Some(Err("broken".to_string())))]);
    assert!(slides.is_empty());
    assert_eq!(said, ["slides: dir/a.pdf: broken"]);
    assert!(!library.must_load(&a, file(1)));
    let (slides, said) = library.scan(vec![entry("a.pdf", file(1), None)]);
    assert!(slides.is_empty());
    assert!(said.is_empty());
}

#[test]
fn what_is_no_file_is_skipped() {
    let mut library = Library::new("dir".to_string());
    let a = b"a.pdf".to_vec();
    let directory = Some(Meta {
        is_file: false,
        stamp: stamp(1),
    });
    assert!(!library.must_load(&a, directory));
    assert!(!library.must_load(&a, None));
    let (slides, said) = library.scan(vec![
        entry("a.pdf", directory, None),
        entry("b.png", None, None),
        entry("c.png", file(1), Some(Ok(vec![slide("c.png", 1)]))),
    ]);
    assert_eq!(shown(&slides), ["c.png-1"]);
    assert!(said.is_empty());
    assert!(!library.is_current(&a, stamp(1)));
}

#[test]
fn an_unreadable_directory_is_reported_once() {
    let mut library = Library::new("dir".to_string());
    let a = b"a.png".to_vec();
    library.scan(vec![entry(
        "a.png",
        file(1),
        Some(Ok(vec![slide("a.png", 1)])),
    )]);
    let gone = || Err("gone".to_string());
    assert_eq!(
        library.begin(gone()),
        (Vec::new(), Some("slides: dir: gone".to_string()))
    );
    assert!(!library.is_current(&a, stamp(1)), "its files are forgotten");
    assert_eq!(library.begin(gone()), (Vec::new(), None));
    assert_eq!(
        library.begin(Err("locked".to_string())).1,
        Some("slides: dir: locked".to_string())
    );
    assert_eq!(library.begin(names(&["a.png"])).0.len(), 1);
    assert_eq!(
        library.begin(Err("locked".to_string())).1,
        Some("slides: dir: locked".to_string())
    );
}

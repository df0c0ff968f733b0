use presentrs::{Notes, NotesError, Server, ServerStartError, Slides, SlidesError};
use presentrs::server::{notes_style_sheet, scan_note_element, slide_file_number, slide_number_of_class, slide_resource_path, step_classes};

#[test]
fn the_server_remembers_its_static_directory() {
    let server = Server::new(String::from("static"));
    assert_eq!(server.static_dir(), "static");
}

#[test]
fn notes_render_markdown_inside_a_root_div() {
    let notes = Notes::from_markdown("# Title\n\nHello.");
    let html = notes.html_str();
    assert!(html.starts_with("<div>"));
    assert!(html.ends_with("</div>"));
    // The Markdown was actually rendered, not echoed.
    assert!(html.contains("<h1>"));
    assert!(html.contains("Title"));
    assert!(!html.contains("# Title"));
    assert_eq!(notes.style_str(), None);
}

#[test]
fn slides_are_assembled_from_numbered_fragments() {
    let slides = Slides::from_parts(vec![
        (1, String::from("<p>a</p>")),
        (3, String::from("<p>c</p>")),
        (1, String::from("<p>b</p>")),
    ]);
    assert_eq!(slides.len(), 3);
    assert_eq!(slides.slide_html(1), Some("<div><p>a</p><p>b</p></div>"));
    assert_eq!(slides.slide_html(2), Some("<div></div>"));
    assert_eq!(slides.slide_html(3), Some("<div><p>c</p></div>"));
    assert_eq!(slides.slide_html(0), None);
    assert_eq!(slides.slide_html(4), None);
}

#[test]
fn no_fragments_give_no_slides() {
    let slides = Slides::from_parts(Vec::new());
    assert_eq!(slides.len(), 0);
    assert_eq!(slides.slide_html(1), None);
}

#[test]
fn slide_file_names_are_their_decimal_stem() {
    assert_eq!(slide_file_number("12.html"), Some(12));
    assert_eq!(slide_file_number("007.html"), Some(7));
    assert_eq!(slide_file_number("notes.txt"), None);
    assert_eq!(slide_file_number("x.html"), None);
    assert_eq!(slide_file_number(".html"), None);
    assert_eq!(slide_file_number("3.html.bak"), None);
    assert_eq!(slide_file_number("html"), None);
}

#[test]
fn error_messages_name_their_failure() {
    assert_eq!(
        ServerStartError::InvalidAddress(String::from("refused")).message(),
        "Invalid address to bind to",
    );
    assert_eq!(
        NotesError::LoadError(String::from("missing")).message(),
        "Failed to load notes",
    );
    assert_eq!(
        NotesError::AnimateStepsError(String::from("bad html")).message(),
        "Failed to animate steps for notes",
    );
    assert_eq!(
        NotesError::GenerateHtmlError(String::from("disk full")).message(),
        "Failed to generate HTML file for notes",
    );
    assert_eq!(
        SlidesError::FromNotesError(String::from("x")).message(),
        "Failed to parse slides from notes",
    );
    assert_eq!(
        SlidesError::SlidesDirectoryError(String::from("x")).message(),
        "Failed to read slides from directory",
    );
    assert_eq!(SlidesError::LoadSlide(String::from("x")).message(), "Failed to read slide file");
    assert_eq!(SlidesError::WriteError(String::from("x")).message(), "Failed to write slide");
}

#[test]
fn slide_paths_name_the_index_and_optional_locale() {
    assert_eq!(slide_resource_path(None, 3), "/slides/3.html");
    assert_eq!(slide_resource_path(None, 0), "/slides/0.html");
    assert_eq!(slide_resource_path(None, 120), "/slides/120.html");
    assert_eq!(slide_resource_path(Some("en"), 12), "/slides/en/12.html");
    assert_eq!(slide_resource_path(Some("pt-BR"), 7), "/slides/pt-BR/7.html");
}

#[test]
fn class_attributes_name_their_slide() {
    assert_eq!(slide_number_of_class("slide-3"), Some(3));
    assert_eq!(slide_number_of_class("note slide-12 highlighted"), Some(12));
    // A step annotation is not a slide.
    assert_eq!(slide_number_of_class("slide-step-4"), None);
    assert_eq!(slide_number_of_class("slide-step-4 slide-7"), Some(7));
    // Only the first slide class decides, even when it does not parse.
    assert_eq!(slide_number_of_class("slide-x slide-7"), None);
    assert_eq!(slide_number_of_class(""), None);
    assert_eq!(slide_number_of_class("plain other"), None);
    assert_eq!(slide_number_of_class("slide-"), None);
}

#[test]
fn step_class_annotations_name_slide_and_step() {
    assert_eq!(step_classes(3, 0), "slide-3");
    assert_eq!(step_classes(3, 2), "slide-3 slide-step-2");
    assert_eq!(step_classes(12, 10), "slide-12 slide-step-10");
}

#[test]
fn the_style_sheet_hides_other_slides_and_stages_steps() {
    let style = notes_style_sheet(2);
    assert!(style.starts_with(
        "div.current-slide-1 .slide-2 { display: none; }\
         div.current-slide-2 .slide-1 { display: none; }"
    ));
    assert_eq!(style.matches("display: none").count(), 2);
    assert!(style.contains(
        "div.current-slide-step-1 .slide-step-1 { color: black; visibility: visible; }"
    ));
    assert!(style.contains("div.current-slide-step-2 .slide-step-1 { color: lightgray; }"));
    assert!(style.contains("div.current-slide-step-1 .slide-step-2 { visibility: hidden; }"));
    // Twenty steps are styled against twenty steps.
    assert_eq!(style.matches("div.current-slide-step-").count(), 400);
}

#[test]
fn notes_take_the_generated_style() {
    let mut notes = presentrs::Notes::from_markdown("hello");
    assert_eq!(notes.style_str(), None);
    notes.set_style_for_slides(2);
    let style = notes.style_str().expect("style generated");
    assert_eq!(style, notes_style_sheet(2).as_str());
}

#[test]
fn headings_begin_slides_and_list_items_begin_steps() {
    assert_eq!(scan_note_element("h1", 0, 0), (1, 0));
    assert_eq!(scan_note_element("h2", 3, 5), (4, 0));
    assert_eq!(scan_note_element("h3", 1, 2), (2, 0));
    assert_eq!(scan_note_element("li", 2, 0), (2, 1));
    assert_eq!(scan_note_element("p", 2, 3), (2, 3));
    assert_eq!(scan_note_element("h4", 2, 3), (2, 3));
}

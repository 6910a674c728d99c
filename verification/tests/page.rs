use profile_bee::page::{flamegraph_html, HTML_TEMPLATE, TITLE};

#[test]
fn the_page_holds_the_data_and_the_title() {
    let html = flamegraph_html(r##"{"name":"","value":0,"children":[]}"##);
    assert!(html.contains(r##"var data = {"name":"","value":0,"children":[]};"##));
    assert!(html.contains("<title>profile-bee</title>"));
    assert!(html.contains("<h3 class=\"text-muted\">profile-bee</h3>"));
    assert!(!html.contains("{stack}"));
    assert!(!html.contains("{title}"));
    assert_eq!(TITLE, "profile-bee");
}

#[test]
fn the_page_is_the_template_with_both_placeholders_filled() {
    let html = flamegraph_html("DATA");
    let expected = HTML_TEMPLATE
        .replacen("{stack}", "DATA", 1)
        .replacen("{title}", "profile-bee", 2);
    assert_eq!(html, expected);
    assert_eq!(HTML_TEMPLATE.matches("{stack}").count(), 1);
    assert_eq!(HTML_TEMPLATE.matches("{title}").count(), 2);
    assert_eq!(
        html.len(),
        HTML_TEMPLATE.len() - "{stack}".len() + "DATA".len()
            + 2 * ("profile-bee".len() - "{title}".len())
    );
}

#[test]
fn a_title_placeholder_in_the_data_is_filled_too() {
    let html = flamegraph_html("{title}");
    assert!(html.contains("var data = profile-bee;"));
}

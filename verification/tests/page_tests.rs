use geckodoodad::page::wiki_source_text;

#[test]
fn edit_box_content_is_taken() {
    let page = "<html><head><title>Edit</title></head><body><div><p>intro</p><textarea id=\"wpTextbox1\" name=\"x\">$A [me]\n04000000 00000001</textarea></div></body></html>";
    assert_eq!(wiki_source_text(page), Some("$A [me]\n04000000 00000001".to_string()));
}

#[test]
fn edit_box_content_keeps_its_entities() {
    let page = "<textarea id=\"wpTextbox1\">$A &amp; B\n&lt;/pre&gt;</textarea>";
    assert_eq!(wiki_source_text(page), Some("$A &amp; B\n&lt;/pre&gt;".to_string()));
}

#[test]
fn first_edit_box_wins() {
    let page = "<textarea id=\"wpTextbox1\">one</textarea><textarea id=\"wpTextbox1\">two</textarea>";
    assert_eq!(wiki_source_text(page), Some("one".to_string()));
}

#[test]
fn page_without_edit_box() {
    assert_eq!(wiki_source_text("<html><body><textarea id=\"other\">x</textarea></body></html>"), None);
    assert_eq!(wiki_source_text(""), None);
}

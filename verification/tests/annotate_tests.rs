use gliphoread::annotate::default_output_file;

#[test]
fn default_output_takes_input_stem() {
    assert_eq!(default_output_file("/scans/page_001.png"), "page_001_annot.json");
    assert_eq!(default_output_file("ricetta.tar.png"), "ricetta.tar_annot.json");
    assert_eq!(default_output_file(".hidden"), ".hidden_annot.json");
    assert_eq!(default_output_file("/"), "_annot.json");
    assert_eq!(default_output_file(""), "_annot.json");
}

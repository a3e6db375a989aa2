use mold_generator::three_mf::{
    three_mf_parts, write_model_xml, ModelObject, VertexText, CONTENT_TYPES, ROOT_RELS,
};
use mold_generator::xml::escape_xml;

#[test]
fn xml_escape_handles_names() {
    assert_eq!(escape_xml("upper & <left>"), "upper &amp; &lt;left&gt;");
}

#[test]
fn xml_escape_replaces_quotes_and_keeps_other_text() {
    assert_eq!(escape_xml("a \"b\" 'c'"), "a &quot;b&quot; &apos;c&apos;");
    assert_eq!(escape_xml("Göttingen 601"), "Göttingen 601");
    assert_eq!(escape_xml(""), "");
    assert_eq!(escape_xml("&amp;"), "&amp;amp;");
}

fn vertex(x: &str, y: &str, z: &str) -> VertexText {
    VertexText { x: x.to_string(), y: y.to_string(), z: z.to_string() }
}

#[test]
fn model_document_lists_objects_meshes_and_build_items() {
    let objects = vec![ModelObject {
        name: "mold <1>".to_string(),
        vertices: vec![vertex("0", "0", "0"), vertex("1", "0", "0"), vertex("0", "1.5", "0")],
        triangle_vertices: vec![0, 1, 2, 7],
    }];
    let document = write_model_xml("wing & mold", &objects);
    let expected = "<?xml version=\"1.0\" encoding=\"UTF-8\"?>\n<model unit=\"millimeter\" xml:lang=\"en-US\" xmlns=\"http://schemas.microsoft.com/3dmanufacturing/core/2015/02\">\n  <metadata name=\"Title\">wing &amp; mold</metadata>\n  <resources>\n    <object id=\"1\" name=\"mold &lt;1&gt;\" type=\"model\">\n      <mesh>\n        <vertices>\n          <vertex x=\"0\" y=\"0\" z=\"0\" />\n          <vertex x=\"1\" y=\"0\" z=\"0\" />\n          <vertex x=\"0\" y=\"1.5\" z=\"0\" />\n        </vertices>\n        <triangles>\n          <triangle v1=\"0\" v2=\"1\" v3=\"2\" />\n        </triangles>\n      </mesh>\n    </object>\n  </resources>\n  <build>\n    <item objectid=\"1\" />\n  </build>\n</model>\n";
    assert_eq!(document, expected);
}

#[test]
fn model_objects_are_numbered_from_one() {
    let objects = vec![
        ModelObject { name: "a".to_string(), vertices: vec![], triangle_vertices: vec![] },
        ModelObject { name: "b".to_string(), vertices: vec![], triangle_vertices: vec![10, 11, 12] },
    ];
    let document = write_model_xml("t", &objects);
    assert!(document.contains("<object id=\"1\" name=\"a\""));
    assert!(document.contains("<object id=\"2\" name=\"b\""));
    assert!(document.contains("<triangle v1=\"10\" v2=\"11\" v3=\"12\" />"));
    assert!(document.ends_with(
        "  <build>\n    <item objectid=\"1\" />\n    <item objectid=\"2\" />\n  </build>\n</model>\n"
    ));
}

#[test]
fn package_parts_come_in_storage_order() {
    let parts = three_mf_parts("empty", &[]);
    assert_eq!(parts.len(), 3);
    assert_eq!(parts[0].path, "[Content_Types].xml");
    assert_eq!(parts[0].text, CONTENT_TYPES);
    assert_eq!(parts[1].path, "_rels/.rels");
    assert_eq!(parts[1].text, ROOT_RELS);
    assert_eq!(parts[2].path, "3D/3dmodel.model");
    assert_eq!(parts[2].text, write_model_xml("empty", &[]));
    assert!(parts[2].text.contains("<build>\n  </build>"));
}

use sldr::package::{owner_path, rels_path, resolve, safe_part, validate_package, Package};
use sldr::report::Disposition;
use std::io::Write;

const CT: &str = "<Types xmlns=\"http://schemas.openxmlformats.org/package/2006/content-types\">\
<Default Extension=\"rels\" ContentType=\"application/vnd.openxmlformats-package.relationships+xml\"/>\
<Default Extension=\"xml\" ContentType=\"application/xml\"/>\
<Override PartName=\"/ppt/presentation.xml\" ContentType=\"application/vnd.openxmlformats-officedocument.presentationml.presentation.main+xml\"/>\
</Types>";
const ROOT_RELS: &str = "<Relationships xmlns=\"http://schemas.openxmlformats.org/package/2006/relationships\">\
<Relationship Id=\"rId1\" Type=\"http://schemas.openxmlformats.org/officeDocument/2006/relationships/officeDocument\" Target=\"ppt/presentation.xml\"/>\
</Relationships>";
const PRES: &str = "<p:presentation xmlns:p=\"http://schemas.openxmlformats.org/presentationml/2006/main\" \
xmlns:r=\"http://schemas.openxmlformats.org/officeDocument/2006/relationships\">\
<p:sldIdLst><p:sldId id=\"256\" r:id=\"rId1\"/></p:sldIdLst></p:presentation>";
const PRES_RELS: &str = "<Relationships xmlns=\"http://schemas.openxmlformats.org/package/2006/relationships\">\
<Relationship Id=\"rId1\" Type=\"http://schemas.openxmlformats.org/officeDocument/2006/relationships/slide\" Target=\"slides/slide1.xml\"/>\
</Relationships>";
const SLIDE: &str = "<p:sld xmlns:p=\"http://schemas.openxmlformats.org/presentationml/2006/main\" \
xmlns:a=\"http://schemas.openxmlformats.org/drawingml/2006/main\"><p:cSld><p:spTree>\
<p:nvGrpSpPr><p:cNvPr id=\"1\" name=\"\"/></p:nvGrpSpPr>\
<p:sp><p:nvSpPr><p:cNvPr id=\"2\" name=\"Title\"/></p:nvSpPr></p:sp>\
</p:spTree></p:cSld></p:sld>";

fn parts() -> Vec<(String, Vec<u8>)> {
    vec![
        ("[Content_Types].xml".into(), CT.as_bytes().to_vec()),
        ("_rels/.rels".into(), ROOT_RELS.as_bytes().to_vec()),
        ("ppt/presentation.xml".into(), PRES.as_bytes().to_vec()),
        ("ppt/_rels/presentation.xml.rels".into(), PRES_RELS.as_bytes().to_vec()),
        ("ppt/slides/slide1.xml".into(), SLIDE.as_bytes().to_vec()),
    ]
}

fn zip_of(parts: &[(String, Vec<u8>)]) -> Vec<u8> {
    let mut w = zip::ZipWriter::new(std::io::Cursor::new(Vec::new()));
    for (name, bytes) in parts {
        w.start_file(name.as_str(), zip::write::SimpleFileOptions::default()).unwrap();
        w.write_all(bytes).unwrap();
    }
    w.finish().unwrap().into_inner()
}

fn with_part(name: &str, bytes: &[u8]) -> Vec<u8> {
    let mut p = parts();
    p.push((name.into(), bytes.to_vec()));
    zip_of(&p)
}

fn replaced(part: &str, from: &str, to: &str) -> Vec<u8> {
    let mut p = parts();
    for (name, bytes) in p.iter_mut() {
        if name == part {
            let text = String::from_utf8(bytes.clone()).unwrap();
            assert!(text.contains(from));
            *bytes = text.replace(from, to).into_bytes();
        }
    }
    zip_of(&p)
}

#[test]
fn plain_package_is_valid() {
    let report = validate_package(&zip_of(&parts())).unwrap();
    assert_eq!(report.schema_version, 1);
    assert_eq!(report.findings.len(), 2);
    assert!(report.findings.iter().all(|f| f.disposition == Disposition::Converted && f.element == "rId1"));
    assert_eq!(report.findings[0].part, "_rels/.rels");
    assert_eq!(
        report.findings[0].feature,
        "relationship:http://schemas.openxmlformats.org/officeDocument/2006/relationships/officeDocument"
    );
    assert_eq!(report.findings[1].part, "ppt/_rels/presentation.xml.rels");
    assert_eq!(report.findings[1].remedy, "Internal target validated");
    report.enforce(false).unwrap();
}

#[test]
fn read_orders_parts_by_name() {
    let mut p = parts();
    p.reverse();
    let pkg = Package::read(&zip_of(&p)).unwrap();
    let names: Vec<&str> = pkg.parts.iter().map(|(n, _)| n.as_str()).collect();
    assert_eq!(
        names,
        ["[Content_Types].xml", "_rels/.rels", "ppt/_rels/presentation.xml.rels", "ppt/presentation.xml", "ppt/slides/slide1.xml"]
    );
    assert_eq!(pkg.text("ppt/presentation.xml").unwrap(), PRES);
    assert_eq!(pkg.text("ppt/absent.xml").unwrap_err(), "missing part ppt/absent.xml");
}

#[test]
fn slides_follow_presentation_order() {
    let pkg = Package::read(&zip_of(&parts())).unwrap();
    assert_eq!(pkg.slides().unwrap(), vec!["ppt/slides/slide1.xml".to_string()]);
    let rels = pkg.rels("ppt/presentation.xml").unwrap();
    assert_eq!(rels.len(), 1);
    assert_eq!(rels[0].target, "ppt/slides/slide1.xml");
    assert!(!rels[0].external);
    assert!(pkg.rels("ppt/slides/slide1.xml").unwrap().is_empty());
}

#[test]
fn malformed_relationships_and_duplicate_shape_ids_fail() {
    for (from, to) in [
        ("slides/slide1.xml", "../../../../escape.xml"),
        ("slides/slide1.xml", "../missing.xml"),
        ("Id=\"rId1\"", "Broken=\"rId1\""),
    ] {
        let bytes = replaced("ppt/_rels/presentation.xml.rels", from, to);
        assert!(validate_package(&bytes).is_err());
    }
    let bytes = replaced("ppt/slides/slide1.xml", "id=\"2\"", "id=\"1\"");
    assert_eq!(validate_package(&bytes).unwrap_err(), "duplicate shape ID in ppt/slides/slide1.xml");
    let bytes = replaced("ppt/_rels/presentation.xml.rels", "slides/slide1.xml", "../missing.xml");
    assert_eq!(
        validate_package(&bytes).unwrap_err(),
        "missing relationship target missing.xml in ppt/_rels/presentation.xml.rels"
    );
    let bytes = replaced("ppt/_rels/presentation.xml.rels", "slides/slide1.xml", "../../../../escape.xml");
    assert_eq!(validate_package(&bytes).unwrap_err(), "relationship traversal beyond package root");
    let bytes = replaced("ppt/_rels/presentation.xml.rels", "Id=\"rId1\"", "Broken=\"rId1\"");
    assert_eq!(validate_package(&bytes).unwrap_err(), "missing Id attribute");
}

#[test]
fn unsafe_archive_paths_and_bounded_bomb_are_rejected() {
    for name in ["../escape.xml", "/absolute.xml", "ppt/../escape.xml", "ppt\\escape.xml"] {
        let bytes = with_part(name, b"<x/>");
        assert!(validate_package(&bytes).is_err());
    }
    let mut zip = zip::ZipWriter::new(std::io::Cursor::new(Vec::new()));
    zip.start_file(
        "bomb.xml",
        zip::write::SimpleFileOptions::default().compression_method(zip::CompressionMethod::Deflated),
    )
    .unwrap();
    zip.write_all(&vec![b' '; 32 * 1024 * 1024 + 1]).unwrap();
    let bytes = zip.finish().unwrap().into_inner();
    assert!(bytes.len() < 100_000);
    assert!(validate_package(&bytes).unwrap_err().contains("limit"));
}

#[test]
fn unsafe_name_is_reported_by_name() {
    let bytes = with_part("ppt/../escape.xml", b"<x/>");
    assert_eq!(validate_package(&bytes).unwrap_err(), "unsafe package path: ppt/../escape.xml");
}

#[test]
fn part_without_content_type_fails() {
    let bytes = with_part("ppt/media/image1.png", b"png");
    assert_eq!(validate_package(&bytes).unwrap_err(), "missing content type for ppt/media/image1.png");
}

#[test]
fn embedded_content_is_conflicting() {
    let mut p = parts();
    p[0].1 = CT
        .replace("<Default Extension=\"xml\"", "<Default Extension=\"bin\" ContentType=\"application/octet-stream\"/><Default Extension=\"xml\"")
        .into_bytes();
    p.push(("ppt/embeddings/oleObject1.bin".into(), b"ole".to_vec()));
    let report = validate_package(&zip_of(&p)).unwrap();
    let conflicts: Vec<_> =
        report.findings.iter().filter(|f| f.disposition == Disposition::Conflicting).collect();
    assert_eq!(conflicts.len(), 1);
    assert_eq!(conflicts[0].part, "ppt/embeddings/oleObject1.bin");
    assert_eq!(conflicts[0].feature, "active_or_embedded_content");
    assert!(report.enforce(true).is_err());
}

#[test]
fn external_relationship_is_unsupported() {
    let bytes = replaced(
        "_rels/.rels",
        "Target=\"ppt/presentation.xml\"/>",
        "Target=\"ppt/presentation.xml\"/><Relationship Id=\"rId2\" Type=\"http://x/hyperlink\" Target=\"https://example.com\" TargetMode=\"External\"/>",
    );
    let report = validate_package(&bytes).unwrap();
    let ext: Vec<_> = report.findings.iter().filter(|f| f.disposition == Disposition::Unsupported).collect();
    assert_eq!(ext.len(), 1);
    assert_eq!(ext[0].element, "rId2");
    assert!(report.enforce(false).is_err());
    assert!(report.enforce(true).is_ok());
}

#[test]
fn unresolved_reference_fails() {
    let bytes = replaced("ppt/presentation.xml", "r:id=\"rId1\"", "r:id=\"rId9\"");
    assert_eq!(validate_package(&bytes).unwrap_err(), "unresolved id=rId9 in ppt/presentation.xml");
}

#[test]
fn not_a_zip_is_refused() {
    assert!(validate_package(b"not a zip").is_err());
}

#[test]
fn part_paths_round_trip() {
    assert_eq!(rels_path("ppt/slides/slide1.xml"), "ppt/slides/_rels/slide1.xml.rels");
    assert_eq!(rels_path("doc.xml"), "_rels/doc.xml.rels");
    assert_eq!(owner_path("ppt/slides/_rels/slide1.xml.rels").unwrap(), "ppt/slides/slide1.xml");
    assert_eq!(owner_path("_rels/.rels").unwrap(), "");
    assert!(owner_path("ppt/slide1.xml").is_err());
    assert_eq!(resolve("ppt/slides/slide1.xml", "../media/a.png").unwrap(), "ppt/media/a.png");
    assert_eq!(resolve("ppt/slides/slide1.xml", "/ppt/x.xml").unwrap(), "ppt/x.xml");
    assert!(resolve("ppt/slide1.xml", "../../x.xml").is_err());
    assert!(safe_part("ppt/slides/slide1.xml"));
    assert!(!safe_part("ppt//x.xml"));
    assert!(!safe_part("ppt/x?.xml"));
}

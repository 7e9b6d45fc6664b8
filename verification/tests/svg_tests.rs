use regex::Regex;
use rust_examples::layer_names::{sanitize_for_filename, unique_export_stem, StemCounts};
use rust_examples::layers::{plan_layer_exports, SplitError};
use rust_examples::open_tag::patch_layer_root_g_open_tag_for_visibility;
use rust_examples::references::decode_references;
use rust_examples::style::{merge_style_for_visible_layer, style_fragment_drop_for_layer_visibility, xml_escape_double_quoted_attr_value};
use rust_examples::svg::end_of_opening_tag;

fn zero(v: String) -> bool {
    v.parse::<f64>().map(|x| x == 0.0).unwrap_or(false)
}

const VISIBLE: &str = "display:inline; visibility:visible; opacity:1";

#[test]
fn tag_end_skips_quoted_brackets() {
    assert_eq!(end_of_opening_tag("<g a=\"x>y\" b='>'>rest", 0), Some(16));
    assert_eq!(end_of_opening_tag("ab<g>", 2), Some(4));
    assert_eq!(end_of_opening_tag("<g a='x", 0), None);
    assert_eq!(end_of_opening_tag("x<g>", 0), None);
    assert_eq!(end_of_opening_tag("<g>", 3), None);
    assert_eq!(end_of_opening_tag("<g a=\"it's\">", 0), Some(11));
}

#[test]
fn sanitize_replaces_forbidden_characters() {
    assert_eq!(sanitize_for_filename("a/b:c*d?"), "a_b_c_d_");
    assert_eq!(sanitize_for_filename("  Слой 1  "), "Слой 1");
    assert_eq!(sanitize_for_filename("name..."), "name");
    assert_eq!(sanitize_for_filename("   "), "_layer_");
    assert_eq!(sanitize_for_filename("..."), "_layer_");
    assert_eq!(sanitize_for_filename("a. ."), "a.");
    assert_eq!(sanitize_for_filename("<\"|\\>"), "_____");
}

#[test]
fn repeated_names_get_counters() {
    let mut counts = StemCounts::new();
    assert_eq!(unique_export_stem("Фон", &mut counts), "Фон");
    assert_eq!(unique_export_stem("Текст", &mut counts), "Текст");
    assert_eq!(unique_export_stem(" Фон ", &mut counts), "Фон_2");
    assert_eq!(unique_export_stem("Фон", &mut counts), "Фон_3");
    assert_eq!(unique_export_stem("", &mut counts), "_layer_");
    assert_eq!(unique_export_stem("...", &mut counts), "_layer__2");
}

#[test]
fn fragments_that_hide_are_dropped() {
    assert!(style_fragment_drop_for_layer_visibility("display:none", &zero));
    assert!(style_fragment_drop_for_layer_visibility(" Visibility : hidden ", &zero));
    assert!(style_fragment_drop_for_layer_visibility("opacity:0", &zero));
    assert!(style_fragment_drop_for_layer_visibility("opacity: 0.000", &zero));
    assert!(style_fragment_drop_for_layer_visibility("OPACITY:-0e5", &zero));
    assert!(!style_fragment_drop_for_layer_visibility("opacity:0.5", &zero));
    assert!(!style_fragment_drop_for_layer_visibility("opacity:abc", &zero));
    assert!(!style_fragment_drop_for_layer_visibility("fill:red", &zero));
    assert!(!style_fragment_drop_for_layer_visibility("display", &zero));
    assert!(!style_fragment_drop_for_layer_visibility("", &zero));
}

#[test]
fn merge_keeps_other_declarations_and_ends_visible() {
    assert_eq!(merge_style_for_visible_layer("display:none", &zero), VISIBLE);
    assert_eq!(merge_style_for_visible_layer("", &zero), VISIBLE);
    assert_eq!(
        merge_style_for_visible_layer("fill:red; display:none;;opacity:0 ; stroke : blue ", &zero),
        format!("fill:red; stroke : blue; {VISIBLE}")
    );
    assert_eq!(merge_style_for_visible_layer("opacity:0.3", &zero), format!("opacity:0.3; {VISIBLE}"));
    assert!(merge_style_for_visible_layer("a:b;c", &zero).ends_with(VISIBLE));
}

#[test]
fn escape_for_double_quoted_attribute() {
    assert_eq!(xml_escape_double_quoted_attr_value("a&b\"c<d>'"), "a&amp;b&quot;c&lt;d>'");
    assert_eq!(xml_escape_double_quoted_attr_value(""), "");
    let e = xml_escape_double_quoted_attr_value("\"<\"<&");
    assert!(!e.contains('"') && !e.contains('<'));
}

fn merge_with(style: &str) -> String {
    merge_style_for_visible_layer(style, &zero)
}

fn regex_patch(open_tag: &str) -> String {
    let re_attr = Regex::new(r#"(?i)\sdisplay\s*=\s*["']none["']"#).unwrap();
    let s = re_attr.replace_all(open_tag, "").into_owned();
    let re_ds = Regex::new(r#"(?i)(\sstyle\s*=\s*)("[^"]*")"#).unwrap();
    if let Some(cap) = re_ds.captures(&s) {
        let m = cap.get(0).unwrap();
        let inner_quote = cap.get(2).unwrap().as_str();
        let inner = inner_quote.strip_prefix('"').and_then(|x| x.strip_suffix('"')).unwrap_or(inner_quote);
        let replacement = format!("{}\"{}\"", cap.get(1).unwrap().as_str(), xml_escape_double_quoted_attr_value(&merge_with(&decode_references(inner))));
        return format!("{}{}{}", &s[..m.start()], replacement, &s[m.end()..]);
    }
    let re_ss = Regex::new(r"(?i)(\sstyle\s*=\s*)('[^']*')").unwrap();
    if let Some(cap) = re_ss.captures(&s) {
        let m = cap.get(0).unwrap();
        let inner_quote = cap.get(2).unwrap().as_str();
        let inner = inner_quote.strip_prefix('\'').and_then(|x| x.strip_suffix('\'')).unwrap_or(inner_quote);
        let replacement = format!(" style=\"{}\"", xml_escape_double_quoted_attr_value(&merge_with(&decode_references(inner))));
        return format!("{}{}{}", &s[..m.start()], replacement, &s[m.end()..]);
    }
    let inject = r#" style="display:inline; visibility:visible; opacity:1""#;
    if let Some(pos) = s.rfind('>') {
        format!("{}{}{}", &s[..pos], inject, &s[pos..])
    } else {
        s
    }
}

#[test]
fn patch_removes_display_none_and_injects_style() {
    assert_eq!(
        patch_layer_root_g_open_tag_for_visibility("<g id=\"a\" display=\"none\">", &zero),
        format!("<g id=\"a\" style=\"{VISIBLE}\">")
    );
}

#[test]
fn patch_rewrites_double_quoted_style() {
    assert_eq!(
        patch_layer_root_g_open_tag_for_visibility("<g style=\"display:none;fill:red\" id=\"x\">", &zero),
        format!("<g style=\"fill:red; {VISIBLE}\" id=\"x\">")
    );
    assert_eq!(
        patch_layer_root_g_open_tag_for_visibility("<g\n STYLE = \"opacity:0\">", &zero),
        format!("<g\n STYLE = \"{VISIBLE}\">")
    );
}

#[test]
fn patch_rewrites_single_quoted_style() {
    assert_eq!(
        patch_layer_root_g_open_tag_for_visibility("<g\tstyle='fill:\"x\"' >", &zero),
        format!("<g style=\"fill:&quot;x&quot;; {VISIBLE}\" >")
    );
}

#[test]
fn patch_without_closing_bracket_keeps_text() {
    assert_eq!(patch_layer_root_g_open_tag_for_visibility("<g id='a'", &zero), "<g id='a'");
}

#[test]
fn patch_agrees_with_regex_patterns() {
    let cases = [
        "<g>",
        "<g inkscape:label=\"L\" style=\"display:none\">",
        "<g DISPLAY = 'NONE' style='opacity:0;fill:#fff'>",
        "<g display=\"none\" display='none' id=\"q\">",
        "<g diſplay=\"none\" ſtyle=\"visibility:hidden\">",
        "<g display=\"none' style=\"a:b\" style=\"c:d\">",
        "<g\u{3000}style=\"x:y\">",
        "<g style=\"unterminated>",
        "<g style = 'a' style=\"b\">",
        "<gstyle=\"a\">",
        "<g displaynone=\"1\" style=\"display : none ; fill:none\" >",
        "<g a='>' style=\"\">",
        "no tag at all",
        "<g display=\"none\"",
    ];
    for c in cases {
        assert_eq!(patch_layer_root_g_open_tag_for_visibility(c, &zero), regex_patch(c), "case {c:?}");
    }
}

const SVG: &str = "<?xml version=\"1.0\"?>\n<svg xmlns=\"http://www.w3.org/2000/svg\" xmlns:inkscape=\"http://www.inkscape.org/namespaces/inkscape\" width=\"10\">\n  <g inkscape:groupmode=\"layer\" inkscape:label=\"Фон\" style=\"display:none\">\n    <rect x=\"1\"/>\n  </g>\n  <g inkscape:groupmode=\"layer\" inkscape:label=\"a/b\" display=\"none\"><circle r=\"2\"/></g>\n  <g inkscape:groupmode=\"layer\" inkscape:label=\"Фон\"><path d=\"M0 0\"/></g>\n  <g id=\"plain\"><rect/></g>\n  <g inkscape:groupmode=\"layer\"><g inkscape:groupmode=\"layer\" inkscape:label=\"inner\"/></g>\n</svg>\n";

const SVG_OPEN: &str = "<svg xmlns=\"http://www.w3.org/2000/svg\" xmlns:inkscape=\"http://www.inkscape.org/namespaces/inkscape\" width=\"10\">";
const HEADER: &str = "<?xml version=\"1.0\" encoding=\"UTF-8\" standalone=\"no\"?>\n";

#[test]
fn layers_become_documents() {
    let plan = match plan_layer_exports(SVG, "всё_в1р2.svg", &zero) {
        Ok(p) => p,
        Err(e) => panic!("{}", e.message()),
    };
    assert!(plan.error.is_none());
    let names: Vec<&str> = plan.exports.iter().map(|e| e.file_name.as_str()).collect();
    assert_eq!(names, vec!["Фон.svg", "a_b.svg", "Фон_2.svg", "_без имени_.svg"]);
    let labels: Vec<&str> = plan.exports.iter().map(|e| e.layer_label.as_str()).collect();
    assert_eq!(labels, vec!["Фон", "a/b", "Фон", "<без имени>"]);
    let renamed: Vec<bool> = plan.exports.iter().map(|e| e.renamed_duplicates).collect();
    assert_eq!(renamed, vec![false, false, true, false]);
    assert_eq!(
        plan.exports[0].content,
        format!("{HEADER}{SVG_OPEN}\n<g inkscape:groupmode=\"layer\" inkscape:label=\"Фон\" style=\"{VISIBLE}\">\n    <rect x=\"1\"/>\n  </g>\n</svg>\n")
    );
    assert_eq!(
        plan.exports[1].content,
        format!("{HEADER}{SVG_OPEN}\n<g inkscape:groupmode=\"layer\" inkscape:label=\"a/b\" style=\"{VISIBLE}\"><circle r=\"2\"/></g>\n</svg>\n")
    );
    assert_eq!(
        plan.exports[3].content,
        format!("{HEADER}{SVG_OPEN}\n<g inkscape:groupmode=\"layer\" style=\"{VISIBLE}\"><g inkscape:groupmode=\"layer\" inkscape:label=\"inner\"/></g>\n</svg>\n")
    );
}

#[test]
fn malformed_xml_is_an_xml_error() {
    match plan_layer_exports("<svg><g></svg>", "всё_в1р2.svg", &zero) {
        Err(SplitError::Xml(m)) => assert!(!m.is_empty()),
        _ => panic!("expected an XML error"),
    }
}

#[test]
fn document_without_svg_is_refused() {
    match plan_layer_exports("<html><g/></html>", "всё_в1р2.svg", &zero) {
        Err(e) => {
            assert!(matches!(e, SplitError::NoSvgRoot));
            assert_eq!(e.message(), "в документе нет корневого элемента <svg>");
        }
        Ok(_) => panic!("expected an error"),
    }
}

#[test]
fn document_without_layers_plans_nothing() {
    let plan = match plan_layer_exports("<svg><g id=\"x\"/></svg>", "всё_в1р2.svg", &zero) {
        Ok(p) => p,
        Err(e) => panic!("{}", e.message()),
    };
    assert!(plan.exports.is_empty());
    assert!(plan.error.is_none());
}

#[test]
fn self_closing_layer_keeps_its_slash() {
    let xml = "<svg xmlns:inkscape=\"http://www.inkscape.org/namespaces/inkscape\"><g inkscape:groupmode=\"layer\" inkscape:label=\"e\"/></svg>";
    let plan = match plan_layer_exports(xml, "всё_в1р2.svg", &zero) {
        Ok(p) => p,
        Err(e) => panic!("{}", e.message()),
    };
    assert_eq!(plan.exports.len(), 1);
    assert_eq!(
        plan.exports[0].content,
        format!("{HEADER}<svg xmlns:inkscape=\"http://www.inkscape.org/namespaces/inkscape\">\n<g inkscape:groupmode=\"layer\" inkscape:label=\"e\"/ style=\"{VISIBLE}\">\n</svg>\n")
    );
}

#[test]
fn error_messages() {
    assert_eq!(SplitError::SvgTagEnd.message(), "не удалось определить конец открывающего тега <svg>");
    assert_eq!(SplitError::LayerTagEnd.message(), "не удалось определить конец открывающего тега группы слоя <g>");
    assert_eq!(SplitError::Xml("m".to_string()).message(), "m");
    assert!(!SplitError::BadRange.message().is_empty());
}

#[test]
fn character_references_are_read_before_merging() {
    assert_eq!(
        patch_layer_root_g_open_tag_for_visibility(r#"<g style="font-family:&quot;A&quot;">"#, &zero),
        r#"<g style="font-family:&quot;A&quot;; display:inline; visibility:visible; opacity:1">"#
    );
    assert_eq!(
        patch_layer_root_g_open_tag_for_visibility(r#"<g style="a:&#x22;b&#34;;c:&lt;d&gt;&amp;e;display:none">"#, &zero),
        r#"<g style="a:&quot;b&quot;; c:&lt;d>&amp;e; display:inline; visibility:visible; opacity:1">"#
    );
    assert_eq!(
        patch_layer_root_g_open_tag_for_visibility("<g style='f:&apos;A&apos;'>", &zero),
        r#"<g style="f:'A'; display:inline; visibility:visible; opacity:1">"#
    );
    assert_eq!(
        patch_layer_root_g_open_tag_for_visibility(r#"<g style="a:&#59;x">"#, &zero),
        r#"<g style="a:; x; display:inline; visibility:visible; opacity:1">"#
    );
}

#[test]
fn escaping_turns_every_ampersand_into_an_entity() {
    assert_eq!(xml_escape_double_quoted_attr_value("a&b\"c<d>"), "a&amp;b&quot;c&lt;d>");
    assert_eq!(xml_escape_double_quoted_attr_value("&quot;"), "&amp;quot;");
    assert_eq!(xml_escape_double_quoted_attr_value("plain'>"), "plain'>");
}

#[test]
fn references_decode_to_their_characters() {
    assert_eq!(decode_references("&lt;&gt;&amp;&apos;&quot;"), "<>&'\"");
    assert_eq!(decode_references("&#65;&#x42;&#x1F600;"), "AB\u{1F600}");
    assert_eq!(decode_references("&amp;quot;"), "&quot;");
    assert_eq!(decode_references("&foo; &; & &#xD800; &#X41; &#1114112; &#x;"), "&foo; &; & &#xD800; &#X41; &#1114112; &#x;");
    assert_eq!(decode_references("a&quot"), "a&quot");
}

#[test]
fn a_layer_named_like_the_drawing_gets_another_name() {
    let xml = "<svg xmlns:inkscape=\"http://www.inkscape.org/namespaces/inkscape\"><g inkscape:groupmode=\"layer\" inkscape:label=\"всё_в1р2\"/><g inkscape:groupmode=\"layer\" inkscape:label=\"всё_в1р2\"/><g inkscape:groupmode=\"layer\" inkscape:label=\"b\"/></svg>";
    let plan = match plan_layer_exports(xml, "всё_в1р2.svg", &zero) {
        Ok(p) => p,
        Err(e) => panic!("{}", e.message()),
    };
    let names: Vec<&str> = plan.exports.iter().map(|e| e.file_name.as_str()).collect();
    assert_eq!(names, vec!["всё_в1р2_2.svg", "всё_в1р2_3.svg", "b.svg"]);
    let renamed: Vec<bool> = plan.exports.iter().map(|e| e.renamed_duplicates).collect();
    assert_eq!(renamed, vec![true, true, false]);
    let plan = match plan_layer_exports(xml, "other.svg", &zero) {
        Ok(p) => p,
        Err(e) => panic!("{}", e.message()),
    };
    let names: Vec<&str> = plan.exports.iter().map(|e| e.file_name.as_str()).collect();
    assert_eq!(names, vec!["всё_в1р2.svg", "всё_в1р2_2.svg", "b.svg"]);
}

use rust_examples::layers::{plan_layers_from_nodes, SplitError, XmlAttribute, XmlNode};

const NS: &str = "http://www.inkscape.org/namespaces/inkscape";
const HEADER: &str = "<?xml version=\"1.0\" encoding=\"UTF-8\" standalone=\"no\"?>\n";

fn no_zero(_v: String) -> bool {
    false
}

fn attr(name: &str, value: &str) -> XmlAttribute {
    XmlAttribute { namespace: Some(NS.to_string()), name: name.to_string(), value: value.to_string() }
}

fn node(id: usize, tag: &str, parent: Option<usize>, start: usize, end: usize, attributes: Vec<XmlAttribute>) -> XmlNode {
    XmlNode { id, tag_name: tag.to_string(), parent, start, end, attributes }
}

#[test]
fn planning_from_given_nodes() {
    let xml = "<svg><g i:groupmode=\"layer\" i:label=\"L\">x</g><g i:groupmode=\"layer\" i:label=\"L\"/></svg>";
    let g1_end = xml.find("</g>").unwrap() + 4;
    let g2_start = g1_end;
    let g2_end = xml.rfind("</svg>").unwrap();
    let nodes = vec![
        node(0, "", None, 0, xml.len(), vec![]),
        node(1, "svg", Some(0), 0, xml.len(), vec![]),
        node(2, "g", Some(1), 5, g1_end, vec![attr("groupmode", "layer"), attr("label", "L")]),
        node(3, "g", Some(1), g2_start, g2_end, vec![attr("groupmode", "layer"), attr("label", "L")]),
        node(4, "g", Some(1), g2_start, g2_end, vec![attr("groupmode", "sublayer")]),
    ];
    let plan = match plan_layers_from_nodes(xml, &nodes, "src.svg", &no_zero) {
        Ok(p) => p,
        Err(e) => panic!("{}", e.message()),
    };
    assert!(plan.error.is_none());
    assert_eq!(plan.exports.len(), 2);
    assert_eq!(plan.exports[0].file_name, "L.svg");
    assert_eq!(plan.exports[1].file_name, "L_2.svg");
    let plan = match plan_layers_from_nodes(xml, &nodes, "L_2.svg", &no_zero) {
        Ok(p) => p,
        Err(e) => panic!("{}", e.message()),
    };
    assert_eq!(plan.exports[0].file_name, "L.svg");
    assert_eq!(plan.exports[1].file_name, "L_3.svg");
    assert!(!plan.exports[0].renamed_duplicates);
    assert!(plan.exports[1].renamed_duplicates);
    assert_eq!(
        plan.exports[0].content,
        format!("{HEADER}<svg>\n<g i:groupmode=\"layer\" i:label=\"L\" style=\"display:inline; visibility:visible; opacity:1\">x</g>\n</svg>\n")
    );
}

#[test]
fn a_layer_range_off_its_tag_stops_the_plan() {
    let xml = "<svg><g/>ab</svg>";
    let nodes = vec![
        node(0, "svg", None, 0, xml.len(), vec![]),
        node(1, "g", Some(0), 9, 11, vec![attr("groupmode", "layer")]),
    ];
    let plan = match plan_layers_from_nodes(xml, &nodes, "src.svg", &no_zero) {
        Ok(p) => p,
        Err(e) => panic!("{}", e.message()),
    };
    assert!(plan.exports.is_empty());
    assert!(matches!(plan.error, Some(SplitError::LayerTagEnd)));
}

#[test]
fn nodes_without_svg_are_refused() {
    let nodes = vec![node(0, "html", None, 0, 6, vec![])];
    assert!(matches!(plan_layers_from_nodes("<html/>", &nodes, "src.svg", &no_zero), Err(SplitError::NoSvgRoot)));
}

use vstd::prelude::*;
use vstd::string::*;
use vstd::utf8::*;
use crate::open_tag;
use crate::style;
use crate::svg;
use crate::layer_names;
use crate::layer_names::{StemCounts, count_in};
use crate::text;
use roxmltree::Document;

verus! {

broadcast use vstd::string::group_string_axioms;

/// An XML attribute, as plain values.
pub struct XmlAttribute {
    pub namespace: Option<String>,
    pub name: String,
    pub value: String,
}

/// The characters of an `XmlAttribute`.
pub struct XmlAttributeView {
    pub namespace: Option<Seq<char>>,
    pub name: Seq<char>,
    pub value: Seq<char>,
}

impl View for XmlAttribute {
    type V = XmlAttributeView;

    open spec fn view(&self) -> XmlAttributeView {
        XmlAttributeView {
            namespace: match self.namespace {
                Some(s) => Some(s@),
                None => None,
            },
            name: self.name@,
            value: self.value@,
        }
    }
}

/// A node of a parsed XML document, as plain values: its id, the local name
/// of its tag (empty for nodes that are not elements), the id of its parent,
/// its byte range in the text, and its attributes.
pub struct XmlNode {
    pub id: usize,
    pub tag_name: String,
    pub parent: Option<usize>,
    pub start: usize,
    pub end: usize,
    pub attributes: Vec<XmlAttribute>,
}

/// The plain contents of an `XmlNode`.
pub struct XmlNodeView {
    pub id: usize,
    pub tag_name: Seq<char>,
    pub parent: Option<usize>,
    pub start: usize,
    pub end: usize,
    pub attributes: Seq<XmlAttributeView>,
}

impl View for XmlNode {
    type V = XmlNodeView;

    open spec fn view(&self) -> XmlNodeView {
        XmlNodeView {
            id: self.id,
            tag_name: self.tag_name@,
            parent: self.parent,
            start: self.start,
            end: self.end,
            attributes: self.attributes@.map_values(|a: XmlAttribute| a@),
        }
    }
}

/// The nodes of `nodes`, by their views.
pub open spec fn nodes_view(nodes: Seq<XmlNode>) -> Seq<XmlNodeView> {
    nodes.map_values(|n: XmlNode| n@)
}

/// The nodes that roxmltree's parser gives for the text `text`, in document
/// order (the root node first), or, where it refuses the text, the message
/// of its error.
pub uninterp spec fn parsed_xml(text: Seq<char>) -> Result<Seq<XmlNodeView>, Seq<char>>;

/// Parses `text` with `roxmltree::Document::parse` and lists all its nodes
/// (`Document::descendants`) as plain values, or gives the `Display` text of
/// the parser's error. The contract claims that the result is a function of
/// the text alone (`parsed_xml`), and, from the parser's source, that it
/// never holds more than `u32::MAX` nodes (its default node limit). Nothing
/// is claimed about the byte ranges or what the message says.
#[verifier::external_body]
fn parse_xml_nodes(text: &str) -> (r: Result<Vec<XmlNode>, String>)
    ensures
        match r {
            Ok(nodes) => parsed_xml(text@) == Ok::<Seq<XmlNodeView>, Seq<char>>(nodes_view(nodes@)) && nodes@.len() <= u32::MAX,
            Err(m) => parsed_xml(text@) == Err::<Seq<XmlNodeView>, Seq<char>>(m@),
        },
{
    let doc = Document::parse(text).map_err(|e| e.to_string())?;
    let mut nodes = Vec::new();
    for n in doc.descendants() {
        let mut attributes = Vec::new();
        for a in n.attributes() {
            attributes.push(XmlAttribute { namespace: a.namespace().map(String::from), name: a.name().to_string(), value: a.value().to_string() });
        }
        nodes.push(XmlNode { id: n.id().get_usize(), tag_name: n.tag_name().name().to_string(), parent: n.parent().map(|p| p.id().get_usize()), start: n.range().start, end: n.range().end, attributes });
    }
    Ok(nodes)
}

/// The text between the byte positions `a` and `b` of `text` (in UTF-8),
/// where both are character boundaries.
pub open spec fn byte_range_text(text: Seq<char>, a: int, b: int) -> Option<Seq<char>> {
    let bytes = encode_utf8(text);
    if 0 <= a <= b <= bytes.len() && is_char_boundary(bytes, a) && is_char_boundary(
        bytes.subrange(a, bytes.len() as int),
        b - a,
    ) {
        Some(decode_utf8(bytes.subrange(a, b)))
    } else {
        None
    }
}

/// The part of `s` between the byte positions `a` and `b`.
fn byte_range(s: &str, a: usize, b: usize) -> (r: Option<&str>)
    ensures
        match r {
            Some(t) => byte_range_text(s@, a as int, b as int) == Some(t@),
            None => byte_range_text(s@, a as int, b as int) is None,
        },
{
    broadcast use vstd::utf8::group_utf8_lib;
    let ghost bytes = s.spec_bytes();
    let total = s.as_bytes().len();
    if a > b || b > total {
        return None;
    }
    assert(b <= bytes.len());
    if !s.is_char_boundary(a) {
        assert(!is_char_boundary(bytes, a as int));
        return None;
    }
    let (_, right) = s.split_at(a);
    if !right.is_char_boundary(b - a) {
        return None;
    }
    let (mid, _) = right.split_at(b - a);
    proof {
        let bytes = s.spec_bytes();
        assert(mid.spec_bytes() =~= bytes.subrange(a as int, b as int));
    }
    Some(mid)
}


/// Why a layer document could not be made.
pub enum SplitError {
    /// The text is not well-formed XML; the parser's message.
    Xml(String),
    /// The document has no `svg` element.
    NoSvgRoot,
    /// The end of the opening `<svg>` tag was not found.
    SvgTagEnd,
    /// The end of the opening tag of a layer's `<g>` was not found.
    LayerTagEnd,
    /// A node's byte range does not fall on character boundaries of the text.
    BadRange,
}

/// The message shown for the error `e`.
pub open spec fn split_error_message(e: SplitError) -> Seq<char> {
    match e {
        SplitError::Xml(m) => m@,
        SplitError::NoSvgRoot => "в документе нет корневого элемента <svg>"@,
        SplitError::SvgTagEnd => "не удалось определить конец открывающего тега <svg>"@,
        SplitError::LayerTagEnd => "не удалось определить конец открывающего тега группы слоя <g>"@,
        SplitError::BadRange => "диапазон узла XML не совпадает с границами символов"@,
    }
}

impl SplitError {
    /// The message shown for this error (see `split_error_message`).
    pub fn message(&self) -> (r: String)
        ensures
            r@ == split_error_message(*self),
    {
        match self {
            SplitError::Xml(m) => m.clone(),
            SplitError::NoSvgRoot => "в документе нет корневого элемента <svg>".to_owned(),
            SplitError::SvgTagEnd => "не удалось определить конец открывающего тега <svg>".to_owned(),
            SplitError::LayerTagEnd => "не удалось определить конец открывающего тега группы слоя <g>".to_owned(),
            SplitError::BadRange => "диапазон узла XML не совпадает с границами символов".to_owned(),
        }
    }
}

/// The XML declaration that starts every layer document.
pub open spec fn xml_header() -> Seq<char> {
    "<?xml version=\"1.0\" encoding=\"UTF-8\" standalone=\"no\"?>\n"@
}

/// The SVG document for one layer: the XML declaration, the opening `<svg>`
/// tag of the source as it is, the layer's opening `<g>` tag made visible,
/// the rest of the layer's element as it is, and `</svg>`. Byte positions
/// refer to the UTF-8 encoding of `text`.
#[verifier::opaque]
pub open spec fn layer_document(
    text: Seq<char>,
    svg_start: int,
    layer_start: int,
    layer_end: int,
    zero: spec_fn(Seq<char>) -> bool,
) -> Result<Seq<char>, SplitError> {
    let bytes = encode_utf8(text);
    match svg::opening_tag_end(bytes, svg_start) {
        None => Err(SplitError::SvgTagEnd),
        Some(e1) => match svg::opening_tag_end(bytes, layer_start) {
            None => Err(SplitError::LayerTagEnd),
            Some(e2) => match (
                byte_range_text(text, svg_start, e1 + 1),
                byte_range_text(text, layer_start, e2 + 1),
                byte_range_text(text, e2 + 1, layer_end),
            ) {
                (Some(open_svg), Some(open_g), Some(tail)) => Ok(
                    xml_header() + open_svg + "\n"@ + open_tag::patched_open_tag(open_g, zero) + tail
                        + "\n</svg>\n"@,
                ),
                _ => Err(SplitError::BadRange),
            },
        },
    }
}

/// Builds the SVG document of one layer (see `layer_document`) from the
/// source text, its `svg` node and the layer's `g` node. `opacity_is_zero`
/// decides whether an opacity value parses as the number zero.
pub fn build_layer_document<F: Fn(String) -> bool>(
    xml: &str,
    svg: &XmlNode,
    layer: &XmlNode,
    opacity_is_zero: &F,
) -> (r: Result<String, SplitError>)
    requires
        style::is_value_test(opacity_is_zero),
    ensures
        match r {
            Ok(doc) => layer_document(xml@, svg.start as int, layer.start as int, layer.end as int, style::zero_by(opacity_is_zero)) == Ok::<Seq<char>, SplitError>(doc@),
            Err(e) => layer_document(xml@, svg.start as int, layer.start as int, layer.end as int, style::zero_by(opacity_is_zero)) == Err::<Seq<char>, SplitError>(e),
        },
{
    reveal(layer_document);
    let e1 = match svg::end_of_opening_tag(xml, svg.start) {
        Some(e) => e,
        None => return Err(SplitError::SvgTagEnd),
    };
    let e2 = match svg::end_of_opening_tag(xml, layer.start) {
        Some(e) => e,
        None => return Err(SplitError::LayerTagEnd),
    };
    let open_svg = byte_range(xml, svg.start, e1 + 1);
    let open_g = byte_range(xml, layer.start, e2 + 1);
    let tail = byte_range(xml, e2 + 1, layer.end);
    match (open_svg, open_g, tail) {
        (Some(open_svg), Some(open_g), Some(tail)) => {
            let patched = open_tag::patch_layer_root_g_open_tag_for_visibility(open_g, opacity_is_zero);
            let mut out = String::new();
            out.append("<?xml version=\"1.0\" encoding=\"UTF-8\" standalone=\"no\"?>\n");
            out.append(open_svg);
            out.append("\n");
            out.append(patched.as_str());
            out.append(tail);
            out.append("\n</svg>\n");
            Ok(out)
        },
        _ => Err(SplitError::BadRange),
    }
}


/// The namespace of Inkscape's attributes.
pub open spec fn inkscape_namespace() -> Seq<char> {
    "http://www.inkscape.org/namespaces/inkscape"@
}

/// The value of the first attribute in `attrs` with namespace `ns` and local
/// name `name` (`Node::attribute` with an expanded name).
pub open spec fn attribute_in(attrs: Seq<XmlAttributeView>, ns: Seq<char>, name: Seq<char>) -> Option<Seq<char>>
    decreases attrs.len(),
{
    if attrs.len() == 0 {
        None
    } else if attrs[0].namespace == Some(ns) && attrs[0].name == name {
        Some(attrs[0].value)
    } else {
        attribute_in(attrs.drop_first(), ns, name)
    }
}

/// The position of the first node (in document order) whose tag is `svg`.
pub open spec fn first_svg(nodes: Seq<XmlNodeView>) -> Option<int> {
    if exists|i: int| 0 <= i < nodes.len() && nodes[i].tag_name == "svg"@ {
        Some(choose|i: int| 0 <= i < nodes.len() && nodes[i].tag_name == "svg"@ && forall|j: int| 0 <= j < i ==> nodes[j].tag_name != "svg"@)
    } else {
        None
    }
}

/// `n` is an Inkscape layer directly under the node with id `svg_id`: a `g`
/// element child with `inkscape:groupmode="layer"`.
pub open spec fn is_layer_of(n: XmlNodeView, svg_id: usize) -> bool {
    &&& n.parent == Some(svg_id)
    &&& n.tag_name == "g"@
    &&& attribute_in(n.attributes, inkscape_namespace(), "groupmode"@) == Some("layer"@)
}

/// The label of a layer: its `inkscape:label`, or a stand-in when it has none.
pub open spec fn layer_label(n: XmlNodeView) -> Seq<char> {
    match attribute_in(n.attributes, inkscape_namespace(), "label"@) {
        Some(l) => l,
        None => "<без имени>"@,
    }
}

/// One layer's file: its name, the layer's label, whether a counter was
/// added to the name because an earlier layer had the same one, and the
/// document's text.
pub struct LayerExport {
    pub file_name: String,
    pub layer_label: String,
    pub renamed_duplicates: bool,
    pub content: String,
}

/// The characters of a `LayerExport`.
pub struct LayerExportView {
    pub file_name: Seq<char>,
    pub layer_label: Seq<char>,
    pub renamed_duplicates: bool,
    pub content: Seq<char>,
}

impl View for LayerExport {
    type V = LayerExportView;

    open spec fn view(&self) -> LayerExportView {
        LayerExportView {
            file_name: self.file_name@,
            layer_label: self.layer_label@,
            renamed_duplicates: self.renamed_duplicates,
            content: self.content@,
        }
    }
}

/// The layers to write, in document order, up to the first one whose
/// document could not be made; `error` says why, if one could not.
pub struct LayerPlan {
    pub exports: Vec<LayerExport>,
    pub error: Option<SplitError>,
}

/// The state of the walk over the document's nodes: the stem counts, the
/// exports so far and the error that stopped the walk, if any.
pub struct PlanState {
    pub counts: Map<Seq<char>, u32>,
    pub exports: Seq<LayerExportView>,
    pub error: Option<SplitError>,
}

/// The number that the next layer with the sanitized name `base` gets, when
/// `counts` were given out before: the next one, or the one after it where
/// the next would give the file the name `source` of the drawing itself.
pub open spec fn layer_number(counts: Map<Seq<char>, u32>, base: Seq<char>, source: Seq<char>) -> nat {
    let next = count_in(counts, base) + 1;
    if layer_names::numbered_stem(base, next) + ".svg"@ == source {
        next + 1
    } else {
        next
    }
}

/// One step of the walk: what the node `n` does to the state `prev`.
pub open spec fn plan_step(
    text: Seq<char>,
    nodes: Seq<XmlNodeView>,
    svg: int,
    prev: PlanState,
    n: XmlNodeView,
    zero: spec_fn(Seq<char>) -> bool,
    source: Seq<char>,
) -> PlanState {
    if prev.error is Some || !is_layer_of(n, nodes[svg].id) {
        prev
    } else {
        let label = layer_label(n);
        let base = layer_names::sanitized(label);
        let cnt = layer_number(prev.counts, base, source);
        let stem = layer_names::numbered_stem(base, cnt);
        let counts = prev.counts.insert(base, cnt as u32);
        match layer_document(text, nodes[svg].start as int, n.start as int, n.end as int, zero) {
            Ok(content) => PlanState {
                counts,
                exports: prev.exports.push(
                    LayerExportView {
                        file_name: stem + ".svg"@,
                        layer_label: label,
                        renamed_duplicates: base != stem,
                        content,
                    },
                ),
                error: None,
            },
            Err(e) => PlanState { counts, exports: prev.exports, error: Some(e) },
        }
    }
}

/// The walk over the first `k` nodes: every layer under the `svg` node at
/// `svg` gets its file stem (sanitized label, numbered on repeats, and
/// numbered once more where the name would be `source`, the drawing's own
/// file name) and its document, until a document cannot be made.
#[verifier::opaque]
pub open spec fn plan_steps(
    text: Seq<char>,
    nodes: Seq<XmlNodeView>,
    svg: int,
    k: int,
    zero: spec_fn(Seq<char>) -> bool,
    source: Seq<char>,
) -> PlanState
    decreases k,
{
    if k <= 0 {
        PlanState { counts: Map::empty(), exports: Seq::empty(), error: None }
    } else {
        plan_step(text, nodes, svg, plan_steps(text, nodes, svg, k - 1, zero, source), nodes[k - 1], zero, source)
    }
}

proof fn lemma_plan_start(text: Seq<char>, nodes: Seq<XmlNodeView>, svg: int, zero: spec_fn(Seq<char>) -> bool, source: Seq<char>)
    ensures
        plan_steps(text, nodes, svg, 0, zero, source) == (PlanState { counts: Map::empty(), exports: Seq::empty(), error: None }),
{
    reveal(plan_steps);
}

/// One step of `plan_steps`.
proof fn lemma_plan_step(text: Seq<char>, nodes: Seq<XmlNodeView>, svg: int, k: int, zero: spec_fn(Seq<char>) -> bool, source: Seq<char>)
    requires
        0 <= k,
    ensures
        plan_steps(text, nodes, svg, k + 1, zero, source) == plan_step(
            text,
            nodes,
            svg,
            plan_steps(text, nodes, svg, k, zero, source),
            nodes[k],
            zero,
            source,
        ),
{
    reveal(plan_steps);
}

proof fn lemma_plan_stops(text: Seq<char>, nodes: Seq<XmlNodeView>, svg: int, k: int, m: int, zero: spec_fn(Seq<char>) -> bool, source: Seq<char>)
    requires
        0 <= k <= m,
        plan_steps(text, nodes, svg, k, zero, source).error is Some,
    ensures
        plan_steps(text, nodes, svg, m, zero, source).exports == plan_steps(text, nodes, svg, k, zero, source).exports,
        plan_steps(text, nodes, svg, m, zero, source).error == plan_steps(text, nodes, svg, k, zero, source).error,
    decreases m - k,
{
    if m > k {
        lemma_plan_stops(text, nodes, svg, k, m - 1, zero, source);
        lemma_plan_step(text, nodes, svg, m - 1, zero, source);
    }
}

/// Two texts with the same ending are equal when what comes before it is.
proof fn lemma_same_suffix(x: Seq<char>, y: Seq<char>, t: Seq<char>)
    requires
        x + t == y + t,
    ensures
        x == y,
{
    assert((x + t).take(x.len() as int) =~= x);
    assert((y + t).take(y.len() as int) =~= y);
}

fn find_svg(nodes: &Vec<XmlNode>) -> (r: Option<usize>)
    ensures
        match r {
            Some(s) => first_svg(nodes_view(nodes@)) == Some(s as int) && s < nodes@.len() && nodes_view(
                nodes@,
            )[s as int].tag_name == "svg"@,
            None => first_svg(nodes_view(nodes@)) is None,
        },
{
    let ghost nv = nodes_view(nodes@);
    let count = nodes.len();
    let svg_name = "svg".to_owned();
    let mut s: usize = 0;
    while s < count
        invariant
            count == nodes@.len(),
            nv == nodes_view(nodes@),
            svg_name@ == "svg"@,
            0 <= s <= count,
            forall|j: int| 0 <= j < s ==> nv[j].tag_name != "svg"@,
        decreases count - s,
    {
        if nodes[s].tag_name == svg_name {
            proof {
                assert(nv[s as int].tag_name == "svg"@);
                let k = choose|i: int| 0 <= i < nv.len() && nv[i].tag_name == "svg"@ && forall|j: int| 0 <= j < i ==> nv[j].tag_name != "svg"@;
                assert(0 <= k < nv.len() && nv[k].tag_name == "svg"@ && forall|j: int| 0 <= j < k ==> nv[j].tag_name != "svg"@);
                if k < s {
                } else if k > s {
                }
            }
            return Some(s);
        }
        s = s + 1;
    }
    None
}

/// The constant names that the walk compares with.
struct LayerNames {
    ns: String,
    g: String,
    groupmode: String,
    layer: String,
    label: String,
}

impl LayerNames {
    spec fn valid(&self) -> bool {
        &&& self.ns@ == inkscape_namespace()
        &&& self.g@ == "g"@
        &&& self.groupmode@ == "groupmode"@
        &&& self.layer@ == "layer"@
        &&& self.label@ == "label"@
    }

    fn new() -> (r: LayerNames)
        ensures
            r.valid(),
    {
        LayerNames {
            ns: "http://www.inkscape.org/namespaces/inkscape".to_owned(),
            g: "g".to_owned(),
            groupmode: "groupmode".to_owned(),
            layer: "layer".to_owned(),
            label: "label".to_owned(),
        }
    }
}

fn is_layer_node(n: &XmlNode, svg_id: usize, names: &LayerNames) -> (r: bool)
    requires
        names.valid(),
    ensures
        r == is_layer_of(n@, svg_id),
{
    let is_child = match n.parent {
        Some(p) => p == svg_id,
        None => false,
    };
    is_child && n.tag_name == names.g && match find_attribute(n, &names.ns, &names.groupmode) {
        Some(v) => v == names.layer,
        None => false,
    }
}

fn layer_label_of(n: &XmlNode, names: &LayerNames) -> (r: String)
    requires
        names.valid(),
    ensures
        r@ == layer_label(n@),
{
    match find_attribute(n, &names.ns, &names.label) {
        Some(l) => l,
        None => "<без имени>".to_owned(),
    }
}

fn find_attribute(n: &XmlNode, ns: &String, name: &String) -> (r: Option<String>)
    ensures
        match r {
            Some(v) => attribute_in(n@.attributes, ns@, name@) == Some(v@),
            None => attribute_in(n@.attributes, ns@, name@) is None,
        },
{
    let ghost attrs = n@.attributes;
    let len = n.attributes.len();
    let mut i: usize = 0;
    assert(attrs.skip(0) =~= attrs);
    while i < len
        invariant
            len == n.attributes@.len(),
            attrs == n@.attributes,
            0 <= i <= len,
            attribute_in(attrs, ns@, name@) == attribute_in(attrs.skip(i as int), ns@, name@),
        decreases len - i,
    {
        let a = &n.attributes[i];
        proof {
            assert(attrs.skip(i as int)[0] == a@);
            assert(attrs.skip(i + 1) =~= attrs.skip(i as int).drop_first());
        }
        let matches_ns = match &a.namespace {
            Some(x) => *x == *ns,
            None => false,
        };
        if matches_ns && a.name == *name {
            return Some(a.value.clone());
        }
        i = i + 1;
    }
    None
}

/// The files to write for the layers of an Inkscape SVG document: parses
/// `xml` with roxmltree and plans the layer files from its nodes (see
/// `plan_layers_from_nodes`); a text the parser refuses is an XML error.
/// `source_file_name` is the file name of the drawing itself, which no
/// layer file gets.
pub fn plan_layer_exports<F: Fn(String) -> bool>(xml: &str, source_file_name: &str, opacity_is_zero: &F) -> (r: Result<LayerPlan, SplitError>)
    requires
        style::is_value_test(opacity_is_zero),
    ensures
        match parsed_xml(xml@) {
            Err(m) => r matches Err(SplitError::Xml(msg)) && msg@ == m,
            Ok(nodes) => match first_svg(nodes) {
                None => r matches Err(SplitError::NoSvgRoot),
                Some(s) => r matches Ok(plan) && {
                    let st = plan_steps(xml@, nodes, s, nodes.len() as int, style::zero_by(opacity_is_zero), source_file_name@);
                    &&& plan.exports@.map_values(|e: LayerExport| e@) == st.exports
                    &&& plan.error == st.error
                },
            },
        },
        r matches Ok(plan) ==> forall|i: int| 0 <= i < plan.exports@.len() ==> #[trigger] plan.exports@[i].file_name@ != source_file_name@,
{
    let nodes = match parse_xml_nodes(xml) {
        Ok(nodes) => nodes,
        Err(m) => return Err(SplitError::Xml(m)),
    };
    plan_layers_from_nodes(xml, &nodes, source_file_name, opacity_is_zero)
}

/// The files to write for the layers of the document `xml` whose nodes, in
/// document order, are `nodes`: finds the first `svg` element, and for each
/// layer directly under it (in order) makes the file name and the layer
/// document (see `plan_steps`), stopping at the first layer whose document
/// cannot be made. No layer file gets the name `source_file_name`, the
/// drawing's own. There are at most `u32::MAX` nodes, as the parser allows.
pub fn plan_layers_from_nodes<F: Fn(String) -> bool>(
    xml: &str,
    nodes: &Vec<XmlNode>,
    source_file_name: &str,
    opacity_is_zero: &F,
) -> (r: Result<LayerPlan, SplitError>)
    requires
        style::is_value_test(opacity_is_zero),
        nodes@.len() <= u32::MAX,
    ensures
        match first_svg(nodes_view(nodes@)) {
            None => r matches Err(SplitError::NoSvgRoot),
            Some(s) => r matches Ok(plan) && {
                let st = plan_steps(xml@, nodes_view(nodes@), s, nodes@.len() as int, style::zero_by(opacity_is_zero), source_file_name@);
                &&& plan.exports@.map_values(|e: LayerExport| e@) == st.exports
                &&& plan.error == st.error
            },
        },
        r matches Ok(plan) ==> forall|i: int| 0 <= i < plan.exports@.len() ==> #[trigger] plan.exports@[i].file_name@ != source_file_name@,
{
    let ghost nv = nodes_view(nodes@);
    let ghost zero = style::zero_by(opacity_is_zero);
    let ghost src = source_file_name@;
    let source = source_file_name.to_owned();
    let count = nodes.len();
    let s = match find_svg(nodes) {
        Some(s) => s,
        None => return Err(SplitError::NoSvgRoot),
    };
    let svg = &nodes[s];
    proof {
        reveal_strlit("svg");
        reveal_strlit("g");
        assert(nv[s as int].tag_name == "svg"@);
        assert(!is_layer_of(nv[s as int], nv[s as int].id));
    }
    let names = LayerNames::new();
    let mut per_base = StemCounts::new();
    let mut exports: Vec<LayerExport> = Vec::new();
    let mut k: usize = 0;
    let ghost mut layers: int = 0;
    let ghost mut collided: Map<Seq<char>, nat> = Map::empty();
    assert(exports@.map_values(|e: LayerExport| e@) =~= Seq::<LayerExportView>::empty());
    proof {
        lemma_plan_start(xml@, nv, s as int, zero, src);
    }
    while k < count
        invariant
            count == nodes@.len(),
            count <= u32::MAX,
            nv == nodes_view(nodes@),
            first_svg(nv) == Some(s as int),
            0 <= s < count,
            svg@ == nv[s as int],
            !is_layer_of(nv[s as int], nv[s as int].id),
            names.valid(),
            style::is_value_test(opacity_is_zero),
            zero == style::zero_by(opacity_is_zero),
            src == source_file_name@,
            source@ == src,
            0 <= k <= count,
            per_base.well_formed(),
            per_base@ == plan_steps(xml@, nv, s as int, k as int, zero, src).counts,
            0 <= layers,
            layers + (if (s as int) < k { 1int } else { 0int }) <= k,
            forall|key: Seq<char>| #[trigger] per_base@.contains_key(key) ==> per_base@[key] <= layers + (if collided.contains_key(key) { 1int } else { 0int }),
            forall|key: Seq<char>| #[trigger] collided.contains_key(key) ==> {
                &&& per_base@.contains_key(key)
                &&& 1 <= collided[key] < per_base@[key]
                &&& layer_names::numbered_stem(key, collided[key]) + ".svg"@ == src
            },
            exports@.map_values(|e: LayerExport| e@) == plan_steps(xml@, nv, s as int, k as int, zero, src).exports,
            forall|i: int| 0 <= i < exports@.len() ==> #[trigger] exports@[i].file_name@ != src,
            plan_steps(xml@, nv, s as int, k as int, zero, src).error is None,
        decreases count - k,
    {
        let n = &nodes[k];
        let ghost prev = plan_steps(xml@, nv, s as int, k as int, zero, src);
        proof {
            lemma_plan_step(xml@, nv, s as int, k as int, zero, src);
            assert(nv[k as int] == n@);
        }
        if !is_layer_node(n, svg.id, &names) {
            k = k + 1;
            continue;
        }
        assert(k != s);
        let label = layer_label_of(n, &names);
        let sane = layer_names::sanitize_for_filename(label.as_str());
        let ghost base = sane@;
        let ghost old_count = count_in(per_base@, base);
        let ghost old_counts = per_base@;
        assert(old_count <= layers + (if collided.contains_key(base) { 1int } else { 0int }));
        assert(layers + 1 < u32::MAX);
        let mut stem = layer_names::unique_export_stem(label.as_str(), &mut per_base);
        let mut file_name = stem.clone();
        file_name.append(".svg");
        proof {
            reveal_strlit(".svg");
        }
        if file_name == source {
            proof {
                if collided.contains_key(base) {
                    let c = collided[base];
                    layer_names::numbered_stems_differ(base, c, old_count + 1);
                    lemma_same_suffix(layer_names::numbered_stem(base, c), layer_names::numbered_stem(base, old_count + 1), ".svg"@);
                }
                assert(!collided.contains_key(base));
                assert(count_in(per_base@, base) == old_count + 1);
            }
            stem = layer_names::unique_export_stem(label.as_str(), &mut per_base);
            file_name = stem.clone();
            file_name.append(".svg");
            proof {
                layer_names::numbered_stems_differ(base, old_count + 1, old_count + 2);
                if file_name@ == src {
                    lemma_same_suffix(layer_names::numbered_stem(base, old_count + 1), layer_names::numbered_stem(base, old_count + 2), ".svg"@);
                }
                collided = collided.insert(base, (old_count + 1) as nat);
                assert(per_base@ =~= old_counts.insert(base, (old_count + 2) as u32));
            }
        }
        proof {
            assert(layer_number(old_counts, base, src) == per_base@[base]);
            assert(per_base@ =~= old_counts.insert(base, layer_number(old_counts, base, src) as u32));
            layers = layers + 1;
            assert forall|key: Seq<char>| #[trigger] per_base@.contains_key(key) implies per_base@[key] <= layers + (if collided.contains_key(key) { 1int } else { 0int }) by {
                if key != base {
                    assert(old_counts.contains_key(key));
                }
            }
            assert forall|key: Seq<char>| #[trigger] collided.contains_key(key) implies {
                &&& per_base@.contains_key(key)
                &&& 1 <= collided[key] < per_base@[key]
                &&& layer_names::numbered_stem(key, collided[key]) + ".svg"@ == src
            } by {
                if key != base {
                    assert(old_counts.contains_key(key));
                }
            }
        }
        let content = match build_layer_document(xml, svg, n, opacity_is_zero) {
            Ok(c) => c,
            Err(e) => {
                proof {
                    assert(is_layer_of(nv[k as int], nv[s as int].id));
                    assert(layer_document(xml@, nv[s as int].start as int, nv[k as int].start as int, nv[k as int].end as int, zero) == Err::<Seq<char>, SplitError>(e));
                    assert(plan_steps(xml@, nv, s as int, k + 1, zero, src).error == Some(e));
                    assert(plan_steps(xml@, nv, s as int, k + 1, zero, src).exports == prev.exports);
                    lemma_plan_stops(xml@, nv, s as int, k + 1, count as int, zero, src);
                    assert(first_svg(nv) == Some(s as int));
                }
                return Ok(LayerPlan { exports, error: Some(e) });
            },
        };
        let renamed_duplicates = !(sane == stem);
        let ghost before = exports@.map_values(|e: LayerExport| e@);
        let ghost old_exports = exports@;
        exports.push(LayerExport { file_name, layer_label: label, renamed_duplicates, content });
        proof {
            assert(exports@.map_values(|e: LayerExport| e@) =~= before.push(exports@.last()@));
            assert forall|i: int| 0 <= i < exports@.len() implies #[trigger] exports@[i].file_name@ != src by {
                if i < old_exports.len() {
                    assert(exports@[i] == old_exports[i]);
                }
            }
        }
        k = k + 1;
    }
    Ok(LayerPlan { exports, error: None })
}

} // verus!

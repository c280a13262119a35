//! The document model: the nodes of a parsed XML text, in document order, as
//! plain values (tag name, attributes, children, text), with the lookups the
//! rest of the library makes on them.
use vstd::prelude::*;

verus! {

/// Declares `roxmltree::Error`, the parser's refusal, so that it can be passed
/// on; nothing inside it is read.
#[verifier::external_type_specification]
#[verifier::external_body]
pub struct ExXmlParseError(roxmltree::Error);

/// One node of a parsed document.
pub struct XmlNode {
    /// Local tag name; empty for the root, text, comment and processing-instruction nodes.
    pub tag: String,
    /// Attributes in document order: local name and value.
    pub attrs: Vec<(String, String)>,
    /// Ids of the child nodes, in order.
    pub children: Vec<u32>,
    /// The node's text: an element's first child when that is text, a text or comment node's own.
    pub text: Option<String>,
}

/// The plain contents of a node.
pub struct XmlNodeView {
    pub tag: Seq<char>,
    pub attrs: Seq<(Seq<char>, Seq<char>)>,
    pub children: Seq<u32>,
    pub text: Option<Seq<char>>,
}

impl View for XmlNode {
    type V = XmlNodeView;

    open spec fn view(&self) -> XmlNodeView {
        XmlNodeView {
            tag: self.tag@,
            attrs: self.attrs.deep_view(),
            children: self.children@,
            text: self.text.deep_view(),
        }
    }
}

/// A well-formed node list: a root at id 0, ids that fit in `u32`, and child ids that name nodes.
pub open spec fn tree_wf(t: Seq<XmlNodeView>) -> bool {
    &&& 1 <= t.len() <= u32::MAX
    &&& forall|i: int| 0 <= i < t.len() ==> #[trigger] t[i].children.len() <= u32::MAX
    &&& forall|i: int, j: int|
        0 <= i < t.len() && 0 <= j < t[i].children.len() ==> #[trigger] t[i].children[j] < t.len()
}

/// The nodes, in document order, of what `roxmltree::Document::parse` builds from `text`
/// (node 0 is the root); nothing where it refuses the text.
pub uninterp spec fn parsed_nodes(text: Seq<char>) -> Option<Seq<XmlNodeView>>;

/// Calls `roxmltree::Document::parse` and copies every node of the document, in the
/// order of `Document::descendants` (which is id order), into plain values.
/// Claimed: success exactly where `parsed_nodes` is something, and then its value;
/// the node list holds a root, has fewer than `u32::MAX` + 1 nodes (the parser's node
/// limit), and each node's children are at most that many and name nodes of the document. The refusal itself is passed on
/// with nothing stated of it.
#[verifier::external_body]
fn parse_document(text: &str) -> (r: Result<Vec<XmlNode>, roxmltree::Error>)
    ensures
        r is Ok <==> parsed_nodes(text@) is Some,
        r matches Ok(v) ==> parsed_nodes(text@) == Some(v@.map_values(|n: XmlNode| n@)),
        r matches Ok(v) ==> tree_wf(v@.map_values(|n: XmlNode| n@)),
{
    let doc = roxmltree::Document::parse(text)?;
    Ok(doc.descendants().map(|n| XmlNode {
        tag: n.tag_name().name().to_string(),
        attrs: n.attributes().map(|a| (a.name().to_string(), a.value().to_string())).collect(),
        children: n.children().map(|c| c.id().get()).collect(),
        text: n.text().map(|s| s.to_string()),
    }).collect())
}

/// A parsed document.
pub struct XmlTree {
    nodes: Vec<XmlNode>,
}

impl View for XmlTree {
    type V = Seq<XmlNodeView>;

    closed spec fn view(&self) -> Seq<XmlNodeView> {
        self.nodes@.map_values(|n: XmlNode| n@)
    }
}

/// The value of the first attribute named `key`.
pub open spec fn attr_lookup(attrs: Seq<(Seq<char>, Seq<char>)>, key: Seq<char>) -> Option<Seq<char>>
    decreases attrs.len(),
{
    if attrs.len() == 0 {
        None
    } else if attrs[0].0 == key {
        Some(attrs[0].1)
    } else {
        attr_lookup(attrs.drop_first(), key)
    }
}

/// The value of attribute `key` of node `id`, or `dflt` where it has none.
pub open spec fn attr_or(t: Seq<XmlNodeView>, id: int, key: Seq<char>, dflt: Seq<char>) -> Seq<char> {
    match attr_lookup(t[id].attrs, key) {
        Some(v) => v,
        None => dflt,
    }
}

impl XmlTree {
    #[verifier::type_invariant]
    spec fn wf(self) -> bool {
        tree_wf(self@)
    }

    /// Parses an XML text.
    pub fn parse(text: &str) -> (r: Result<XmlTree, roxmltree::Error>)
        ensures
            r is Ok <==> parsed_nodes(text@) is Some,
            r matches Ok(t) ==> parsed_nodes(text@) == Some(t@),
    {
        match parse_document(text) {
            Ok(nodes) => Ok(XmlTree { nodes }),
            Err(e) => Err(e),
        }
    }

    /// The number of nodes; every tree is well formed.
    pub fn len(&self) -> (n: usize)
        ensures
            n == self@.len(),
            tree_wf(self@),
    {
        proof {
            use_type_invariant(self);
        }
        self.nodes.len()
    }

    /// The node with id `id`.
    pub fn node(&self, id: u32) -> (r: &XmlNode)
        requires
            id < self@.len(),
        ensures
            r@ == self@[id as int],
    {
        &self.nodes[id as usize]
    }

    /// The value of the first attribute of node `id` named `key`.
    pub fn attribute(&self, id: u32, key: &str) -> (r: Option<String>)
        requires
            id < self@.len(),
        ensures
            r.deep_view() == attr_lookup(self@[id as int].attrs, key@),
    {
        let node = &self.nodes[id as usize];
        let ghost attrs = self@[id as int].attrs;
        let key_s = String::from_str(key);
        let mut i: usize = 0;
        assert(attrs.skip(0) =~= attrs);
        while i < node.attrs.len()
            invariant
                attrs == node@.attrs,
                attrs == self@[id as int].attrs,
                0 <= i <= node.attrs.len(),
                node.attrs.len() == attrs.len(),
                key_s@ == key@,
                attr_lookup(attrs.skip(i as int), key@) == attr_lookup(attrs, key@),
            decreases node.attrs.len() - i,
        {
            assert(attrs.skip(i as int).drop_first() =~= attrs.skip(i + 1));
            assert(attrs.skip(i as int)[0] == attrs[i as int]);
            assert(attrs[i as int] == (node.attrs@[i as int].0@, node.attrs@[i as int].1@));
            if node.attrs[i].0 == key_s {
                return Some(node.attrs[i].1.clone());
            }
            i = i + 1;
        }
        None
    }
}

} // verus!

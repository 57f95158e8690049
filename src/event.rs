use vstd::prelude::*;

verus! {

/// The tag of a syntax event, one per rule of the HTML grammar.
#[derive(Debug, Clone, Copy, PartialEq, Eq, Structural)]
pub enum Rule {
    Html,
    Doctype,
    Node,
    NodeText,
    NodeComment,
    NodeElement,
    ElVoid,
    ElVoidXml,
    ElProcessInstruct,
    ElRawText,
    ElRawTextName,
    ElRawTextContent,
    ElRawTextEnd,
    ElNormal,
    ElNormalStart,
    ElNormalEnd,
    ElDangling,
    ElName,
    ElVoidName,
    Attr,
    AttrKey,
    AttrValue,
    AttrNonQuoted,
    AttrQuoted,
    Eoi,
}

/// A byte range of the source text.
#[derive(Debug, Clone, Copy, PartialEq, Eq, Structural)]
pub struct Span {
    pub start: usize,
    pub end: usize,
}

/// One syntax event: a rule tag, the range and the text it matched, and the
/// events nested inside it.
#[derive(Debug)]
pub struct Event {
    pub rule: Rule,
    pub span: Span,
    pub text: String,
    pub inner: Vec<Event>,
}

impl Rule {
    /// The grammar's name of the rule.
    pub open spec fn spec_name(self) -> Seq<char> {
        match self {
            Rule::Html => "html"@,
            Rule::Doctype => "doctype"@,
            Rule::Node => "node"@,
            Rule::NodeText => "node_text"@,
            Rule::NodeComment => "node_comment"@,
            Rule::NodeElement => "node_element"@,
            Rule::ElVoid => "el_void"@,
            Rule::ElVoidXml => "el_void_xml"@,
            Rule::ElProcessInstruct => "el_process_instruct"@,
            Rule::ElRawText => "el_raw_text"@,
            Rule::ElRawTextName => "el_raw_text_name"@,
            Rule::ElRawTextContent => "el_raw_text_content"@,
            Rule::ElRawTextEnd => "el_raw_text_end"@,
            Rule::ElNormal => "el_normal"@,
            Rule::ElNormalStart => "el_normal_start"@,
            Rule::ElNormalEnd => "el_normal_end"@,
            Rule::ElDangling => "el_dangling"@,
            Rule::ElName => "el_name"@,
            Rule::ElVoidName => "el_void_name"@,
            Rule::Attr => "attr"@,
            Rule::AttrKey => "attr_key"@,
            Rule::AttrValue => "attr_value"@,
            Rule::AttrNonQuoted => "attr_non_quoted"@,
            Rule::AttrQuoted => "attr_quoted"@,
            Rule::Eoi => "EOI"@,
        }
    }

    /// The grammar's name of the rule, as used in error messages.
    pub fn name(self) -> (r: &'static str)
        ensures
            r@ == self.spec_name(),
    {
        match self {
            Rule::Html => "html",
            Rule::Doctype => "doctype",
            Rule::Node => "node",
            Rule::NodeText => "node_text",
            Rule::NodeComment => "node_comment",
            Rule::NodeElement => "node_element",
            Rule::ElVoid => "el_void",
            Rule::ElVoidXml => "el_void_xml",
            Rule::ElProcessInstruct => "el_process_instruct",
            Rule::ElRawText => "el_raw_text",
            Rule::ElRawTextName => "el_raw_text_name",
            Rule::ElRawTextContent => "el_raw_text_content",
            Rule::ElRawTextEnd => "el_raw_text_end",
            Rule::ElNormal => "el_normal",
            Rule::ElNormalStart => "el_normal_start",
            Rule::ElNormalEnd => "el_normal_end",
            Rule::ElDangling => "el_dangling",
            Rule::ElName => "el_name",
            Rule::ElVoidName => "el_void_name",
            Rule::Attr => "attr",
            Rule::AttrKey => "attr_key",
            Rule::AttrValue => "attr_value",
            Rule::AttrNonQuoted => "attr_non_quoted",
            Rule::AttrQuoted => "attr_quoted",
            Rule::Eoi => "EOI",
        }
    }
}

} // verus!

//! Names of the node structs in the compiled intermediate form.

use vstd::prelude::*;

verus! {

pub const EXPR_NODE: &'static str = "ExprNode";
pub const ELEMENT_ATTRS_NODE: &'static str = "ElementAttrsNode";
pub const IF_NODE: &'static str = "IfNode";
pub const FOR_NODE: &'static str = "ForNode";
pub const COMPONENT_NODE: &'static str = "ComponentNode";
pub const TEMPLATE_ATTR_NODE: &'static str = "TemplateHtmlAttr";

} // verus!

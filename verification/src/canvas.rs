//! Drawing on an SVG document of the `svg` crate.
//!
//! The crate's elements are opaque here. What the drawing code needs of them
//! is named: the attributes and the children that an element holds, and
//! whether a document is flat, which every document made here is. The
//! functions below that call into the crate state over these names what the
//! call does; those statements are taken from the crate and not proved.

use crate::text::{decimal_text, push_number};
use svg::node::element::{Rectangle, Style, SVG};
use vstd::prelude::*;

verus! {

/// A child of a document as plain values: its tag, its attributes and the
/// text it holds.
pub type Shape = (Seq<char>, Map<Seq<char>, Seq<char>>, Seq<char>);

#[verifier::external_type_specification]
#[verifier::external_body]
pub struct ExRectangle(svg::node::element::Rectangle);

#[verifier::external_type_specification]
#[verifier::external_body]
pub struct ExDocument(svg::node::element::SVG);

/// The attributes of a `rect` element, by name.
pub uninterp spec fn rect_attrs(r: Rectangle) -> Map<Seq<char>, Seq<char>>;

/// The children of a `rect` element, in the order in which they were added.
pub uninterp spec fn rect_children(r: Rectangle) -> Seq<Shape>;

/// The attributes of a document, by name.
pub uninterp spec fn doc_attrs(d: SVG) -> Map<Seq<char>, Seq<char>>;

/// The children of a document, in the order in which they were added.
pub uninterp spec fn doc_children(d: SVG) -> Seq<Shape>;

/// Whether the document is flat: every child is a `rect` element without
/// children of its own, or a `style` element as `Style::new` makes it. The
/// tag, the attributes and the text of each child then say all that there
/// is to say of it.
pub uninterp spec fn built_flat(d: SVG) -> bool;

/// The text that a flat document with these attributes and children is
/// written as.
pub uninterp spec fn svg_text(attrs: Map<Seq<char>, Seq<char>>, children: Seq<Shape>) -> Seq<char>;

/// No attributes.
pub open spec fn no_attrs() -> Map<Seq<char>, Seq<char>> {
    Map::empty()
}

/// The attributes that a new document holds: its namespace.
pub open spec fn namespace_attrs() -> Map<Seq<char>, Seq<char>> {
    no_attrs().insert("xmlns"@, "http://www.w3.org/2000/svg"@)
}

/// `Rectangle::new`: a `rect` element without attributes or children.
#[verifier::external_body]
fn new_rectangle() -> (r: Rectangle)
    ensures
        rect_attrs(r) == no_attrs(),
        rect_children(r) == Seq::<Shape>::empty(),
{
    Rectangle::new()
}

/// `Rectangle::set`: the element with the attribute `name` set to `value`,
/// in place of an earlier value of that name; its children stay.
#[verifier::external_body]
fn rect_set(r: Rectangle, name: &str, value: &str) -> (out: Rectangle)
    ensures
        rect_attrs(out) == rect_attrs(r).insert(name@, value@),
        rect_children(out) == rect_children(r),
{
    r.set(name, value)
}

/// `Document::new`: an `svg` element that holds its namespace as its only
/// attribute, and no children; so it is flat.
#[verifier::external_body]
fn new_document() -> (d: SVG)
    ensures
        doc_attrs(d) == namespace_attrs(),
        doc_children(d) == Seq::<Shape>::empty(),
        built_flat(d),
{
    SVG::new()
}

/// `SVG::set`: the document with the attribute `name` set to `value`; its
/// children stay, and so it stays flat where it was.
#[verifier::external_body]
fn doc_set(d: SVG, name: &str, value: &str) -> (out: SVG)
    ensures
        doc_attrs(out) == doc_attrs(d).insert(name@, value@),
        doc_children(out) == doc_children(d),
        built_flat(d) ==> built_flat(out),
{
    d.set(name, value)
}

/// `SVG::add` with a `rect` element that has no children: the element
/// becomes the last child, and a flat document stays flat.
#[verifier::external_body]
fn doc_add_rect(d: SVG, r: Rectangle) -> (out: SVG)
    requires
        rect_children(r).len() == 0,
    ensures
        doc_attrs(out) == doc_attrs(d),
        doc_children(out) == doc_children(d).push(
            ("rect"@, rect_attrs(r), Seq::<char>::empty()),
        ),
        built_flat(d) ==> built_flat(out),
{
    d.add(r)
}

/// `SVG::add` with `Style::new`: a `style` element without attributes that
/// holds `content` becomes the last child, and a flat document stays flat.
#[verifier::external_body]
fn doc_add_style(d: SVG, content: &str) -> (out: SVG)
    ensures
        doc_attrs(out) == doc_attrs(d),
        doc_children(out) == doc_children(d).push(
            ("style"@, no_attrs(), content@),
        ),
        built_flat(d) ==> built_flat(out),
{
    d.add(Style::new(content))
}

/// `to_string` of a flat document: its text, which its attributes and the
/// tag, attributes and text of each child decide. Of a document with other
/// children nothing is claimed.
#[verifier::external_body]
pub(crate) fn document_text(d: &SVG) -> (text: String)
    requires
        built_flat(*d),
    ensures
        text@ == svg_text(doc_attrs(*d), doc_children(*d)),
{
    d.to_string()
}

/// The attributes of a filled rectangle at `(x, y)` of width `w` and height `h`.
pub open spec fn box_attrs(x: nat, y: nat, w: nat, h: nat, fill: Seq<char>) -> Map<
    Seq<char>,
    Seq<char>,
> {
    no_attrs().insert("x"@, decimal_text(x)).insert(
        "y"@,
        decimal_text(y),
    ).insert("width"@, decimal_text(w)).insert("height"@, decimal_text(h)).insert("fill"@, fill)
}

/// The number `v` written in base ten.
pub fn number_string(v: usize) -> (s: String)
    ensures
        s@ == decimal_text(v as nat),
{
    let mut s = String::new();
    push_number(&mut s, v);
    proof {
        assert(Seq::<char>::empty() + decimal_text(v as nat) =~= decimal_text(v as nat));
    }
    s
}

/// A filled rectangle at `(x, y)` of width `w` and height `h`.
pub fn rect(x: usize, y: usize, w: usize, h: usize, fill: &str) -> (r: Rectangle)
    ensures
        rect_attrs(r) == box_attrs(x as nat, y as nat, w as nat, h as nat, fill@),
        rect_children(r).len() == 0,
{
    let r = new_rectangle();
    let r = rect_set(r, "x", number_string(x).as_str());
    let r = rect_set(r, "y", number_string(y).as_str());
    let r = rect_set(r, "width", number_string(w).as_str());
    let r = rect_set(r, "height", number_string(h).as_str());
    rect_set(r, "fill", fill)
}

/// The attributes of a grid cell as it is drawn: a filled rectangle with a
/// black outline one unit wide.
pub open spec fn cell_attrs(x: nat, y: nat, w: nat, h: nat, fill: Seq<char>) -> Map<
    Seq<char>,
    Seq<char>,
> {
    box_attrs(x, y, w, h, fill).insert("stroke"@, "black"@).insert("stroke-width"@, "1"@).insert(
        "class"@,
        "box"@,
    )
}

/// Adds a grid cell to the document.
pub fn add_cell(d: SVG, x: usize, y: usize, w: usize, h: usize, fill: &str) -> (out: SVG)
    ensures
        built_flat(d) ==> built_flat(out),
        doc_attrs(out) == doc_attrs(d),
        doc_children(out) == doc_children(d).push(
            ("rect"@, cell_attrs(x as nat, y as nat, w as nat, h as nat, fill@), Seq::<char>::empty()),
        ),
{
    let r = rect(x, y, w, h, fill);
    let r = rect_set(r, "stroke", "black");
    let r = rect_set(r, "stroke-width", "1");
    let r = rect_set(r, "class", "box");
    doc_add_rect(d, r)
}

/// The rule that the canvas gives to text.
pub open spec fn text_rule() -> Seq<char> {
    "text {text-anchor: middle;dominant-baseline: central; font-size: 6}"@
}

/// The attributes of a white canvas of `width` by `height` units with a
/// margin of 5 units on every side.
pub open spec fn canvas_attrs(width: nat, height: nat) -> Map<Seq<char>, Seq<char>> {
    namespace_attrs().insert("id"@, "vis"@).insert(
        "viewBox"@,
        "-5 -5 "@ + decimal_text(width + 10) + " "@ + decimal_text(height + 10),
    ).insert("width"@, decimal_text(width + 10)).insert(
        "height"@,
        decimal_text(height + 10),
    ).insert("style"@, "background-color:white"@)
}

/// A white canvas of `width` by `height` units with a margin of 5 units on
/// every side, which holds the rule for text and nothing else.
pub fn new_canvas(width: usize, height: usize) -> (d: SVG)
    requires
        width + 10 <= usize::MAX,
        height + 10 <= usize::MAX,
    ensures
        built_flat(d),
        doc_attrs(d) == canvas_attrs(width as nat, height as nat),
        doc_children(d) == seq![
            ("style"@, no_attrs(), text_rule()),
        ],
{
    let d = new_document();
    let d = doc_set(d, "id", "vis");
    let mut view_box = String::new();
    view_box.append("-5 -5 ");
    push_number(&mut view_box, width + 10);
    view_box.append(" ");
    push_number(&mut view_box, height + 10);
    proof {
        assert(view_box@ =~= "-5 -5 "@ + decimal_text((width + 10) as nat) + " "@ + decimal_text(
            (height + 10) as nat,
        ));
    }
    let d = doc_set(d, "viewBox", view_box.as_str());
    let d = doc_set(d, "width", number_string(width + 10).as_str());
    let d = doc_set(d, "height", number_string(height + 10).as_str());
    let d = doc_set(d, "style", "background-color:white");
    let d = doc_add_style(
        d,
        "text {text-anchor: middle;dominant-baseline: central; font-size: 6}",
    );
    proof {
        assert(doc_children(d) =~= seq![
            ("style"@, no_attrs(), text_rule()),
        ]);
    }
    d
}

} // verus!

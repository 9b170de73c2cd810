//! The parsed form of an ASTERIX category definition, as it comes out of the
//! XML document.

use vstd::prelude::*;

verus! {

/// A `<category>`: its number and its data items.
#[derive(Debug)]
pub struct Category {
    pub id: u8,
    pub items: Vec<Item>,
}

/// An `<item>`: its number, its field reference number and its structure.
#[derive(Debug)]
pub struct Item {
    pub id: u16,
    pub frn: u8,
    pub data: ItemStructure,
}

/// The structure of a data item.
#[derive(Debug)]
pub enum ItemStructure {
    Fixed(SimpleItem),
    Explicit(SimpleItem),
    Extended(ExtendedItem),
    Repetitive(RepetitiveItem),
    Compound(CompoundItem),
}

/// A `<compound>`: optional sub-items, each in an FSPEC slot.
#[derive(Debug)]
pub struct CompoundItem {
    pub items: Vec<CompoundableItem>,
}

/// What a compound slot holds; a `<spare/>` slot holds no sub-item.
#[derive(Debug)]
pub enum CompoundableItem {
    Fixed(SimpleItem),
    Explicit(SimpleItem),
    Extended(ExtendedItem),
    Repetitive(RepetitiveItem),
    Spare(Spare),
}

/// A `<fixed>` or `<explicit>` structure: declared size and elements.
#[derive(Debug)]
pub struct SimpleItem {
    pub bytes: usize,
    pub elements: Vec<Element>,
}

/// An `<extended>` structure: declared size and its part groups, each one
/// octet of seven data bits and an FX bit.
#[derive(Debug)]
pub struct ExtendedItem {
    pub bytes: usize,
    pub part_groups: Vec<PartGroup>,
}

/// One part group of an `<extended>` structure.
#[derive(Debug)]
pub struct PartGroup {
    pub index: usize,
    pub elements: Vec<Element>,
}

/// A `<repetitive>` structure: size of one repetition, the counter (a bit
/// width, or `fx` for FX-terminated repetitions) and the elements.
#[derive(Debug)]
pub struct RepetitiveItem {
    pub bytes: usize,
    pub counter: String,
    pub elements: Vec<Element>,
}

/// An element of a structure.
#[derive(Debug)]
pub enum Element {
    Field(Field),
    EPB(EPB),
    Enum(Enum),
    Spare(Spare),
}

/// An `<epb>`: an element preceded by a bit that says whether it is present.
#[derive(Debug)]
pub struct EPB {
    pub content: EPBContent,
}

/// What an `<epb>` wraps.
#[derive(Debug)]
pub enum EPBContent {
    Field(Field),
    Enum(Enum),
}

/// A `<field>`: name, width in bits and type attribute.
#[derive(Debug)]
pub struct Field {
    pub name: String,
    pub bits: usize,
    pub field_type: String,
}

/// An `<enum>`: name, width in bits and its named values.
#[derive(Debug)]
pub struct Enum {
    pub name: String,
    pub bits: usize,
    pub values: Vec<Value>,
}

/// A named value of an `<enum>`, its number as written in the document.
#[derive(Debug)]
pub struct Value {
    pub name: String,
    pub value: String,
}

/// A `<spare>`: reserved bits.
#[derive(Debug)]
pub struct Spare {
    pub bits: usize,
}

} // verus!

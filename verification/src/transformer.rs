//! Transformation of a parsed category definition into the intermediate
//! representation, with validation of its layouts.

use vstd::prelude::*;
use crate::decimal::{decimal_value, parse_u8, parse_usize};
use crate::error::CodegenError;
use crate::ir::{
    element_name, element_names, group_names, names_fault,
    IR, IRCategory, IRElement, IRItem, IRLayout, IRPartGroup, IRSubItem, LayoutFault, StringKind,
    element_bits, elements_bits, fault_error, flat_fault, layout_fault, part_groups_fault,
    size_fault, sub_items_fault,
};
use crate::text::{item_context, item_context_string};
use crate::xml_model::{
    Category, CompoundableItem, Element, Enum, EPBContent, ExtendedItem, Field, Item,
    ItemStructure, PartGroup, RepetitiveItem, SimpleItem, Value,
};

verus! {

// ── Order of failures ───────────────────────────────────────────────────
/// The index of the first entry of `s` that is not `ok`, if any.
pub open spec fn first_failing<T>(s: Seq<T>, ok: spec_fn(T) -> bool) -> Option<int>
    decreases s.len(),
{
    if s.len() == 0 {
        None
    } else {
        match first_failing(s.drop_last(), ok) {
            Some(i) => Some(i),
            None => if ok(s.last()) {
                None
            } else {
                Some(s.len() - 1)
            },
        }
    }
}

/// Scanning `s` in order: when the first `i` entries are fine, entry `i`
/// decides whether the first `i + 1` are, and if it is not fine it is the
/// first failing entry of all of `s`.
pub proof fn lemma_first_failing_step<T>(s: Seq<T>, ok: spec_fn(T) -> bool, i: int)
    requires
        0 <= i < s.len(),
        first_failing(s.subrange(0, i), ok) is None,
    ensures
        ok(s[i]) ==> first_failing(s.subrange(0, i + 1), ok) is None,
        !ok(s[i]) ==> first_failing(s, ok) == Some(i),
    decreases s.len(),
{
    assert(s.subrange(0, i + 1).drop_last() =~= s.subrange(0, i));
    if !ok(s[i]) {
        if i + 1 == s.len() {
            assert(s.drop_last() =~= s.subrange(0, i));
        } else {
            assert(s.drop_last().subrange(0, i) =~= s.subrange(0, i));
            lemma_first_failing_step(s.drop_last(), ok, i);
        }
    }
}

/// No entry fails exactly when every entry is fine.
pub proof fn lemma_first_failing_none<T>(s: Seq<T>, ok: spec_fn(T) -> bool)
    ensures
        first_failing(s, ok) is None <==> forall|i: int| 0 <= i < s.len() ==> ok(s[i]),
        first_failing(s, ok) matches Some(i) ==> 0 <= i < s.len() && !ok(s[i]),
    decreases s.len(),
{
    if s.len() > 0 {
        lemma_first_failing_none(s.drop_last(), ok);
        if first_failing(s, ok) is None {
            assert forall|i: int| 0 <= i < s.len() implies ok(s[i]) by {
                if i < s.len() - 1 {
                    assert(s[i] == s.drop_last()[i]);
                }
            }
        } else {
            if first_failing(s.drop_last(), ok) is None {
                assert(!ok(s[s.len() - 1]));
            }
        }
        if forall|i: int| 0 <= i < s.len() ==> ok(s[i]) {
            assert forall|i: int| 0 <= i < s.drop_last().len() implies ok(s.drop_last()[i]) by {
                assert(s.drop_last()[i] == s[i]);
            }
        }
    }
}

// ── The checks that decide the order of failures ─────────────────────────
pub open spec fn value_check() -> spec_fn(Value) -> bool {
    |v: Value| value_ok(v)
}

pub open spec fn element_check() -> spec_fn(Element) -> bool {
    |e: Element| element_ok(e)
}

pub open spec fn group_check() -> spec_fn(PartGroup) -> bool {
    |g: PartGroup| group_ok(g)
}

pub open spec fn compoundable_check() -> spec_fn(CompoundableItem) -> bool {
    |c: CompoundableItem| compoundable_ok(c)
}

pub open spec fn item_check() -> spec_fn(Item) -> bool {
    |it: Item| item_ok(it)
}

pub open spec fn item_layout_check() -> spec_fn(Item) -> bool {
    |it: Item| structure_fault(it.data) is None
}

// ── Fields and enums ────────────────────────────────────────────────────
/// What a field's `type` attribute makes of it: `Some(Some(Icao))` for a
/// string field (`string`, encoded in ICAO 6-bit characters), `Some(None)`
/// for a number (`numeric`), `None` for any other type.
pub open spec fn field_kind(ft: Seq<char>) -> Option<Option<StringKind>> {
    if ft == "string"@ {
        Some(Some(StringKind::Icao))
    } else if ft == "numeric"@ {
        Some(None)
    } else {
        None
    }
}

pub open spec fn field_ok(f: Field) -> bool {
    field_kind(f.field_type@) is Some
}

/// `r` is the lowered form of field `f`.
pub open spec fn field_lowered(f: Field, r: IRElement) -> bool {
    r matches IRElement::Field { name, bits, string } && name@ == f.name@ && bits == f.bits
        && field_kind(f.field_type@) == Some(string)
}

/// `e` reports the type of field `f`.
pub open spec fn field_error(f: Field, e: CodegenError) -> bool {
    e matches CodegenError::InvalidFieldType { field_name, field_type } && field_name@ == f.name@
        && field_type@ == f.field_type@
}

/// An enum value whose number is a valid `u8`.
pub open spec fn value_ok(v: Value) -> bool {
    decimal_value(v.value@) matches Some(n) && n <= 255
}

pub open spec fn enum_ok(en: Enum) -> bool {
    first_failing(en.values@, value_check()) is None
}

/// `r` is the lowered form of enum `en`: its values, named as in `en`,
/// with their numbers.
pub open spec fn enum_lowered(en: Enum, r: IRElement) -> bool {
    r matches IRElement::Enum { name, bits, values } && name@ == en.name@ && bits == en.bits
        && values@.len() == en.values@.len() && forall|i: int|
        0 <= i < values@.len() ==> (#[trigger] values@[i]).0@ == en.values@[i].name@
            && decimal_value(en.values@[i].value@) == Some(values@[i].1 as nat)
}

/// `e` reports the first value of `en` whose number is not a valid `u8`.
pub open spec fn enum_error(en: Enum, e: CodegenError) -> bool {
    first_failing(en.values@, value_check()) matches Some(i) && e matches
        CodegenError::InvalidEnumValue { variant, value, .. } && variant@ == en.values@[i].name@
        && value@ == en.values@[i].value@
}

// ── Elements ────────────────────────────────────────────────────────────
pub open spec fn element_ok(e: Element) -> bool {
    match e {
        Element::Field(f) => field_ok(f),
        Element::EPB(p) => match p.content {
            EPBContent::Field(f) => field_ok(f),
            EPBContent::Enum(en) => enum_ok(en),
        },
        Element::Enum(en) => enum_ok(en),
        Element::Spare(_) => true,
    }
}

/// `r` is the lowered form of element `e`.
pub open spec fn element_lowered(e: Element, r: IRElement) -> bool {
    match e {
        Element::Field(f) => field_lowered(f, r),
        Element::EPB(p) => r matches IRElement::EPB { content } && match p.content {
            EPBContent::Field(f) => field_lowered(f, *content),
            EPBContent::Enum(en) => enum_lowered(en, *content),
        },
        Element::Enum(en) => enum_lowered(en, r),
        Element::Spare(sp) => r matches IRElement::Spare { bits } && bits == sp.bits,
    }
}

/// `err` is the error that element `e` fails with.
pub open spec fn element_error(e: Element, err: CodegenError) -> bool {
    match e {
        Element::Field(f) => field_error(f, err),
        Element::EPB(p) => match p.content {
            EPBContent::Field(f) => field_error(f, err),
            EPBContent::Enum(en) => enum_error(en, err),
        },
        Element::Enum(en) => enum_error(en, err),
        Element::Spare(_) => false,
    }
}

pub open spec fn elements_ok(es: Seq<Element>) -> bool {
    first_failing(es, element_check()) is None
}

/// `rs` lowers `es`, element by element.
pub open spec fn elements_lowered(es: Seq<Element>, rs: Seq<IRElement>) -> bool {
    rs.len() == es.len() && forall|i: int|
        0 <= i < es.len() ==> element_lowered(es[i], #[trigger] rs[i])
}

/// `err` is the error of the first element of `es` that fails.
pub open spec fn elements_error(es: Seq<Element>, err: CodegenError) -> bool {
    first_failing(es, element_check()) matches Some(i) && element_error(es[i], err)
}

// ── Part groups and counters ────────────────────────────────────────────
pub open spec fn group_ok(g: PartGroup) -> bool {
    elements_ok(g.elements@)
}

/// `rs` lowers the part groups `gs`, group by group.
pub open spec fn groups_lowered(gs: Seq<PartGroup>, rs: Seq<IRPartGroup>) -> bool {
    rs.len() == gs.len() && forall|i: int|
        0 <= i < gs.len() ==> (#[trigger] rs[i]).index == gs[i].index && elements_lowered(
            gs[i].elements@,
            rs[i].elements@,
        )
}

/// `err` is the error of the first failing element of the first failing
/// group of `gs`.
pub open spec fn groups_error(gs: Seq<PartGroup>, err: CodegenError) -> bool {
    first_failing(gs, group_check()) matches Some(i) && elements_error(
        gs[i].elements@,
        err,
    )
}

/// A repetition counter of `fx` selects FX-terminated repetitions.
pub open spec fn counter_is_fx(c: Seq<char>) -> bool {
    c == "fx"@
}

/// The counter width a counter attribute names, when it is a number that
/// fits a `usize`.
pub open spec fn counter_width(c: Seq<char>) -> Option<nat> {
    match decimal_value(c) {
        Some(n) => if n <= usize::MAX {
            Some(n)
        } else {
            None
        },
        None => None,
    }
}

pub open spec fn counter_ok(c: Seq<char>) -> bool {
    counter_is_fx(c) || (counter_width(c) matches Some(n) && 1 <= n <= 64)
}

/// `cb` is the counter width that counter attribute `c` lowers to.
pub open spec fn counter_lowered(c: Seq<char>, cb: Option<usize>) -> bool {
    if counter_is_fx(c) {
        cb is None
    } else {
        cb matches Some(b) && counter_width(c) == Some(b as nat)
    }
}

/// `e` reports a counter attribute that is neither `fx` nor a width of 1
/// to 64 bits.
pub open spec fn counter_error(c: Seq<char>, e: CodegenError) -> bool {
    !counter_is_fx(c) && match counter_width(c) {
        None => e matches CodegenError::InvalidCounter { value, .. } && value@ == c,
        Some(n) => e matches CodegenError::CounterWidthOutOfRange { bits } && bits == n,
    }
}

// ── Structures ──────────────────────────────────────────────────────────
pub open spec fn extended_ok(x: ExtendedItem) -> bool {
    first_failing(x.part_groups@, group_check()) is None
}

pub open spec fn repetitive_ok(r: RepetitiveItem) -> bool {
    counter_ok(r.counter@) && elements_ok(r.elements@)
}

/// The counter is checked before the elements.
pub open spec fn repetitive_error(r: RepetitiveItem, e: CodegenError) -> bool {
    if !counter_ok(r.counter@) {
        counter_error(r.counter@, e)
    } else {
        elements_error(r.elements@, e)
    }
}

pub open spec fn compoundable_ok(c: CompoundableItem) -> bool {
    match c {
        CompoundableItem::Fixed(s) => elements_ok(s.elements@),
        CompoundableItem::Explicit(s) => elements_ok(s.elements@),
        CompoundableItem::Extended(x) => extended_ok(x),
        CompoundableItem::Repetitive(r) => repetitive_ok(r),
        CompoundableItem::Spare(_) => true,
    }
}

/// `l` is the lowered layout of a fixed structure.
pub open spec fn fixed_lowered(s: SimpleItem, l: IRLayout) -> bool {
    l matches IRLayout::Fixed { bytes, elements } && bytes == s.bytes && elements_lowered(
        s.elements@,
        elements@,
    )
}

/// `l` is the lowered layout of an explicit structure.
pub open spec fn explicit_lowered(s: SimpleItem, l: IRLayout) -> bool {
    l matches IRLayout::Explicit { bytes, elements } && bytes == s.bytes && elements_lowered(
        s.elements@,
        elements@,
    )
}

/// `l` is the lowered layout of an extended structure.
pub open spec fn extended_lowered(x: ExtendedItem, l: IRLayout) -> bool {
    l matches IRLayout::Extended { bytes, part_groups } && bytes == x.bytes && groups_lowered(
        x.part_groups@,
        part_groups@,
    )
}

/// `l` is the lowered layout of a repetitive structure.
pub open spec fn repetitive_lowered(r: RepetitiveItem, l: IRLayout) -> bool {
    l matches IRLayout::Repetitive { bytes, counter_bits, elements } && bytes == r.bytes
        && counter_lowered(r.counter@, counter_bits) && elements_lowered(r.elements@, elements@)
}

/// `l` is the lowered layout of the compound slot `c` (never a spare).
pub open spec fn compoundable_lowered(c: CompoundableItem, l: IRLayout) -> bool {
    match c {
        CompoundableItem::Fixed(s) => fixed_lowered(s, l),
        CompoundableItem::Explicit(s) => explicit_lowered(s, l),
        CompoundableItem::Extended(x) => extended_lowered(x, l),
        CompoundableItem::Repetitive(r) => repetitive_lowered(r, l),
        CompoundableItem::Spare(_) => false,
    }
}

/// `e` is the error compound slot `c` fails with.
pub open spec fn compoundable_error(c: CompoundableItem, e: CodegenError) -> bool {
    match c {
        CompoundableItem::Fixed(s) => elements_error(s.elements@, e),
        CompoundableItem::Explicit(s) => elements_error(s.elements@, e),
        CompoundableItem::Extended(x) => groups_error(x.part_groups@, e),
        CompoundableItem::Repetitive(r) => repetitive_error(r, e),
        CompoundableItem::Spare(_) => false,
    }
}

/// The sub-items of a compound structure with their (1-based) FSPEC
/// slots: every slot that is not a spare, in order.
pub open spec fn compound_slots(items: Seq<CompoundableItem>) -> Seq<(nat, CompoundableItem)>
    decreases items.len(),
{
    if items.len() == 0 {
        Seq::empty()
    } else {
        let rest = compound_slots(items.drop_last());
        if items.last() is Spare {
            rest
        } else {
            rest.push((items.len(), items.last()))
        }
    }
}

/// The sub-items of a compound structure are its slots that are not
/// spares, in order, each numbered by its 1-based position among all slots:
/// a spare still takes a position. For example slots `[a, spare, b]` give
/// sub-items `a` at 1 and `b` at 3.
pub proof fn law_compound_slots(items: Seq<CompoundableItem>)
    ensures
        forall|j: int|
            0 <= j < compound_slots(items).len() ==> {
                let slot = #[trigger] compound_slots(items)[j];
                &&& 1 <= slot.0 <= items.len()
                &&& items[slot.0 - 1] == slot.1
                &&& !(slot.1 is Spare)
            },
        forall|j: int, k: int|
            0 <= j < k < compound_slots(items).len() ==> (#[trigger] compound_slots(items)[j]).0
                < (#[trigger] compound_slots(items)[k]).0,
        forall|i: int|
            0 <= i < items.len() && !(#[trigger] items[i] is Spare) ==> exists|j: int|
                0 <= j < compound_slots(items).len() && (#[trigger] compound_slots(items)[j]).0
                    == i + 1,
    decreases items.len(),
{
    if items.len() > 0 {
        let init = items.drop_last();
        law_compound_slots(init);
        let rest = compound_slots(init);
        let slots = compound_slots(items);
        assert forall|j: int| 0 <= j < rest.len() implies (#[trigger] rest[j]).0 <= init.len() by {
        }
        assert forall|i: int| 0 <= i < items.len() && !(#[trigger] items[i] is Spare) implies exists|
            j: int,
        | 0 <= j < slots.len() && (#[trigger] slots[j]).0 == i + 1 by {
            if i < init.len() {
                assert(init[i] == items[i]);
                let j = choose|j: int| 0 <= j < rest.len() && (#[trigger] rest[j]).0 == i + 1;
                assert(slots[j] == rest[j]);
            } else {
                assert(slots[rest.len() as int].0 == i + 1);
            }
        }
        assert forall|j: int| 0 <= j < slots.len() implies {
            let slot = #[trigger] slots[j];
            &&& 1 <= slot.0 <= items.len()
            &&& items[slot.0 - 1] == slot.1
            &&& !(slot.1 is Spare)
        } by {
            if j < rest.len() {
                assert(slots[j] == rest[j]);
                assert(init[rest[j].0 - 1] == items[rest[j].0 - 1]);
            }
        }
        assert forall|j: int, k: int| 0 <= j < k < slots.len() implies (#[trigger] slots[j]).0
            < (#[trigger] slots[k]).0 by {
            assert(slots[j] == rest[j]);
            if k < rest.len() {
                assert(slots[k] == rest[k]);
            }
        }
    }
}

/// `subs` lowers the slots of a compound structure, slot by slot.
pub open spec fn slots_lowered(slots: Seq<(nat, CompoundableItem)>, subs: Seq<IRSubItem>) -> bool {
    subs.len() == slots.len() && forall|j: int|
        0 <= j < slots.len() ==> (#[trigger] subs[j]).index == slots[j].0 && compoundable_lowered(
            slots[j].1,
            subs[j].layout,
        )
}

pub open spec fn structure_ok(s: ItemStructure) -> bool {
    match s {
        ItemStructure::Fixed(si) => elements_ok(si.elements@),
        ItemStructure::Explicit(si) => elements_ok(si.elements@),
        ItemStructure::Extended(x) => extended_ok(x),
        ItemStructure::Repetitive(r) => repetitive_ok(r),
        ItemStructure::Compound(c) => first_failing(c.items@, compoundable_check()) is None,
    }
}

/// `l` is the lowered layout of structure `s`.
pub open spec fn structure_lowered(s: ItemStructure, l: IRLayout) -> bool {
    match s {
        ItemStructure::Fixed(si) => fixed_lowered(si, l),
        ItemStructure::Explicit(si) => explicit_lowered(si, l),
        ItemStructure::Extended(x) => extended_lowered(x, l),
        ItemStructure::Repetitive(r) => repetitive_lowered(r, l),
        ItemStructure::Compound(c) => l matches IRLayout::Compound { sub_items } && slots_lowered(
            compound_slots(c.items@),
            sub_items@,
        ),
    }
}

/// `e` is the error structure `s` fails with: that of its first failing
/// element, group, counter or compound slot.
pub open spec fn structure_error(s: ItemStructure, e: CodegenError) -> bool {
    match s {
        ItemStructure::Fixed(si) => elements_error(si.elements@, e),
        ItemStructure::Explicit(si) => elements_error(si.elements@, e),
        ItemStructure::Extended(x) => groups_error(x.part_groups@, e),
        ItemStructure::Repetitive(r) => repetitive_error(r, e),
        ItemStructure::Compound(c) => first_failing(c.items@, compoundable_check()) matches Some(i) && compoundable_error(c.items@[i], e),
    }
}

pub open spec fn item_ok(it: Item) -> bool {
    structure_ok(it.data)
}

/// `r` is the lowered form of item `it`.
pub open spec fn item_lowered(it: Item, r: IRItem) -> bool {
    r.id == it.id && r.frn == it.frn && structure_lowered(it.data, r.layout)
}

// ── Layout faults of a parsed structure ─────────────────────────────────
/// The wire width of a parsed element.
pub open spec fn in_element_bits(e: Element) -> nat {
    match e {
        Element::Field(f) => f.bits as nat,
        Element::EPB(p) => 1 + match p.content {
            EPBContent::Field(f) => f.bits as nat,
            EPBContent::Enum(en) => en.bits as nat,
        },
        Element::Enum(en) => en.bits as nat,
        Element::Spare(sp) => sp.bits as nat,
    }
}

/// The wire width of a sequence of parsed elements.
pub open spec fn in_elements_bits(es: Seq<Element>) -> nat
    decreases es.len(),
{
    if es.len() == 0 {
        0
    } else {
        in_elements_bits(es.drop_last()) + in_element_bits(es.last())
    }
}

/// The first parsed part group (in order) without seven data bits.
pub open spec fn in_groups_fault(gs: Seq<PartGroup>) -> Option<LayoutFault>
    decreases gs.len(),
{
    if gs.len() == 0 {
        None
    } else {
        match in_groups_fault(gs.drop_last()) {
            Some(f) => Some(f),
            None => {
                let actual = in_elements_bits(gs.last().elements@);
                if actual == 7 {
                    None
                } else {
                    Some(LayoutFault::PartGroupBits { index: gs.last().index, actual })
                }
            },
        }
    }
}

/// The name a parsed element gives a field of the generated type.
pub open spec fn in_element_name(e: Element) -> Option<Seq<char>> {
    match e {
        Element::Field(f) => Some(f.name@),
        Element::EPB(p) => match p.content {
            EPBContent::Field(f) => Some(f.name@),
            EPBContent::Enum(en) => Some(en.name@),
        },
        Element::Enum(en) => Some(en.name@),
        Element::Spare(_) => None,
    }
}

/// The names of a sequence of parsed elements, in order.
pub open spec fn in_element_names(es: Seq<Element>) -> Seq<Seq<char>>
    decreases es.len(),
{
    if es.len() == 0 {
        Seq::empty()
    } else {
        in_element_names(es.drop_last()) + match in_element_name(es.last()) {
            Some(n) => seq![n],
            None => Seq::empty(),
        }
    }
}

/// The names of the elements of all parsed part groups, in order.
pub open spec fn in_group_names(gs: Seq<PartGroup>) -> Seq<Seq<char>>
    decreases gs.len(),
{
    if gs.len() == 0 {
        Seq::empty()
    } else {
        in_group_names(gs.drop_last()) + in_element_names(gs.last().elements@)
    }
}

/// The fault of a parsed sized structure: its size first, then its names.
pub open spec fn in_sized_fault(bytes: usize, es: Seq<Element>) -> Option<LayoutFault> {
    match size_fault(bytes, in_elements_bits(es)) {
        Some(f) => Some(f),
        None => names_fault(in_element_names(es)),
    }
}

/// The layout fault of a parsed compound slot: for a sized structure, a
/// size that its elements do not fill, then two elements of the same name;
/// for an extended one, a byte count other than its number of part groups,
/// then a part group without seven data bits, then two elements (in any
/// groups) of the same name.
pub open spec fn compoundable_fault(c: CompoundableItem) -> Option<LayoutFault> {
    match c {
        CompoundableItem::Fixed(s) => in_sized_fault(s.bytes, s.elements@),
        CompoundableItem::Explicit(s) => in_sized_fault(s.bytes, s.elements@),
        CompoundableItem::Extended(x) => if x.part_groups@.len() != x.bytes {
            Some(
                LayoutFault::ExtendedBytes {
                    declared: x.bytes,
                    actual_groups: x.part_groups@.len(),
                },
            )
        } else {
            match in_groups_fault(x.part_groups@) {
                Some(f) => Some(f),
                None => names_fault(in_group_names(x.part_groups@)),
            }
        },
        CompoundableItem::Repetitive(r) => in_sized_fault(r.bytes, r.elements@),
        CompoundableItem::Spare(_) => None,
    }
}

/// The first compound slot (in order) with a layout fault.
pub open spec fn slots_fault(slots: Seq<(nat, CompoundableItem)>) -> Option<LayoutFault>
    decreases slots.len(),
{
    if slots.len() == 0 {
        None
    } else {
        match slots_fault(slots.drop_last()) {
            Some(f) => Some(f),
            None => compoundable_fault(slots.last().1),
        }
    }
}

/// The layout fault of a parsed structure, or `None` when its layout is
/// valid.
pub open spec fn structure_fault(s: ItemStructure) -> Option<LayoutFault> {
    match s {
        ItemStructure::Fixed(si) => compoundable_fault(CompoundableItem::Fixed(si)),
        ItemStructure::Explicit(si) => compoundable_fault(CompoundableItem::Explicit(si)),
        ItemStructure::Extended(x) => compoundable_fault(CompoundableItem::Extended(x)),
        ItemStructure::Repetitive(r) => compoundable_fault(CompoundableItem::Repetitive(r)),
        ItemStructure::Compound(c) => slots_fault(compound_slots(c.items@)),
    }
}

/// What `to_ir` gives for category `cat`: the error of the first item
/// that cannot be transformed; else the layout fault of the first item
/// whose layout is invalid, reported in the item's context; else the
/// category with every item lowered.
pub open spec fn to_ir_outcome(cat: Category, r: Result<IR, CodegenError>) -> bool {
    match first_failing(cat.items@, item_check()) {
        Some(i) => r matches Err(e) && structure_error(cat.items@[i].data, e),
        None => match first_failing(cat.items@, item_layout_check()) {
            Some(i) => r matches Err(e) && match structure_fault(cat.items@[i].data) {
                Some(f) => fault_error(e, item_context(cat.items@[i].id), f),
                None => false,
            },
            None => r matches Ok(ir) && ir.category.id == cat.id && ir.category.items@.len()
                == cat.items@.len() && forall|i: int|
                0 <= i < cat.items@.len() ==> item_lowered(
                    cat.items@[i],
                    #[trigger] ir.category.items@[i],
                ),
        },
    }
}

/// A parsed fixed, explicit or repetitive structure has a valid layout only
/// when its elements take exactly its declared bytes; too many bits and too
/// few bits are both a bit count fault.
pub proof fn law_sized_structure_fills_its_bytes(s: ItemStructure)
    ensures
        s matches ItemStructure::Fixed(si) ==> (structure_fault(s) is None ==> in_elements_bits(
            si.elements@,
        ) == 8 * si.bytes),
        s matches ItemStructure::Explicit(si) ==> (structure_fault(s) is None
            ==> in_elements_bits(si.elements@) == 8 * si.bytes),
        s matches ItemStructure::Repetitive(r) ==> (structure_fault(s) is None
            ==> in_elements_bits(r.elements@) == 8 * r.bytes),
        s matches ItemStructure::Fixed(si) ==> (in_elements_bits(si.elements@) != 8 * si.bytes
            ==> structure_fault(s) == Some(
            LayoutFault::BitCount { bytes: si.bytes, actual: in_elements_bits(si.elements@) },
        )),
        s matches ItemStructure::Explicit(si) ==> (in_elements_bits(si.elements@) != 8 * si.bytes
            ==> structure_fault(s) == Some(
            LayoutFault::BitCount { bytes: si.bytes, actual: in_elements_bits(si.elements@) },
        )),
        s matches ItemStructure::Repetitive(r) ==> (in_elements_bits(r.elements@) != 8 * r.bytes
            ==> structure_fault(s) == Some(
            LayoutFault::BitCount { bytes: r.bytes, actual: in_elements_bits(r.elements@) },
        )),
{
}

/// A parsed extended structure has a valid layout only when it has exactly
/// one part group per declared byte; more groups and fewer groups are both
/// a byte count fault.
pub proof fn law_extended_structure_has_one_group_per_byte(s: ItemStructure)
    ensures
        s matches ItemStructure::Extended(x) ==> (structure_fault(s) is None ==> x.part_groups@.len()
            == x.bytes),
        s matches ItemStructure::Extended(x) ==> (x.part_groups@.len() != x.bytes
            ==> structure_fault(s) == Some(
            LayoutFault::ExtendedBytes { declared: x.bytes, actual_groups: x.part_groups@.len() },
        )),
{
}

/// `to_ir` succeeds only when every item's layout is valid: in particular
/// every sized item's elements fill its declared bytes exactly, and every
/// extended item has one part group per declared byte.
pub proof fn law_to_ir_ok_means_valid_layouts(cat: Category, r: Result<IR, CodegenError>, i: int)
    requires
        to_ir_outcome(cat, r),
        r is Ok,
        0 <= i < cat.items@.len(),
    ensures
        structure_fault(cat.items@[i].data) is None,
        cat.items@[i].data matches ItemStructure::Fixed(si) ==> in_elements_bits(si.elements@) == 8
            * si.bytes,
        cat.items@[i].data matches ItemStructure::Extended(x) ==> x.part_groups@.len() == x.bytes,
{
    lemma_first_failing_none(cat.items@, item_check());
    lemma_first_failing_none(cat.items@, item_layout_check());
    assert(item_layout_check()(cat.items@[i]));
    law_sized_structure_fills_its_bytes(cat.items@[i].data);
    law_extended_structure_has_one_group_per_byte(cat.items@[i].data);
}

// ── Transformation ──────────────────────────────────────────────────────
/// The string kind of a field, from its `type` attribute.
fn check_field_string_type(field: &Field) -> (r: Result<Option<StringKind>, CodegenError>)
    ensures
        match field_kind(field.field_type@) {
            Some(k) => r matches Ok(x) && x == k,
            None => r matches Err(e) && field_error(*field, e),
        },
{
    // A string field is encoded in ICAO 6-bit characters.
    if field.field_type == "string".to_owned() {
        Ok(Some(StringKind::Icao))
    } else if field.field_type == "numeric".to_owned() {
        Ok(None)
    } else {
        Err(
            CodegenError::InvalidFieldType {
                field_name: field.name.clone(),
                field_type: field.field_type.clone(),
            },
        )
    }
}

/// Lowers a field.
fn lower_field(field: Field) -> (r: Result<IRElement, CodegenError>)
    ensures
        if field_ok(field) {
            r matches Ok(x) && field_lowered(field, x)
        } else {
            r matches Err(e) && field_error(field, e)
        },
{
    let string = match check_field_string_type(&field) {
        Ok(k) => k,
        Err(e) => {
            return Err(e);
        },
    };
    Ok(IRElement::Field { name: field.name, bits: field.bits, string })
}

/// Lowers an enum, parsing the number of each of its values.
fn to_ir_enum(enum_def: Enum) -> (r: Result<IRElement, CodegenError>)
    ensures
        if enum_ok(enum_def) {
            r matches Ok(x) && enum_lowered(enum_def, x)
        } else {
            r matches Err(e) && enum_error(enum_def, e)
        },
{
    let ghost vs = enum_def.values@;
    let Enum { name, bits, values } = enum_def;
    let mut out: Vec<(String, u8)> = Vec::new();
    for v in it: values.into_iter()
        invariant
            it.seq() == vs,
            vs == enum_def.values@,
            out@.len() == it.index(),
            first_failing(vs.subrange(0, it.index() as int), value_check()) is None,
            forall|i: int|
                0 <= i < it.index() ==> (#[trigger] out@[i]).0@ == vs[i].name@ && decimal_value(
                    vs[i].value@,
                ) == Some(out@[i].1 as nat),
    {
        let ghost k = it.index() as int;
        proof {
            lemma_first_failing_step(vs, value_check(), k);
        }
        match parse_u8(v.value.as_str()) {
            Ok(n) => {
                out.push((v.name, n));
            },
            Err(source) => {
                return Err(CodegenError::InvalidEnumValue { variant: v.name, value: v.value, source });
            },
        }
    }
    proof {
        assert(vs.subrange(0, vs.len() as int) =~= vs);
    }
    Ok(IRElement::Enum { name, bits, values: out })
}

/// Lowers an element.
fn to_ir_element(element: Element) -> (r: Result<IRElement, CodegenError>)
    ensures
        if element_ok(element) {
            r matches Ok(x) && element_lowered(element, x)
        } else {
            r matches Err(e) && element_error(element, e)
        },
{
    match element {
        Element::Field(field) => lower_field(field),
        Element::EPB(epb) => {
            let content = match epb.content {
                EPBContent::Field(field) => lower_field(field),
                EPBContent::Enum(enum_def) => to_ir_enum(enum_def),
            };
            match content {
                Ok(c) => Ok(IRElement::EPB { content: Box::new(c) }),
                Err(e) => Err(e),
            }
        },
        Element::Enum(enum_def) => to_ir_enum(enum_def),
        Element::Spare(spare) => Ok(IRElement::Spare { bits: spare.bits }),
    }
}

/// Lowers a sequence of elements, stopping at the first that fails.
fn to_ir_elements(elements: Vec<Element>) -> (r: Result<Vec<IRElement>, CodegenError>)
    ensures
        if elements_ok(elements@) {
            r matches Ok(x) && elements_lowered(elements@, x@)
        } else {
            r matches Err(e) && elements_error(elements@, e)
        },
{
    let ghost es = elements@;
    let mut out: Vec<IRElement> = Vec::new();
    for e in it: elements.into_iter()
        invariant
            it.seq() == es,
            out@.len() == it.index(),
            first_failing(es.subrange(0, it.index() as int), element_check()) is None,
            forall|i: int| 0 <= i < it.index() ==> element_lowered(es[i], #[trigger] out@[i]),
    {
        let ghost k = it.index() as int;
        proof {
            lemma_first_failing_step(es, element_check(), k);
        }
        match to_ir_element(e) {
            Ok(x) => {
                out.push(x);
            },
            Err(err) => {
                return Err(err);
            },
        }
    }
    proof {
        assert(es.subrange(0, es.len() as int) =~= es);
    }
    Ok(out)
}

/// Lowers a fixed structure.
fn fixed_layout(simple: SimpleItem) -> (r: Result<IRLayout, CodegenError>)
    ensures
        if elements_ok(simple.elements@) {
            r matches Ok(l) && fixed_lowered(simple, l)
        } else {
            r matches Err(e) && elements_error(simple.elements@, e)
        },
{
    match to_ir_elements(simple.elements) {
        Ok(elements) => Ok(IRLayout::Fixed { bytes: simple.bytes, elements }),
        Err(e) => Err(e),
    }
}

/// Lowers an explicit structure.
fn explicit_layout(simple: SimpleItem) -> (r: Result<IRLayout, CodegenError>)
    ensures
        if elements_ok(simple.elements@) {
            r matches Ok(l) && explicit_lowered(simple, l)
        } else {
            r matches Err(e) && elements_error(simple.elements@, e)
        },
{
    match to_ir_elements(simple.elements) {
        Ok(elements) => Ok(IRLayout::Explicit { bytes: simple.bytes, elements }),
        Err(e) => Err(e),
    }
}

/// Lowers an extended structure, group by group.
fn extended_layout(ext: ExtendedItem) -> (r: Result<IRLayout, CodegenError>)
    ensures
        if extended_ok(ext) {
            r matches Ok(l) && extended_lowered(ext, l)
        } else {
            r matches Err(e) && groups_error(ext.part_groups@, e)
        },
{
    let ghost gs = ext.part_groups@;
    let bytes = ext.bytes;
    let mut part_groups: Vec<IRPartGroup> = Vec::new();
    for group in it: ext.part_groups.into_iter()
        invariant
            it.seq() == gs,
            part_groups@.len() == it.index(),
            first_failing(gs.subrange(0, it.index() as int), group_check()) is None,
            forall|i: int|
                0 <= i < it.index() ==> (#[trigger] part_groups@[i]).index == gs[i].index
                    && elements_lowered(gs[i].elements@, part_groups@[i].elements@),
    {
        let ghost k = it.index() as int;
        proof {
            lemma_first_failing_step(gs, group_check(), k);
        }
        let index = group.index;
        match to_ir_elements(group.elements) {
            Ok(elements) => {
                part_groups.push(IRPartGroup { index, elements });
            },
            Err(e) => {
                return Err(e);
            },
        }
    }
    proof {
        assert(gs.subrange(0, gs.len() as int) =~= gs);
    }
    Ok(IRLayout::Extended { bytes, part_groups })
}

/// Lowers a repetitive structure: `fx` selects FX-terminated repetitions
/// (no counter prefix); otherwise the counter must be a width of 1 to 64
/// bits, since the generated code carries the count through a single
/// 64-bit read or write.
pub fn repetitive_layout(rep: RepetitiveItem) -> (r: Result<IRLayout, CodegenError>)
    ensures
        if repetitive_ok(rep) {
            r matches Ok(l) && repetitive_lowered(rep, l)
        } else {
            r matches Err(e) && repetitive_error(rep, e)
        },
{
    let counter_bits = if rep.counter == "fx".to_owned() {
        None
    } else {
        match parse_usize(rep.counter.as_str()) {
            Ok(bits) => {
                if bits < 1 || bits > 64 {
                    return Err(CodegenError::CounterWidthOutOfRange { bits });
                }
                Some(bits)
            },
            Err(source) => {
                return Err(CodegenError::InvalidCounter { value: rep.counter.clone(), source });
            },
        }
    };
    match to_ir_elements(rep.elements) {
        Ok(elements) => Ok(IRLayout::Repetitive { bytes: rep.bytes, counter_bits, elements }),
        Err(e) => Err(e),
    }
}

/// Lowers the structure of a compound slot; a spare slot has none.
fn to_ir_compoundable_item(item: CompoundableItem) -> (r: Result<IRLayout, CodegenError>)
    requires
        !(item is Spare),
    ensures
        if compoundable_ok(item) {
            r matches Ok(l) && compoundable_lowered(item, l)
        } else {
            r matches Err(e) && compoundable_error(item, e)
        },
{
    match item {
        CompoundableItem::Fixed(simple) => fixed_layout(simple),
        CompoundableItem::Explicit(simple) => explicit_layout(simple),
        CompoundableItem::Extended(ext) => extended_layout(ext),
        CompoundableItem::Repetitive(rep) => repetitive_layout(rep),
        // A spare slot is excluded by the precondition.
        CompoundableItem::Spare(_) => Err(CodegenError::NestedCompound),
    }
}

/// Lowers the structure of a data item. A compound structure keeps each
/// slot that is not a spare, with its 1-based FSPEC position: a spare
/// consumes a position without producing a sub-item.
pub fn to_ir_item_structure(structure: ItemStructure) -> (r: Result<IRLayout, CodegenError>)
    ensures
        if structure_ok(structure) {
            r matches Ok(l) && structure_lowered(structure, l)
        } else {
            r matches Err(e) && structure_error(structure, e)
        },
{
    match structure {
        ItemStructure::Fixed(simple) => fixed_layout(simple),
        ItemStructure::Explicit(simple) => explicit_layout(simple),
        ItemStructure::Extended(ext) => extended_layout(ext),
        ItemStructure::Repetitive(rep) => repetitive_layout(rep),
        ItemStructure::Compound(comp) => {
            let ghost cs = comp.items@;
            let ghost whole = structure;
            proof {
                assert(comp.items@.len() == comp.items.len());
            }
            let mut sub_items: Vec<IRSubItem> = Vec::new();
            let mut seen: usize = 0;
            for item in it: comp.items.into_iter()
                invariant
                    it.seq() == cs,
                    whole == structure,
                    whole matches ItemStructure::Compound(c) && c.items@ == cs,
                    seen == it.index(),
                    cs.len() <= usize::MAX,
                    it.index() <= cs.len(),
                    first_failing(cs.subrange(0, it.index() as int), compoundable_check()) is None,
                    slots_lowered(compound_slots(cs.subrange(0, it.index() as int)), sub_items@),
            {
                let ghost k = it.index() as int;
                let position = seen + 1;
                proof {
                    lemma_first_failing_step(cs, compoundable_check(), k);
                    assert(cs.subrange(0, k + 1).drop_last() =~= cs.subrange(0, k));
                }
                match item {
                    CompoundableItem::Spare(_) => {},
                    _ => {
                        match to_ir_compoundable_item(item) {
                            Ok(layout) => {
                                sub_items.push(IRSubItem { index: position, layout });
                            },
                            Err(e) => {
                                return Err(e);
                            },
                        }
                    },
                }
                seen = position;
            }
            proof {
                assert(cs.subrange(0, cs.len() as int) =~= cs);
            }
            Ok(IRLayout::Compound { sub_items })
        },
    }
}

/// Lowers a data item.
fn to_ir_item(item: Item) -> (r: Result<IRItem, CodegenError>)
    ensures
        if item_ok(item) {
            r matches Ok(x) && item_lowered(item, x)
        } else {
            r matches Err(e) && structure_error(item.data, e)
        },
{
    match to_ir_item_structure(item.data) {
        Ok(layout) => Ok(IRItem { id: item.id, frn: item.frn, layout }),
        Err(e) => Err(e),
    }
}

/// Lowers every item of a category, stopping at the first that fails.
fn to_ir_category(cat: Category) -> (r: Result<IRCategory, CodegenError>)
    ensures
        match first_failing(cat.items@, item_check()) {
            Some(i) => r matches Err(e) && structure_error(cat.items@[i].data, e),
            None => r matches Ok(c) && c.id == cat.id && c.items@.len() == cat.items@.len()
                && forall|i: int|
                0 <= i < cat.items@.len() ==> item_lowered(cat.items@[i], #[trigger] c.items@[i]),
        },
{
    let ghost its = cat.items@;
    let mut items: Vec<IRItem> = Vec::new();
    for item in it: cat.items.into_iter()
        invariant
            it.seq() == its,
            items@.len() == it.index(),
            first_failing(its.subrange(0, it.index() as int), item_check()) is None,
            forall|i: int| 0 <= i < it.index() ==> item_lowered(its[i], #[trigger] items@[i]),
    {
        let ghost k = it.index() as int;
        proof {
            lemma_first_failing_step(its, item_check(), k);
        }
        match to_ir_item(item) {
            Ok(x) => {
                items.push(x);
            },
            Err(e) => {
                return Err(e);
            },
        }
    }
    proof {
        assert(its.subrange(0, its.len() as int) =~= its);
    }
    Ok(IRCategory { id: cat.id, items })
}

// ── Validation of the lowered layouts ───────────────────────────────────
proof fn lemma_element_bits(e: Element, r: IRElement)
    requires
        element_lowered(e, r),
    ensures
        element_bits(r) == in_element_bits(e),
{
    if let IRElement::EPB { content } = r {
        assert(element_bits(r) == 1 + element_bits(*content));
        reveal_with_fuel(element_bits, 2);
    }
}

proof fn lemma_element_name(e: Element, r: IRElement)
    requires
        element_lowered(e, r),
    ensures
        element_name(r) == in_element_name(e),
{
    if let IRElement::EPB { content } = r {
        assert(element_name(r) == element_name(*content));
        reveal_with_fuel(element_name, 2);
    }
}

proof fn lemma_elements_bits(es: Seq<Element>, rs: Seq<IRElement>)
    requires
        elements_lowered(es, rs),
    ensures
        elements_bits(rs) == in_elements_bits(es),
        element_names(rs) == in_element_names(es),
    decreases es.len(),
{
    if es.len() > 0 {
        let n = es.len() - 1;
        assert(elements_lowered(es.drop_last(), rs.drop_last())) by {
            assert forall|i: int| 0 <= i < n implies element_lowered(
                es.drop_last()[i],
                #[trigger] rs.drop_last()[i],
            ) by {
                assert(element_lowered(es[i], rs[i]));
            }
        }
        lemma_elements_bits(es.drop_last(), rs.drop_last());
        assert(element_lowered(es[n], rs[n]));
        lemma_element_bits(es.last(), rs.last());
        lemma_element_name(es.last(), rs.last());
    }
}

proof fn lemma_groups_fault(gs: Seq<PartGroup>, rs: Seq<IRPartGroup>)
    requires
        groups_lowered(gs, rs),
    ensures
        part_groups_fault(rs) == in_groups_fault(gs),
        group_names(rs) == in_group_names(gs),
    decreases gs.len(),
{
    if gs.len() > 0 {
        let n = gs.len() - 1;
        assert(groups_lowered(gs.drop_last(), rs.drop_last())) by {
            assert forall|i: int| 0 <= i < n implies (#[trigger] rs.drop_last()[i]).index
                == gs.drop_last()[i].index && elements_lowered(
                gs.drop_last()[i].elements@,
                rs.drop_last()[i].elements@,
            ) by {
                assert(rs[i].index == gs[i].index);
            }
        }
        lemma_groups_fault(gs.drop_last(), rs.drop_last());
        assert(rs[n].index == gs[n].index);
        lemma_elements_bits(gs[n].elements@, rs[n].elements@);
    }
}

proof fn lemma_compoundable_fault(c: CompoundableItem, l: IRLayout)
    requires
        compoundable_lowered(c, l),
    ensures
        flat_fault(l) == compoundable_fault(c),
        !(l is Compound),
{
    match c {
        CompoundableItem::Fixed(s) => {
            if let IRLayout::Fixed { bytes, elements } = l {
                lemma_elements_bits(s.elements@, elements@);
            }
        },
        CompoundableItem::Explicit(s) => {
            if let IRLayout::Explicit { bytes, elements } = l {
                lemma_elements_bits(s.elements@, elements@);
            }
        },
        CompoundableItem::Extended(x) => {
            if let IRLayout::Extended { bytes, part_groups } = l {
                lemma_groups_fault(x.part_groups@, part_groups@);
            }
        },
        CompoundableItem::Repetitive(r) => {
            if let IRLayout::Repetitive { bytes, counter_bits, elements } = l {
                lemma_elements_bits(r.elements@, elements@);
            }
        },
        CompoundableItem::Spare(_) => {},
    }
}

proof fn lemma_slots_fault(slots: Seq<(nat, CompoundableItem)>, subs: Seq<IRSubItem>)
    requires
        slots_lowered(slots, subs),
    ensures
        sub_items_fault(subs) == slots_fault(slots),
    decreases slots.len(),
{
    if slots.len() > 0 {
        let n = slots.len() - 1;
        assert(slots_lowered(slots.drop_last(), subs.drop_last())) by {
            assert forall|j: int| 0 <= j < n implies (#[trigger] subs.drop_last()[j]).index
                == slots.drop_last()[j].0 && compoundable_lowered(
                slots.drop_last()[j].1,
                subs.drop_last()[j].layout,
            ) by {
                assert(subs[j].index == slots[j].0);
            }
        }
        lemma_slots_fault(slots.drop_last(), subs.drop_last());
        assert(subs[n].index == slots[n].0);
        lemma_compoundable_fault(slots[n].1, subs[n].layout);
    }
}

/// A lowered layout has the fault of the structure it lowers.
proof fn lemma_lowered_fault(s: ItemStructure, l: IRLayout)
    requires
        structure_lowered(s, l),
    ensures
        layout_fault(l) == structure_fault(s),
{
    match s {
        ItemStructure::Fixed(si) => lemma_compoundable_fault(CompoundableItem::Fixed(si), l),
        ItemStructure::Explicit(si) => lemma_compoundable_fault(CompoundableItem::Explicit(si), l),
        ItemStructure::Extended(x) => lemma_compoundable_fault(CompoundableItem::Extended(x), l),
        ItemStructure::Repetitive(r) => lemma_compoundable_fault(
            CompoundableItem::Repetitive(r),
            l,
        ),
        ItemStructure::Compound(c) => {
            if let IRLayout::Compound { sub_items } = l {
                lemma_slots_fault(compound_slots(c.items@), sub_items@);
            }
        },
    }
}

/// Transforms a parsed category definition into the intermediate
/// representation and validates the layout of every item.
///
/// Fails with the error of the first item that cannot be transformed (a
/// field type other than `string` or `numeric`, a counter that is neither
/// `fx` nor a width of 1 to 64 bits, an enum value that is not a `u8`);
/// otherwise with the first layout fault (elements that do not fill the
/// declared bytes, an extended item whose byte count or part groups are
/// wrong, two fields of one layout with the same name), reported in the
/// item's context (such as `I048`); otherwise returns the lowered category.
pub fn to_ir(cat: Category) -> (r: Result<IR, CodegenError>)
    ensures
        to_ir_outcome(cat, r),
{
    let ghost its = cat.items@;
    let ghost whole = cat;
    let ir_category = match to_ir_category(cat) {
        Ok(c) => c,
        Err(e) => {
            return Err(e);
        },
    };
    let mut i: usize = 0;
    while i < ir_category.items.len()
        invariant
            whole == cat,
            its == cat.items@,
            first_failing(its, item_check()) is None,
            ir_category.id == cat.id,
            ir_category.items@.len() == its.len(),
            forall|j: int|
                0 <= j < its.len() ==> item_lowered(its[j], #[trigger] ir_category.items@[j]),
            i <= its.len(),
            first_failing(its.subrange(0, i as int), item_layout_check()) is None,
        decreases its.len() - i,
    {
        let item = &ir_category.items[i];
        let context = item_context_string(item.id);
        let checked = item.layout.validate(context.as_str());
        proof {
            assert(item_lowered(its[i as int], ir_category.items@[i as int]));
            lemma_lowered_fault(its[i as int].data, item.layout);
            lemma_first_failing_step(its, item_layout_check(), i as int);
        }
        match checked {
            Ok(()) => {},
            Err(e) => {
                return Err(e);
            },
        }
        i = i + 1;
    }
    proof {
        assert(its.subrange(0, its.len() as int) =~= its);
    }
    Ok(IR { category: ir_category })
}

} // verus!

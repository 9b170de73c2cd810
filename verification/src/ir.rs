//! The intermediate representation: a normalized, validated category
//! definition ready for code generation.

use vstd::prelude::*;
use crate::error::CodegenError;

verus! {

/// The intermediate representation of a category definition.
#[derive(Debug)]
pub struct IR {
    pub category: IRCategory,
}

/// A category and its items.
#[derive(Debug)]
pub struct IRCategory {
    pub id: u8,
    pub items: Vec<IRItem>,
}

/// A data item with its layout.
#[derive(Debug)]
pub struct IRItem {
    pub id: u16,
    pub frn: u8,
    pub layout: IRLayout,
}

/// How a data item is laid out on the wire.
#[derive(Debug)]
pub enum IRLayout {
    Fixed { bytes: usize, elements: Vec<IRElement> },
    Explicit { bytes: usize, elements: Vec<IRElement> },
    Extended { bytes: usize, part_groups: Vec<IRPartGroup> },
    /// `counter_bits` is `None` for FX-terminated repetitions.
    Repetitive { bytes: usize, counter_bits: Option<usize>, elements: Vec<IRElement> },
    Compound { sub_items: Vec<IRSubItem> },
}

/// One part group of an extended layout.
#[derive(Debug)]
pub struct IRPartGroup {
    pub index: usize,
    pub elements: Vec<IRElement>,
}

/// A sub-item of a compound layout and its (1-based) FSPEC slot.
#[derive(Debug)]
pub struct IRSubItem {
    pub index: usize,
    pub layout: IRLayout,
}

/// An element of a layout.
#[derive(Debug)]
pub enum IRElement {
    /// `string` says how a string field is encoded; `None` for numbers.
    Field { name: String, bits: usize, string: Option<StringKind> },
    EPB { content: Box<IRElement> },
    Enum { name: String, bits: usize, values: Vec<(String, u8)> },
    Spare { bits: usize },
}

/// How a string field is encoded.
#[derive(Debug, Clone, Copy, PartialEq, Eq)]
pub enum StringKind {
    /// Six-bit ICAO characters.
    Icao,
}

/// The number of bits an element takes on the wire: its declared width,
/// plus the presence bit of an EPB.
pub open spec fn element_bits(e: IRElement) -> nat
    decreases e,
{
    match e {
        IRElement::Field { bits, .. } => bits as nat,
        IRElement::EPB { content } => 1 + element_bits(*content),
        IRElement::Enum { bits, .. } => bits as nat,
        IRElement::Spare { bits } => bits as nat,
    }
}

/// The number of bits a sequence of elements takes on the wire.
pub open spec fn elements_bits(es: Seq<IRElement>) -> nat
    decreases es.len(),
{
    if es.len() == 0 {
        0
    } else {
        elements_bits(es.drop_last()) + element_bits(es.last())
    }
}

/// A count, or `usize::MAX` when it does not fit.
pub open spec fn cap_usize(n: nat) -> usize {
    if n <= usize::MAX {
        n as usize
    } else {
        usize::MAX
    }
}

/// A count, or `u128::MAX` when it does not fit.
pub open spec fn cap_u128(n: nat) -> u128 {
    if n <= u128::MAX {
        n as u128
    } else {
        u128::MAX
    }
}

/// What is wrong with a layout.
pub ghost enum LayoutFault {
    /// The elements do not fill the declared bytes.
    BitCount { bytes: usize, actual: nat },
    /// An extended layout declares another number of bytes than it has
    /// part groups.
    ExtendedBytes { declared: usize, actual_groups: nat },
    /// A part group does not have exactly seven data bits.
    PartGroupBits { index: usize, actual: nat },
    /// Two named elements of a layout have the same name.
    DuplicateName { name: Seq<char> },
    /// A compound layout holds another compound layout.
    NestedCompound,
}

/// The name an element gives a field of the generated type: that of a field
/// or an enum, or of what an EPB wraps; a spare has none.
pub open spec fn element_name(e: IRElement) -> Option<Seq<char>>
    decreases e,
{
    match e {
        IRElement::Field { name, .. } => Some(name@),
        IRElement::EPB { content } => element_name(*content),
        IRElement::Enum { name, .. } => Some(name@),
        IRElement::Spare { .. } => None,
    }
}

/// The names of a sequence of elements, in order.
pub open spec fn element_names(es: Seq<IRElement>) -> Seq<Seq<char>>
    decreases es.len(),
{
    if es.len() == 0 {
        Seq::empty()
    } else {
        element_names(es.drop_last()) + match element_name(es.last()) {
            Some(n) => seq![n],
            None => Seq::empty(),
        }
    }
}

/// The names of the elements of all part groups, in order.
pub open spec fn group_names(gs: Seq<IRPartGroup>) -> Seq<Seq<char>>
    decreases gs.len(),
{
    if gs.len() == 0 {
        Seq::empty()
    } else {
        group_names(gs.drop_last()) + element_names(gs.last().elements@)
    }
}

/// The first name (in order) that repeats an earlier one.
pub open spec fn first_duplicate(ns: Seq<Seq<char>>) -> Option<Seq<char>>
    decreases ns.len(),
{
    if ns.len() == 0 {
        None
    } else {
        match first_duplicate(ns.drop_last()) {
            Some(n) => Some(n),
            None => if ns.drop_last().contains(ns.last()) {
                Some(ns.last())
            } else {
                None
            },
        }
    }
}

/// The fault of a sequence of names: its first repeated name.
pub open spec fn names_fault(ns: Seq<Seq<char>>) -> Option<LayoutFault> {
    match first_duplicate(ns) {
        Some(n) => Some(LayoutFault::DuplicateName { name: n }),
        None => None,
    }
}

/// The fault of a sized layout: its size first, then its names.
pub open spec fn sized_fault(bytes: usize, es: Seq<IRElement>) -> Option<LayoutFault> {
    match size_fault(bytes, elements_bits(es)) {
        Some(f) => Some(f),
        None => names_fault(element_names(es)),
    }
}

/// The fault of a sized layout whose elements take `actual` bits.
pub open spec fn size_fault(bytes: usize, actual: nat) -> Option<LayoutFault> {
    if actual == 8 * bytes {
        None
    } else {
        Some(LayoutFault::BitCount { bytes, actual })
    }
}

/// The first part group (in order) that does not have seven data bits.
pub open spec fn part_groups_fault(groups: Seq<IRPartGroup>) -> Option<LayoutFault>
    decreases groups.len(),
{
    if groups.len() == 0 {
        None
    } else {
        match part_groups_fault(groups.drop_last()) {
            Some(f) => Some(f),
            None => {
                let g = groups.last();
                let actual = elements_bits(g.elements@);
                if actual == 7 {
                    None
                } else {
                    Some(LayoutFault::PartGroupBits { index: g.index, actual })
                }
            },
        }
    }
}

/// The fault of a layout that may stand inside a compound one.
pub open spec fn flat_fault(l: IRLayout) -> Option<LayoutFault> {
    match l {
        IRLayout::Fixed { bytes, elements } => sized_fault(bytes, elements@),
        IRLayout::Explicit { bytes, elements } => sized_fault(bytes, elements@),
        IRLayout::Repetitive { bytes, elements, .. } => sized_fault(bytes, elements@),
        IRLayout::Extended { bytes, part_groups } => if part_groups@.len() != bytes {
            Some(LayoutFault::ExtendedBytes { declared: bytes, actual_groups: part_groups@.len() })
        } else {
            match part_groups_fault(part_groups@) {
                Some(f) => Some(f),
                None => names_fault(group_names(part_groups@)),
            }
        },
        IRLayout::Compound { .. } => Some(LayoutFault::NestedCompound),
    }
}

/// The first sub-item (in order) whose layout has a fault.
pub open spec fn sub_items_fault(subs: Seq<IRSubItem>) -> Option<LayoutFault>
    decreases subs.len(),
{
    if subs.len() == 0 {
        None
    } else {
        match sub_items_fault(subs.drop_last()) {
            Some(f) => Some(f),
            None => flat_fault(subs.last().layout),
        }
    }
}

/// The fault of a layout, or `None` when it is valid.
pub open spec fn layout_fault(l: IRLayout) -> Option<LayoutFault> {
    match l {
        IRLayout::Compound { sub_items } => sub_items_fault(sub_items@),
        _ => flat_fault(l),
    }
}

/// `e` is the error that reports fault `f` of a layout in context `ctx`.
pub open spec fn fault_error(e: CodegenError, ctx: Seq<char>, f: LayoutFault) -> bool {
    match f {
        LayoutFault::BitCount { bytes, actual } => e matches CodegenError::BitCountMismatch {
            context,
            bytes: b,
            expected_bits,
            actual_bits,
        } && context@ == ctx && b == bytes && expected_bits == cap_usize((8 * bytes) as nat)
            && actual_bits == cap_usize(actual),
        LayoutFault::ExtendedBytes { declared, actual_groups } => e matches
            CodegenError::ExtendedByteMismatch { context, declared: d, actual_groups: g }
            && context@ == ctx && d == declared && g == actual_groups,
        LayoutFault::PartGroupBits { index, actual } => e matches
            CodegenError::PartGroupBitMismatch { context, index: i, actual: a } && context@
            == ctx && i == index && a == cap_usize(actual),
        LayoutFault::DuplicateName { name } => e matches CodegenError::DuplicateFieldName {
            context,
            name: n,
        } && context@ == ctx && n@ == name,
        LayoutFault::NestedCompound => e matches CodegenError::NestedCompound,
    }
}

/// The wire width of an element, saturated at `u128::MAX`.
fn element_bit_count(e: &IRElement) -> (r: u128)
    ensures
        r == cap_u128(element_bits(*e)),
    decreases e,
{
    match e {
        IRElement::Field { bits, .. } => *bits as u128,
        IRElement::EPB { content } => {
            let c = element_bit_count(content);
            c.saturating_add(1)
        },
        IRElement::Enum { bits, .. } => *bits as u128,
        IRElement::Spare { bits } => *bits as u128,
    }
}

/// The wire width of a sequence of elements, saturated at `u128::MAX`.
fn elements_bit_count(es: &Vec<IRElement>) -> (r: u128)
    ensures
        r == cap_u128(elements_bits(es@)),
{
    let mut acc: u128 = 0;
    let mut i: usize = 0;
    while i < es.len()
        invariant
            i <= es@.len(),
            acc == cap_u128(elements_bits(es@.subrange(0, i as int))),
        decreases es.len() - i,
    {
        let w = element_bit_count(&es[i]);
        proof {
            let pre = es@.subrange(0, i as int);
            assert(es@.subrange(0, i + 1).drop_last() =~= pre);
        }
        acc = acc.saturating_add(w);
        i = i + 1;
    }
    proof {
        assert(es@.subrange(0, es@.len() as int) =~= es@);
    }
    acc
}

/// A wire width saturated at `u128::MAX`, as a `usize` saturated at
/// `usize::MAX`.
fn capped_usize(n: u128) -> (r: usize)
    ensures
        forall|m: nat| n == cap_u128(m) ==> r == cap_usize(m),
{
    if n > usize::MAX as u128 {
        usize::MAX
    } else {
        n as usize
    }
}

impl IRLayout {
    /// Checks a layout that may stand inside a compound one.
    fn validate_flat(&self, context: &str) -> (r: Result<(), CodegenError>)
        ensures
            match flat_fault(*self) {
                None => r is Ok,
                Some(f) => r matches Err(e) && fault_error(e, context@, f),
            },
    {
        match self {
            IRLayout::Fixed { bytes, elements } | IRLayout::Explicit { bytes, elements }
            | IRLayout::Repetitive { bytes, elements, .. } => check_sized(
                *bytes,
                elements,
                context,
            ),
            IRLayout::Extended { bytes, part_groups } => {
                if part_groups.len() != *bytes {
                    return Err(
                        CodegenError::ExtendedByteMismatch {
                            context: context.to_owned(),
                            declared: *bytes,
                            actual_groups: part_groups.len(),
                        },
                    );
                }
                let mut i: usize = 0;
                while i < part_groups.len()
                    invariant
                        i <= part_groups@.len(),
                        flat_fault(*self) == match part_groups_fault(part_groups@) {
                            Some(f) => Some(f),
                            None => names_fault(group_names(part_groups@)),
                        },
                        part_groups_fault(part_groups@.subrange(0, i as int)) is None,
                    decreases part_groups.len() - i,
                {
                    let g = &part_groups[i];
                    let actual = elements_bit_count(&g.elements);
                    proof {
                        assert(part_groups@.subrange(0, i + 1).drop_last() =~= part_groups@.subrange(
                            0,
                            i as int,
                        ));
                    }
                    if actual != 7 {
                        proof {
                            lemma_part_groups_fault_prefix(part_groups@, i as int);
                        }
                        let a = capped_usize(actual);
                        proof {
                            assert(a == cap_usize(elements_bits(part_groups@[i as int].elements@)));
                        }
                        return Err(
                            CodegenError::PartGroupBitMismatch {
                                context: context.to_owned(),
                                index: g.index,
                                actual: a,
                            },
                        );
                    }
                    i = i + 1;
                }
                proof {
                    assert(part_groups@.subrange(0, part_groups@.len() as int) =~= part_groups@);
                }
                let mut names: Vec<String> = Vec::new();
                let mut k: usize = 0;
                while k < part_groups.len()
                    invariant
                        k <= part_groups@.len(),
                        name_views(names@) == group_names(part_groups@.subrange(0, k as int)),
                    decreases part_groups.len() - k,
                {
                    push_element_names(&part_groups[k].elements, &mut names);
                    proof {
                        assert(part_groups@.subrange(0, k + 1).drop_last() =~= part_groups@.subrange(
                            0,
                            k as int,
                        ));
                    }
                    k = k + 1;
                }
                proof {
                    assert(part_groups@.subrange(0, part_groups@.len() as int) =~= part_groups@);
                }
                check_names(&names, context)
            },
            IRLayout::Compound { .. } => Err(CodegenError::NestedCompound),
        }
    }

    /// Validates a layout: the elements of a sized layout fill exactly its
    /// declared bytes (an EPB counts its presence bit), an extended layout
    /// has one part group per declared byte and seven data bits in each
    /// group, and each sub-item of a compound layout is valid and not
    /// compound itself. The first fault found is reported in `context`.
    pub fn validate(&self, context: &str) -> (r: Result<(), CodegenError>)
        ensures
            match layout_fault(*self) {
                None => r is Ok,
                Some(f) => r matches Err(e) && fault_error(e, context@, f),
            },
    {
        match self {
            IRLayout::Compound { sub_items } => {
                let mut i: usize = 0;
                while i < sub_items.len()
                    invariant
                        i <= sub_items@.len(),
                        layout_fault(*self) == sub_items_fault(sub_items@),
                        sub_items_fault(sub_items@.subrange(0, i as int)) is None,
                    decreases sub_items.len() - i,
                {
                    let r = sub_items[i].layout.validate_flat(context);
                    proof {
                        assert(sub_items@.subrange(0, i + 1).drop_last() =~= sub_items@.subrange(
                            0,
                            i as int,
                        ));
                    }
                    match r {
                        Ok(()) => {},
                        Err(e) => {
                            proof {
                                assert(flat_fault(sub_items@[i as int].layout) is Some);
                                lemma_sub_items_fault_prefix(sub_items@, i as int);
                            }
                            return Err(e);
                        },
                    }
                    i = i + 1;
                }
                proof {
                    assert(sub_items@.subrange(0, sub_items@.len() as int) =~= sub_items@);
                }
                Ok(())
            },
            _ => self.validate_flat(context),
        }
    }
}

/// Checks that elements taking `elements` bits fill `bytes` bytes.
fn check_size(bytes: usize, elements: &Vec<IRElement>, context: &str) -> (r: Result<
    (),
    CodegenError,
>)
    ensures
        match size_fault(bytes, elements_bits(elements@)) {
            None => r is Ok,
            Some(f) => r matches Err(e) && fault_error(e, context@, f),
        },
{
    let actual = elements_bit_count(elements);
    let expected = (bytes as u128) * 8;
    if actual == expected {
        Ok(())
    } else {
        Err(
            CodegenError::BitCountMismatch {
                context: context.to_owned(),
                bytes,
                expected_bits: capped_usize(expected),
                actual_bits: capped_usize(actual),
            },
        )
    }
}

/// The views of a sequence of strings.
pub open spec fn name_views(v: Seq<String>) -> Seq<Seq<char>> {
    v.map_values(|s: String| s@)
}

/// The name an element gives a field of the generated type, if any.
fn element_name_of(e: &IRElement) -> (r: Option<&String>)
    ensures
        match r {
            Some(s) => element_name(*e) == Some(s@),
            None => element_name(*e) is None,
        },
    decreases e,
{
    match e {
        IRElement::Field { name, .. } => Some(name),
        IRElement::EPB { content } => element_name_of(content),
        IRElement::Enum { name, .. } => Some(name),
        IRElement::Spare { .. } => None,
    }
}

/// Appends the names of `es` to `names`.
fn push_element_names(es: &Vec<IRElement>, names: &mut Vec<String>)
    ensures
        name_views(final(names)@) == name_views(old(names)@) + element_names(es@),
{
    let ghost start = name_views(names@);
    let mut i: usize = 0;
    while i < es.len()
        invariant
            i <= es@.len(),
            start == name_views(old(names)@),
            name_views(names@) == start + element_names(es@.subrange(0, i as int)),
        decreases es.len() - i,
    {
        let ghost before = names@;
        match element_name_of(&es[i]) {
            Some(n) => {
                names.push(n.clone());
                proof {
                    assert(name_views(names@) =~= name_views(before) + seq![n@]);
                }
            },
            None => {},
        }
        proof {
            assert(es@.subrange(0, i + 1).drop_last() =~= es@.subrange(0, i as int));
            assert(name_views(names@) =~= start + element_names(es@.subrange(0, i + 1)));
        }
        i = i + 1;
    }
    proof {
        assert(es@.subrange(0, es@.len() as int) =~= es@);
    }
}

/// A repeated name in a prefix is the first repeated name of the whole.
proof fn lemma_first_duplicate_prefix(ns: Seq<Seq<char>>, k: int)
    requires
        0 <= k <= ns.len(),
        first_duplicate(ns.subrange(0, k)) is Some,
    ensures
        first_duplicate(ns) == first_duplicate(ns.subrange(0, k)),
    decreases ns.len(),
{
    if k < ns.len() {
        assert(ns.drop_last().subrange(0, k) =~= ns.subrange(0, k));
        lemma_first_duplicate_prefix(ns.drop_last(), k);
    } else {
        assert(ns.subrange(0, k) =~= ns);
    }
}

/// The first name (in order) that repeats an earlier one.
fn find_duplicate(names: &Vec<String>) -> (r: Option<String>)
    ensures
        match first_duplicate(name_views(names@)) {
            Some(n) => r matches Some(s) && s@ == n,
            None => r is None,
        },
{
    let ghost ns = name_views(names@);
    let mut j: usize = 0;
    while j < names.len()
        invariant
            j <= names@.len(),
            ns == name_views(names@),
            first_duplicate(ns.subrange(0, j as int)) is None,
        decreases names.len() - j,
    {
        let mut i: usize = 0;
        while i < j
            invariant
                i <= j < names@.len(),
                ns == name_views(names@),
                first_duplicate(ns.subrange(0, j as int)) is None,
                forall|t: int| 0 <= t < i ==> ns[t] != ns[j as int],
            decreases j - i,
        {
            if names[i] == names[j] {
                proof {
                    let pre = ns.subrange(0, j as int);
                    assert(ns.subrange(0, j + 1).drop_last() =~= pre);
                    assert(pre[i as int] == ns[j as int]);
                    assert(pre.contains(ns[j as int]));
                    assert(ns.subrange(0, j + 1).last() == ns[j as int]);
                    assert(first_duplicate(ns.subrange(0, j + 1)) == Some(ns[j as int]));
                    lemma_first_duplicate_prefix(ns, j + 1);
                }
                return Some(names[j].clone());
            }
            i = i + 1;
        }
        proof {
            let pre = ns.subrange(0, j as int);
            assert(ns.subrange(0, j + 1).drop_last() =~= pre);
            assert(!pre.contains(ns[j as int]));
        }
        j = j + 1;
    }
    proof {
        assert(ns.subrange(0, ns.len() as int) =~= ns);
    }
    None
}

/// Checks that no name repeats an earlier one.
fn check_names(names: &Vec<String>, context: &str) -> (r: Result<(), CodegenError>)
    ensures
        match names_fault(name_views(names@)) {
            None => r is Ok,
            Some(f) => r matches Err(e) && fault_error(e, context@, f),
        },
{
    match find_duplicate(names) {
        Some(name) => Err(CodegenError::DuplicateFieldName { context: context.to_owned(), name }),
        None => Ok(()),
    }
}

/// Checks a sized layout: its size first, then its names.
fn check_sized(bytes: usize, elements: &Vec<IRElement>, context: &str) -> (r: Result<
    (),
    CodegenError,
>)
    ensures
        match sized_fault(bytes, elements@) {
            None => r is Ok,
            Some(f) => r matches Err(e) && fault_error(e, context@, f),
        },
{
    match check_size(bytes, elements, context) {
        Ok(()) => {},
        Err(e) => {
            return Err(e);
        },
    }
    let mut names: Vec<String> = Vec::new();
    push_element_names(elements, &mut names);
    proof {
        assert(name_views(names@) =~= element_names(elements@));
    }
    check_names(&names, context)
}

/// When the first `i` groups are fine and group `i` is not, the first fault
/// is group `i`'s.
proof fn lemma_part_groups_fault_prefix(groups: Seq<IRPartGroup>, i: int)
    requires
        0 <= i < groups.len(),
        part_groups_fault(groups.subrange(0, i)) is None,
        elements_bits(groups[i].elements@) != 7,
    ensures
        part_groups_fault(groups) == Some(
            LayoutFault::PartGroupBits {
                index: groups[i].index,
                actual: elements_bits(groups[i].elements@),
            },
        ),
    decreases groups.len(),
{
    if i + 1 == groups.len() {
        assert(groups.drop_last() =~= groups.subrange(0, i));
    } else {
        assert(groups.drop_last().subrange(0, i) =~= groups.subrange(0, i));
        lemma_part_groups_fault_prefix(groups.drop_last(), i);
    }
}

/// When the first `i` sub-items are fine and sub-item `i` is not, the first
/// fault is sub-item `i`'s.
proof fn lemma_sub_items_fault_prefix(subs: Seq<IRSubItem>, i: int)
    requires
        0 <= i < subs.len(),
        sub_items_fault(subs.subrange(0, i)) is None,
        flat_fault(subs[i].layout) is Some,
    ensures
        sub_items_fault(subs) == flat_fault(subs[i].layout),
    decreases subs.len(),
{
    if i + 1 == subs.len() {
        assert(subs.drop_last() =~= subs.subrange(0, i));
    } else {
        assert(subs.drop_last().subrange(0, i) =~= subs.subrange(0, i));
        lemma_sub_items_fault_prefix(subs.drop_last(), i);
    }
}

/// A fixed, explicit or repetitive layout is valid only when its elements
/// take exactly its declared bytes: elements that take fewer bits and
/// elements that take more bits are both reported as a bit count fault,
/// with the declared bytes and the bits the elements take.
pub proof fn law_sized_layout_fills_its_bytes(l: IRLayout)
    ensures
        l matches IRLayout::Fixed { bytes, elements } ==> (layout_fault(l) is None ==> elements_bits(
            elements@,
        ) == 8 * bytes),
        l matches IRLayout::Explicit { bytes, elements } ==> (layout_fault(l) is None
            ==> elements_bits(elements@) == 8 * bytes),
        l matches IRLayout::Repetitive { bytes, elements, .. } ==> (layout_fault(l) is None
            ==> elements_bits(elements@) == 8 * bytes),
        l matches IRLayout::Fixed { bytes, elements } ==> (elements_bits(elements@) != 8 * bytes
            ==> layout_fault(l) == Some(
            LayoutFault::BitCount { bytes, actual: elements_bits(elements@) },
        )),
        l matches IRLayout::Explicit { bytes, elements } ==> (elements_bits(elements@) != 8 * bytes
            ==> layout_fault(l) == Some(
            LayoutFault::BitCount { bytes, actual: elements_bits(elements@) },
        )),
        l matches IRLayout::Repetitive { bytes, elements, .. } ==> (elements_bits(elements@) != 8
            * bytes ==> layout_fault(l) == Some(
            LayoutFault::BitCount { bytes, actual: elements_bits(elements@) },
        )),
{
}

/// An extended layout is valid only when it has exactly one part group per
/// declared byte: more groups than bytes and fewer groups than bytes are
/// both reported as a byte count fault, with the declared bytes and the
/// number of groups.
pub proof fn law_extended_layout_has_one_group_per_byte(l: IRLayout)
    ensures
        l matches IRLayout::Extended { bytes, part_groups } ==> (layout_fault(l) is None
            ==> part_groups@.len() == bytes),
        l matches IRLayout::Extended { bytes, part_groups } ==> (part_groups@.len() != bytes
            ==> layout_fault(l) == Some(
            LayoutFault::ExtendedBytes { declared: bytes, actual_groups: part_groups@.len() },
        )),
{
}

/// The error that reports a bit count fault names the declared bytes, the
/// bits they hold and the bits the elements take; the one that reports a
/// byte count fault names the declared bytes and the number of groups.
pub proof fn law_fault_errors_carry_the_counts(e: CodegenError, ctx: Seq<char>, bytes: usize, n: nat)
    ensures
        fault_error(e, ctx, LayoutFault::BitCount { bytes, actual: n }) ==> (e matches
            CodegenError::BitCountMismatch { context, bytes: b, expected_bits, actual_bits }
            && context@ == ctx && b == bytes && (8 * bytes <= usize::MAX ==> expected_bits == 8
            * bytes) && (n <= usize::MAX ==> actual_bits == n)),
        fault_error(e, ctx, LayoutFault::ExtendedBytes { declared: bytes, actual_groups: n }) ==> (e
            matches CodegenError::ExtendedByteMismatch { context, declared, actual_groups }
            && context@ == ctx && declared == bytes && actual_groups == n),
{
}

} // verus!

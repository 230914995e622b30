//! Streaming state of the audio decoder.
use vstd::prelude::*;
use crate::tensors::{count_volume, countable, numbered, numbered_name, rebuilds, volume, ElementType, Reusable};
use crate::text::{chars_of, contains, contains_chars, decimal};

verus! {

/// What a state tensor of the decoder holds.
#[derive(Debug, Clone, Copy, PartialEq, Eq, Structural)]
pub enum MimiStateKind {
    Off,
    Cache,
    Other,
}

/// The kind that a tensor name tells.
pub open spec fn kind_of(name: Seq<char>) -> MimiStateKind {
    if contains(name, "off"@) {
        MimiStateKind::Off
    } else if contains(name, "cache"@) {
        MimiStateKind::Cache
    } else {
        MimiStateKind::Other
    }
}

/// Tells the kind of a state tensor by its name: one with `off` in it is an offset, any other
/// with `cache` in it a cache.
pub fn element_kind(name: &str) -> (k: MimiStateKind)
    ensures
        k == kind_of(name@),
{
    let cs: Vec<char> = chars_of(name);
    if contains_chars(&cs, &chars_of("off")) {
        MimiStateKind::Off
    } else if contains_chars(&cs, &chars_of("cache")) {
        MimiStateKind::Cache
    } else {
        MimiStateKind::Other
    }
}

/// The element type of a state of this kind.
pub open spec fn spec_state_type(kind: MimiStateKind) -> ElementType {
    match kind {
        MimiStateKind::Off => ElementType::I64,
        _ => ElementType::F32,
    }
}

/// The element type of a state of this kind.
pub fn state_type(kind: MimiStateKind) -> (t: ElementType)
    ensures
        t == spec_state_type(kind),
        kind is Off ==> t is I64,
        !(kind is Off) ==> t is F32,
{
    match kind {
        MimiStateKind::Off => ElementType::I64,
        _ => ElementType::F32,
    }
}

/// What a state is filled with before the first frame.
#[derive(Debug, Clone, Copy, PartialEq, Eq, Structural)]
pub enum Fill {
    Zero,
    Nan,
}

/// What a state of this kind is filled with: caches with NaN, anything else with zero.
pub open spec fn first_fill(kind: MimiStateKind) -> Fill {
    match kind {
        MimiStateKind::Cache => Fill::Nan,
        _ => Fill::Zero,
    }
}

/// A state input of the decoder, as its model describes it.
pub struct MimiInput {
    pub name: String,
    pub kind: MimiStateKind,
    pub shape: Vec<i64>,
}

/// A state of the decoder before the first frame.
pub struct MimiSlot {
    pub name: String,
    pub kind: MimiStateKind,
    pub buf: Reusable,
    pub fill: Fill,
    pub len: usize,
}

/// The slot is the fresh state for the input.
pub open spec fn fresh_slot(input: MimiInput, slot: MimiSlot) -> bool {
    &&& slot.name@ == input.name@
    &&& slot.kind == input.kind
    &&& slot.buf@ == (spec_state_type(input.kind), input.shape@)
    &&& slot.fill == first_fill(input.kind)
    &&& slot.len == volume(input.shape@)
}

/// Describes the input of a model by its name and shape.
pub fn describe_input(name: String, shape: Vec<i64>) -> (input: MimiInput)
    ensures
        input.name@ == name@,
        input.kind == kind_of(name@),
        input.shape@ == shape@,
{
    MimiInput { kind: element_kind(name.as_str()), name, shape }
}

/// Fresh states for all inputs, in order.
pub fn fresh_mimi_slots(inputs: &[MimiInput]) -> (slots: Vec<MimiSlot>)
    requires
        forall|j: int| 0 <= j < inputs.len() ==> countable(#[trigger] inputs@[j].shape@),
    ensures
        slots.len() == inputs.len(),
        forall|j: int| 0 <= j < inputs.len() ==> fresh_slot(inputs@[j], #[trigger] slots@[j]),
        forall|j: int|
            0 <= j < inputs.len() ==> (#[trigger] slots@[j]).name@ == inputs@[j].name@,
        forall|j: int| 0 <= j < inputs.len() ==> (#[trigger] slots@[j]).kind == inputs@[j].kind,
        forall|j: int|
            0 <= j < inputs.len() ==> (#[trigger] slots@[j]).buf@ == (
                if inputs@[j].kind is Off {
                    ElementType::I64
                } else {
                    ElementType::F32
                },
                inputs@[j].shape@,
            ),
        forall|j: int|
            0 <= j < inputs.len() ==> ((#[trigger] slots@[j]).fill is Nan <==> inputs@[j].kind is Cache),
        forall|j: int|
            0 <= j < inputs.len() ==> (#[trigger] slots@[j]).len == volume(inputs@[j].shape@),
{
    let mut slots: Vec<MimiSlot> = Vec::new();
    let mut j: usize = 0;
    while j < inputs.len()
        invariant
            j <= inputs.len(),
            forall|j: int| 0 <= j < inputs.len() ==> countable(#[trigger] inputs@[j].shape@),
            slots.len() == j,
            forall|k: int| 0 <= k < j ==> fresh_slot(inputs@[k], #[trigger] slots@[k]),
        decreases inputs.len() - j,
    {
        let input: &MimiInput = &inputs[j];
        assert(countable(inputs@[j as int].shape@));
        let len: usize = match count_volume(&input.shape) {
            Some(n) => n,
            None => 0,
        };
        let fill: Fill = match input.kind {
            MimiStateKind::Cache => Fill::Nan,
            _ => Fill::Zero,
        };
        slots.push(
            MimiSlot {
                name: input.name.clone(),
                kind: input.kind,
                buf: Reusable::new(state_type(input.kind), &input.shape),
                fill,
                len,
            },
        );
        j = j + 1;
    }
    slots
}

impl MimiSlot {
    /// Takes over the layout of the decoder's output for this state, which replaces it, shape
    /// included, and reports whether the tensor has to be allocated anew.
    pub fn replace(&mut self, shape: &[i64]) -> (rebuild: bool)
        ensures
            final(self).buf@ == (spec_state_type(old(self).kind), shape@),
            final(self).buf@.0 is I64 <==> old(self).kind is Off,
            final(self).buf@.0 is F32 <==> !(old(self).kind is Off),
            rebuild <==> old(self).buf@ != final(self).buf@,
            rebuild == rebuilds(old(self).buf@, (spec_state_type(old(self).kind), shape@)),
            final(self).name == old(self).name,
            final(self).kind == old(self).kind,
            final(self).fill == old(self).fill,
            final(self).len == old(self).len,
    {
        let t: ElementType = state_type(self.kind);
        self.buf.ensure(t, shape)
    }
}

/// The output that replaces state `j`.
pub fn next_state_name(j: usize) -> (s: String)
    ensures
        s@ == numbered("n"@, j as nat),
        s@ == "n"@ + decimal(j as nat),
{
    numbered_name("n", j)
}

/// A state is an offset exactly where `off` stands in its name, and a cache exactly where `cache`
/// does and `off` does not.
pub proof fn law_kinds_are_told_by_names(name: Seq<char>)
    ensures
        kind_of(name) is Off <==> exists|j: int|
            0 <= j <= name.len() - 3 && #[trigger] name.subrange(j, j + 3) == "off"@,
        kind_of(name) is Cache <==> !(kind_of(name) is Off) && exists|j: int|
            0 <= j <= name.len() - 5 && #[trigger] name.subrange(j, j + 5) == "cache"@,
{
    reveal_strlit("off");
    reveal_strlit("cache");
    assert("off"@.len() == 3 && "cache"@.len() == 5);
    assert forall|j: int| 0 <= j <= name.len() - 3 && #[trigger] name.subrange(j, j + 3)
        == "off"@ implies contains(name, "off"@) by {
        assert(crate::text::occurs_at(name, "off"@, j));
    }
    assert forall|j: int| 0 <= j <= name.len() - 5 && #[trigger] name.subrange(j, j + 5)
        == "cache"@ implies contains(name, "cache"@) by {
        assert(crate::text::occurs_at(name, "cache"@, j));
    }
    if contains(name, "off"@) {
        let i = choose|i: int| crate::text::occurs_at(name, "off"@, i);
        assert(name.subrange(i, i + 3) == "off"@);
    }
    if contains(name, "cache"@) {
        let i = choose|i: int| crate::text::occurs_at(name, "cache"@, i);
        assert(name.subrange(i, i + 5) == "cache"@);
    }
}

} // verus!

//! Layout of the device tensors that a run refills at every step.
use vstd::prelude::*;
use crate::npy::{checked_product, product};
use crate::text::{decimal, decimal_text, joined};

verus! {

/// Element types of device tensors.
#[derive(Debug, Clone, Copy, PartialEq, Eq, Structural)]
pub enum ElementType {
    F32,
    I64,
    Boolean,
}

/// The layout of a tensor that is allocated once and refilled in place as long as neither its
/// element type nor its shape changes.
#[derive(Debug)]
pub struct Reusable {
    etype: ElementType,
    shape: Vec<i64>,
}

impl View for Reusable {
    type V = (ElementType, Seq<i64>);

    closed spec fn view(&self) -> (ElementType, Seq<i64>) {
        (self.etype, self.shape@)
    }
}

/// Whether two shapes are the same.
fn same_shape(a: &[i64], b: &[i64]) -> (r: bool)
    ensures
        r == (a@ == b@),
{
    if a.len() != b.len() {
        return false;
    }
    let mut i: usize = 0;
    while i < a.len()
        invariant
            i <= a.len(),
            a.len() == b.len(),
            forall|k: int| 0 <= k < i ==> a@[k] == b@[k],
        decreases a.len() - i,
    {
        if a[i] != b[i] {
            return false;
        }
        i = i + 1;
    }
    assert(a@ =~= b@);
    true
}

/// A copy of a shape.
pub fn copy_shape(shape: &[i64]) -> (r: Vec<i64>)
    ensures
        r@ == shape@,
{
    let mut r: Vec<i64> = Vec::new();
    let mut i: usize = 0;
    while i < shape.len()
        invariant
            i <= shape.len(),
            r@ == shape@.take(i as int),
        decreases shape.len() - i,
    {
        r.push(shape[i]);
        i = i + 1;
    }
    r
}

/// A tensor has to be allocated anew exactly where its layout changes.
pub open spec fn rebuilds(from: (ElementType, Seq<i64>), to: (ElementType, Seq<i64>)) -> bool {
    from != to
}

/// How many tensors are allocated for a succession of layouts: the first, and one for every
/// change.
pub open spec fn allocations(layouts: Seq<(ElementType, Seq<i64>)>) -> nat
    decreases layouts.len(),
{
    if layouts.len() <= 1 {
        layouts.len()
    } else {
        allocations(layouts.drop_last()) + if rebuilds(layouts[layouts.len() - 2], layouts.last()) {
            1nat
        } else {
            0nat
        }
    }
}

/// A tensor whose layout stays the same is allocated once, however often it is refilled.
pub proof fn law_steady_layout_is_allocated_once(layouts: Seq<(ElementType, Seq<i64>)>)
    requires
        layouts.len() > 0,
        forall|i: int| 0 <= i < layouts.len() ==> #[trigger] layouts[i] == layouts[0],
    ensures
        allocations(layouts) == 1,
    decreases layouts.len(),
{
    if layouts.len() > 1 {
        assert(layouts[layouts.len() - 2] == layouts[layouts.len() - 1]);
        law_steady_layout_is_allocated_once(layouts.drop_last());
    }
}

impl Reusable {
    /// The layout of a newly allocated tensor.
    pub fn new(etype: ElementType, shape: &[i64]) -> (r: Reusable)
        ensures
            r@ == (etype, shape@),
    {
        Reusable { etype, shape: copy_shape(shape) }
    }

    /// Whether the tensor can be refilled in place with elements of this type in this shape.
    pub fn accepts(&self, etype: ElementType, shape: &[i64]) -> (b: bool)
        ensures
            b == (self@ == (etype, shape@)),
    {
        self.etype == etype && same_shape(&self.shape, shape)
    }

    /// Moves to the given layout and reports whether the tensor has to be allocated anew for it:
    /// exactly where the layout changes.
    pub fn ensure(&mut self, etype: ElementType, shape: &[i64]) -> (rebuild: bool)
        ensures
            final(self)@ == (etype, shape@),
            rebuild == rebuilds(old(self)@, (etype, shape@)),
            rebuild <==> old(self)@.0 != etype || old(self)@.1 != shape@,
    {
        if self.accepts(etype, shape) {
            false
        } else {
            self.etype = etype;
            self.shape = copy_shape(shape);
            true
        }
    }
}

/// The dimensions as they are counted with.
pub open spec fn extents(shape: Seq<i64>) -> Seq<usize> {
    shape.map_values(|d: i64| d as usize)
}

/// A shape whose elements can be counted.
pub open spec fn countable(shape: Seq<i64>) -> bool {
    &&& forall|i: int| 0 <= i < shape.len() ==> 0 <= #[trigger] shape[i] <= usize::MAX
    &&& product(extents(shape)) <= usize::MAX
}

/// The number of elements of a shape.
pub open spec fn volume(shape: Seq<i64>) -> nat {
    product(extents(shape))
}

/// A shape without dimensions has one element, and a further dimension multiplies the elements by
/// its size.
pub proof fn law_volumes_multiply(shape: Seq<i64>, d: i64)
    requires
        0 <= d <= usize::MAX,
    ensures
        volume(Seq::empty()) == 1,
        volume(shape.push(d)) == volume(shape) * d,
{
    assert(extents(Seq::empty()) =~= Seq::empty());
    assert(extents(shape.push(d)).drop_last() =~= extents(shape));
}

/// Counts the elements of a shape, where that can be done.
pub fn count_volume(shape: &[i64]) -> (r: Option<usize>)
    ensures
        r is Some <==> countable(shape@),
        r matches Some(n) ==> n == volume(shape@),
        r is Some <==> volume(shape@) <= usize::MAX && forall|i: int|
            0 <= i < shape@.len() ==> 0 <= #[trigger] shape@[i] <= usize::MAX,
{
    let mut sizes: Vec<usize> = Vec::new();
    let mut i: usize = 0;
    while i < shape.len()
        invariant
            i <= shape.len(),
            sizes@ == extents(shape@).take(i as int),
            forall|k: int| 0 <= k < i ==> 0 <= #[trigger] shape@[k] <= usize::MAX,
        decreases shape.len() - i,
    {
        let d: i64 = shape[i];
        if d < 0 || d as u64 > usize::MAX as u64 {
            assert(!(0 <= shape@[i as int] <= usize::MAX));
            return None;
        }
        sizes.push(d as usize);
        i = i + 1;
    }
    assert(sizes@ =~= extents(shape@));
    checked_product(&sizes)
}

/// A prefix with a number behind it.
pub open spec fn numbered(prefix: Seq<char>, i: nat) -> Seq<char> {
    prefix + decimal(i)
}

/// Puts a number behind a prefix.
pub fn numbered_name(prefix: &str, i: usize) -> (s: String)
    ensures
        s@ == numbered(prefix@, i as nat),
        s@ == prefix@ + decimal(i as nat),
{
    joined(prefix, decimal_text(i).as_str())
}

/// The names of the tensors of all layers: the prefix with 0, 1, 2 and so on behind it.
pub fn layer_names(prefix: &str, n_layers: usize) -> (names: Vec<String>)
    ensures
        crate::text::texts(names@) == Seq::new(n_layers as nat, |i: int| numbered(prefix@, i as nat)),
        names@.len() == n_layers,
        forall|i: int|
            0 <= i < n_layers ==> (#[trigger] names@[i])@ == prefix@ + decimal(i as nat),
{
    let mut names: Vec<String> = Vec::new();
    let mut i: usize = 0;
    while i < n_layers
        invariant
            i <= n_layers,
            crate::text::texts(names@) == Seq::new(i as nat, |i: int| numbered(prefix@, i as nat)),
        decreases n_layers - i,
    {
        let ghost sofar = crate::text::texts(names@);
        let name: String = numbered_name(prefix, i);
        names.push(name);
        i = i + 1;
        assert(crate::text::texts(names@) =~= sofar.push(name@));
        assert(crate::text::texts(names@) =~= Seq::new(
            i as nat,
            |i: int| numbered(prefix@, i as nat),
        ));
    }
    assert(crate::text::texts(names@).len() == names@.len());
    assert forall|i: int| 0 <= i < n_layers implies (#[trigger] names@[i])@ == prefix@ + decimal(
        i as nat,
    ) by {
        assert(crate::text::texts(names@)[i] == names@[i]@);
    }
    names
}

/// A number is told by its digits.
proof fn lemma_decimal_injective(a: nat, b: nat)
    requires
        decimal(a) == decimal(b),
    ensures
        a == b,
    decreases a,
{
    let (da, db) = (decimal(a), decimal(b));
    assert(da.last() == (48 + a % 10) as char);
    assert(db.last() == (48 + b % 10) as char);
    assert(a % 10 == b % 10);
    lemma_decimal_nonempty(a / 10);
    lemma_decimal_nonempty(b / 10);
    if a >= 10 {
        assert(da.drop_last() =~= decimal(a / 10));
        assert(db.drop_last() =~= decimal(b / 10));
        lemma_decimal_injective(a / 10, b / 10);
    }
}

proof fn lemma_decimal_nonempty(a: nat)
    ensures
        decimal(a).len() > 0,
{
}

/// Different layers have different tensor names.
pub proof fn law_layer_names_differ(prefix: Seq<char>, i: nat, j: nat)
    requires
        i != j,
    ensures
        numbered(prefix, i) != numbered(prefix, j),
{
    if numbered(prefix, i) == numbered(prefix, j) {
        assert(numbered(prefix, i).skip(prefix.len() as int) =~= decimal(i));
        assert(numbered(prefix, j).skip(prefix.len() as int) =~= decimal(j));
        lemma_decimal_injective(i, j);
    }
}

} // verus!

//! The tensors that the models of a package take.
use vstd::prelude::*;
use crate::npy::signed_64;
use crate::params::Params;
use crate::tensors::{copy_shape, law_layer_names_differ, numbered, numbered_name, ElementType};
use crate::text::{decimal, owned};
use crate::voice::signed;

verus! {

/// An input of a model: its name, its element type and its shape.
#[derive(Debug)]
pub struct TensorSpec {
    pub name: String,
    pub etype: ElementType,
    pub shape: Vec<i64>,
}

impl View for TensorSpec {
    type V = (Seq<char>, ElementType, Seq<i64>);

    open spec fn view(&self) -> (Seq<char>, ElementType, Seq<i64>) {
        (self.name@, self.etype, self.shape@)
    }
}

/// The names, types and shapes of inputs.
pub open spec fn layouts(v: Seq<TensorSpec>) -> Seq<(Seq<char>, ElementType, Seq<i64>)> {
    v.map_values(|t: TensorSpec| t@)
}

/// The inputs of the first `n` layers: a position and a cache each.
pub open spec fn layer_layouts(shapes: Seq<Vec<i64>>, n: nat) -> Seq<
    (Seq<char>, ElementType, Seq<i64>),
>
    decreases n,
{
    if n == 0 {
        Seq::empty()
    } else {
        layer_layouts(shapes, (n - 1) as nat) + seq![
            (numbered("off"@, (n - 1) as nat), ElementType::I64, seq![1i64]),
            (numbered("cache"@, (n - 1) as nat), ElementType::F32, shapes[n - 1]@),
        ]
    }
}

/// The inputs of the step model before those of the layers: the latent, the embedding, and
/// whether the step is one of text.
pub open spec fn leading_layouts(p: Params) -> Seq<(Seq<char>, ElementType, Seq<i64>)> {
    seq![
        ("token"@, ElementType::F32, seq![1i64, 1i64, signed_64(p.ldim as nat)]),
        ("emb"@, ElementType::F32, seq![1i64, 1i64, signed_64(p.dim as nat)]),
        ("is_text"@, ElementType::Boolean, seq![1i64]),
    ]
}

/// The inputs of the step model.
pub open spec fn step_layouts(p: Params, shapes: Seq<Vec<i64>>) -> Seq<
    (Seq<char>, ElementType, Seq<i64>),
> {
    leading_layouts(p) + layer_layouts(shapes, p.n_layers as nat)
}

/// A shape of one dimension.
fn shape_1(a: i64) -> (s: Vec<i64>)
    ensures
        s@ == seq![a],
{
    let mut s: Vec<i64> = Vec::new();
    s.push(a);
    s
}

/// A shape of three dimensions, the outer two of them one.
fn shape_3(a: usize) -> (s: Vec<i64>)
    ensures
        s@ == seq![1i64, 1i64, signed_64(a as nat)],
{
    let mut s: Vec<i64> = Vec::new();
    s.push(1);
    s.push(1);
    s.push(signed(a));
    s
}

/// A shape of two dimensions, the outer of them one.
fn shape_2(a: usize) -> (s: Vec<i64>)
    ensures
        s@ == seq![1i64, signed_64(a as nat)],
{
    let mut s: Vec<i64> = Vec::new();
    s.push(1);
    s.push(signed(a));
    s
}

/// Lists the inputs of the step model, given the shapes of the caches.
pub fn step_inputs(p: &Params, shapes: &[Vec<i64>]) -> (v: Vec<TensorSpec>)
    requires
        p.n_layers <= shapes.len(),
    ensures
        layouts(v@) == step_layouts(*p, shapes@),
        v@.len() == 3 + 2 * p.n_layers,
        forall|k: int| 0 <= k < v@.len() ==> (#[trigger] v@[k])@ == step_layouts(*p, shapes@)[k],
{
    let mut v: Vec<TensorSpec> = Vec::new();
    v.push(TensorSpec { name: owned("token"), etype: ElementType::F32, shape: shape_3(p.ldim) });
    v.push(TensorSpec { name: owned("emb"), etype: ElementType::F32, shape: shape_3(p.dim) });
    v.push(TensorSpec { name: owned("is_text"), etype: ElementType::Boolean, shape: shape_1(1) });
    let mut i: usize = 0;
    assert(layouts(v@) =~= leading_layouts(*p) + layer_layouts(shapes@, 0));
    while i < p.n_layers
        invariant
            i <= p.n_layers,
            p.n_layers <= shapes.len(),
            layouts(v@) == leading_layouts(*p) + layer_layouts(shapes@, i as nat),
        decreases p.n_layers - i,
    {
        let ghost before = layouts(v@);
        let off: TensorSpec = TensorSpec {
            name: numbered_name("off", i),
            etype: ElementType::I64,
            shape: shape_1(1),
        };
        let cache: TensorSpec = TensorSpec {
            name: numbered_name("cache", i),
            etype: ElementType::F32,
            shape: copy_shape(&shapes[i]),
        };
        v.push(off);
        v.push(cache);
        i = i + 1;
        assert(layouts(v@) =~= before + seq![off@, cache@]);
        assert(layouts(v@) =~= leading_layouts(*p) + layer_layouts(shapes@, i as nat));
    }
    proof {
        lemma_layer_layouts(shapes@, p.n_layers as nat);
        assert(layouts(v@).len() == v@.len());
        assert forall|k: int| 0 <= k < v@.len() implies (#[trigger] v@[k])@ == step_layouts(
            *p,
            shapes@,
        )[k] by {
            assert(layouts(v@)[k] == v@[k]@);
        }
    }
    v
}

/// The step model takes a latent, an embedding and a flag, and then a position and a cache of
/// every layer in turn, under the number of the layer.
pub proof fn law_step_inputs_by_place(p: Params, shapes: Seq<Vec<i64>>, i: int)
    ensures
        step_layouts(p, shapes).len() == 3 + 2 * p.n_layers,
        step_layouts(p, shapes)[0] == (
            "token"@,
            ElementType::F32,
            seq![1i64, 1i64, signed_64(p.ldim as nat)],
        ),
        step_layouts(p, shapes)[1] == (
            "emb"@,
            ElementType::F32,
            seq![1i64, 1i64, signed_64(p.dim as nat)],
        ),
        step_layouts(p, shapes)[2] == ("is_text"@, ElementType::Boolean, seq![1i64]),
        0 <= i < p.n_layers ==> step_layouts(p, shapes)[3 + 2 * i] == (
            "off"@ + decimal(i as nat),
            ElementType::I64,
            seq![1i64],
        ),
        0 <= i < p.n_layers ==> step_layouts(p, shapes)[4 + 2 * i] == (
            "cache"@ + decimal(i as nat),
            ElementType::F32,
            shapes[i]@,
        ),
{
    let n = p.n_layers as nat;
    lemma_layer_layouts(shapes, n);
    if 0 <= i < n {
        assert(step_layouts(p, shapes)[3 + 2 * i] == layer_layouts(shapes, n)[2 * i]);
        assert(step_layouts(p, shapes)[4 + 2 * i] == layer_layouts(shapes, n)[2 * i + 1]);
    }
}

/// The inputs of the sampler: the output of a step, and noise.
pub open spec fn sampler_layouts(p: Params) -> Seq<(Seq<char>, ElementType, Seq<i64>)> {
    seq![
        ("cond"@, ElementType::F32, seq![1i64, signed_64(p.dim as nat)]),
        ("noise"@, ElementType::F32, seq![1i64, signed_64(p.ldim as nat)]),
    ]
}

/// Lists the inputs of the sampler.
pub fn sampler_inputs(p: &Params) -> (v: Vec<TensorSpec>)
    ensures
        layouts(v@) == sampler_layouts(*p),
        v@.len() == 2,
        v@[0]@ == ("cond"@, ElementType::F32, seq![1i64, signed_64(p.dim as nat)]),
        v@[1]@ == ("noise"@, ElementType::F32, seq![1i64, signed_64(p.ldim as nat)]),
{
    let mut v: Vec<TensorSpec> = Vec::new();
    v.push(TensorSpec { name: owned("cond"), etype: ElementType::F32, shape: shape_2(p.dim) });
    v.push(TensorSpec { name: owned("noise"), etype: ElementType::F32, shape: shape_2(p.ldim) });
    assert(layouts(v@) =~= sampler_layouts(*p));
    v
}

/// The input of the audio decoder beside its states: a latent.
pub fn decoder_input(p: &Params) -> (t: TensorSpec)
    ensures
        t@ == ("latent"@, ElementType::F32, seq![1i64, 1i64, signed_64(p.ldim as nat)]),
{
    TensorSpec { name: owned("latent"), etype: ElementType::F32, shape: shape_3(p.ldim) }
}

/// Where the inputs of layer `i` stand.
proof fn lemma_layer_layouts(shapes: Seq<Vec<i64>>, n: nat)
    ensures
        layer_layouts(shapes, n).len() == 2 * n,
        forall|i: int|
            0 <= i < n ==> (#[trigger] layer_layouts(shapes, n)[2 * i]) == (
                numbered("off"@, i as nat),
                ElementType::I64,
                seq![1i64],
            ),
        forall|i: int|
            0 <= i < n ==> (#[trigger] layer_layouts(shapes, n)[2 * i + 1]) == (
                numbered("cache"@, i as nat),
                ElementType::F32,
                shapes[i]@,
            ),
    decreases n,
{
    if n > 0 {
        lemma_layer_layouts(shapes, (n - 1) as nat);
        let before = layer_layouts(shapes, (n - 1) as nat);
        assert forall|i: int| 0 <= i < n implies (#[trigger] layer_layouts(shapes, n)[2 * i]) == (
            numbered("off"@, i as nat),
            ElementType::I64,
            seq![1i64],
        ) by {
            if i < n - 1 {
                assert(before[2 * i] == layer_layouts(shapes, n)[2 * i]);
            }
        }
        assert forall|i: int| 0 <= i < n implies (#[trigger] layer_layouts(shapes, n)[2 * i + 1])
            == (numbered("cache"@, i as nat), ElementType::F32, shapes[i]@) by {
            if i < n - 1 {
                assert(before[2 * i + 1] == layer_layouts(shapes, n)[2 * i + 1]);
            }
        }
    }
}

/// What begins the name of input `k`.
spec fn initial(k: int) -> char {
    if k == 0 {
        't'
    } else if k == 1 {
        'e'
    } else if k == 2 {
        'i'
    } else if k % 2 == 1 {
        'o'
    } else {
        'c'
    }
}

/// No two inputs of the step model share a name.
pub proof fn law_step_inputs_differ(p: Params, shapes: Seq<Vec<i64>>, a: int, b: int)
    requires
        0 <= a < b < step_layouts(p, shapes).len(),
    ensures
        step_layouts(p, shapes)[a].0 != step_layouts(p, shapes)[b].0,
{
    let all = step_layouts(p, shapes);
    let n = p.n_layers as nat;
    lemma_layer_layouts(shapes, n);
    reveal_strlit("token");
    reveal_strlit("emb");
    reveal_strlit("is_text");
    reveal_strlit("off");
    reveal_strlit("cache");
    assert forall|k: int| 0 <= k < all.len() implies (#[trigger] all[k]).0[0] == initial(k) by {
        if k >= 3 {
            let i = (k - 3) / 2;
            assert(all[k] == layer_layouts(shapes, n)[k - 3]);
            if k % 2 == 1 {
                assert(all[k] == layer_layouts(shapes, n)[2 * i]);
            } else {
                assert(all[k] == layer_layouts(shapes, n)[2 * i + 1]);
            }
        }
    }
    assert(all[a].0[0] == initial(a));
    assert(all[b].0[0] == initial(b));
    if initial(a) == initial(b) {
        let i = (a - 3) / 2;
        let j = (b - 3) / 2;
        assert(all[a] == layer_layouts(shapes, n)[a - 3]);
        assert(all[b] == layer_layouts(shapes, n)[b - 3]);
        if a % 2 == 1 {
            assert(all[a] == layer_layouts(shapes, n)[2 * i]);
            assert(all[b] == layer_layouts(shapes, n)[2 * j]);
            law_layer_names_differ("off"@, i as nat, j as nat);
        } else {
            assert(all[a] == layer_layouts(shapes, n)[2 * i + 1]);
            assert(all[b] == layer_layouts(shapes, n)[2 * j + 1]);
            law_layer_names_differ("cache"@, i as nat, j as nat);
        }
    }
}

} // verus!

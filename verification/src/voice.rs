//! The precomputed voice: where the attention caches of all layers stand before a text.
use vstd::prelude::*;
use crate::npy::{as_signed_64, law_arrays_hold_an_element, signed_64};
use crate::npz::{member_name, npz_f32_array, npz_i64_array, npz_members, read_npz_f32, read_npz_i64, MemberView, NpzArchive, NpzError, NpzErrorView};
use crate::tensors::{numbered, numbered_name};
use crate::text::decimal;

verus! {

/// The voice of a package, layer by layer: the cache position, the cache contents as binary32
/// bit patterns, and the cache shape.
#[derive(Debug)]
pub struct VoiceState {
    pub offs: Vec<i64>,
    pub caches: Vec<Vec<u32>>,
    pub shapes: Vec<Vec<i64>>,
}

/// The caches of the first `n` layers among the members of an archive.
pub open spec fn voice_caches(members: Map<Seq<char>, MemberView>, n: nat) -> Result<
    Seq<(Seq<u32>, Seq<usize>)>,
    NpzErrorView,
>
    decreases n,
{
    if n == 0 {
        Ok(Seq::empty())
    } else {
        match voice_caches(members, (n - 1) as nat) {
            Err(e) => Err(e),
            Ok(earlier) => match npz_f32_array(members, numbered("cache"@, (n - 1) as nat)) {
                Err(e) => Err(e),
                Ok(cache) => Ok(earlier.push(cache)),
            },
        }
    }
}

/// The voice among the members of an archive: the position, which all layers share, and the
/// caches.
pub open spec fn voice(members: Map<Seq<char>, MemberView>, n_layers: nat) -> Result<
    (i64, Seq<(Seq<u32>, Seq<usize>)>),
    NpzErrorView,
> {
    match npz_i64_array(members, "off0"@) {
        Err(e) => Err(e),
        Ok((off, _)) => match voice_caches(members, n_layers) {
            Err(e) => Err(e),
            Ok(caches) => Ok((off[0], caches)),
        },
    }
}

/// A shape in signed dimensions.
pub open spec fn signed_shape(shape: Seq<usize>) -> Seq<i64> {
    shape.map_values(|d: usize| signed_64(d as nat))
}

/// A size with the same bits, signed.
pub fn signed(n: usize) -> (r: i64)
    ensures
        r == signed_64(n as nat),
        n <= i64::MAX ==> r == n,
        n > i64::MAX ==> r == n - 0x1_0000_0000_0000_0000,
{
    as_signed_64(n as u64)
}

/// A shape in signed dimensions.
pub fn sign_shape(shape: &[usize]) -> (r: Vec<i64>)
    ensures
        r@ == signed_shape(shape@),
        r@.len() == shape@.len(),
        forall|i: int|
            0 <= i < shape@.len() && shape@[i] <= i64::MAX ==> #[trigger] r@[i] == shape@[i],
{
    let mut r: Vec<i64> = Vec::new();
    let mut i: usize = 0;
    while i < shape.len()
        invariant
            i <= shape.len(),
            r@ == signed_shape(shape@).take(i as int),
        decreases shape.len() - i,
    {
        r.push(signed(shape[i]));
        i = i + 1;
    }
    assert(signed_shape(shape@).take(shape@.len() as int) =~= signed_shape(shape@));
    r
}

/// The state holds the position `off` for every layer and the caches.
pub open spec fn holds_voice(v: VoiceState, off: i64, caches: Seq<(Seq<u32>, Seq<usize>)>) -> bool {
    &&& v.offs@ == Seq::new(caches.len(), |i: int| off)
    &&& v.caches.len() == caches.len()
    &&& v.shapes.len() == caches.len()
    &&& forall|i: int| 0 <= i < caches.len() ==> #[trigger] v.caches@[i]@ == caches[i].0
    &&& forall|i: int| 0 <= i < caches.len() ==> #[trigger] v.shapes@[i]@ == signed_shape(caches[i].1)
}

/// A layer that cannot be read is the end of it.
proof fn lemma_caches_fail(members: Map<Seq<char>, MemberView>, k: nat, n: nat)
    requires
        k <= n,
        voice_caches(members, k) is Err,
    ensures
        voice_caches(members, n) == voice_caches(members, k),
    decreases n,
{
    if k < n {
        lemma_caches_fail(members, k, (n - 1) as nat);
    }
}

/// The caches that are read are those of the members `cache0`, `cache1` and so on, one for every
/// layer; what is wrong is what is wrong with the first that cannot be read.
proof fn lemma_caches_are_read(members: Map<Seq<char>, MemberView>, n: nat)
    ensures
        voice_caches(members, n) matches Ok(caches) ==> {
            &&& caches.len() == n
            &&& forall|i: int|
                0 <= i < n ==> npz_f32_array(members, "cache"@ + decimal(i as nat)) == Ok::<
                    (Seq<u32>, Seq<usize>),
                    NpzErrorView,
                >(#[trigger] caches[i])
        },
        voice_caches(members, n) matches Err(e) ==> exists|k: nat|
            k < n && #[trigger] is_first_failure(members, k) && npz_f32_array(
                members,
                "cache"@ + decimal(k),
            ) == Err::<(Seq<u32>, Seq<usize>), NpzErrorView>(e),
    decreases n,
{
    if n > 0 {
        let m = (n - 1) as nat;
        lemma_caches_are_read(members, m);
        if voice_caches(members, m) is Ok && voice_caches(members, n) is Err {
            let caches = voice_caches(members, m)->Ok_0;
            assert forall|i: nat| i < m implies npz_f32_array(
                members,
                "cache"@ + #[trigger] decimal(i),
            ) is Ok by {
                assert(npz_f32_array(members, "cache"@ + decimal(i)) == Ok::<
                    (Seq<u32>, Seq<usize>),
                    NpzErrorView,
                >(caches[i as int]));
            }
            assert(is_first_failure(members, m));
        }
    }
}

/// The cache of layer `k` cannot be read, and those before it can.
pub open spec fn is_first_failure(members: Map<Seq<char>, MemberView>, k: nat) -> bool {
    &&& npz_f32_array(members, "cache"@ + decimal(k)) is Err
    &&& forall|i: nat| i < k ==> npz_f32_array(members, "cache"@ + #[trigger] decimal(i)) is Ok
}

/// A voice that is read has the first number of `off0` as its position and, for every layer, the
/// array whose name is `cache` with the number of the layer behind it. A voice that is not read
/// fails with what is wrong with `off0` or, if that can be read, with the first such array that
/// cannot.
pub proof fn law_voice_is_read_layer_by_layer(members: Map<Seq<char>, MemberView>, n_layers: nat)
    ensures
        voice(members, n_layers) matches Ok((off, caches)) ==> {
            &&& npz_i64_array(members, "off0"@) matches Ok((v, _)) && v.len() > 0 && off == v[0]
            &&& caches.len() == n_layers
            &&& forall|i: int|
                0 <= i < n_layers ==> npz_f32_array(members, "cache"@ + decimal(i as nat)) == Ok::<
                    (Seq<u32>, Seq<usize>),
                    NpzErrorView,
                >(#[trigger] caches[i])
        },
        voice(members, n_layers) matches Err(e) ==> {
            ||| npz_i64_array(members, "off0"@) == Err::<(Seq<i64>, Seq<usize>), NpzErrorView>(e)
            ||| npz_i64_array(members, "off0"@) is Ok && exists|k: nat|
                k < n_layers && #[trigger] is_first_failure(members, k) && npz_f32_array(
                    members,
                    "cache"@ + decimal(k),
                ) == Err::<(Seq<u32>, Seq<usize>), NpzErrorView>(e)
        },
{
    lemma_caches_are_read(members, n_layers);
    if npz_i64_array(members, "off0"@) is Ok {
        law_arrays_hold_an_element(members[member_name("off0"@)]->Ok_0->Ok_0);
    }
}

/// Reads the voice from an archive: `off0`, then `cache0`, `cache1` and so on.
pub fn load_voice(archive: &mut NpzArchive, n_layers: usize) -> (r: Result<VoiceState, NpzError>)
    ensures
        npz_members(*final(archive)) == npz_members(*old(archive)),
        match r {
            Ok(v) => voice(npz_members(*old(archive)), n_layers as nat) matches Ok((off, caches))
                && holds_voice(v, off, caches) && caches.len() == n_layers,
            Err(e) => voice(npz_members(*old(archive)), n_layers as nat) == Err::<
                (i64, Seq<(Seq<u32>, Seq<usize>)>),
                NpzErrorView,
            >(e@),
        },
        r matches Ok(v) ==> {
            let members = npz_members(*old(archive));
            &&& v.offs@.len() == n_layers
            &&& v.caches@.len() == n_layers
            &&& v.shapes@.len() == n_layers
            &&& npz_i64_array(members, "off0"@) matches Ok((off, _)) && forall|i: int|
                0 <= i < n_layers ==> #[trigger] v.offs@[i] == off[0]
            &&& forall|i: int|
                0 <= i < n_layers ==> npz_f32_array(members, "cache"@ + decimal(i as nat)) == Ok::<
                    (Seq<u32>, Seq<usize>),
                    NpzErrorView,
                >(
                    (
                        (#[trigger] v.caches@[i])@,
                        npz_f32_array(members, "cache"@ + decimal(i as nat))->Ok_0.1,
                    ),
                )
            &&& forall|i: int|
                0 <= i < n_layers ==> (#[trigger] v.shapes@[i])@ == npz_f32_array(
                    members,
                    "cache"@ + decimal(i as nat),
                )->Ok_0.1.map_values(|d: usize| signed_64(d as nat))
        },
{
    proof {
        law_voice_is_read_layer_by_layer(npz_members(*archive), n_layers as nat);
    }
    let ghost members = npz_members(*archive);
    let off: i64 = match read_npz_i64(archive, "off0") {
        Err(e) => {
            return Err(e);
        },
        Ok((v, _)) => {
            proof {
                law_arrays_hold_an_element(members[member_name("off0"@)]->Ok_0->Ok_0);
            }
            v[0]
        },
    };
    let mut state: VoiceState = VoiceState {
        offs: Vec::new(),
        caches: Vec::new(),
        shapes: Vec::new(),
    };
    let ghost mut caches: Seq<(Seq<u32>, Seq<usize>)> = Seq::empty();
    let mut i: usize = 0;
    assert(state.offs@ =~= Seq::new(caches.len(), |i: int| off));
    while i < n_layers
        invariant
            i <= n_layers,
            npz_members(*archive) == members,
            npz_members(*old(archive)) == members,
            npz_i64_array(members, "off0"@) matches Ok((v, _)) && v[0] == off,
            voice_caches(members, i as nat) == Ok::<Seq<(Seq<u32>, Seq<usize>)>, NpzErrorView>(
                caches,
            ),
            caches.len() == i,
            holds_voice(state, off, caches),
        decreases n_layers - i,
    {
        let name: String = numbered_name("cache", i);
        match read_npz_f32(archive, name.as_str()) {
            Err(e) => {
                proof {
                    lemma_caches_fail(members, (i + 1) as nat, n_layers as nat);
                }
                return Err(e);
            },
            Ok((cache, shape)) => {
                proof {
                    caches = caches.push((cache@, shape@));
                }
                state.offs.push(off);
                state.shapes.push(sign_shape(&shape));
                state.caches.push(cache);
                assert(state.offs@ =~= Seq::new(caches.len(), |i: int| off));
            },
        }
        i = i + 1;
    }
    assert forall|i: int| 0 <= i < n_layers implies npz_f32_array(
        members,
        "cache"@ + decimal(i as nat),
    ) == Ok::<(Seq<u32>, Seq<usize>), NpzErrorView>(
        (
            (#[trigger] state.caches@[i])@,
            npz_f32_array(members, "cache"@ + decimal(i as nat))->Ok_0.1,
        ),
    ) by {
        assert(npz_f32_array(members, "cache"@ + decimal(i as nat)) == Ok::<
            (Seq<u32>, Seq<usize>),
            NpzErrorView,
        >(caches[i]));
    }
    assert forall|i: int| 0 <= i < n_layers implies (#[trigger] state.shapes@[i])@ == npz_f32_array(
        members,
        "cache"@ + decimal(i as nat),
    )->Ok_0.1.map_values(|d: usize| signed_64(d as nat)) by {
        assert(npz_f32_array(members, "cache"@ + decimal(i as nat)) == Ok::<
            (Seq<u32>, Seq<usize>),
            NpzErrorView,
        >(caches[i]));
        assert(state.shapes@[i]@ == signed_shape(caches[i].1));
    }
    Ok(state)
}

} // verus!

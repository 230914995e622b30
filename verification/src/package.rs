//! Locating a deployment package, its files and its devices.
use vstd::prelude::*;
use crate::text::{joined, owned, push_text, same_text};

verus! {

/// What a path is relative to.
#[derive(Debug, Clone, Copy, PartialEq, Eq, Structural)]
pub enum Anchor {
    /// The directory of the executable.
    Executable,
    /// The working directory.
    Working,
}

/// A place where the default package may be.
#[derive(Debug)]
pub struct Candidate {
    pub anchor: Anchor,
    pub path: String,
}

impl View for Candidate {
    type V = (Anchor, Seq<char>);

    open spec fn view(&self) -> (Anchor, Seq<char>) {
        (self.anchor, self.path@)
    }
}

/// The places next to the executable: a workspace, and a crate of its own.
pub open spec fn executable_places() -> Seq<(Anchor, Seq<char>)> {
    seq![
        (Anchor::Executable, "../../test-assets/deploy_package_fp32_fp32_256"@),
        (Anchor::Executable, "../../../deploy_package_fp32_fp32_256"@),
    ]
}

/// The places in the working directory.
pub open spec fn working_places() -> Seq<(Anchor, Seq<char>)> {
    seq![
        (Anchor::Working, "test-assets/deploy_package_fp32_fp32_256"@),
        (Anchor::Working, "deploy_package_fp32_fp32_256"@),
    ]
}

/// The places to probe for the default package, in order, for the anchors that are known.
pub open spec fn default_places(executable: bool, working: bool) -> Seq<(Anchor, Seq<char>)> {
    (if executable {
        executable_places()
    } else {
        Seq::empty()
    }) + (if working {
        working_places()
    } else {
        Seq::empty()
    })
}

/// The anchors and paths of candidates.
pub open spec fn places(v: Seq<Candidate>) -> Seq<(Anchor, Seq<char>)> {
    v.map_values(|c: Candidate| c@)
}

/// Lists the places to probe for the default package.
pub fn default_candidates(executable: bool, working: bool) -> (v: Vec<Candidate>)
    ensures
        places(v@) == default_places(executable, working),
        !executable && !working ==> v@.len() == 0,
        executable != working ==> v@.len() == 2,
        executable && working ==> v@.len() == 4,
        executable ==> {
            &&& v@[0]@ == (Anchor::Executable, "../../test-assets/deploy_package_fp32_fp32_256"@)
            &&& v@[1]@ == (Anchor::Executable, "../../../deploy_package_fp32_fp32_256"@)
        },
        working ==> {
            &&& v@[v@.len() - 2]@ == (
                Anchor::Working,
                "test-assets/deploy_package_fp32_fp32_256"@,
            )
            &&& v@[v@.len() - 1]@ == (Anchor::Working, "deploy_package_fp32_fp32_256"@)
        },
{
    let mut v: Vec<Candidate> = Vec::new();
    if executable {
        v.push(
            Candidate {
                anchor: Anchor::Executable,
                path: owned("../../test-assets/deploy_package_fp32_fp32_256"),
            },
        );
        v.push(
            Candidate {
                anchor: Anchor::Executable,
                path: owned("../../../deploy_package_fp32_fp32_256"),
            },
        );
    }
    if working {
        v.push(
            Candidate {
                anchor: Anchor::Working,
                path: owned("test-assets/deploy_package_fp32_fp32_256"),
            },
        );
        v.push(
            Candidate { anchor: Anchor::Working, path: owned("deploy_package_fp32_fp32_256") },
        );
    }
    assert(places(v@) =~= default_places(executable, working));
    v
}

/// What a place was found to hold.
#[derive(Debug, Clone, Copy, PartialEq, Eq, Structural)]
pub struct Found {
    /// It has a directory `models`.
    pub models: bool,
    /// It has a directory `assets`.
    pub assets: bool,
}

/// A place that holds a package.
pub open spec fn is_package(f: Found) -> bool {
    f.models && f.assets
}

/// The first place that holds a package, if any does.
pub fn first_package(found: &[Found]) -> (r: Option<usize>)
    ensures
        match r {
            Some(i) => {
                &&& i < found.len()
                &&& is_package(found@[i as int])
                &&& forall|k: int| 0 <= k < i ==> !is_package(#[trigger] found@[k])
            },
            None => forall|k: int| 0 <= k < found.len() ==> !is_package(#[trigger] found@[k]),
        },
        match r {
            Some(i) => {
                &&& found@[i as int].models && found@[i as int].assets
                &&& forall|k: int|
                    0 <= k < i ==> !((#[trigger] found@[k]).models && found@[k].assets)
            },
            None => forall|k: int|
                0 <= k < found.len() ==> !((#[trigger] found@[k]).models && found@[k].assets),
        },
{
    let mut i: usize = 0;
    while i < found.len()
        invariant
            i <= found.len(),
            forall|k: int| 0 <= k < i ==> !is_package(#[trigger] found@[k]),
        decreases found.len() - i,
    {
        if found[i].models && found[i].assets {
            return Some(i);
        }
        i = i + 1;
    }
    None
}

/// The parts with `sep` between them.
pub open spec fn separated(parts: Seq<Seq<char>>, sep: Seq<char>) -> Seq<char>
    decreases parts.len(),
{
    if parts.len() == 0 {
        Seq::empty()
    } else if parts.len() == 1 {
        parts[0]
    } else {
        separated(parts.drop_last(), sep) + sep + parts.last()
    }
}

/// What is reported where no place holds a package.
pub open spec fn not_located(tried: Seq<Seq<char>>) -> Seq<char> {
    "cannot locate deploy_package_fp32_fp32_256 (tried: "@ + separated(tried, ", "@)
        + "); pass --pkg explicitly"@
}

/// Reports that none of the places that were tried holds a package.
pub fn not_located_message(tried: &[String]) -> (s: String)
    ensures
        s@ == not_located(crate::text::texts(tried@)),
        s@ == "cannot locate deploy_package_fp32_fp32_256 (tried: "@ + separated(
            crate::text::texts(tried@),
            ", "@,
        ) + "); pass --pkg explicitly"@,
{
    let mut list: String = String::new();
    let mut i: usize = 0;
    let ghost all = crate::text::texts(tried@);
    while i < tried.len()
        invariant
            i <= tried.len(),
            all == crate::text::texts(tried@),
            list@ == separated(all.take(i as int), ", "@),
        decreases tried.len() - i,
    {
        let ghost before = list@;
        if i > 0 {
            push_text(&mut list, ", ");
        }
        push_text(&mut list, tried[i].as_str());
        i = i + 1;
        assert(all.take(i as int).drop_last() =~= all.take(i - 1));
        assert(list@ =~= separated(all.take(i as int), ", "@));
    }
    assert(all.take(all.len() as int) =~= all);
    joined(
        joined("cannot locate deploy_package_fp32_fp32_256 (tried: ", list.as_str()).as_str(),
        "); pass --pkg explicitly",
    )
}

/// Reports a path that is no package.
pub fn not_a_package_message(path: &str) -> (s: String)
    ensures
        s@ == "--pkg not a deploy package: "@ + path@,
{
    joined("--pkg not a deploy package: ", path)
}

/// The two files of a model: its graph and its weights.
pub fn model_files(name: &str) -> (r: (String, String))
    ensures
        r.0@ == name@ + ".xml"@,
        r.1@ == name@ + ".bin"@,
{
    (joined(name, ".xml"), joined(name, ".bin"))
}

/// An inference device.
#[derive(Debug)]
pub enum Device {
    Cpu,
    Gpu,
    Npu,
    /// A device under a name of its own, such as one of several GPUs.
    Other(String),
}

/// The device is the one of the name: three names stand for a device each, and every other
/// name for itself.
pub open spec fn is_device(d: Device, name: Seq<char>) -> bool {
    if name == "CPU"@ {
        d is Cpu
    } else if name == "GPU"@ {
        d is Gpu
    } else if name == "NPU"@ {
        d is Npu
    } else {
        d matches Device::Other(s) && s@ == name
    }
}

/// The device of a name.
pub fn device_named(name: &str) -> (d: Device)
    ensures
        is_device(d, name@),
        name@ == "CPU"@ <==> d is Cpu,
        name@ == "GPU"@ <==> d is Gpu,
        name@ == "NPU"@ <==> d is Npu,
        d matches Device::Other(s) ==> s@ == name@,
{
    proof {
        lemma_device_names();
    }
    if same_text(name, "CPU") {
        Device::Cpu
    } else if same_text(name, "GPU") {
        Device::Gpu
    } else if same_text(name, "NPU") {
        Device::Npu
    } else {
        Device::Other(owned(name))
    }
}

/// The device that runs the audio decoder: its own where one is given, else the one that runs
/// the other models.
pub fn decoder_device(device: &str, mimi_device: Option<&str>) -> (d: Device)
    ensures
        is_device(
            d,
            match mimi_device {
                Some(name) => name@,
                None => device@,
            },
        ),
        ({
            let name = match mimi_device {
                Some(name) => name@,
                None => device@,
            };
            &&& name == "CPU"@ <==> d is Cpu
            &&& name == "GPU"@ <==> d is Gpu
            &&& name == "NPU"@ <==> d is Npu
            &&& d matches Device::Other(s) ==> s@ == name
        }),
{
    match mimi_device {
        Some(name) => device_named(name),
        None => device_named(device),
    }
}

/// The three device names differ.
proof fn lemma_device_names()
    ensures
        "CPU"@ != "GPU"@,
        "CPU"@ != "NPU"@,
        "GPU"@ != "NPU"@,
{
    reveal_strlit("CPU");
    reveal_strlit("GPU");
    reveal_strlit("NPU");
    assert("CPU"@[0] == 'C' && "GPU"@[0] == 'G' && "NPU"@[0] == 'N');
}

/// The separator stands between two lists of parts, and nowhere else.
pub proof fn law_parts_are_separated(a: Seq<Seq<char>>, b: Seq<Seq<char>>, sep: Seq<char>, p: Seq<char>)
    ensures
        separated(Seq::empty(), sep) == Seq::<char>::empty(),
        separated(seq![p], sep) == p,
        a.len() > 0 && b.len() > 0 ==> separated(a + b, sep) == separated(a, sep) + sep + separated(
            b,
            sep,
        ),
    decreases b.len(),
{
    if a.len() > 0 && b.len() > 0 {
        assert((a + b).drop_last() =~= a + b.drop_last());
        assert((a + b).last() == b.last());
        if b.len() == 1 {
            assert(a + b.drop_last() =~= a);
        } else {
            law_parts_are_separated(a, b.drop_last(), sep, p);
            assert(separated(a + b, sep) =~= separated(a, sep) + sep + separated(b, sep));
        }
    }
}

} // verus!

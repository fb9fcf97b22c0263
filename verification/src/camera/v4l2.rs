//! Camera discovery through Video4Linux: cameras are the device nodes
//! `/dev/video0` .. `/dev/video9` that exist.
use vstd::prelude::*;
use vstd::string::StringExecFns;
use crate::text::{decimal, push_decimal};

verus! {

broadcast use vstd::string::group_string_axioms;

/// Number of device nodes probed.
pub const PROBED_NODES: usize = 10;

pub open spec fn device_prefix() -> Seq<char> {
    seq!['/', 'd', 'e', 'v', '/', 'v', 'i', 'd', 'e', 'o']
}

/// `/dev/video<index>`.
pub open spec fn device_path_spec(index: nat) -> Seq<char> {
    device_prefix() + decimal(index)
}

/// The device node of camera `index`.
pub fn device_path(index: u32) -> (path: String)
    ensures
        path@ == device_path_spec(index as nat),
{
    proof {
        reveal_strlit("/dev/video");
    }
    let mut path = String::from_str("/dev/video");
    assert(path@ =~= device_prefix());
    push_decimal(&mut path, index);
    path
}

/// The cameras whose device node exists: for each `i` with `present[i]`,
/// in increasing order, the pair `(i, "/dev/video<i>")`.
pub fn list_cameras(present: &[bool]) -> (cameras: Vec<(u32, String)>)
    requires
        present@.len() <= u32::MAX,
    ensures
        cameras@.len() == present@.filter(|p: bool| p).len(),
        forall|j: int|
            0 <= j < cameras@.len() ==> {
                let i = (#[trigger] cameras@[j]).0;
                &&& i < present@.len()
                &&& present@[i as int]
                &&& cameras@[j].1@ == device_path_spec(i as nat)
            },
        forall|j: int, k: int| 0 <= j < k < cameras@.len() ==> cameras@[j].0 < cameras@[k].0,
        forall|i: int|
            0 <= i < present@.len() && present@[i] ==> exists|j: int|
                0 <= j < cameras@.len() && (#[trigger] cameras@[j]).0 == i,
{
    let mut cameras: Vec<(u32, String)> = Vec::new();
    let mut i: usize = 0;
    while i < present.len()
        invariant
            i <= present@.len() <= u32::MAX,
            cameras@.len() == present@.take(i as int).filter(|p: bool| p).len(),
            forall|j: int|
                0 <= j < cameras@.len() ==> {
                    let c = (#[trigger] cameras@[j]).0;
                    &&& c < i
                    &&& present@[c as int]
                    &&& cameras@[j].1@ == device_path_spec(c as nat)
                },
            forall|j: int, k: int| 0 <= j < k < cameras@.len() ==> cameras@[j].0 < cameras@[k].0,
            forall|m: int|
                0 <= m < i && present@[m] ==> exists|j: int|
                    0 <= j < cameras@.len() && (#[trigger] cameras@[j]).0 == m,
        decreases present.len() - i,
    {
        proof {
            let t = present@.take(i + 1);
            assert(t.drop_last() =~= present@.take(i as int));
            reveal(Seq::filter);
        }
        let ghost before = cameras@;
        if present[i] {
            let path = device_path(i as u32);
            cameras.push((i as u32, path));
        }
        proof {
            assert forall|m: int| 0 <= m < i + 1 && present@[m] implies exists|j: int|
                0 <= j < cameras@.len() && (#[trigger] cameras@[j]).0 == m by {
                if m < i {
                    let j = choose|j: int| 0 <= j < before.len() && (#[trigger] before[j]).0 == m;
                    assert(cameras@[j] == before[j]);
                } else {
                    let j = cameras@.len() - 1;
                    assert(cameras@[j].0 == m);
                }
            }
        }
        i = i + 1;
    }
    assert(present@.take(present@.len() as int) =~= present@);
    cameras
}

} // verus!

//! Fixed sequences of operations that exercise a map end to end.
use vstd::prelude::*;

use crate::map::ArrayMap;

verus! {

/// Inserts keys 0 to 255 four times each with values `k * j` for `j` in
/// 0..4, removes every third key, then clears the map.
pub fn do_map_test1(map: &mut ArrayMap<u32>)
    requires
        old(map).wf(),
    ensures
        final(map).wf(),
        final(map).same_shape(*old(map)),
        final(map)@ == Map::<u32, u32>::empty(),
        final(map).len_spec() == 0,
{
    let ghost shape = *map;
    let mut i: u32 = 0;
    while i < 256
        invariant
            map.wf(),
            map.same_shape(shape),
            i <= 256,
        decreases 256 - i,
    {
        let mut j: u32 = 0;
        while j < 4
            invariant
                map.wf(),
                map.same_shape(shape),
                i < 256,
                j <= 4,
            decreases 4 - j,
        {
            proof {
                assert(i * j < 1024) by (nonlinear_arith)
                    requires
                        i < 256,
                        j < 4,
                ;
            }
            let _ = map.insert(i, i * j);
            j = j + 1;
        }
        i = i + 1;
    }
    let mut i: u32 = 0;
    while i < 256
        invariant
            map.wf(),
            map.same_shape(shape),
            i <= 258,
        decreases 258 - i,
    {
        let _ = map.remove(i);
        i = i + 3;
    }
    map.clear();
}

/// Inserts keys 0 to 1023 with themselves as values, removes every third
/// key, then clears the map.
pub fn do_map_test2(map: &mut ArrayMap<u32>)
    requires
        old(map).wf(),
    ensures
        final(map).wf(),
        final(map).same_shape(*old(map)),
        final(map)@ == Map::<u32, u32>::empty(),
        final(map).len_spec() == 0,
{
    let ghost shape = *map;
    let mut i: u32 = 0;
    while i < 1024
        invariant
            map.wf(),
            map.same_shape(shape),
            i <= 1024,
        decreases 1024 - i,
    {
        let _ = map.insert(i, i);
        i = i + 1;
    }
    let mut i: u32 = 0;
    while i < 1024
        invariant
            map.wf(),
            map.same_shape(shape),
            i <= 1026,
        decreases 1026 - i,
    {
        let _ = map.remove(i);
        i = i + 3;
    }
    map.clear();
}

/// Inserts the even keys below 1024, then the multiples of five below 1024
/// (some of them again), each with itself as value, then clears the map.
pub fn do_map_test3(map: &mut ArrayMap<u32>)
    requires
        old(map).wf(),
    ensures
        final(map).wf(),
        final(map).same_shape(*old(map)),
        final(map)@ == Map::<u32, u32>::empty(),
        final(map).len_spec() == 0,
{
    let ghost shape = *map;
    let mut i: u32 = 0;
    while i < 1024
        invariant
            map.wf(),
            map.same_shape(shape),
            i <= 1025,
        decreases 1025 - i,
    {
        let _ = map.insert(i, i);
        i = i + 2;
    }
    let mut i: u32 = 0;
    while i < 1024
        invariant
            map.wf(),
            map.same_shape(shape),
            i <= 1028,
        decreases 1028 - i,
    {
        let _ = map.insert(i, i);
        i = i + 5;
    }
    map.clear();
}

} // verus!

//! The parts of a processed profile that the call tree is built from.

use vstd::prelude::*;

use crate::error::{SelectError, TableError};
use crate::tree::AddressFrame;

verus! {

/// A binary that samples fell into.
#[derive(Debug, PartialEq, Eq)]
pub struct Library {
    pub name: String,
    pub path: Option<String>,
    pub debug_name: Option<String>,
    pub debug_path: Option<String>,
    pub breakpad_id: Option<String>,
    pub code_id: Option<String>,
    pub arch: Option<String>,
}

impl Clone for Library {
    fn clone(&self) -> (r: Self)
        ensures
            r == *self,
    {
        Library {
            name: self.name.clone(),
            path: self.path.clone(),
            debug_name: self.debug_name.clone(),
            debug_path: self.debug_path.clone(),
            breakpad_id: self.breakpad_id.clone(),
            code_id: self.code_id.clone(),
            arch: self.arch.clone(),
        }
    }
}

/// A processed Firefox Profiler / samply profile.
#[derive(Debug)]
pub struct Profile {
    pub meta: Meta,
    pub libs: Vec<Library>,
    pub threads: Vec<Thread>,
}

/// What a profile says of itself. The interval and the start time are held as
/// the text that shows them.
#[derive(Debug)]
pub struct Meta {
    pub product: Option<String>,
    pub oscpu: Option<String>,
    pub interval: Option<String>,
    pub preprocessed_profile_version: Option<u32>,
    pub version: Option<u32>,
    pub symbolicated: Option<bool>,
    pub sample_units: Option<SampleUnits>,
    pub start_time: Option<String>,
}

/// The units that sample values are given in.
#[derive(Debug)]
pub struct SampleUnits {
    pub time: Option<String>,
    pub thread_cpu_delta: Option<String>,
    pub event_delay: Option<String>,
}

/// One thread's samples and the tables they point into. The process and thread
/// ids are held as JSON text.
#[derive(Debug)]
pub struct Thread {
    pub name: Option<String>,
    pub is_main_thread: bool,
    pub pid: Option<String>,
    pub tid: Option<String>,
    pub string_array: Vec<String>,
    pub stack_table: StackTable,
    pub frame_table: FrameTable,
    pub func_table: FuncTable,
    pub resource_table: ResourceTable,
    pub samples: Samples,
}

/// Stacks, each a frame on top of another stack.
#[derive(Debug)]
pub struct StackTable {
    pub length: usize,
    pub prefix: Vec<Option<i32>>,
    pub frame: Vec<i32>,
}

/// Frames, each an address in a function.
#[derive(Debug)]
pub struct FrameTable {
    pub length: usize,
    pub address: Vec<i64>,
    pub func: Vec<i32>,
}

/// Functions, each in a resource or, with a negative index, in none.
#[derive(Debug)]
pub struct FuncTable {
    pub length: usize,
    pub name: Vec<i32>,
    pub resource: Vec<i32>,
}

/// Resources.
#[derive(Debug)]
pub struct ResourceTable {
    pub length: usize,
    /// Index into the profile's libraries, or none for another resource.
    pub lib: Vec<Option<i32>>,
    pub name: Vec<i32>,
}

/// Samples, each with the stack it met and how many samples it counts for. The
/// weights are whole numbers.
#[derive(Debug)]
pub struct Samples {
    pub length: usize,
    pub stack: Vec<Option<i32>>,
    pub weight: Option<Vec<u64>>,
}

/// A table index as it is looked up: a negative one wraps around.
pub open spec fn as_index(i: i32) -> usize {
    if i >= 0 {
        i as usize
    } else {
        (i + usize::MAX + 1) as usize
    }
}

fn index_of(i: i32) -> (r: usize)
    ensures
        r == as_index(i),
{
    if i >= 0 {
        i as usize
    } else {
        usize::MAX - ((-(i as i64) - 1) as usize)
    }
}

/// A library index as it is kept: a negative one wraps around.
pub open spec fn as_lib(i: i32) -> u32 {
    if i >= 0 {
        i as u32
    } else {
        (i + u32::MAX + 1) as u32
    }
}

fn lib_of(i: i32) -> (r: u32)
    ensures
        r == as_lib(i),
{
    if i >= 0 {
        i as u32
    } else {
        u32::MAX - ((-(i as i64) - 1) as u32)
    }
}

/// An address as it is kept: a negative one counts as zero.
pub open spec fn as_address(a: i64) -> u64 {
    if a < 0 {
        0
    } else {
        a as u64
    }
}

impl Thread {
    /// What the frame at an index resolves to. `None` where a table holds fewer
    /// entries than it claims and the missing entry is asked for.
    pub open spec fn frame_outcome(self, frame_idx: usize) -> Option<
        Result<AddressFrame, TableError>,
    > {
        if frame_idx >= self.frame_table.length {
            Some(Err(TableError::Frame(frame_idx)))
        } else if frame_idx >= self.frame_table.func@.len() {
            None
        } else {
            let func_idx = as_index(self.frame_table.func@[frame_idx as int]);
            if func_idx >= self.func_table.length {
                Some(Err(TableError::Func(func_idx)))
            } else if func_idx >= self.func_table.resource@.len() {
                None
            } else {
                let resource = self.func_table.resource@[func_idx as int];
                if resource >= 0 && resource >= self.resource_table.length {
                    Some(Err(TableError::Resource(as_index(resource))))
                } else if resource >= 0 && resource >= self.resource_table.lib@.len() {
                    None
                } else if frame_idx >= self.frame_table.address@.len() {
                    None
                } else {
                    let lib_index = if resource < 0 {
                        None
                    } else {
                        match self.resource_table.lib@[resource as int] {
                            Some(l) => Some(as_lib(l)),
                            None => None,
                        }
                    };
                    Some(
                        Ok(
                            AddressFrame {
                                lib_index,
                                address: as_address(self.frame_table.address@[frame_idx as int]),
                            },
                        ),
                    )
                }
            }
        }
    }

    /// The frames of a stack from the root to the leaf, or the first index on
    /// the way from the leaf that leads nowhere. `None` where a table holds
    /// fewer entries than it claims, or where `fuel` stacks are not enough.
    pub open spec fn walk(self, stack: Option<i32>, fuel: nat) -> Option<
        Result<Seq<AddressFrame>, TableError>,
    >
        decreases fuel,
    {
        match stack {
            None => Some(Ok(Seq::empty())),
            Some(i) => {
                let at = as_index(i);
                if fuel == 0 {
                    None
                } else if at >= self.stack_table.length {
                    Some(Err(TableError::Stack(at)))
                } else if at >= self.stack_table.frame@.len() {
                    None
                } else {
                    match self.frame_outcome(as_index(self.stack_table.frame@[at as int])) {
                        None => None,
                        Some(Err(e)) => Some(Err(e)),
                        Some(Ok(f)) => if at >= self.stack_table.prefix@.len() {
                            None
                        } else {
                            match self.walk(
                                self.stack_table.prefix@[at as int],
                                (fuel - 1) as nat,
                            ) {
                                Some(Ok(below)) => Some(Ok(below.push(f))),
                                other => other,
                            }
                        },
                    }
                }
            },
        }
    }

    /// What a stack resolves to. `None` where a table holds fewer entries than
    /// it claims and the missing entry is asked for, or where the stack lies
    /// upon itself.
    pub open spec fn stack_outcome(self, stack_idx: i32) -> Option<
        Result<Seq<AddressFrame>, TableError>,
    > {
        self.walk(Some(stack_idx), self.stack_table.length as nat + 1)
    }

    /// Resolves a frame index, if the tables hold the entries they claim.
    pub fn try_address_frame(&self, frame_idx: usize) -> (r: Option<
        Result<AddressFrame, TableError>,
    >)
        ensures
            r == self.frame_outcome(frame_idx),
    {
        if frame_idx >= self.frame_table.length {
            return Some(Err(TableError::Frame(frame_idx)));
        }
        if frame_idx >= self.frame_table.func.len() {
            return None;
        }
        let func_idx: usize = index_of(self.frame_table.func[frame_idx]);
        if func_idx >= self.func_table.length {
            return Some(Err(TableError::Func(func_idx)));
        }
        if func_idx >= self.func_table.resource.len() {
            return None;
        }
        let resource: i32 = self.func_table.resource[func_idx];
        let lib_index: Option<u32> = if resource >= 0 {
            let resource_idx: usize = resource as usize;
            if resource_idx >= self.resource_table.length {
                return Some(Err(TableError::Resource(resource_idx)));
            }
            if resource_idx >= self.resource_table.lib.len() {
                return None;
            }
            match self.resource_table.lib[resource_idx] {
                Some(l) => Some(lib_of(l)),
                None => None,
            }
        } else {
            None
        };
        if frame_idx >= self.frame_table.address.len() {
            return None;
        }
        let address: i64 = self.frame_table.address[frame_idx];
        let address: u64 = if address < 0 {
            0
        } else {
            address as u64
        };
        Some(Ok(AddressFrame { lib_index, address }))
    }

    /// Resolves a frame index.
    pub fn address_frame(&self, frame_idx: usize) -> (r: Result<AddressFrame, TableError>)
        requires
            self.frame_outcome(frame_idx) is Some,
        ensures
            Some(r) == self.frame_outcome(frame_idx),
    {
        self.try_address_frame(frame_idx).unwrap()
    }

    /// Resolves a stack index to a path of frames from the root to the leaf, if
    /// the tables hold the entries they claim and the stack ends.
    pub fn try_address_stack(&self, stack_idx: i32) -> (r: Option<
        Result<Vec<AddressFrame>, TableError>,
    >)
        ensures
            path_view(r) == self.stack_outcome(stack_idx),
    {
        let mut leaf_first: Vec<AddressFrame> = Vec::new();
        let mut sid: Option<i32> = Some(stack_idx);
        // One less than the number of stacks that may still be visited.
        let mut left: usize = self.stack_table.length;
        let mut spent: bool = false;
        let ghost mut fuel: nat = self.stack_table.length as nat + 1;
        assert(leaf_first@.reverse() =~= Seq::empty());
        proof {
            assert forall|p: Seq<AddressFrame>| #[trigger] (p + leaf_first@.reverse()) == p by {
                assert(p + leaf_first@.reverse() =~= p);
            }
        }
        loop
            invariant
                fuel == if spent {
                    0
                } else {
                    left as nat + 1
                },
                self.stack_outcome(stack_idx) == above(
                    self.walk(sid, fuel),
                    leaf_first@.reverse(),
                ),
            decreases fuel,
        {
            match sid {
                None => {
                    assert(Seq::<AddressFrame>::empty() + leaf_first@.reverse()
                        =~= leaf_first@.reverse());
                    return Some(Ok(reversed(&leaf_first)));
                },
                Some(i) => {
                    let at: usize = index_of(i);
                    if spent {
                        return None;
                    }
                    if at >= self.stack_table.length {
                        return Some(Err(TableError::Stack(at)));
                    }
                    if at >= self.stack_table.frame.len() {
                        return None;
                    }
                    match self.try_address_frame(index_of(self.stack_table.frame[at])) {
                        None => {
                            return None;
                        },
                        Some(Err(e)) => {
                            return Some(Err(e));
                        },
                        Some(Ok(f)) => {
                            if at >= self.stack_table.prefix.len() {
                                return None;
                            }
                            let ghost before = leaf_first@;
                            leaf_first.push(f);
                            proof {
                                assert(leaf_first@.reverse() =~= seq![f] + before.reverse());
                                let p = self.walk(
                                    self.stack_table.prefix@[at as int],
                                    (fuel - 1) as nat,
                                );
                                if let Some(Ok(q)) = p {
                                    assert(q.push(f) + before.reverse() =~= q
                                        + leaf_first@.reverse());
                                }
                                fuel = (fuel - 1) as nat;
                            }
                            sid = self.stack_table.prefix[at];
                            if left == 0 {
                                spent = true;
                            } else {
                                left = left - 1;
                            }
                        },
                    }
                },
            }
        }
    }

    /// Resolves a stack index to a path of frames from the root to the leaf.
    pub fn address_stack(&self, stack_idx: i32) -> (r: Result<Vec<AddressFrame>, TableError>)
        requires
            self.stack_outcome(stack_idx) is Some,
        ensures
            path_view(Some(r)) == self.stack_outcome(stack_idx),
    {
        self.try_address_stack(stack_idx).unwrap()
    }
}

/// The thread that is shown when none is asked for: the first main thread, or
/// else the last of those with the most samples.
pub open spec fn is_default_thread(threads: Seq<Thread>, i: int) -> bool {
    &&& 0 <= i < threads.len()
    &&& if exists|k: int| 0 <= k < threads.len() && (#[trigger] threads[k]).is_main_thread {
        &&& threads[i].is_main_thread
        &&& forall|k: int| 0 <= k < i ==> !(#[trigger] threads[k]).is_main_thread
    } else {
        &&& forall|k: int|
            0 <= k <= i ==> (#[trigger] threads[k]).samples.length <= threads[i].samples.length
        &&& forall|k: int|
            i < k < threads.len() ==> (#[trigger] threads[k]).samples.length
                < threads[i].samples.length
    }
}

/// Picks a thread by index, or the main or heaviest thread if `None`.
pub fn select_thread(profile: &Profile, thread: Option<usize>) -> (r: Result<
    (usize, &Thread),
    SelectError,
>)
    ensures
        match r {
            Ok((i, t)) => {
                &&& i < profile.threads@.len()
                &&& *t == profile.threads@[i as int]
                &&& match thread {
                    Some(idx) => i == idx,
                    None => is_default_thread(profile.threads@, i as int),
                }
            },
            Err(SelectError::NoThreads) => profile.threads@.len() == 0,
            Err(SelectError::OutOfRange(i)) => {
                &&& thread == Some(i)
                &&& 0 < profile.threads@.len() <= i
            },
        },
{
    let threads = &profile.threads;
    if threads.len() == 0 {
        return Err(SelectError::NoThreads);
    }
    if let Some(idx) = thread {
        if idx >= threads.len() {
            return Err(SelectError::OutOfRange(idx));
        }
        return Ok((idx, &threads[idx]));
    }
    let mut i: usize = 0;
    while i < threads.len()
        invariant
            i <= threads@.len(),
            threads@ == profile.threads@,
            thread is None,
            forall|k: int| 0 <= k < i ==> !(#[trigger] threads@[k]).is_main_thread,
        decreases threads@.len() - i,
    {
        if threads[i].is_main_thread {
            return Ok((i, &threads[i]));
        }
        i = i + 1;
    }
    let mut best: usize = 0;
    let mut j: usize = 1;
    while j < threads.len()
        invariant
            best < j <= threads@.len(),
            forall|k: int|
                0 <= k <= best ==> (#[trigger] threads@[k]).samples.length
                    <= threads@[best as int].samples.length,
            forall|k: int|
                best < k < j ==> (#[trigger] threads@[k]).samples.length
                    < threads@[best as int].samples.length,
        decreases threads@.len() - j,
    {
        if threads[j].samples.length >= threads[best].samples.length {
            best = j;
        }
        j = j + 1;
    }
    Ok((best, &threads[best]))
}

/// A resolved path by its view.
pub open spec fn path_view(r: Option<Result<Vec<AddressFrame>, TableError>>) -> Option<
    Result<Seq<AddressFrame>, TableError>,
> {
    match r {
        None => None,
        Some(Err(e)) => Some(Err(e)),
        Some(Ok(v)) => Some(Ok(v@)),
    }
}

/// An outcome with more frames towards the leaf.
spec fn above(
    outcome: Option<Result<Seq<AddressFrame>, TableError>>,
    frames: Seq<AddressFrame>,
) -> Option<Result<Seq<AddressFrame>, TableError>> {
    match outcome {
        Some(Ok(p)) => Some(Ok(p + frames)),
        other => other,
    }
}

fn reversed(v: &Vec<AddressFrame>) -> (r: Vec<AddressFrame>)
    ensures
        r@ == v@.reverse(),
{
    let mut r: Vec<AddressFrame> = Vec::with_capacity(v.len());
    let mut k: usize = v.len();
    while k > 0
        invariant
            k <= v@.len(),
            r@.len() == v@.len() - k,
            forall|j: int| 0 <= j < r@.len() ==> r@[j] == v@[v@.len() - 1 - j],
        decreases k,
    {
        k = k - 1;
        r.push(v[k]);
    }
    assert(r@ =~= v@.reverse());
    r
}

} // verus!

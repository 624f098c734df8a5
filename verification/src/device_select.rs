//! Choices made from what the Vulkan driver reports: which physical device and queue
//! family, which memory type, which depth format, how many swapchain images.
use vstd::prelude::*;

verus! {

/// `VkPhysicalDeviceType` value of a discrete GPU.
pub const PHYSICAL_DEVICE_TYPE_DISCRETE_GPU: i32 = 2;

/// `VkQueueFlagBits` of a graphics queue.
pub const QUEUE_GRAPHICS_BIT: u32 = 1;

/// `VkQueueFlagBits` of a compute queue.
pub const QUEUE_COMPUTE_BIT: u32 = 2;

/// `VkImageTiling` value of optimal tiling.
pub const IMAGE_TILING_OPTIMAL: i32 = 0;

/// `VkImageTiling` value of linear tiling.
pub const IMAGE_TILING_LINEAR: i32 = 1;

/// A queue family as the driver describes it.
#[derive(Clone, Copy)]
pub struct QueueFamily {
    pub index: u32,
    pub queue_flags: u32,
}

/// What the queue-family picker reads of a physical device.
pub struct PhysicalDeviceInfo {
    pub device_type: i32,
    pub queue_families: Vec<QueueFamily>,
}

/// The queue family used for each role.
#[derive(Clone, Copy, PartialEq, Eq, Debug)]
pub struct QueueFamilies {
    pub graphics: u32,
    pub present: u32,
    pub transfer: u32,
    pub compute: u32,
}

/// Why no device could be picked.
#[derive(Clone, Copy, PartialEq, Eq, Debug)]
pub enum PickError {
    /// No physical device is a discrete GPU.
    NoDiscreteGpu,
    /// The chosen GPU has no family with both graphics and compute.
    NoGraphicsComputeQueue,
}

/// The family supports graphics and compute.
pub open spec fn graphics_and_compute(flags: u32) -> bool {
    flags & QUEUE_GRAPHICS_BIT == QUEUE_GRAPHICS_BIT && flags & QUEUE_COMPUTE_BIT
        == QUEUE_COMPUTE_BIT
}

/// Picks the first discrete GPU and, on it, the first family with graphics and compute,
/// used for every role. Returns the position of the device in `devices`.
pub fn single_queue_family(devices: &Vec<PhysicalDeviceInfo>) -> (r: Result<
    (usize, QueueFamilies),
    PickError,
>)
    ensures
        match r {
            Ok((d, qf)) => {
                &&& d < devices@.len()
                &&& devices@[d as int].device_type == PHYSICAL_DEVICE_TYPE_DISCRETE_GPU
                &&& forall|e: int| 0 <= e < d ==> (#[trigger] devices@[e]).device_type
                    != PHYSICAL_DEVICE_TYPE_DISCRETE_GPU
                &&& exists|f: int|
                    0 <= f < devices@[d as int].queue_families@.len() && graphics_and_compute(
                        #[trigger] devices@[d as int].queue_families@[f].queue_flags,
                    ) && (forall|g: int|
                        0 <= g < f ==> !graphics_and_compute(
                            (#[trigger] devices@[d as int].queue_families@[g]).queue_flags,
                        )) && qf == (QueueFamilies {
                        graphics: devices@[d as int].queue_families@[f].index,
                        present: devices@[d as int].queue_families@[f].index,
                        transfer: devices@[d as int].queue_families@[f].index,
                        compute: devices@[d as int].queue_families@[f].index,
                    })
            },
            Err(PickError::NoDiscreteGpu) => forall|e: int|
                0 <= e < devices@.len() ==> (#[trigger] devices@[e]).device_type
                    != PHYSICAL_DEVICE_TYPE_DISCRETE_GPU,
            Err(PickError::NoGraphicsComputeQueue) => exists|d: int|
                0 <= d < devices@.len() && (#[trigger] devices@[d]).device_type
                    == PHYSICAL_DEVICE_TYPE_DISCRETE_GPU && (forall|e: int|
                    0 <= e < d ==> (#[trigger] devices@[e]).device_type
                        != PHYSICAL_DEVICE_TYPE_DISCRETE_GPU) && (forall|g: int|
                    0 <= g < devices@[d].queue_families@.len() ==> !graphics_and_compute(
                        (#[trigger] devices@[d].queue_families@[g]).queue_flags,
                    )),
        },
{
    let mut d: usize = 0;
    while d < devices.len()
        invariant
            d <= devices@.len(),
            forall|e: int| 0 <= e < d ==> (#[trigger] devices@[e]).device_type
                != PHYSICAL_DEVICE_TYPE_DISCRETE_GPU,
        decreases devices@.len() - d,
    {
        if devices[d].device_type == PHYSICAL_DEVICE_TYPE_DISCRETE_GPU {
            let families = &devices[d].queue_families;
            let mut f: usize = 0;
            while f < families.len()
                invariant
                    d < devices@.len(),
                    devices@[d as int].device_type == PHYSICAL_DEVICE_TYPE_DISCRETE_GPU,
                    forall|e: int| 0 <= e < d ==> (#[trigger] devices@[e]).device_type
                        != PHYSICAL_DEVICE_TYPE_DISCRETE_GPU,
                    f <= families@.len(),
                    families@ == devices@[d as int].queue_families@,
                    forall|g: int| 0 <= g < f ==> !graphics_and_compute(
                        (#[trigger] families@[g]).queue_flags,
                    ),
                decreases families@.len() - f,
            {
                let flags = families[f].queue_flags;
                if flags & QUEUE_GRAPHICS_BIT == QUEUE_GRAPHICS_BIT && flags & QUEUE_COMPUTE_BIT
                    == QUEUE_COMPUTE_BIT {
                    let index = families[f].index;
                    let qf = QueueFamilies {
                        graphics: index,
                        present: index,
                        transfer: index,
                        compute: index,
                    };
                    proof {
                        assert(graphics_and_compute(devices@[d as int].queue_families@[f as int].queue_flags));
                    }
                    return Ok((d, qf));
                }
                f = f + 1;
            }
            proof {
                assert(devices@[d as int].device_type == PHYSICAL_DEVICE_TYPE_DISCRETE_GPU);
            }
            return Err(PickError::NoGraphicsComputeQueue);
        }
        d = d + 1;
    }
    Err(PickError::NoDiscreteGpu)
}

/// Memory type `i` is allowed by `type_filter` and has all the `properties`.
pub open spec fn memory_type_ok(type_filter: u32, properties: u32, flags: u32, i: int) -> bool {
    type_filter & (1u32 << (i as u32)) != 0 && flags & properties == properties
}

/// Index of the first memory type allowed by `type_filter` whose property flags contain
/// `properties`; `type_flags` lists the property flags of each memory type of the device.
pub fn find_memory_type(type_filter: u32, properties: u32, type_flags: &Vec<u32>) -> (r: Option<
    u32,
>)
    requires
        type_flags@.len() <= 32,
    ensures
        match r {
            Some(i) => i < type_flags@.len() && memory_type_ok(
                type_filter,
                properties,
                type_flags@[i as int],
                i as int,
            ) && forall|j: int|
                0 <= j < i ==> !memory_type_ok(type_filter, properties, #[trigger] type_flags@[j], j),
            None => forall|j: int|
                0 <= j < type_flags@.len() ==> !memory_type_ok(
                    type_filter,
                    properties,
                    #[trigger] type_flags@[j],
                    j,
                ),
        },
{
    let mut i: u32 = 0;
    while (i as usize) < type_flags.len()
        invariant
            i <= type_flags@.len(),
            type_flags@.len() <= 32,
            forall|j: int| 0 <= j < i ==> !memory_type_ok(type_filter, properties, #[trigger] type_flags@[j], j),
        decreases type_flags@.len() - i,
    {
        if type_filter & (1u32 << i) != 0 && type_flags[i as usize] & properties == properties {
            return Some(i);
        }
        i = i + 1;
    }
    None
}

/// A depth-format candidate with the features the driver reports for each tiling.
#[derive(Clone, Copy)]
pub struct FormatCandidate {
    pub format: i32,
    pub linear_tiling_features: u32,
    pub optimal_tiling_features: u32,
}

/// Features that `c` supports under `tiling` (none for an unknown tiling).
pub open spec fn supported_features(c: FormatCandidate, tiling: i32) -> u32 {
    if tiling == IMAGE_TILING_LINEAR {
        c.linear_tiling_features
    } else if tiling == IMAGE_TILING_OPTIMAL {
        c.optimal_tiling_features
    } else {
        0
    }
}

/// First candidate whose features under `tiling` contain all of `features`.
pub fn find_supported_format(candidates: &Vec<FormatCandidate>, tiling: i32, features: u32) -> (r:
    Option<i32>)
    ensures
        match r {
            Some(fmt) => exists|i: int|
                0 <= i < candidates@.len() && (#[trigger] candidates@[i]).format == fmt
                    && supported_features(candidates@[i], tiling) & features == features && forall|
                    j: int,
                |
                    0 <= j < i ==> supported_features(#[trigger] candidates@[j], tiling) & features
                        != features,
            None => forall|j: int|
                0 <= j < candidates@.len() ==> supported_features(#[trigger] candidates@[j], tiling)
                    & features != features,
        },
{
    let mut i: usize = 0;
    while i < candidates.len()
        invariant
            i <= candidates@.len(),
            forall|j: int|
                0 <= j < i ==> supported_features(#[trigger] candidates@[j], tiling) & features
                    != features,
        decreases candidates@.len() - i,
    {
        let c = candidates[i];
        let supported = if tiling == IMAGE_TILING_LINEAR {
            c.linear_tiling_features
        } else if tiling == IMAGE_TILING_OPTIMAL {
            c.optimal_tiling_features
        } else {
            0
        };
        if supported & features == features {
            return Some(c.format);
        }
        i = i + 1;
    }
    None
}

/// Number of swapchain images to ask for: one more than the minimum, within the limits
/// of the surface (`max_image_count == 0` means no upper limit).
pub fn desired_image_count(min_image_count: u32, max_image_count: u32) -> (r: u32)
    requires
        min_image_count < u32::MAX,
        max_image_count == 0 || min_image_count <= max_image_count,
    ensures
        r == (if max_image_count != 0 && min_image_count + 1 > max_image_count {
            max_image_count as int
        } else {
            min_image_count + 1
        }),
{
    let upper = if max_image_count == 0 { u32::MAX } else { max_image_count };
    let want = min_image_count + 1;
    if want > upper {
        upper
    } else if want < min_image_count {
        min_image_count
    } else {
        want
    }
}

/// Swapchain extent: the surface's current extent, unless the surface leaves it to the
/// window (`u32::MAX` width), in which case the window's inner size.
pub fn choose_extent(current: (u32, u32), window: (u32, u32)) -> (r: (u32, u32))
    ensures
        r == (if current.0 != u32::MAX { current } else { window }),
{
    if current.0 != u32::MAX {
        current
    } else {
        window
    }
}

} // verus!

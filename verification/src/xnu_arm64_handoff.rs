//! Physical placement and encoding for the explicit ARM64 UEFI staging path.
//! This prepares bytes; it supplies no trust, CPU, device or execution approval.
use vstd::prelude::*;
use crate::bytes::{copy_into, zeros};
use crate::kc_staging::{KcStagingError, KcStagingPlan, StagingVerification, ARM64_STAGING_PAGE_SIZE};
use crate::kernel_collection::{inspection_ok, KcMetadataError, MAX_INPUT_SIZE};
use crate::xnu_arm64_boot_args::{
    arm64_input_error, arm64_layout, arm64_placement_error, dram_of, dt_virtual_of,
    encode_arm64_boot_args, Arm64BootArgsEncoding, Arm64BootArgsError, Arm64BootArgsInput,
    Arm64BootVideo, ARM64_BOOT_ARGS_SIZE, VMAPPLE_PAGE_SIZE,
};

verus! {

pub const MAX_DEVICE_TREE_BYTES: usize = 0x10_0000;

pub const ARM_BOOT_STACK_BYTES: u64 = 0x1_0000;

pub const ARM_BOOTSTRAP_BLOCK_BYTES: u64 = 0x200_0000;

#[derive(Clone, Copy, Debug)]
pub struct Arm64PlacementInput<'a> {
    pub physical_base: u64,
    pub virtual_base: u64,
    pub memory_size: u64,
    pub actual_memory_size: u64,
    pub kernel_phys: u64,
    pub device_tree: &'a [u8],
    pub command_line: &'a str,
    pub machine_type: u32,
    pub boot_flags: u64,
    pub video: Arm64BootVideo,
}

#[derive(Clone, Copy, Debug, PartialEq, Eq, Structural)]
pub struct Arm64HandoffLayout {
    pub kernel_phys: u64,
    pub kernel_bytes: usize,
    pub collection_header_phys: u64,
    pub entry_phys: u64,
    pub boot_args_phys: u64,
    pub device_tree_phys: u64,
    pub stack_top_phys: u64,
    pub occupied_end: u64,
    pub allocation_bytes: usize,
}

#[derive(Clone, Debug, PartialEq, Eq, Structural)]
pub enum Arm64HandoffError {
    Staging(KcStagingError),
    BootArgs(Arm64BootArgsError),
    InvalidPlacement,
    BootstrapCorrespondence,
    DeviceTreeTooLarge,
    AddressOverflow,
    DestinationSize,
    ReadbackMismatch,
}

impl Arm64HandoffError {
    /// The name of each variant, with the name of a wrapped error in brackets.
    pub open spec fn name_text(&self) -> Seq<char> {
        match self {
            Arm64HandoffError::Staging(e) => "Staging("@ + e.name_text() + ")"@,
            Arm64HandoffError::BootArgs(e) => "BootArgs("@ + e.name_text() + ")"@,
            Arm64HandoffError::InvalidPlacement => "InvalidPlacement"@,
            Arm64HandoffError::BootstrapCorrespondence => "BootstrapCorrespondence"@,
            Arm64HandoffError::DeviceTreeTooLarge => "DeviceTreeTooLarge"@,
            Arm64HandoffError::AddressOverflow => "AddressOverflow"@,
            Arm64HandoffError::DestinationSize => "DestinationSize"@,
            Arm64HandoffError::ReadbackMismatch => "ReadbackMismatch"@,
        }
    }

    /// The variant's name, as a diagnostic would show it.
    pub fn name(&self) -> (r: String)
        ensures
            r@ == self.name_text(),
    {
        match self {
            Arm64HandoffError::Staging(e) => String::from_str("Staging(").concat(e.name().as_str()).concat(")"),
            Arm64HandoffError::BootArgs(e) => String::from_str("BootArgs(").concat(e.name()).concat(")"),
            Arm64HandoffError::InvalidPlacement => String::from_str("InvalidPlacement"),
            Arm64HandoffError::BootstrapCorrespondence => String::from_str("BootstrapCorrespondence"),
            Arm64HandoffError::DeviceTreeTooLarge => String::from_str("DeviceTreeTooLarge"),
            Arm64HandoffError::AddressOverflow => String::from_str("AddressOverflow"),
            Arm64HandoffError::DestinationSize => String::from_str("DestinationSize"),
            Arm64HandoffError::ReadbackMismatch => String::from_str("ReadbackMismatch"),
        }
    }

    /// The diagnostic text of this error.
    pub fn to_string(&self) -> (r: String)
        ensures
            r@ == "ARM64_HANDOFF_"@ + self.name_text(),
    {
        String::from_str("ARM64_HANDOFF_").concat(self.name().as_str())
    }
}

/// The device tree is present and within its bound.
pub open spec fn device_tree_ok(input: Arm64PlacementInput) -> bool {
    0 < input.device_tree@.len() <= MAX_DEVICE_TREE_BYTES
}

/// `v` rounded up to a whole 16 KiB page.
pub open spec fn page_align_up(v: int) -> int {
    ((v + (VMAPPLE_PAGE_SIZE - 1)) / VMAPPLE_PAGE_SIZE as int) * VMAPPLE_PAGE_SIZE
}

proof fn lemma_page_align_up(v: int)
    requires
        0 <= v,
    ensures
        v <= page_align_up(v) <= v + (VMAPPLE_PAGE_SIZE - 1),
        page_align_up(v) % VMAPPLE_PAGE_SIZE as int == 0,
{
    let x = v + 16383;
    assert(v <= (x / 16384) * 16384 <= x && ((x / 16384) * 16384) % 16384 == 0)
        by (nonlinear_arith)
        requires
            x == v + 16383,
            0 <= v,
    ;
}

/// Where a kernel collection whose arena begins at `min_va`, spans `arena` bytes, holds
/// its collection header at `header` and its entry at `entry` lands, followed by the boot
/// arguments page, the device tree and the boot stack; or the first placement rule it
/// breaks, in the order they are checked.
pub open spec fn handoff_placement(
    input: Arm64PlacementInput,
    min_va: u64,
    arena: usize,
    header: usize,
    entry: usize,
) -> Result<Arm64HandoffLayout, Arm64HandoffError> {
    let kp = input.kernel_phys;
    let pb = input.physical_base;
    let vb = input.virtual_base;
    if kp % VMAPPLE_PAGE_SIZE != 0 || kp < pb {
        Err(Arm64HandoffError::InvalidPlacement)
    } else if vb + (kp - pb) > u64::MAX {
        Err(Arm64HandoffError::AddressOverflow)
    } else if vb + (kp - pb) != min_va || vb % ARM_BOOTSTRAP_BLOCK_BYTES != pb
        % ARM_BOOTSTRAP_BLOCK_BYTES {
        Err(Arm64HandoffError::BootstrapCorrespondence)
    } else if kp + arena + VMAPPLE_PAGE_SIZE + input.device_tree@.len() + (VMAPPLE_PAGE_SIZE - 1)
        > u64::MAX {
        Err(Arm64HandoffError::AddressOverflow)
    } else {
        let args = kp + arena;
        let dt = args + VMAPPLE_PAGE_SIZE;
        let stack = page_align_up(dt + input.device_tree@.len());
        let end = stack + ARM_BOOT_STACK_BYTES;
        if end > u64::MAX || end - kp > isize::MAX || kp + header > u64::MAX || kp + entry
            > u64::MAX {
            Err(Arm64HandoffError::AddressOverflow)
        } else {
            Ok(
                Arm64HandoffLayout {
                    kernel_phys: kp,
                    kernel_bytes: arena,
                    collection_header_phys: (kp + header) as u64,
                    entry_phys: (kp + entry) as u64,
                    boot_args_phys: args as u64,
                    device_tree_phys: dt as u64,
                    stack_top_phys: end as u64,
                    occupied_end: end as u64,
                    allocation_bytes: (end - kp) as usize,
                },
            )
        }
    }
}

/// The boot-arguments request for a placed kernel.
pub open spec fn boot_args_request<'a>(
    input: Arm64PlacementInput<'a>,
    layout: Arm64HandoffLayout,
) -> Arm64BootArgsInput<'a> {
    Arm64BootArgsInput {
        physical_base: input.physical_base,
        virtual_base: input.virtual_base,
        memory_size: input.memory_size,
        actual_memory_size: input.actual_memory_size,
        top_of_kernel_data: layout.occupied_end,
        kernel_phys: layout.kernel_phys,
        kernel_size: layout.kernel_bytes as u64,
        boot_args_phys: layout.boot_args_phys,
        device_tree_phys: layout.device_tree_phys,
        device_tree: input.device_tree,
        command_line: input.command_line,
        machine_type: input.machine_type,
        boot_flags: input.boot_flags,
        video: input.video,
    }
}

/// The staged allocation: the kernel arena, then the boot arguments at the start of the
/// next page, the device tree one page after them, and zero everywhere else.
pub open spec fn handoff_image(
    layout: Arm64HandoffLayout,
    arena: Seq<u8>,
    boot_args: Seq<u8>,
    device_tree: Seq<u8>,
) -> Seq<u8> {
    let args = layout.boot_args_phys - layout.kernel_phys;
    let dt = layout.device_tree_phys - layout.kernel_phys;
    Seq::new(
        layout.allocation_bytes as nat,
        |k: int|
            if k < layout.kernel_bytes {
                arena[k]
            } else if args <= k < args + boot_args.len() {
                boot_args[k - args]
            } else if dt <= k < dt + device_tree.len() {
                device_tree[k - dt]
            } else {
                0u8
            },
    )
}

/// Source and DT remain borrowed; a caller cannot substitute data after plan validation.
pub struct Arm64HandoffPlan<'a> {
    staging: KcStagingPlan<'a>,
    layout: Arm64HandoffLayout,
    boot_args: Arm64BootArgsEncoding,
    device_tree: &'a [u8],
}

impl<'a> Arm64HandoffPlan<'a> {
    pub closed spec fn spec_staging(&self) -> KcStagingPlan<'a> {
        self.staging
    }

    pub closed spec fn spec_layout(&self) -> Arm64HandoffLayout {
        self.layout
    }

    pub closed spec fn spec_boot_args(&self) -> Arm64BootArgsEncoding {
        self.boot_args
    }

    pub closed spec fn spec_device_tree(&self) -> Seq<u8> {
        self.device_tree@
    }

    /// The bytes this plan stages.
    pub open spec fn image(&self) -> Seq<u8> {
        handoff_image(
            self.spec_layout(),
            self.spec_staging().arena(),
            self.spec_boot_args().spec_bytes(),
            self.spec_device_tree(),
        )
    }

    /// The plan's invariant: a well-formed staging plan and a layout whose pieces follow
    /// one another inside the allocation.
    pub closed spec fn wf(&self) -> bool {
        let l = self.layout;
        &&& l.allocation_bytes <= usize::MAX
        &&& self.staging.wf()
        &&& self.staging.spec_page_size() == ARM64_STAGING_PAGE_SIZE
        &&& l.kernel_bytes == self.staging.spec_arena_size()
        &&& l.boot_args_phys == l.kernel_phys + l.kernel_bytes
        &&& l.device_tree_phys == l.boot_args_phys + VMAPPLE_PAGE_SIZE
        &&& l.device_tree_phys + self.device_tree@.len() <= l.occupied_end
        &&& l.kernel_phys <= l.occupied_end
        &&& l.allocation_bytes == l.occupied_end - l.kernel_phys
    }

    /// What `from_staging` returns for `staging` and `input`.
    pub open spec fn from_staging_outcome(
        staging: KcStagingPlan<'a>,
        input: Arm64PlacementInput<'a>,
        r: Result<Self, Arm64HandoffError>,
    ) -> bool {
        if !device_tree_ok(input) {
            r == Err::<Self, Arm64HandoffError>(Arm64HandoffError::DeviceTreeTooLarge)
        } else {
            match handoff_placement(
                input,
                staging.spec_minimum_virtual_address(),
                staging.spec_arena_size(),
                staging.spec_collection_header_offset(),
                staging.spec_outer_entry_offset(),
            ) {
                Err(e) => r == Err::<Self, Arm64HandoffError>(e),
                Ok(layout) => {
                    let request = boot_args_request(input, layout);
                    match arm64_input_error(request) {
                        Some(e) => r == Err::<Self, Arm64HandoffError>(
                            Arm64HandoffError::BootArgs(e),
                        ),
                        None => match r {
                            Ok(plan) => {
                                &&& plan.wf()
                                &&& plan.spec_staging() == staging
                                &&& plan.spec_layout() == layout
                                &&& plan.spec_device_tree() == input.device_tree@
                                &&& arm64_placement_error(request, dram_of(input.device_tree@))
                                    is None
                                &&& plan.spec_boot_args().spec_bytes() == arm64_layout(request)
                                &&& plan.spec_boot_args().spec_physical_address()
                                    == layout.boot_args_phys
                                &&& plan.spec_boot_args().spec_device_tree_virtual_address()
                                    == dt_virtual_of(request)
                            },
                            Err(e) => e matches Arm64HandoffError::BootArgs(b) && (b
                                == Arm64BootArgsError::InvalidDeviceTree || arm64_placement_error(
                                request,
                                dram_of(input.device_tree@),
                            ) == Some(b)),
                        },
                    }
                },
            }
        }
    }

    /// Places and encodes a handoff around an already inspected ARM64 staging plan.
    #[verifier::spinoff_prover]
    #[verifier::rlimit(100)]
    pub fn from_staging(staging: KcStagingPlan<'a>, input: Arm64PlacementInput<'a>) -> (r: Result<
        Self,
        Arm64HandoffError,
    >)
        requires
            staging.wf(),
            staging.spec_page_size() == ARM64_STAGING_PAGE_SIZE,
        ensures
            Self::from_staging_outcome(staging, input, r),
    {
        if input.device_tree.len() == 0 || input.device_tree.len() > MAX_DEVICE_TREE_BYTES {
            return Err(Arm64HandoffError::DeviceTreeTooLarge);
        }
        let layout = match place(
            &input,
            staging.minimum_virtual_address(),
            staging.arena_size(),
            staging.collection_header_offset(),
            staging.outer_entry_offset(),
        ) {
            Ok(layout) => layout,
            Err(e) => return Err(e),
        };
        let boot_args = match encode_request(&input, &layout) {
            Ok(b) => b,
            Err(e) => return Err(Arm64HandoffError::BootArgs(e)),
        };
        Ok(Arm64HandoffPlan { staging, layout, boot_args, device_tree: input.device_tree })
    }

    pub fn new(source: &'a [u8], input: Arm64PlacementInput<'a>) -> (r: Result<Self, Arm64HandoffError>)
        ensures
            !device_tree_ok(input) ==> r == Err::<Self, Arm64HandoffError>(
                Arm64HandoffError::DeviceTreeTooLarge,
            ),
            device_tree_ok(input) && source@.len() > MAX_INPUT_SIZE ==> r == Err::<
                Self,
                Arm64HandoffError,
            >(Arm64HandoffError::Staging(KcStagingError::Metadata(KcMetadataError::InputTooLarge))),
            device_tree_ok(input) ==> (r matches Err(Arm64HandoffError::Staging(_)) || exists|
                staging: KcStagingPlan<'a>,
            |
                {
                    &&& #[trigger] staging.wf()
                    &&& staging.spec_page_size() == ARM64_STAGING_PAGE_SIZE
                    &&& staging.spec_source() == source@
                    &&& inspection_ok(source@, staging.spec_inspection())
                    &&& Self::from_staging_outcome(staging, input, r)
                }),
            r matches Ok(plan) ==> plan.spec_staging().spec_source() == source@,
            device_tree_ok(input) && source@.len() <= MAX_INPUT_SIZE ==> (crate::kernel_collection::header_error(
                source@,
                0,
                true,
                true,
            ) matches Some(e) ==> r == Err::<Self, Arm64HandoffError>(
                Arm64HandoffError::Staging(KcStagingError::Metadata(e)),
            )),
    {
        if input.device_tree.len() == 0 || input.device_tree.len() > MAX_DEVICE_TREE_BYTES {
            return Err(Arm64HandoffError::DeviceTreeTooLarge);
        }
        let staging = match KcStagingPlan::new_arm64(source) {
            Ok(plan) => plan,
            Err(e) => return Err(Arm64HandoffError::Staging(e)),
        };
        let r = Self::from_staging(staging, input);
        assert(staging.wf());
        r
    }

    /// Initialize and fully read back the allocation. No pointers or PAC words
    /// are relocated: KC fixup ownership remains with its target consumer.
    pub fn stage_into(&self, destination: &mut [u8]) -> (r: Result<StagingVerification, Arm64HandoffError>)
        requires
            self.wf(),
        ensures
            old(destination)@.len() != self.spec_layout().allocation_bytes ==> r == Err::<
                StagingVerification,
                Arm64HandoffError,
            >(Arm64HandoffError::DestinationSize) && final(destination)@ == old(destination)@,
            r is Ok ==> final(destination)@ == self.image(),
            old(destination)@.len() == self.spec_layout().allocation_bytes && !(r matches Err(
                Arm64HandoffError::Staging(_),
            )) ==> final(destination)@ == self.image(),
            old(destination)@.len() == self.spec_layout().allocation_bytes
                && self.spec_staging().spec_view_file_total() <= usize::MAX ==> r is Ok,
    {
        if destination.len() != self.layout.allocation_bytes {
            return Err(Arm64HandoffError::DestinationSize);
        }
        let n = destination.len();
        let mut k: usize = 0;
        while k < n
            invariant
                n == destination@.len(),
                k <= n,
                forall|j: int| 0 <= j < k ==> destination@[j] == 0,
            decreases n - k,
        {
            destination[k] = 0;
            k = k + 1;
        }
        let mut arena = zeros(self.layout.kernel_bytes);
        let verification = match self.staging.stage_into(arena.as_mut_slice()) {
            Ok(v) => v,
            Err(e) => return Err(Arm64HandoffError::Staging(e)),
        };
        proof {
            self.boot_args.lemma_size();
        }
        let args = (self.layout.boot_args_phys - self.layout.kernel_phys) as usize;
        let dt = (self.layout.device_tree_phys - self.layout.kernel_phys) as usize;
        let ghost zeroed = destination@;
        copy_into(destination, 0, arena.as_slice());
        let ghost with_kernel = destination@;
        let boot_args: &[u8] = self.boot_args.as_bytes();
        copy_into(destination, args, boot_args);
        let ghost with_args = destination@;
        copy_into(destination, dt, self.device_tree);
        proof {
            let img = self.image();
            let kb = self.layout.kernel_bytes as int;
            assert forall|j: int| 0 <= j < n implies #[trigger] destination@[j] == img[j] by {
                if j < kb {
                    assert(with_kernel[j] == arena@[j]);
                } else if args <= j < args + ARM64_BOOT_ARGS_SIZE {
                    assert(with_args[j] == boot_args@[j - args]);
                } else if dt <= j < dt + self.device_tree@.len() {
                } else {
                    assert(zeroed[j] == 0);
                }
            }
            assert(destination@ =~= img);
        }
        match self.verify(destination) {
            Ok(()) => Ok(verification),
            Err(e) => Err(e),
        }
    }

    /// Re-reads a staged allocation byte by byte without modifying it.
    #[verifier::loop_isolation(false)]
    pub fn verify(&self, destination: &[u8]) -> (r: Result<(), Arm64HandoffError>)
        requires
            self.wf(),
        ensures
            destination@.len() != self.spec_layout().allocation_bytes ==> r == Err::<
                (),
                Arm64HandoffError,
            >(Arm64HandoffError::DestinationSize),
            r is Ok ==> destination@ == self.image(),
            destination@.len() == self.spec_layout().allocation_bytes && destination@.subrange(
                self.spec_layout().kernel_bytes as int,
                destination@.len() as int,
            ) != self.image().subrange(
                self.spec_layout().kernel_bytes as int,
                destination@.len() as int,
            ) ==> r is Err,
            destination@ == self.image() && self.spec_staging().spec_view_file_total() <= usize::MAX
                ==> r is Ok,
    {
        if destination.len() != self.layout.allocation_bytes {
            return Err(Arm64HandoffError::DestinationSize);
        }
        let kernel_bytes = self.layout.kernel_bytes;
        proof {
            if destination@ == self.image() {
                assert(destination@.subrange(0, kernel_bytes as int) =~= self.spec_staging().arena());
            }
        }
        match self.staging.verify(&destination[0..kernel_bytes]) {
            Ok(_) => {},
            Err(e) => return Err(Arm64HandoffError::Staging(e)),
        }
        proof {
            self.boot_args.lemma_size();
        }
        let args = (self.layout.boot_args_phys - self.layout.kernel_phys) as usize;
        let dt = (self.layout.device_tree_phys - self.layout.kernel_phys) as usize;
        let boot_args: &[u8] = self.boot_args.as_bytes();
        let n = destination.len();
        let ghost img = self.image();
        let mut offset = kernel_bytes;
        while offset < n
            invariant
                n == destination@.len() == img.len(),
                kernel_bytes <= offset <= n,
                forall|j: int| kernel_bytes <= j < offset ==> destination@[j] == img[j],
            decreases n - offset,
        {
            let expected = if offset >= args && offset - args < boot_args.len() {
                boot_args[offset - args]
            } else if offset >= dt && offset - dt < self.device_tree.len() {
                self.device_tree[offset - dt]
            } else {
                0
            };
            assert(expected == img[offset as int]);
            if destination[offset] != expected {
                assert(destination@.subrange(kernel_bytes as int, n as int)[offset - kernel_bytes]
                    != img.subrange(kernel_bytes as int, n as int)[offset - kernel_bytes]);
                return Err(Arm64HandoffError::ReadbackMismatch);
            }
            offset = offset + 1;
        }
        assert(destination@ =~= img);
        Ok(())
    }

    pub fn layout(&self) -> (r: &Arm64HandoffLayout)
        ensures
            *r == self.spec_layout(),
    {
        &self.layout
    }

    pub fn staging(&self) -> (r: &KcStagingPlan<'a>)
        ensures
            *r == self.spec_staging(),
    {
        &self.staging
    }

    pub fn boot_args(&self) -> (r: &Arm64BootArgsEncoding)
        ensures
            *r == self.spec_boot_args(),
    {
        &self.boot_args
    }

    /// Staging bytes establishes no CPU, trust or platform state.
    pub fn execution_ready(&self) -> (r: bool)
        ensures
            !r,
    {
        false
    }
}

/// Lays out the handoff around an arena; see `handoff_placement`.
#[verifier::loop_isolation(false)]
fn place(input: &Arm64PlacementInput, min_va: u64, arena: usize, header: usize, entry: usize) -> (r: Result<
    Arm64HandoffLayout,
    Arm64HandoffError,
>)
    ensures
        r == handoff_placement(*input, min_va, arena, header, entry),
        r matches Ok(l) ==> {
            &&& l.kernel_phys == input.kernel_phys
            &&& l.kernel_bytes == arena
            &&& l.boot_args_phys == l.kernel_phys + l.kernel_bytes
            &&& l.device_tree_phys == l.boot_args_phys + VMAPPLE_PAGE_SIZE
            &&& l.device_tree_phys + input.device_tree@.len() <= l.occupied_end
            &&& l.kernel_phys <= l.occupied_end
            &&& l.allocation_bytes == l.occupied_end - l.kernel_phys
        },
{
        if input.kernel_phys % VMAPPLE_PAGE_SIZE != 0 || input.kernel_phys < input.physical_base {
            return Err(Arm64HandoffError::InvalidPlacement);
        }
        let physical_offset = input.kernel_phys - input.physical_base;
        let expected_virtual = match input.virtual_base.checked_add(physical_offset) {
            Some(v) => v,
            None => return Err(Arm64HandoffError::AddressOverflow),
        };
        // A single linear VA/PA correspondence includes the within-32MiB block
        // offset needed by the public bootstrap mapping. This is not a proof of
        // target bootstrap-table capacity or target-specific header placement.
        if expected_virtual != min_va || input.virtual_base
            % ARM_BOOTSTRAP_BLOCK_BYTES != input.physical_base % ARM_BOOTSTRAP_BLOCK_BYTES {
            return Err(Arm64HandoffError::BootstrapCorrespondence);
        }
        let kernel_bytes = arena;
        let boot_args_phys = match input.kernel_phys.checked_add(kernel_bytes as u64) {
            Some(v) => v,
            None => return Err(Arm64HandoffError::AddressOverflow),
        };
        let device_tree_phys = match boot_args_phys.checked_add(VMAPPLE_PAGE_SIZE) {
            Some(v) => v,
            None => return Err(Arm64HandoffError::AddressOverflow),
        };
        let device_tree_end = match device_tree_phys.checked_add(input.device_tree.len() as u64) {
            Some(v) => v,
            None => return Err(Arm64HandoffError::AddressOverflow),
        };
        proof {
            lemma_page_align_up(device_tree_end as int);
        }
        let stack_base = match align_up(device_tree_end) {
            Some(v) => v,
            None => return Err(Arm64HandoffError::AddressOverflow),
        };
        let occupied_end = match stack_base.checked_add(ARM_BOOT_STACK_BYTES) {
            Some(v) => v,
            None => return Err(Arm64HandoffError::AddressOverflow),
        };
        let span = occupied_end - input.kernel_phys;
        if span > isize::MAX as u64 {
            return Err(Arm64HandoffError::AddressOverflow);
        }
        let allocation_bytes = span as usize;
        let collection_header_phys = match input.kernel_phys.checked_add(
            header as u64,
        ) {
            Some(v) => v,
            None => return Err(Arm64HandoffError::AddressOverflow),
        };
        let entry_phys = match input.kernel_phys.checked_add(entry as u64) {
            Some(v) => v,
            None => return Err(Arm64HandoffError::AddressOverflow),
        };
        Ok(Arm64HandoffLayout {
            kernel_phys: input.kernel_phys,
            kernel_bytes,
            collection_header_phys,
            entry_phys,
            boot_args_phys,
            device_tree_phys,
            stack_top_phys: occupied_end,
            occupied_end,
            allocation_bytes,
        })
}

/// Encodes the boot arguments for a placed kernel; see `encode_arm64_boot_args`.
fn encode_request(input: &Arm64PlacementInput, layout: &Arm64HandoffLayout) -> (r: Result<
    Arm64BootArgsEncoding,
    Arm64BootArgsError,
>)
    ensures
        ({
            let request = boot_args_request(*input, *layout);
            match arm64_input_error(request) {
                Some(e) => r == Err::<Arm64BootArgsEncoding, Arm64BootArgsError>(e),
                None => match r {
                    Ok(enc) => {
                        &&& arm64_placement_error(request, dram_of(input.device_tree@)) is None
                        &&& enc.spec_bytes() == arm64_layout(request)
                        &&& enc.spec_physical_address() == layout.boot_args_phys
                        &&& enc.spec_device_tree_virtual_address() == dt_virtual_of(request)
                    },
                    Err(e) => e == Arm64BootArgsError::InvalidDeviceTree || arm64_placement_error(
                        request,
                        dram_of(input.device_tree@),
                    ) == Some(e),
                },
            }
        }),
{
    let request = Arm64BootArgsInput {
        physical_base: input.physical_base,
        virtual_base: input.virtual_base,
        memory_size: input.memory_size,
        actual_memory_size: input.actual_memory_size,
        top_of_kernel_data: layout.occupied_end,
        kernel_phys: layout.kernel_phys,
        kernel_size: layout.kernel_bytes as u64,
        boot_args_phys: layout.boot_args_phys,
        device_tree_phys: layout.device_tree_phys,
        device_tree: input.device_tree,
        command_line: input.command_line,
        machine_type: input.machine_type,
        boot_flags: input.boot_flags,
        video: input.video,
    };
    assert(request == boot_args_request(*input, *layout));
    encode_arm64_boot_args(&request)
}

/// `value` rounded up to a whole 16 KiB page, if that fits.
fn align_up(value: u64) -> (r: Option<u64>)
    ensures
        r == if value + (VMAPPLE_PAGE_SIZE - 1) > u64::MAX {
            None::<u64>
        } else {
            Some(page_align_up(value as int) as u64)
        },
{
    match value.checked_add(VMAPPLE_PAGE_SIZE - 1) {
        Some(v) => Some(v - v % VMAPPLE_PAGE_SIZE),
        None => None,
    }
}

} // verus!

//! What the supervisor execution environment (the SBI firmware) told the kernel
//! about itself.
use vstd::prelude::*;
use crate::sbi::{SbiExtension, SbiResult, extension_ordinal, extension_at, EXTENSION_COUNT};
use semver::Version;

verus! {

#[verifier::external_type_specification]
#[verifier::external_body]
pub struct ExVersion(Version);

/// Names the version that `semver::Version::new` builds from its three numbers.
pub uninterp spec fn semver_version(major: u64, minor: u64, patch: u64) -> Version;

/// Calls `semver::Version::new`: the version with the given numbers and empty
/// pre-release and build metadata. Its contract only names the result.
#[verifier::external_body]
fn new_version(major: u64, minor: u64, patch: u64) -> (v: Version)
    ensures
        v == semver_version(major, minor, patch),
{
    Version::new(major, minor, patch)
}

/// The firmware implementations that have an id in the SBI specification.
#[derive(Debug, Clone, Copy, PartialEq, Eq, Structural)]
pub enum SbiImplementation {
    BerkeleyBootLoader,
    OpenSBI,
    Xvisor,
    KVM,
    RustSBI,
    Diosix,
    Coffer,
    XenProject,
    PolarFireHartSoftwareServices,
    Unknown(usize),
}

/// The implementation that an implementation id stands for.
pub open spec fn implementation_of(id: usize) -> SbiImplementation {
    if id == 0 { SbiImplementation::BerkeleyBootLoader }
    else if id == 1 { SbiImplementation::OpenSBI }
    else if id == 2 { SbiImplementation::Xvisor }
    else if id == 3 { SbiImplementation::KVM }
    else if id == 4 { SbiImplementation::RustSBI }
    else if id == 5 { SbiImplementation::Diosix }
    else if id == 6 { SbiImplementation::Coffer }
    else if id == 7 { SbiImplementation::XenProject }
    else if id == 8 { SbiImplementation::PolarFireHartSoftwareServices }
    else { SbiImplementation::Unknown(id) }
}

impl SbiImplementation {
    /// The implementation that the firmware's implementation id stands for.
    pub fn from_id(impl_id: usize) -> (r: SbiImplementation)
        ensures
            r == implementation_of(impl_id),
    {
        match impl_id {
            0 => SbiImplementation::BerkeleyBootLoader,
            1 => SbiImplementation::OpenSBI,
            2 => SbiImplementation::Xvisor,
            3 => SbiImplementation::KVM,
            4 => SbiImplementation::RustSBI,
            5 => SbiImplementation::Diosix,
            6 => SbiImplementation::Coffer,
            7 => SbiImplementation::XenProject,
            8 => SbiImplementation::PolarFireHartSoftwareServices,
            _ => SbiImplementation::Unknown(impl_id),
        }
    }
}

/// Major number of a packed specification version: bits 24..31, the top bit
/// reserved.
pub open spec fn spec_major_of(v: usize) -> u64 {
    ((v >> 24usize) & 0x7fusize) as u64
}

/// Minor number of a packed specification version: bits 0..24.
pub open spec fn spec_minor_of(v: usize) -> u64 {
    (v & 0xffffffusize) as u64
}

/// Whether the probe of extension number `k` answered exactly 1.
pub open spec fn probed_available(probes: Seq<SbiResult>, k: int) -> bool {
    probes[k] == Ok::<isize, SbiError>(1)
}

use crate::sbi::SbiError;

/// Whether bit `k` is set in `x`.
pub open spec fn bit_set(x: u32, k: nat) -> bool {
    (x >> k) & 1u32 == 1u32
}

proof fn lemma_or_bit(x: u32, i: u32, k: u32)
    requires
        i < 32,
        k < 32,
    ensures
        ((x | (1u32 << i)) >> k) & 1u32 == (if k == i { 1u32 } else { (x >> k) & 1u32 }),
{
    assert(((x | (1u32 << i)) >> k) & 1u32 == (if k == i { 1u32 } else { (x >> k) & 1u32 })) by (bit_vector)
        requires i < 32, k < 32;
}

proof fn lemma_mask_test(x: u32, i: u32)
    requires
        i < 32,
    ensures
        ((x & (1u32 << i)) == (1u32 << i)) == ((x >> i) & 1u32 == 1u32),
{
    assert(((x & (1u32 << i)) == (1u32 << i)) == ((x >> i) & 1u32 == 1u32)) by (bit_vector)
        requires i < 32;
}

proof fn lemma_zero_bits(k: u32)
    requires
        k < 32,
    ensures
        (0u32 >> k) & 1u32 == 0u32,
{
    assert((0u32 >> k) & 1u32 == 0u32) by (bit_vector);
}

/// What the firmware reported about itself.
pub struct SbiInfo {
    sepc_ver: Version,
    spec_major: u64,
    spec_minor: u64,
    impl_id: SbiImplementation,
    impl_ver: usize,
    mach_vendor_id: usize,
    mach_arch_id: usize,
    mach_impl_id: usize,
    extensions: u32,
}

impl SbiInfo {
    /// Whether the information records extension `e` as supported.
    pub closed spec fn supports(&self, e: SbiExtension) -> bool {
        bit_set(self.extensions, extension_ordinal(e))
    }

    pub closed spec fn spec_major(&self) -> u64 {
        self.spec_major
    }

    pub closed spec fn spec_minor(&self) -> u64 {
        self.spec_minor
    }

    pub closed spec fn implementation(&self) -> SbiImplementation {
        self.impl_id
    }

    pub closed spec fn numbers(&self) -> (usize, usize, usize, usize) {
        (self.impl_ver, self.mach_vendor_id, self.mach_arch_id, self.mach_impl_id)
    }

    pub closed spec fn version(&self) -> Version {
        self.sepc_ver
    }

    /// Builds the information from the firmware's answers: `probes[k]` answers the
    /// probe of the `k`-th extension of [`crate::sbi::all_extensions`], the others the
    /// base extension's queries in the order of their parameters. Every base query
    /// must have succeeded.
    pub fn new(
        probes: &Vec<SbiResult>,
        spec_version: SbiResult,
        impl_id: SbiResult,
        impl_version: SbiResult,
        mach_vendor_id: SbiResult,
        mach_arch_id: SbiResult,
        mach_impl_id: SbiResult,
    ) -> (r: SbiInfo)
        requires
            probes.len() == EXTENSION_COUNT,
            spec_version is Ok,
            impl_id is Ok,
            impl_version is Ok,
            mach_vendor_id is Ok,
            mach_arch_id is Ok,
            mach_impl_id is Ok,
        ensures
            forall|e: SbiExtension| #[trigger] r.supports(e) <==> probed_available(probes@, extension_ordinal(e) as int),
            r.spec_major() == spec_major_of(spec_version->Ok_0 as usize),
            r.spec_minor() == spec_minor_of(spec_version->Ok_0 as usize),
            r.version() == semver_version(r.spec_major(), r.spec_minor(), 0),
            r.implementation() == implementation_of(impl_id->Ok_0 as usize),
            r.numbers() == (impl_version->Ok_0 as usize, mach_vendor_id->Ok_0 as usize,
                mach_arch_id->Ok_0 as usize, mach_impl_id->Ok_0 as usize),
    {
        let all = crate::sbi::all_extensions();
        let mut extensions = 0u32;
        let mut i: usize = 0;
        proof {
            assert forall|k: u32| 0 <= k < 32 implies (extensions >> k) & 1u32 == 0u32 by {
                lemma_zero_bits(k);
            }
        }
        while i < EXTENSION_COUNT
            invariant
                i <= EXTENSION_COUNT,
                all.len() == EXTENSION_COUNT,
                probes.len() == EXTENSION_COUNT,
                forall|j: int| 0 <= j < EXTENSION_COUNT ==> #[trigger] all@[j] == extension_at(j),
                forall|k: u32| k < i ==> (((extensions >> k) & 1u32 == 1u32) <==> probed_available(probes@, k as int)),
                forall|k: u32| i <= k < 32 ==> (extensions >> k) & 1u32 == 0u32,
            decreases EXTENSION_COUNT - i,
        {
            let extension = all[i];
            let ord = extension.ordinal();
            assert(ord == i);
            let ghost old_ext = extensions;
            if let Ok(1) = probes[i] {
                extensions = extensions | extension.to_index();
                assert forall|k: u32| k < 32 implies ((extensions >> k) & 1u32) == (if k == i as u32 { 1u32 } else { (old_ext >> k) & 1u32 }) by {
                    lemma_or_bit(old_ext, i as u32, k);
                }
            }
            i = i + 1;
        }
        proof {
            assert forall|e: SbiExtension| #[trigger] bit_set(extensions, extension_ordinal(e)) <==> probed_available(probes@, extension_ordinal(e) as int) by {
                let k = extension_ordinal(e) as u32;
                assert(k < 21);
            }
        }
        let v = #[verifier::truncate] (spec_version.unwrap() as usize);
        let major = ((v >> 24) & 0x7f) as u64;
        let minor = (v & 0xffffff) as u64;
        let sepc_ver = new_version(major, minor, 0);
        let id = #[verifier::truncate] (impl_id.unwrap() as usize);
        SbiInfo {
            sepc_ver,
            spec_major: major,
            spec_minor: minor,
            impl_id: SbiImplementation::from_id(id),
            impl_ver: #[verifier::truncate] (impl_version.unwrap() as usize),
            mach_vendor_id: #[verifier::truncate] (mach_vendor_id.unwrap() as usize),
            mach_arch_id: #[verifier::truncate] (mach_arch_id.unwrap() as usize),
            mach_impl_id: #[verifier::truncate] (mach_impl_id.unwrap() as usize),
            extensions,
        }
    }

    pub fn spec_version(&self) -> (r: &Version)
        ensures
            *r == self.version(),
    {
        &self.sepc_ver
    }

    pub fn impl_id(&self) -> (r: SbiImplementation)
        ensures
            r == self.implementation(),
    {
        self.impl_id
    }

    pub fn impl_version(&self) -> (r: usize)
        ensures
            r == self.numbers().0,
    {
        self.impl_ver
    }

    pub fn machine_vendor_id(&self) -> (r: usize)
        ensures
            r == self.numbers().1,
    {
        self.mach_vendor_id
    }

    pub fn machine_arch_id(&self) -> (r: usize)
        ensures
            r == self.numbers().2,
    {
        self.mach_arch_id
    }

    pub fn machine_impl_id(&self) -> (r: usize)
        ensures
            r == self.numbers().3,
    {
        self.mach_impl_id
    }

    /// Whether extension `eid` was found available when the information was built.
    pub fn is_extension_supported(&self, eid: SbiExtension) -> (r: bool)
        ensures
            r == self.supports(eid),
    {
        let id = eid.to_index();
        proof {
            lemma_mask_test(self.extensions, extension_ordinal(eid) as u32);
        }
        self.extensions & id == id
    }
}

} // verus!

//! Backend selection: ids, names and the choice of the backend that runs a
//! projection.

use vstd::prelude::*;
use crate::grid::ArenaError;
use crate::names::{backend_for_name, backend_named, normalize, normalized_name};

verus! {

/// The projection backends. Their ids are 0, 1, 2 and 3 in this order.
#[derive(Clone, Copy, Debug, PartialEq, Eq, Structural)]
pub enum Backend {
    Auto,
    RustCpu,
    CubeCpu,
    CubeHip,
}

/// The id of each backend.
pub open spec fn spec_backend_id(b: Backend) -> u32 {
    match b {
        Backend::Auto => 0,
        Backend::RustCpu => 1,
        Backend::CubeCpu => 2,
        Backend::CubeHip => 3,
    }
}

/// The backend with a given id, or the error that names an unknown id.
pub open spec fn backend_from_id(value: u32) -> Result<Backend, ArenaError> {
    if value == 0 {
        Ok(Backend::Auto)
    } else if value == 1 {
        Ok(Backend::RustCpu)
    } else if value == 2 {
        Ok(Backend::CubeCpu)
    } else if value == 3 {
        Ok(Backend::CubeHip)
    } else {
        Err(ArenaError::InvalidBackend(value))
    }
}

impl Backend {
    /// The numeric id of this backend.
    pub fn id(self) -> (r: u32)
        ensures
            r == spec_backend_id(self),
    {
        match self {
            Backend::Auto => 0,
            Backend::RustCpu => 1,
            Backend::CubeCpu => 2,
            Backend::CubeHip => 3,
        }
    }
}

impl TryFrom<u32> for Backend {
    type Error = ArenaError;

    fn try_from(value: u32) -> (r: Result<Self, ArenaError>)
        ensures
            r == backend_from_id(value),
    {
        match value {
            0 => Ok(Backend::Auto),
            1 => Ok(Backend::RustCpu),
            2 => Ok(Backend::CubeCpu),
            3 => Ok(Backend::CubeHip),
            _ => Err(ArenaError::InvalidBackend(value)),
        }
    }
}

impl vstd::std_specs::convert::TryFromSpecImpl<u32> for Backend {
    open spec fn obeys_try_from_spec() -> bool {
        true
    }

    open spec fn try_from_spec(v: u32) -> Result<Self, ArenaError> {
        backend_from_id(v)
    }
}

/// Which CubeCL runtimes were compiled into the running build.
#[derive(Clone, Copy, Debug)]
pub struct CompiledBackends {
    pub cubecl_cpu: bool,
    pub cubecl_hip: bool,
}

/// The backend `Auto` stands for: the GPU runtime when built, else the
/// CubeCL CPU runtime when built, else the Rust CPU implementation.
pub open spec fn spec_auto_backend(compiled: CompiledBackends) -> Backend {
    if compiled.cubecl_hip {
        Backend::CubeHip
    } else if compiled.cubecl_cpu {
        Backend::CubeCpu
    } else {
        Backend::RustCpu
    }
}

/// The backend `Auto` resolves to in a build with `compiled` runtimes.
pub fn auto_backend(compiled: CompiledBackends) -> (r: Backend)
    ensures
        r == spec_auto_backend(compiled),
        compiled.cubecl_hip ==> r == Backend::CubeHip,
        !compiled.cubecl_hip && compiled.cubecl_cpu ==> r == Backend::CubeCpu,
        !compiled.cubecl_hip && !compiled.cubecl_cpu ==> r == Backend::RustCpu,
{
    if compiled.cubecl_hip {
        Backend::CubeHip
    } else if compiled.cubecl_cpu {
        Backend::CubeCpu
    } else {
        Backend::RustCpu
    }
}

/// Bit mask of the usable backends: bit 0 Rust CPU (always), bit 1 CubeCL
/// CPU, bit 2 CubeCL HIP.
pub fn available_backends(compiled: CompiledBackends) -> (mask: u32)
    ensures
        mask == 1 + (if compiled.cubecl_cpu { 2u32 } else { 0u32 }) + (if compiled.cubecl_hip { 4u32 } else { 0u32 }),
{
    let mut mask: u32 = 1;
    if compiled.cubecl_cpu {
        mask = mask + 2;
    }
    if compiled.cubecl_hip {
        mask = mask + 4;
    }
    mask
}

/// The backend a projection asks for: the arena's own choice unless it is
/// `Auto`, in which case the `MLS_BACKEND` setting (`env_value`, when set)
/// decides. An unrecognised setting is refused with its normalised text.
pub fn requested_backend(arena_backend: Backend, env_value: Option<&str>) -> (r: Result<Backend, String>)
    ensures
        arena_backend != Backend::Auto ==> r == Ok::<Backend, String>(arena_backend),
        arena_backend == Backend::Auto ==> match env_value {
            None => r == Ok::<Backend, String>(Backend::Auto),
            Some(v) => match backend_named(normalize(v@)) {
                Some(b) => r == Ok::<Backend, String>(b),
                None => r matches Err(text) && text@ == normalize(v@),
            },
        },
{
    if arena_backend != Backend::Auto {
        return Ok(arena_backend);
    }
    match env_value {
        None => Ok(Backend::Auto),
        Some(value) => {
            let text = normalized_name(value);
            match backend_for_name(text.as_str()) {
                Some(b) => Ok(b),
                None => Err(text),
            }
        }
    }
}

/// The backend that actually runs: `Auto` is resolved for this build, and a
/// CubeCL backend that was not compiled in is refused (`Err` names it).
pub open spec fn spec_runnable_backend(requested: Backend, compiled: CompiledBackends) -> Result<Backend, Backend> {
    let b = if requested == Backend::Auto { spec_auto_backend(compiled) } else { requested };
    if (b == Backend::CubeCpu && !compiled.cubecl_cpu) || (b == Backend::CubeHip && !compiled.cubecl_hip) {
        Err(b)
    } else {
        Ok(b)
    }
}

/// Resolve `Auto` and check that the chosen backend is compiled in.
pub fn runnable_backend(requested: Backend, compiled: CompiledBackends) -> (r: Result<Backend, Backend>)
    ensures
        r == spec_runnable_backend(requested, compiled),
        r matches Ok(b) ==> b != Backend::Auto,
        requested == Backend::RustCpu ==> r == Ok::<Backend, Backend>(Backend::RustCpu),
        requested == Backend::CubeCpu ==> (compiled.cubecl_cpu ==> r == Ok::<Backend, Backend>(Backend::CubeCpu))
            && (!compiled.cubecl_cpu ==> r == Err::<Backend, Backend>(Backend::CubeCpu)),
        requested == Backend::CubeHip ==> (compiled.cubecl_hip ==> r == Ok::<Backend, Backend>(Backend::CubeHip))
            && (!compiled.cubecl_hip ==> r == Err::<Backend, Backend>(Backend::CubeHip)),
        requested == Backend::Auto && compiled.cubecl_hip ==> r == Ok::<Backend, Backend>(Backend::CubeHip),
        requested == Backend::Auto && !compiled.cubecl_hip && compiled.cubecl_cpu ==> r == Ok::<Backend, Backend>(Backend::CubeCpu),
        requested == Backend::Auto && !compiled.cubecl_hip && !compiled.cubecl_cpu ==> r == Ok::<Backend, Backend>(Backend::RustCpu),
{
    let b = if requested == Backend::Auto { auto_backend(compiled) } else { requested };
    match b {
        Backend::CubeCpu => if compiled.cubecl_cpu { Ok(b) } else { Err(b) },
        Backend::CubeHip => if compiled.cubecl_hip { Ok(b) } else { Err(b) },
        _ => Ok(b),
    }
}

/// The text of a caught panic: its string payload when it had one.
pub fn panic_message(payload_text: Option<String>) -> (r: String)
    ensures
        match payload_text {
            Some(t) => r@ == t@,
            None => r@ == "unknown Rust panic"@,
        },
{
    match payload_text {
        Some(t) => t,
        None => String::from_str("unknown Rust panic"),
    }
}

} // verus!

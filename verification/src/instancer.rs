//! The data bindings of a compute-shader instancer: what kind of GPU buffer
//! each binding asks for and how it may be used.
use vstd::prelude::*;

verus! {

/// Data that can be copied into a GPU buffer as raw bytes.
pub trait PodData {
    /// The raw bytes of the data.
    fn as_bytes(&self) -> &[u8];

    /// The size of the data in bytes.
    fn len(&self) -> usize;
}

/// The kind of buffer binding a compute shader sees.
#[derive(Debug, PartialEq, Eq, Structural)]
pub enum BufferBindingKind {
    /// A uniform buffer.
    Uniform,
    /// A storage buffer, read-only or read-write.
    Storage { read_only: bool },
}

/// An entry of the bind-group layout of an instancer's compute pipeline.
#[derive(Debug, PartialEq, Eq, Structural)]
pub struct LayoutEntry {
    /// The shader's binding number.
    pub binding: u32,
    /// The kind of buffer bound there.
    pub kind: BufferBindingKind,
}

/// The number of bindings every instancer shader has before the custom
/// ones: the instances, the time step, the total time and the range.
pub const BUILTIN_BINDINGS: u32 = 4;

/// The usages a binding's GPU buffer is created with.
#[derive(Debug, PartialEq, Eq, Structural)]
pub struct BufferUsages {
    /// The buffer backs a uniform binding.
    pub uniform: bool,
    /// The buffer backs a storage binding.
    pub storage: bool,
    /// The buffer can be the destination of a copy from the CPU.
    pub copy_dst: bool,
}

/// A data binding of an instancer's compute shader.
pub enum InstancerBinding<D: PodData> {
    /// Small read-only data shared by all invocations.
    Uniform(D),
    /// Large read-only data.
    StorageRO(D),
    /// Data the shader may read and write.
    StorageRW(D),
}

impl<D: PodData> InstancerBinding<D> {
    /// A uniform binding of `data`.
    pub fn new_uniform(data: D) -> (binding: Self)
        ensures
            binding == InstancerBinding::Uniform(data),
    {
        InstancerBinding::Uniform(data)
    }

    /// A read-only storage binding of `data`.
    pub fn new_storage_ro(data: D) -> (binding: Self)
        ensures
            binding == InstancerBinding::StorageRO(data),
    {
        InstancerBinding::StorageRO(data)
    }

    /// A read-write storage binding of `data`.
    pub fn new_storage_rw(data: D) -> (binding: Self)
        ensures
            binding == InstancerBinding::StorageRW(data),
    {
        InstancerBinding::StorageRW(data)
    }

    /// The data of the binding, whatever its kind.
    pub open spec fn spec_data(&self) -> D {
        match self {
            InstancerBinding::Uniform(d) => *d,
            InstancerBinding::StorageRO(d) => *d,
            InstancerBinding::StorageRW(d) => *d,
        }
    }

    /// The data of the binding, whatever its kind.
    pub fn data(&self) -> (data: &D)
        ensures
            *data == self.spec_data(),
    {
        match self {
            InstancerBinding::Uniform(data) => data,
            InstancerBinding::StorageRO(data) => data,
            InstancerBinding::StorageRW(data) => data,
        }
    }

    /// The kind of binding the shader sees.
    pub open spec fn spec_binding_type(&self) -> BufferBindingKind {
        match self {
            InstancerBinding::Uniform(_) => BufferBindingKind::Uniform,
            InstancerBinding::StorageRO(_) => BufferBindingKind::Storage { read_only: true },
            InstancerBinding::StorageRW(_) => BufferBindingKind::Storage { read_only: false },
        }
    }

    /// The kind of binding the shader sees: uniform, read-only storage or
    /// read-write storage.
    pub fn binding_type(&self) -> (kind: BufferBindingKind)
        ensures
            kind == self.spec_binding_type(),
    {
        match self {
            InstancerBinding::Uniform(_) => BufferBindingKind::Uniform,
            InstancerBinding::StorageRO(_) => BufferBindingKind::Storage { read_only: true },
            InstancerBinding::StorageRW(_) => BufferBindingKind::Storage { read_only: false },
        }
    }

    /// The usages of the binding's buffer: uniform or storage, and always a
    /// copy destination.
    pub fn buffer_usages(&self) -> (usages: BufferUsages)
        ensures
            usages.copy_dst,
            usages.uniform == (self is Uniform),
            usages.storage == !(self is Uniform),
    {
        match self {
            InstancerBinding::Uniform(_) => BufferUsages { uniform: true, storage: false, copy_dst: true },
            _ => BufferUsages { uniform: false, storage: true, copy_dst: true },
        }
    }
}

/// The bind-group layout of an instancer's compute shader: the instances at
/// binding 0 (read-write storage), the time step, the total time and the
/// range at bindings 1 to 3 (uniforms), then the custom `bindings` from
/// binding 4 on, in the order given.
pub fn layout_entries<D: PodData>(bindings: &Vec<InstancerBinding<D>>) -> (entries: Vec<LayoutEntry>)
    requires
        bindings.len() + BUILTIN_BINDINGS <= u32::MAX,
    ensures
        entries.len() == bindings.len() + BUILTIN_BINDINGS,
        entries[0] == (LayoutEntry { binding: 0, kind: BufferBindingKind::Storage { read_only: false } }),
        entries[1] == (LayoutEntry { binding: 1, kind: BufferBindingKind::Uniform }),
        entries[2] == (LayoutEntry { binding: 2, kind: BufferBindingKind::Uniform }),
        entries[3] == (LayoutEntry { binding: 3, kind: BufferBindingKind::Uniform }),
        forall|k: int|
            0 <= k < bindings.len() ==> #[trigger] entries[k + BUILTIN_BINDINGS] == (LayoutEntry {
                binding: (k + BUILTIN_BINDINGS) as u32,
                kind: bindings[k].spec_binding_type(),
            }),
{
    let mut entries: Vec<LayoutEntry> = Vec::new();
    entries.push(LayoutEntry { binding: 0, kind: BufferBindingKind::Storage { read_only: false } });
    entries.push(LayoutEntry { binding: 1, kind: BufferBindingKind::Uniform });
    entries.push(LayoutEntry { binding: 2, kind: BufferBindingKind::Uniform });
    entries.push(LayoutEntry { binding: 3, kind: BufferBindingKind::Uniform });
    let mut k: usize = 0;
    while k < bindings.len()
        invariant
            k <= bindings.len(),
            bindings.len() + BUILTIN_BINDINGS <= u32::MAX,
            entries.len() == k + BUILTIN_BINDINGS,
            entries[0] == (LayoutEntry { binding: 0, kind: BufferBindingKind::Storage { read_only: false } }),
            entries[1] == (LayoutEntry { binding: 1, kind: BufferBindingKind::Uniform }),
            entries[2] == (LayoutEntry { binding: 2, kind: BufferBindingKind::Uniform }),
            entries[3] == (LayoutEntry { binding: 3, kind: BufferBindingKind::Uniform }),
            forall|j: int|
                0 <= j < k ==> #[trigger] entries[j + BUILTIN_BINDINGS] == (LayoutEntry {
                    binding: (j + BUILTIN_BINDINGS) as u32,
                    kind: bindings[j].spec_binding_type(),
                }),
        decreases bindings.len() - k,
    {
        let kind = bindings[k].binding_type();
        entries.push(LayoutEntry { binding: k as u32 + BUILTIN_BINDINGS, kind });
        k = k + 1;
    }
    entries
}

/// The range of instances a compute shader processes, as the pair of `i32`
/// it receives: the bounds cast to `i32` (keeping their low 32 bits), or
/// `(-1, -1)` for all instances.
pub fn shader_range(range: Option<std::ops::Range<u64>>) -> (bounds: (i32, i32))
    ensures
        bounds == (match range {
            Some(r) => (r.start as i32, r.end as i32),
            None => (-1i32, -1i32),
        }),
{
    match range {
        Some(r) => (r.start as i32, r.end as i32),
        None => (-1, -1),
    }
}

/// The binding numbers of the bind group of a parallel instancer with
/// `buffer_count` buffers of its own: the instance buffer at 0, then buffer
/// `i` at binding `i + 1`.
pub fn bind_group_bindings(buffer_count: u32) -> (bindings: Vec<u32>)
    requires
        buffer_count < u32::MAX,
    ensures
        bindings.len() == buffer_count + 1,
        forall|i: int| 0 <= i < bindings.len() ==> #[trigger] bindings[i] == i,
{
    let mut bindings: Vec<u32> = Vec::new();
    bindings.push(0);
    let mut i: u32 = 0;
    while i < buffer_count
        invariant
            i <= buffer_count < u32::MAX,
            bindings.len() == i + 1,
            forall|j: int| 0 <= j < bindings.len() ==> #[trigger] bindings[j] == j,
        decreases buffer_count - i,
    {
        bindings.push(i + 1);
        i = i + 1;
    }
    bindings
}

} // verus!

use vstd::prelude::*;

verus! {

/// Linux's `MS_BIND`: attach an existing tree at another place.
pub const MS_BIND: u64 = 0x1000;
/// Linux's `MS_REC`: apply to the sub-mounts of the tree too.
pub const MS_REC: u64 = 0x4000;

/// A bind mount to perform: the tree at `source` attached at `target`.
/// It is recursive unless asked otherwise, which is what is wanted most of
/// the time, and what user namespaces allow.
#[derive(Debug, Clone)]
pub struct BindMount {
    source: Vec<u8>,
    target: Vec<u8>,
    recursive: bool,
}

impl BindMount {
    /// A recursive bind mount of `source` at `target`, both given as the
    /// bytes of a path.
    pub fn new(source: &[u8], target: &[u8]) -> (r: BindMount)
        ensures
            r.source()@ == source@,
            r.target()@ == target@,
            r.is_recursive(),
    {
        BindMount {
            source: vstd::slice::slice_to_vec(source),
            target: vstd::slice::slice_to_vec(target),
            recursive: true,
        }
    }

    pub closed spec fn source(&self) -> Vec<u8> {
        self.source
    }

    pub closed spec fn target(&self) -> Vec<u8> {
        self.target
    }

    pub closed spec fn is_recursive(&self) -> bool {
        self.recursive
    }

    /// The same mount, recursive or not as `flag` says.
    pub fn recursive(self, flag: bool) -> (r: BindMount)
        ensures
            r.source() == self.source(),
            r.target() == self.target(),
            r.is_recursive() == flag,
    {
        BindMount { recursive: flag, ..self }
    }

    /// The path to attach.
    pub fn source_path(&self) -> (r: &[u8])
        ensures
            r@ == self.source()@,
    {
        self.source.as_slice()
    }

    /// The path where it is attached.
    pub fn target_path(&self) -> (r: &[u8])
        ensures
            r@ == self.target()@,
    {
        self.target.as_slice()
    }

    /// Whether sub-mounts are attached too.
    pub fn recursion(&self) -> (r: bool)
        ensures
            r == self.is_recursive(),
    {
        self.recursive
    }

    /// The flags that `mount(2)` is called with: `MS_BIND`, and `MS_REC`
    /// when recursive.
    pub fn mount_flags(&self) -> (r: u64)
        ensures
            r == if self.is_recursive() { MS_BIND | MS_REC } else { MS_BIND },
    {
        if self.recursive {
            MS_BIND | MS_REC
        } else {
            MS_BIND
        }
    }
}

} // verus!

use vstd::prelude::*;

verus! {

/// A component type that the database stores in a table of its own.
pub trait Component {
    /// Unique numeric identifier for this component type.
    const TABLE_ID: u16;

    /// Name of the component table (must match the schema).
    const TABLE_NAME: &'static str;

    /// Size of the component in bytes when it has a fixed layout; by default
    /// it has none.
    fn static_size() -> (r: Option<usize>)
        default_ensures
            r is None,
    {
        None
    }

    /// Alignment requirement of the fixed layout; by default 1.
    fn alignment() -> (r: usize)
        default_ensures
            r == 1,
    {
        1
    }
}

/// A component with a fixed layout, stored as records of `static_size()` bytes.
pub trait ZeroCopyComponent: Component {
    /// The size of the component in bytes.
    fn static_size() -> usize;

    /// The alignment of the component in bytes.
    fn alignment() -> usize;
}

} // verus!

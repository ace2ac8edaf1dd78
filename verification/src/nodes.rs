//! What a render hands back.
use futures_util::future::LocalFutureObj;
use vstd::prelude::*;

verus! {

/// `futures_util::future::LocalFutureObj`: an owned, type-erased future.
/// Nothing is known of what it computes.
#[verifier::external_type_specification]
#[verifier::external_body]
#[verifier::reject_recursive_types(T)]
pub struct ExLocalFutureObj<'a, T>(LocalFutureObj<'a, T>);

/// The output of one render of a component.
#[verifier::reject_recursive_types(N)]
pub enum RenderReturn<N> {
    /// A completed node tree.
    Ready(N),
    /// The empty output.
    Aborted,
    /// The render suspended: the computation that will yield the nodes,
    /// or nothing.
    Pending(LocalFutureObj<'static, Option<N>>),
}

impl<N> RenderReturn<N> {
    pub fn is_ready(&self) -> (ready: bool)
        ensures
            ready == (self is Ready),
    {
        match self {
            RenderReturn::Ready(_) => true,
            _ => false,
        }
    }

    pub fn is_pending(&self) -> (pending: bool)
        ensures
            pending == (self is Pending),
    {
        match self {
            RenderReturn::Pending(_) => true,
            _ => false,
        }
    }

    pub fn is_aborted(&self) -> (aborted: bool)
        ensures
            aborted == (self is Aborted),
    {
        match self {
            RenderReturn::Aborted => true,
            _ => false,
        }
    }

    /// The node tree of a completed render.
    pub fn nodes(&self) -> (found: Option<&N>)
        ensures
            found == (match *self {
                RenderReturn::Ready(nodes) => Some(&nodes),
                _ => None,
            }),
    {
        match self {
            RenderReturn::Ready(nodes) => Some(nodes),
            _ => None,
        }
    }

    /// The output that a finished computation stands for: its nodes, or
    /// the empty output where it produced none.
    pub open spec fn spec_from_nodes(nodes: Option<N>) -> Self {
        match nodes {
            Some(nodes) => RenderReturn::Ready(nodes),
            None => RenderReturn::Aborted,
        }
    }

    pub fn from_nodes(nodes: Option<N>) -> (out: Self)
        ensures
            out == Self::spec_from_nodes(nodes),
    {
        match nodes {
            Some(nodes) => RenderReturn::Ready(nodes),
            None => RenderReturn::default(),
        }
    }
}

impl<N> Default for RenderReturn<N> {
    fn default() -> (out: Self)
        ensures
            out == RenderReturn::<N>::Aborted,
    {
        RenderReturn::Aborted
    }
}

} // verus!

//! Edges of the evidence graph.
use vstd::prelude::*;
use crate::graph::nodes::NodeId;

verus! {

/// How two nodes are related.
#[derive(PartialEq, Eq, Structural, Clone, Copy, Debug, Hash)]
pub enum EdgeKind {
    /// A span to one of its child spans.
    ParentOf,
    /// A span, log batch or anomaly to the service that produced it.
    EmittedBy,
    CoOccurs,
    /// A failing span to the span whose failure it is blamed for causing.
    CausedBy,
}

/// A directed edge between two node ids.
#[derive(Clone, Debug)]
pub struct Edge {
    pub from: NodeId,
    pub to: NodeId,
    pub kind: EdgeKind,
}

/// An edge as the specifications see it.
pub struct EdgeView {
    pub from: Seq<char>,
    pub to: Seq<char>,
    pub kind: EdgeKind,
}

impl View for Edge {
    type V = EdgeView;

    open spec fn view(&self) -> EdgeView {
        EdgeView { from: self.from@, to: self.to@, kind: self.kind }
    }
}

/// A small number that stands for each kind.
pub open spec fn kind_code(k: EdgeKind) -> u8 {
    match k {
        EdgeKind::ParentOf => 0,
        EdgeKind::EmittedBy => 1,
        EdgeKind::CoOccurs => 2,
        EdgeKind::CausedBy => 3,
    }
}

/// The kind that a code stands for.
pub open spec fn kind_of_code(c: u8) -> EdgeKind {
    if c == 0 {
        EdgeKind::ParentOf
    } else if c == 1 {
        EdgeKind::EmittedBy
    } else if c == 2 {
        EdgeKind::CoOccurs
    } else {
        EdgeKind::CausedBy
    }
}

impl EdgeKind {
    /// The code of this kind.
    pub fn code(&self) -> (c: u8)
        ensures
            c == kind_code(*self),
            c < 4,
            kind_of_code(c) == *self,
    {
        match self {
            EdgeKind::ParentOf => 0,
            EdgeKind::EmittedBy => 1,
            EdgeKind::CoOccurs => 2,
            EdgeKind::CausedBy => 3,
        }
    }

    /// The kind a code stands for.
    pub fn from_code(c: u8) -> (k: EdgeKind)
        ensures
            k == kind_of_code(c),
            c < 4 ==> kind_code(k) == c,
    {
        if c == 0 {
            EdgeKind::ParentOf
        } else if c == 1 {
            EdgeKind::EmittedBy
        } else if c == 2 {
            EdgeKind::CoOccurs
        } else {
            EdgeKind::CausedBy
        }
    }
}

impl Edge {
    /// A copy of this edge.
    pub fn duplicate(&self) -> (e: Edge)
        ensures
            e@ == self@,
    {
        Edge { from: self.from.clone(), to: self.to.clone(), kind: self.kind }
    }
}

} // verus!

//! Metrics of vector indexes.
use crate::error::{Error, Result};
use vstd::prelude::*;

verus! {

/// A row of a vector graph, by the id that it had when the graph was built.
#[derive(Clone, Copy, Debug, PartialEq, Eq, Structural)]
pub struct RowId(pub u64);

/// How the distance of vectors is measured.
#[derive(Clone, Copy, Debug, PartialEq, Eq, Structural)]
pub enum Metric {
    L2,
    Cosine,
    InnerProduct,
}

impl Metric {
    /// The byte that stands for a metric on disk.
    pub open spec fn code(self) -> u8 {
        match self {
            Metric::L2 => 0,
            Metric::Cosine => 1,
            Metric::InnerProduct => 2,
        }
    }

    /// The byte that stands for a metric on disk.
    pub fn as_u8(self) -> (code: u8)
        ensures
            code == self.code(),
    {
        match self {
            Metric::L2 => 0,
            Metric::Cosine => 1,
            Metric::InnerProduct => 2,
        }
    }

    /// The metric that a byte on disk stands for.
    pub fn from_u8(value: u8) -> (r: Result<Metric>)
        ensures
            match r {
                Ok(metric) => metric.code() == value,
                Err(e) => value > 2 && e == Error::CorruptPage("unknown vector metric"),
            },
    {
        match value {
            0 => Ok(Metric::L2),
            1 => Ok(Metric::Cosine),
            2 => Ok(Metric::InnerProduct),
            _ => Err(Error::CorruptPage("unknown vector metric")),
        }
    }
}

/// Different metrics have different bytes.
pub proof fn law_metric_codes_differ(a: Metric, b: Metric)
    requires
        a.code() == b.code(),
    ensures
        a == b,
{
}

/// Metrics are numbered from zero on, in their order.
pub proof fn law_metric_codes_are_known(m: Metric)
    ensures
        m.code() == 0 <==> m is L2,
        m.code() == 1 <==> m is Cosine,
        m.code() == 2 <==> m is InnerProduct,
        m.code() <= 2,
{
}

/// Refuses vectors of different dimensions.
pub fn check_same_dim(a: usize, b: usize) -> (r: Result<()>)
    ensures
        r == (if a == b {
            Ok(())
        } else {
            Err(Error::CorruptPage("vector dimension mismatch"))
        }),
{
    if a != b {
        return Err(Error::CorruptPage("vector dimension mismatch"));
    }
    Ok(())
}

} // verus!
